use hidepng::chunk::Chunk;
use hidepng::chunk_type::ChunkType;
use hidepng::errors::Error;
use hidepng::png::Png;

fn chunk(tag: &str, data: &str) -> Chunk {
    let chunk_type = ChunkType::from_string(tag).unwrap();
    Chunk::new(chunk_type, data.as_bytes().to_vec())
}

fn sample_bytes() -> Vec<u8> {
    let mut bytes: Vec<u8> = vec![0x89, 0x50, 0x4e, 0x47, 0x0d, 0x0a, 0x1a, 0x0a];
    bytes.extend(chunk("FrSt", "I am the first chunk").as_bytes());
    bytes.extend(chunk("mIDl", "I am another chunk").as_bytes());
    bytes.extend(chunk("LASt", "I am the last chunk").as_bytes());
    bytes
}

#[test]
fn test_png_parse_round_trip() {
    // Parsing and re-serializing an unmodified file is the identity.
    let bytes = sample_bytes();
    let png = Png::parse(bytes.as_ref()).unwrap();
    assert_eq!(png.as_bytes(), bytes);
}

#[test]
fn test_png_parse_signature_only() {
    let bytes: Vec<u8> = vec![0x89, 0x50, 0x4e, 0x47, 0x0d, 0x0a, 0x1a, 0x0a];
    let png = Png::parse(bytes.as_ref()).unwrap();
    assert_eq!(png.as_bytes(), bytes);
}

#[test]
fn test_png_parse_too_small() {
    let bytes: Vec<u8> = vec![0x89, 0x50, 0x4e];
    assert_eq!(Png::parse(bytes.as_ref()), Err(Error::InputTooSmall));
}

#[test]
fn test_png_parse_bad_signature() {
    let mut bytes = sample_bytes();
    bytes[0] = 0x88;
    assert_eq!(
        Png::parse(bytes.as_ref()),
        Err(Error::InvalidPngSignature)
    );
}

#[test]
fn test_png_parse_propagates_crc_mismatch() {
    let mut bytes = sample_bytes();
    let last = bytes.len() - 1;
    bytes[last] ^= 1;
    assert_eq!(Png::parse(bytes.as_ref()), Err(Error::CrcMismatch));
}

#[test]
fn test_png_parse_truncated_chunk() {
    let bytes = sample_bytes();
    assert_eq!(
        Png::parse(&bytes[..bytes.len() - 2]),
        Err(Error::InputTooSmall)
    );
}

#[test]
fn test_png_chunk_by_type_all_matches_in_order() {
    let mut bytes = sample_bytes();
    bytes.extend(chunk("mIDl", "again").as_bytes());
    let png = Png::parse(bytes.as_ref()).unwrap();

    let found = png
        .chunk_by_type(&ChunkType::from_string("mIDl").unwrap())
        .unwrap();
    assert_eq!(found.len(), 2);
    assert_eq!(found[0].data_as_string().unwrap(), "I am another chunk");
    assert_eq!(found[1].data_as_string().unwrap(), "again");

    assert!(png
        .chunk_by_type(&ChunkType::from_string("none").unwrap())
        .is_none());
}

#[test]
fn test_png_insert_between_keeps_trailer_last() {
    let bytes = sample_bytes();
    let mut png = Png::parse(bytes.as_ref()).unwrap();
    png.insert_between(chunk("STXT", "hidden"));
    let out = png.as_bytes();

    let reparsed = Png::parse(out.as_ref()).unwrap();
    let trailer = reparsed
        .chunk_by_type(&ChunkType::from_string("LASt").unwrap())
        .unwrap();
    assert_eq!(trailer.len(), 1);
    // The trailer chunk still serializes at the very end of the file.
    let trailer_bytes = trailer[0].as_bytes();
    assert_eq!(&out[out.len() - trailer_bytes.len()..], &trailer_bytes[..]);
}

#[test]
fn test_png_append_chunk_goes_last() {
    let bytes = sample_bytes();
    let mut png = Png::parse(bytes.as_ref()).unwrap();
    let appended = chunk("STXT", "hidden");
    let appended_bytes = appended.as_bytes();
    png.append_chunk(appended);
    let out = png.as_bytes();
    assert_eq!(&out[out.len() - appended_bytes.len()..], &appended_bytes[..]);
}

#[test]
fn test_png_remove_chunk_not_found() {
    let bytes = sample_bytes();
    let mut png = Png::parse(bytes.as_ref()).unwrap();
    let result = png.remove_chunk(&ChunkType::from_string("STXT").unwrap());
    assert_eq!(result, Err(Error::ChunkTypeNotFound(b"STXT".to_vec())));
    // A failed remove leaves the container unchanged.
    assert_eq!(png.as_bytes(), bytes);
}

#[test]
fn test_png_remove_chunk_removes_first_match() {
    let mut bytes = sample_bytes();
    bytes.extend(chunk("mIDl", "again").as_bytes());
    let mut png = Png::parse(bytes.as_ref()).unwrap();

    png.remove_chunk(&ChunkType::from_string("mIDl").unwrap())
        .unwrap();
    let found = png
        .chunk_by_type(&ChunkType::from_string("mIDl").unwrap())
        .unwrap();
    assert_eq!(found.len(), 1);
    assert_eq!(found[0].data_as_string().unwrap(), "again");
}
