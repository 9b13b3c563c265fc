use hidepng::chunk::Chunk;
use hidepng::chunk_type::ChunkType;
use hidepng::commands::{decode, encode, remove};
use hidepng::errors::Error;

/// A small but complete PNG-shaped file held in memory: signature plus three
/// CRC-correct chunks, the last one the trailer.
fn sample_png_bytes() -> Vec<u8> {
    let mut bytes: Vec<u8> = vec![0x89, 0x50, 0x4e, 0x47, 0x0d, 0x0a, 0x1a, 0x0a];
    for (tag, data) in [
        ("FrSt", "I am the first chunk"),
        ("mIDl", "I am another chunk"),
        ("LASt", "I am the last chunk"),
    ] {
        let chunk_type = ChunkType::from_string(tag).unwrap();
        let chunk = Chunk::new(chunk_type, data.as_bytes().to_vec());
        bytes.extend(chunk.as_bytes());
    }
    bytes
}

fn default_chunk_type() -> ChunkType {
    ChunkType::from_string("STXT").unwrap()
}

#[test]
fn test_encode_decode_default_chunk_type() {
    let base = sample_png_bytes();

    let output = encode(base.as_ref(), &default_chunk_type(), "secret message 1").unwrap();

    let messages = decode(output.as_ref(), &default_chunk_type()).unwrap();
    assert!(messages.iter().any(|m| m.contains("secret message 1")));
}

#[test]
fn test_encode_decode_custom_chunk_type() {
    let custom_chunk_type = ChunkType::from_string("TXTI").unwrap();
    let base = sample_png_bytes();

    let output = encode(base.as_ref(), &custom_chunk_type, "secret message 1").unwrap();

    let messages = decode(output.as_ref(), &custom_chunk_type).unwrap();
    assert!(messages.iter().any(|m| m.contains("secret message 1")));
}

#[test]
fn test_encode_invalid_chunk_type() {
    let custom_chunk_type = ChunkType::from_string("TXtI").unwrap();
    let base = sample_png_bytes();

    let output = encode(base.as_ref(), &custom_chunk_type, "secret message 1");
    assert_eq!(
        output,
        Err(Error::InvalidReservedBit(b"TXtI".to_vec()))
    );
}

#[test]
fn test_encode_remove_default_chunk_type() {
    let base = sample_png_bytes();

    let output = encode(base.as_ref(), &default_chunk_type(), "secret message 1").unwrap();

    let cleaned = remove(output.as_ref(), &default_chunk_type()).unwrap();
    assert_eq!(cleaned, base);
}

#[test]
fn test_encode_decode_mutiple_chunk_default_chunk_type() {
    let base = sample_png_bytes();

    let output = encode(base.as_ref(), &default_chunk_type(), "secret message 1").unwrap();
    let output = encode(output.as_ref(), &default_chunk_type(), "secret message 2").unwrap();

    let messages = decode(output.as_ref(), &default_chunk_type()).unwrap();
    assert!(messages.iter().any(|m| m.contains("secret message 1")));
    assert!(messages.iter().any(|m| m.contains("secret message 2")));
}

#[test]
fn test_encode_decode_multiple_messages_in_order_once_each() {
    let base = sample_png_bytes();

    let output = encode(base.as_ref(), &default_chunk_type(), "secret message 1").unwrap();
    let output = encode(output.as_ref(), &default_chunk_type(), "secret message 2").unwrap();

    let messages = decode(output.as_ref(), &default_chunk_type()).unwrap();
    assert_eq!(
        messages,
        vec![
            String::from("secret message 1"),
            String::from("secret message 2"),
        ]
    );
}

#[test]
fn test_decode_under_other_tag_not_found() {
    let custom_chunk_type = ChunkType::from_string("TXTI").unwrap();
    let other_chunk_type = ChunkType::from_string("TXTJ").unwrap();
    let base = sample_png_bytes();

    let output = encode(base.as_ref(), &custom_chunk_type, "secret message 1").unwrap();

    let result = decode(output.as_ref(), &other_chunk_type);
    assert_eq!(result, Err(Error::ChunkTypeNotFound(b"TXTJ".to_vec())));
}

#[test]
fn test_encode_remove_decode_not_found() {
    let base = sample_png_bytes();

    let output = encode(base.as_ref(), &default_chunk_type(), "secret message 1").unwrap();
    let cleaned = remove(output.as_ref(), &default_chunk_type()).unwrap();

    let result = decode(cleaned.as_ref(), &default_chunk_type());
    assert_eq!(result, Err(Error::ChunkTypeNotFound(b"STXT".to_vec())));
}

#[test]
fn test_remove_only_first_of_duplicates() {
    let base = sample_png_bytes();

    let output = encode(base.as_ref(), &default_chunk_type(), "secret message 1").unwrap();
    let output = encode(output.as_ref(), &default_chunk_type(), "secret message 2").unwrap();

    let cleaned = remove(output.as_ref(), &default_chunk_type()).unwrap();
    let messages = decode(cleaned.as_ref(), &default_chunk_type()).unwrap();
    assert_eq!(messages, vec![String::from("secret message 2")]);
}
