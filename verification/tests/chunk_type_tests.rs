use hidepng::chunk_type::ChunkType;
use hidepng::errors::Error;

#[test]
pub fn test_chunk_type_from_bytes() {
    let expected = [82, 117, 83, 116];
    let actual = ChunkType::from_bytes([82, 117, 83, 116]).unwrap();

    assert_eq!(expected, actual.bytes());
}

#[test]
pub fn test_chunk_type_from_str() {
    let expected = ChunkType::from_bytes([82, 117, 83, 116]).unwrap();
    let actual = ChunkType::from_string("RuSt").unwrap();
    assert_eq!(expected, actual);
}

#[test]
pub fn test_chunk_type_is_critical() {
    let chunk = ChunkType::from_string("RuSt").unwrap();
    assert!(chunk.is_critical());
}

#[test]
pub fn test_chunk_type_is_not_critical() {
    let chunk = ChunkType::from_string("ruSt").unwrap();
    assert!(!chunk.is_critical());
}

#[test]
pub fn test_chunk_type_is_public() {
    let chunk = ChunkType::from_string("RUSt").unwrap();
    assert!(chunk.is_public());
}

#[test]
pub fn test_chunk_type_is_not_public() {
    let chunk = ChunkType::from_string("RuSt").unwrap();
    assert!(!chunk.is_public());
}

#[test]
pub fn test_chunk_type_is_reserved_bit_valid() {
    let chunk = ChunkType::from_string("RuSt").unwrap();
    assert!(chunk.is_reserved_bit_valid());
}

#[test]
pub fn test_chunk_type_is_reserved_bit_invalid() {
    let chunk = ChunkType::from_string("Rust").unwrap();
    assert!(!chunk.is_reserved_bit_valid());
}

#[test]
pub fn test_chunk_type_is_safe_to_copy() {
    let chunk = ChunkType::from_string("RuSt").unwrap();
    assert!(chunk.is_safe_to_copy());
}

#[test]
pub fn test_chunk_type_is_unsafe_to_copy() {
    let chunk = ChunkType::from_string("RuST").unwrap();
    assert!(!chunk.is_safe_to_copy());
}

#[test]
pub fn test_valid_chunk_is_valid() {
    let chunk = ChunkType::from_string("RuSt").unwrap();
    assert!(chunk.is_valid());
}

#[test]
pub fn test_invalid_chunk_is_valid() {
    let chunk = ChunkType::from_string("Rust").unwrap();
    assert!(!chunk.is_valid());

    let chunk = ChunkType::from_string("Ru1t");
    assert!(chunk.is_err());
}

#[test]
pub fn test_chunk_type_string() {
    let chunk = ChunkType::from_string("RuSt").unwrap();
    assert_eq!(&chunk.to_string(), "RuSt");
}

#[test]
pub fn test_chunk_type_trait_impls() {
    let chunk_type_1: ChunkType = ChunkType::from_bytes([82, 117, 83, 116]).unwrap();
    let chunk_type_2: ChunkType = ChunkType::from_string("RuSt").unwrap();
    let _chunk_string = chunk_type_1.to_string();
    let _are_chunks_equal = chunk_type_1 == chunk_type_2;
}

#[test]
pub fn test_chunk_type_from_bytes_rejects_exactly() {
    // Boundary bytes just outside the letter ranges are rejected; letters pass.
    assert!(ChunkType::from_bytes([65, 122, 90, 97]).is_ok());
    for bad in [64u8, 91, 96, 123, 0, 32, 48, 255] {
        let r = ChunkType::from_bytes([bad, 117, 83, 116]);
        assert_eq!(r, Err(Error::InvalidCharacterSet(vec![bad, 117, 83, 116])));
    }
    // All letters but a lowercase reserved byte: the specific reserved-bit error.
    let r = ChunkType::from_bytes([82, 117, 115, 116]);
    assert_eq!(r, Err(Error::InvalidReservedBit(vec![82, 117, 115, 116])));
}

#[test]
pub fn test_chunk_type_from_string_size_errors() {
    assert_eq!(
        ChunkType::from_string("RuS"),
        Err(Error::InvalidSize { size: 3 })
    );
    assert_eq!(
        ChunkType::from_string("RuStX"),
        Err(Error::InvalidSize { size: 5 })
    );
    // From a string, a lowercase reserved byte is accepted and only reported
    // by is_valid.
    assert!(ChunkType::from_string("Rust").is_ok());
}
