use hidepng::chunk::Chunk;
use hidepng::chunk_type::ChunkType;
use hidepng::errors::Error;

fn testing_chunk() -> Chunk {
    let data_length: u32 = 42;
    let chunk_type = "RuSt".as_bytes();
    let message_bytes = "This is where your secret message will be!".as_bytes();
    let crc: u32 = 2882656334;

    let chunk_data: Vec<u8> = data_length
        .to_be_bytes()
        .iter()
        .chain(chunk_type.iter())
        .chain(message_bytes.iter())
        .chain(crc.to_be_bytes().iter())
        .copied()
        .collect();

    Chunk::from_bytes(chunk_data.as_ref()).unwrap()
}

#[test]
fn test_new_chunk() {
    let chunk_type = ChunkType::from_string("RuSt").unwrap();
    let data = "This is where your secret message will be!"
        .as_bytes()
        .to_vec();
    let chunk = Chunk::new(chunk_type, data);
    assert_eq!(chunk.length(), 42);
    assert_eq!(chunk.crc(), 2882656334);
}

#[test]
fn test_chunk_length() {
    let chunk = testing_chunk();
    assert_eq!(chunk.length(), 42);
}

#[test]
fn test_chunk_type() {
    let chunk = testing_chunk();
    assert_eq!(chunk.chunk_type().to_string(), String::from("RuSt"));
}

#[test]
fn test_chunk_string() {
    let chunk = testing_chunk();
    let chunk_string = chunk.data_as_string().unwrap();
    let expected_chunk_string = String::from("This is where your secret message will be!");
    assert_eq!(chunk_string, expected_chunk_string);
}

#[test]
fn test_chunk_crc() {
    let chunk = testing_chunk();
    assert_eq!(chunk.crc(), 2882656334);
}

#[test]
fn test_valid_chunk_from_bytes() {
    let data_length: u32 = 42;
    let chunk_type = "RuSt".as_bytes();
    let message_bytes = "This is where your secret message will be!".as_bytes();
    let crc: u32 = 2882656334;

    let chunk_data: Vec<u8> = data_length
        .to_be_bytes()
        .iter()
        .chain(chunk_type.iter())
        .chain(message_bytes.iter())
        .chain(crc.to_be_bytes().iter())
        .copied()
        .collect();

    let chunk = Chunk::from_bytes(chunk_data.as_ref()).unwrap();

    let chunk_string = chunk.data_as_string().unwrap();
    let expected_chunk_string = String::from("This is where your secret message will be!");

    assert_eq!(chunk.length(), 42);
    assert_eq!(chunk.chunk_type().to_string(), String::from("RuSt"));
    assert_eq!(chunk_string, expected_chunk_string);
    assert_eq!(chunk.crc(), 2882656334);
}

#[test]
fn test_invalid_chunk_from_bytes() {
    let data_length: u32 = 42;
    let chunk_type = "RuSt".as_bytes();
    let message_bytes = "This is where your secret message will be!".as_bytes();
    let crc: u32 = 2882656333;

    let chunk_data: Vec<u8> = data_length
        .to_be_bytes()
        .iter()
        .chain(chunk_type.iter())
        .chain(message_bytes.iter())
        .chain(crc.to_be_bytes().iter())
        .copied()
        .collect();

    let chunk = Chunk::from_bytes(chunk_data.as_ref());

    assert!(chunk.is_err());
}

#[test]
pub fn test_chunk_trait_impls() {
    let data_length: u32 = 42;
    let chunk_type = "RuSt".as_bytes();
    let message_bytes = "This is where your secret message will be!".as_bytes();
    let crc: u32 = 2882656334;

    let chunk_data: Vec<u8> = data_length
        .to_be_bytes()
        .iter()
        .chain(chunk_type.iter())
        .chain(message_bytes.iter())
        .chain(crc.to_be_bytes().iter())
        .copied()
        .collect();

    let chunk: Chunk = Chunk::from_bytes(chunk_data.as_ref()).unwrap();

    let _chunk_string = chunk.data_as_string().unwrap();
}

#[test]
fn test_chunk_round_trip() {
    // A chunk re-parses from its own serialization with every field equal.
    let chunk_type = ChunkType::from_string("RuSt").unwrap();
    let chunk = Chunk::new(chunk_type, b"any payload at all".to_vec());
    let bytes = chunk.as_bytes();
    let back = Chunk::from_bytes(bytes.as_ref()).unwrap();
    assert_eq!(back.length(), chunk.length());
    assert_eq!(back.chunk_type().bytes(), chunk.chunk_type().bytes());
    assert_eq!(back.data(), chunk.data());
    assert_eq!(back.crc(), chunk.crc());
    assert_eq!(back.as_bytes(), bytes);
}

#[test]
fn test_chunk_crc_gate_bit_flips() {
    // Flipping any single bit of the stored CRC, the type, or the data makes
    // re-parsing fail with a CRC mismatch (as long as the flipped type byte is
    // still a letter, which bit 5 of each letter guarantees).
    let chunk_type = ChunkType::from_string("RuSt").unwrap();
    let chunk = Chunk::new(chunk_type, b"gate".to_vec());
    let bytes = chunk.as_bytes();
    let data_start = 8;
    let crc_start = bytes.len() - 4;

    // Every bit of the 4 stored CRC bytes.
    for i in crc_start..bytes.len() {
        for bit in 0..8 {
            let mut corrupt = bytes.clone();
            corrupt[i] ^= 1u8 << bit;
            assert_eq!(
                Chunk::from_bytes(corrupt.as_ref()),
                Err(Error::CrcMismatch)
            );
        }
    }
    // Every bit of the data bytes.
    for i in data_start..crc_start {
        for bit in 0..8 {
            let mut corrupt = bytes.clone();
            corrupt[i] ^= 1u8 << bit;
            assert_eq!(
                Chunk::from_bytes(corrupt.as_ref()),
                Err(Error::CrcMismatch)
            );
        }
    }
    // Case bit of each type byte: the tag stays 4 letters, so only the CRC
    // check can reject it. Byte 2 may flip to lowercase, which the type
    // check rejects first.
    for i in 4..8 {
        let mut corrupt = bytes.clone();
        corrupt[i] ^= 0x20;
        let result = Chunk::from_bytes(corrupt.as_ref());
        if i == 6 {
            assert_eq!(
                result,
                Err(Error::InvalidReservedBit(vec![
                    corrupt[4], corrupt[5], corrupt[6], corrupt[7]
                ]))
            );
        } else {
            assert_eq!(result, Err(Error::CrcMismatch));
        }
    }
}

#[test]
fn test_chunk_from_bytes_size_errors() {
    // Too short for even a header.
    assert_eq!(
        Chunk::from_bytes(&[0, 0, 0, 0]),
        Err(Error::InputTooSmall)
    );
    // Declared length demands more bytes than the buffer holds.
    let chunk_type = ChunkType::from_string("RuSt").unwrap();
    let chunk = Chunk::new(chunk_type, b"hello".to_vec());
    let bytes = chunk.as_bytes();
    assert_eq!(
        Chunk::from_bytes(&bytes[..bytes.len() - 1]),
        Err(Error::InputTooSmall)
    );
    // Trailing bytes beyond the declared record.
    let mut long = bytes.clone();
    long.push(0);
    assert_eq!(
        Chunk::from_bytes(long.as_ref()),
        Err(Error::InvalidSize { size: long.len() })
    );
}

#[test]
fn test_chunk_data_as_string_invalid_utf8() {
    let chunk_type = ChunkType::from_string("RuSt").unwrap();
    let chunk = Chunk::new(chunk_type, vec![0xff, 0xfe, 0x80]);
    assert_eq!(chunk.data_as_string(), Err(Error::InvalidUtf8));
}
