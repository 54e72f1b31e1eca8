use pngme::chunk::{Chunk, ChunkError};
use pngme::chunk_type::ChunkType;

fn testing_chunk() -> Chunk {
    let data_length: u32 = 42;
    let chunk_type = "RuSt".as_bytes();
    let message_bytes = "This is where your secret message will be!".as_bytes();
    let crc: u32 = 2882656334;

    let chunk_data: Vec<u8> = data_length
        .to_be_bytes()
        .iter()
        .chain(chunk_type.iter())
        .chain(message_bytes.iter())
        .chain(crc.to_be_bytes().iter())
        .copied()
        .collect();

    Chunk::try_from(chunk_data.as_ref()).unwrap()
}

#[test]
fn test_new_chunk() {
    let chunk_type = ChunkType::from_str("RuSt").unwrap();
    let data = "This is where your secret message will be!"
        .as_bytes()
        .to_vec();
    let chunk = Chunk::new(chunk_type, data);
    assert_eq!(chunk.length(), 42);
    assert_eq!(chunk.crc(), 2882656334);
}

#[test]
fn test_chunk_length() {
    let chunk = testing_chunk();
    assert_eq!(chunk.length(), 42);
}

#[test]
fn test_chunk_type() {
    let chunk = testing_chunk();
    assert_eq!(chunk.chunk_type().to_text(), String::from("RuSt"));
}

#[test]
fn test_chunk_string() {
    let chunk = testing_chunk();
    let chunk_string = chunk.data_as_string().unwrap();
    let expected_chunk_string = String::from("This is where your secret message will be!");
    assert_eq!(chunk_string, expected_chunk_string);
}

#[test]
fn test_chunk_crc() {
    let chunk = testing_chunk();
    assert_eq!(chunk.crc(), 2882656334);
}

#[test]
fn test_valid_chunk_from_bytes() {
    let data_length: u32 = 42;
    let chunk_type = "RuSt".as_bytes();
    let message_bytes = "This is where your secret message will be!".as_bytes();
    let crc: u32 = 2882656334;

    let chunk_data: Vec<u8> = data_length
        .to_be_bytes()
        .iter()
        .chain(chunk_type.iter())
        .chain(message_bytes.iter())
        .chain(crc.to_be_bytes().iter())
        .copied()
        .collect();

    let chunk = Chunk::try_from(chunk_data.as_ref()).unwrap();

    let chunk_string = chunk.data_as_string().unwrap();
    let expected_chunk_string = String::from("This is where your secret message will be!");

    assert_eq!(chunk.length(), 42);
    assert_eq!(chunk.chunk_type().to_text(), String::from("RuSt"));
    assert_eq!(chunk_string, expected_chunk_string);
    assert_eq!(chunk.crc(), 2882656334);
}

#[test]
fn test_invalid_chunk_from_bytes() {
    let data_length: u32 = 42;
    let chunk_type = "RuSt".as_bytes();
    let message_bytes = "This is where your secret message will be!".as_bytes();
    let crc: u32 = 2882656333;

    let chunk_data: Vec<u8> = data_length
        .to_be_bytes()
        .iter()
        .chain(chunk_type.iter())
        .chain(message_bytes.iter())
        .chain(crc.to_be_bytes().iter())
        .copied()
        .collect();

    let chunk = Chunk::try_from(chunk_data.as_ref());
    assert!(chunk.is_err());
}

#[test]
pub fn test_chunk_trait_impls() {
    let data_length: u32 = 42;
    let chunk_type = "RuSt".as_bytes();
    let message_bytes = "This is where your secret message will be!".as_bytes();
    let crc: u32 = 2882656334;

    let chunk_data: Vec<u8> = data_length
        .to_be_bytes()
        .iter()
        .chain(chunk_type.iter())
        .chain(message_bytes.iter())
        .chain(crc.to_be_bytes().iter())
        .copied()
        .collect();

    let chunk: Chunk = Chunk::try_from(chunk_data.as_ref()).unwrap();

    let _chunk_string = format!(
        "Chunk of length {} and ctype {}\nCRC = {}",
        chunk.length(),
        chunk.chunk_type().to_text(),
        chunk.crc()
    );
}

#[test]
fn test_chunk_round_trip() {
    let chunk_type = ChunkType::from_str("RuSt").unwrap();
    let data = "This is where your secret message will be!"
        .as_bytes()
        .to_vec();
    let chunk = Chunk::new(chunk_type, data.clone());
    let wire = chunk.serialize();
    let parsed = Chunk::try_from(wire.as_ref()).unwrap();
    assert_eq!(parsed.length(), chunk.length());
    assert_eq!(parsed.chunk_type().bytes(), chunk.chunk_type().bytes());
    assert_eq!(parsed.data(), chunk.data());
    assert_eq!(parsed.crc(), chunk.crc());
    assert_eq!(parsed.data(), data.as_slice());
}

#[test]
fn test_chunk_serialize_layout() {
    let chunk_type = ChunkType::from_str("RuSt").unwrap();
    let chunk = Chunk::new(chunk_type, vec![1, 2, 3]);
    let wire = chunk.serialize();
    assert_eq!(wire.len(), 15);
    assert_eq!(&wire[0..4], &[0, 0, 0, 3]);
    assert_eq!(&wire[4..8], "RuSt".as_bytes());
    assert_eq!(&wire[8..11], &[1, 2, 3]);
    assert_eq!(&wire[11..15], &chunk.crc().to_be_bytes());
}

#[test]
fn test_chunk_as_bytes_is_wire_layout() {
    let chunk_type = ChunkType::from_str("RuSt").unwrap();
    let chunk = Chunk::new(chunk_type, vec![7, 8, 9]);
    let wire = chunk.as_bytes();
    assert_eq!(wire, chunk.serialize());
    assert_eq!(wire.len(), 15);
    assert_eq!(&wire[0..4], &[0, 0, 0, 3]);
    assert_eq!(&wire[4..8], "RuSt".as_bytes());
    assert_eq!(&wire[8..11], &[7, 8, 9]);
    assert_eq!(&wire[11..15], &chunk.crc().to_be_bytes());
}

#[test]
fn test_chunk_too_short() {
    let bytes = [0u8; 11];
    let r = Chunk::try_from(bytes.as_ref());
    assert_eq!(r.unwrap_err(), ChunkError::Short);
}

#[test]
fn test_chunk_length_mismatch() {
    let mut bytes: Vec<u8> = Vec::new();
    bytes.extend_from_slice(&5u32.to_be_bytes());
    bytes.extend_from_slice("RuSt".as_bytes());
    bytes.extend_from_slice(&[1, 2, 3]);
    bytes.extend_from_slice(&0u32.to_be_bytes());
    let r = Chunk::try_from(bytes.as_ref());
    assert_eq!(r.unwrap_err(), ChunkError::Length(5, 3));
}

#[test]
fn test_chunk_invalid_type_surfaced() {
    let mut bytes: Vec<u8> = Vec::new();
    bytes.extend_from_slice(&1u32.to_be_bytes());
    bytes.extend_from_slice(&[82, 117, 51, 116]);
    bytes.extend_from_slice(&[9]);
    bytes.extend_from_slice(&0u32.to_be_bytes());
    let r = Chunk::try_from(bytes.as_ref());
    assert!(matches!(
        r,
        Err(ChunkError::ChunkType(
            pngme::chunk_type::ChunkTypeError::NonAlpha(51)
        ))
    ));
}

#[test]
fn test_chunk_crc_mismatch_on_data_flip() {
    let chunk_type = ChunkType::from_str("RuSt").unwrap();
    let chunk = Chunk::new(chunk_type, vec![1, 2, 3, 4]);
    let mut wire = chunk.serialize();
    wire[9] ^= 0x01;
    let r = Chunk::try_from(wire.as_ref());
    assert_eq!(r.unwrap_err(), ChunkError::Crc);
}

#[test]
fn test_chunk_data_not_utf8() {
    let chunk_type = ChunkType::from_str("RuSt").unwrap();
    let chunk = Chunk::new(chunk_type, vec![0xff, 0xfe]);
    let r = chunk.data_as_string();
    assert_eq!(r.unwrap_err(), ChunkError::Utf8);
}

#[test]
fn test_chunk_zero_length_data() {
    let chunk_type = ChunkType::from_str("RuSt").unwrap();
    let chunk = Chunk::new(chunk_type, Vec::new());
    let wire = chunk.serialize();
    assert_eq!(wire.len(), 12);
    let parsed = Chunk::try_from(wire.as_ref()).unwrap();
    assert_eq!(parsed.length(), 0);
    assert_eq!(parsed.data(), &[] as &[u8]);
}
