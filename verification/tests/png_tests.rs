use pngme::chunk::{Chunk, ChunkError};
use pngme::chunk_type::ChunkType;
use pngme::png::{Png, PngError};

const SIGNATURE: [u8; 8] = [0x89, 0x50, 0x4e, 0x47, 0x0d, 0x0a, 0x1a, 0x0a];

fn chunk_of(type_text: &str, data: &str) -> Chunk {
    let ctype = ChunkType::from_str(type_text).unwrap();
    Chunk::new(ctype, data.as_bytes().to_vec())
}

fn testing_png() -> Png {
    let mut png = Png::new();
    png.append_chunk(chunk_of("FrSt", "I am the first chunk"));
    png.append_chunk(chunk_of("miDl", "I am another chunk"));
    png.append_chunk(chunk_of("LASt", "I am the last chunk"));
    png
}

#[test]
fn test_png_new_is_empty() {
    let png = Png::new();
    assert_eq!(png.chunk_count(), 0);
    assert_eq!(png.as_bytes(), SIGNATURE.to_vec());
}

#[test]
fn test_png_round_trip() {
    let png = testing_png();
    let bytes = png.as_bytes();
    let parsed = Png::try_from(bytes.as_ref()).unwrap();
    assert_eq!(parsed.chunk_count(), 3);
    for i in 0..3 {
        let a = png.chunk_at(i);
        let b = parsed.chunk_at(i);
        assert_eq!(a.length(), b.length());
        assert_eq!(a.chunk_type().bytes(), b.chunk_type().bytes());
        assert_eq!(a.data(), b.data());
        assert_eq!(a.crc(), b.crc());
    }
    assert_eq!(parsed.as_bytes(), bytes);
}

#[test]
fn test_png_serialize_twice_identical() {
    let png = testing_png();
    assert_eq!(png.as_bytes(), png.as_bytes());
}

#[test]
fn test_png_bad_signature() {
    let mut bytes: Vec<u8> = vec![13, 80, 78, 71, 13, 10, 26, 10];
    bytes.extend_from_slice(&chunk_of("RuSt", "hello").serialize());
    let r = Png::try_from(bytes.as_ref());
    assert_eq!(r.unwrap_err(), PngError::BadSignature);
}

#[test]
fn test_png_too_short_for_signature() {
    let bytes = [0x89, 0x50];
    let r = Png::try_from(bytes.as_ref());
    assert_eq!(r.unwrap_err(), PngError::BadSignature);
}

#[test]
fn test_png_trailing_garbage_rejected() {
    let png = testing_png();
    let mut bytes = png.as_bytes();
    bytes.extend_from_slice(&[1, 2, 3]);
    let r = Png::try_from(bytes.as_ref());
    assert_eq!(r.unwrap_err(), PngError::Chunk(ChunkError::Short));
}

#[test]
fn test_png_chunk_error_surfaced() {
    let mut bytes = SIGNATURE.to_vec();
    let mut wire = chunk_of("RuSt", "message").serialize();
    let last = wire.len() - 1;
    wire[last] ^= 0xff;
    bytes.extend_from_slice(&wire);
    let r = Png::try_from(bytes.as_ref());
    assert_eq!(r.unwrap_err(), PngError::Chunk(ChunkError::Crc));
}

#[test]
fn test_png_append_chunk() {
    let mut png = testing_png();
    png.append_chunk(chunk_of("TeSt", "Message"));
    assert_eq!(png.chunk_count(), 4);
    let c = png.chunk_by_type("TeSt").unwrap();
    assert_eq!(c.chunk_type().to_text(), String::from("TeSt"));
    assert_eq!(c.data_as_string().unwrap(), String::from("Message"));
}

#[test]
fn test_png_chunk_by_type_finds_first() {
    let mut png = testing_png();
    png.append_chunk(chunk_of("RuSt", "one"));
    png.append_chunk(chunk_of("RuSt", "two"));
    let c = png.chunk_by_type("RuSt").unwrap();
    assert_eq!(c.data_as_string().unwrap(), String::from("one"));
}

#[test]
fn test_png_chunk_by_type_missing() {
    let png = testing_png();
    assert!(png.chunk_by_type("RuSt").is_none());
    assert!(png.chunk_by_type("x").is_none());
}

#[test]
fn test_png_remove_first_of_duplicates() {
    let mut png = Png::new();
    png.append_chunk(chunk_of("RuSt", "one"));
    png.append_chunk(chunk_of("miDl", "between"));
    png.append_chunk(chunk_of("RuSt", "two"));
    let removed = png.remove_first_chunk("RuSt").unwrap();
    assert_eq!(removed.data_as_string().unwrap(), String::from("one"));
    assert_eq!(png.chunk_count(), 2);
    assert_eq!(png.chunk_at(0).chunk_type().to_text(), String::from("miDl"));
    assert_eq!(png.chunk_at(1).chunk_type().to_text(), String::from("RuSt"));
    assert_eq!(
        png.chunk_at(1).data_as_string().unwrap(),
        String::from("two")
    );
}

#[test]
fn test_png_remove_not_found() {
    let mut png = testing_png();
    let r = png.remove_first_chunk("RuSt");
    match r {
        Ok(_) => panic!("removal of an absent type must fail"),
        Err(PngError::NotFound(s)) => assert_eq!(s, String::from("RuSt")),
        Err(_) => panic!("wrong error kind"),
    }
    assert_eq!(png.chunk_count(), 3);
}

#[test]
fn test_png_secret_message_scenario() {
    let mut png = testing_png();
    let message = "This is where your secret message will be!";
    png.append_chunk(chunk_of("RuSt", message));
    let bytes = png.as_bytes();

    let parsed = Png::try_from(bytes.as_ref()).unwrap();
    let c = parsed.chunk_by_type("RuSt").unwrap();
    assert_eq!(c.length(), 42);
    assert_eq!(c.crc(), 2882656334);
    assert!(c.chunk_type().is_critical());
    assert!(!c.chunk_type().is_public());
    assert!(c.chunk_type().is_reserved_bit_valid());
    assert!(c.chunk_type().is_safe_to_copy());
    assert_eq!(c.data_as_string().unwrap(), String::from(message));
}
