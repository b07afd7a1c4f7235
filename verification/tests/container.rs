use pngme::chunk::{Chunk, ChunkError};
use pngme::chunk_type::{ChunkType, ChunkTypeError};
use pngme::container::{signature, Container, ContainerError};

fn chunk_from(tag: &str, msg: &str) -> Chunk {
    let chunk_type = ChunkType::from_str(tag).unwrap();
    Chunk::new(chunk_type, msg.as_bytes().to_vec())
}

fn container_bytes(chunks: &[(&str, &str)]) -> Vec<u8> {
    let mut bytes = signature().to_vec();
    for (tag, msg) in chunks {
        bytes.extend_from_slice(&chunk_from(tag, msg).serialize());
    }
    bytes
}

#[test]
fn test_chunk_serialize_parse_identity() {
    let chunk = chunk_from("RuSt", "hello there");
    let frame = chunk.serialize();
    let parsed = Chunk::try_from(frame.as_ref()).unwrap();
    assert_eq!(parsed.length(), chunk.length());
    assert_eq!(parsed.chunk_type().bytes(), chunk.chunk_type().bytes());
    assert_eq!(parsed.data(), chunk.data());
    assert_eq!(parsed.crc(), chunk.crc());
    assert_eq!(parsed.serialize(), frame);
}

#[test]
fn test_checksum_bit_flip_detected() {
    let chunk = chunk_from("RuSt", "payload");
    let frame = chunk.serialize();
    // flip one bit in each payload byte in turn; the frame must never parse
    for byte_index in 8..frame.len() - 4 {
        for bit in 0..8 {
            let mut corrupted = frame.clone();
            corrupted[byte_index] ^= 1u8 << bit;
            let crc_flipped = pngme::chunk::Chunk::new(
                ChunkType::try_from([
                    corrupted[4],
                    corrupted[5],
                    corrupted[6],
                    corrupted[7],
                ])
                .unwrap(),
                corrupted[8..corrupted.len() - 4].to_vec(),
            )
            .crc();
            assert_ne!(crc_flipped, chunk.crc());
            assert!(matches!(
                Chunk::try_from(corrupted.as_ref()),
                Err(ChunkError::InvalidChecksum)
            ));
        }
    }
}

#[test]
fn test_chunk_incomplete() {
    let bytes = [0u8; 5];
    assert!(matches!(
        Chunk::try_from(&bytes[..]),
        Err(ChunkError::Incomplete)
    ));
}

#[test]
fn test_chunk_invalid_length_field() {
    let mut bytes: Vec<u8> = vec![0, 0, 0, 5];
    bytes.extend_from_slice("RuSt".as_bytes());
    bytes.extend_from_slice(&[0, 0, 0, 0]);
    assert!(matches!(
        Chunk::try_from(bytes.as_ref()),
        Err(ChunkError::InvalidLengthField(0, 5))
    ));
}

#[test]
fn test_chunk_type_invalid_length() {
    assert_eq!(
        ChunkType::from_str("Rus"),
        Err(ChunkTypeError::InvalidLength(3))
    );
    assert_eq!(
        ChunkType::from_str("RuSts"),
        Err(ChunkTypeError::InvalidLength(5))
    );
}

#[test]
fn test_chunk_type_invalid_byte_is_first() {
    assert_eq!(
        ChunkType::try_from([82, 49, 50, 116]),
        Err(ChunkTypeError::InvalidByte(49))
    );
}

#[test]
fn test_container_parse_serialize_round_trip() {
    let bytes = container_bytes(&[("FrSt", "first"), ("miDl", ""), ("LaSt", "last")]);
    let container = Container::parse(&bytes).unwrap();
    assert_eq!(container.chunks().len(), 3);
    assert_eq!(container.chunks()[0].chunk_type().to_text(), "FrSt");
    assert_eq!(container.chunks()[1].chunk_type().to_text(), "miDl");
    assert_eq!(container.chunks()[2].chunk_type().to_text(), "LaSt");
    assert_eq!(container.serialize(), bytes);
}

#[test]
fn test_container_incomplete() {
    let bytes = [137u8, 80, 78];
    assert!(matches!(
        Container::parse(&bytes),
        Err(ContainerError::Incomplete)
    ));
}

#[test]
fn test_container_invalid_signature() {
    let bytes = [1u8, 2, 3, 4, 5, 6, 7, 8];
    assert!(matches!(
        Container::parse(&bytes),
        Err(ContainerError::InvalidSignature)
    ));
}

#[test]
fn test_container_rejects_bad_chunk_tag() {
    let mut bytes = signature().to_vec();
    bytes.extend_from_slice(&[0, 0, 0, 0]);
    bytes.extend_from_slice("Ru1t".as_bytes());
    bytes.extend_from_slice(&[0, 0, 0, 0]);
    assert!(matches!(
        Container::parse(&bytes),
        Err(ContainerError::Chunk(ChunkError::InvalidChunkType(
            ChunkTypeError::InvalidByte(49)
        )))
    ));
}

#[test]
fn test_append_then_remove_restores_bytes() {
    let bytes = container_bytes(&[("FrSt", "first"), ("LaSt", "last")]);
    let mut container = Container::parse(&bytes).unwrap();
    let original = container.serialize();
    container.append(chunk_from("ruSt", "secret"));
    assert_ne!(container.serialize(), original);
    let removed = container.remove("ruSt").unwrap();
    assert_eq!(removed.data(), "secret".as_bytes());
    assert_eq!(container.serialize(), original);
}

#[test]
fn test_remove_missing_tag_fails_and_leaves_container() {
    let bytes = container_bytes(&[("FrSt", "first")]);
    let mut container = Container::parse(&bytes).unwrap();
    assert!(matches!(
        container.remove("zzzz"),
        Err(ContainerError::ChunkTypeNotFound)
    ));
    assert_eq!(container.serialize(), bytes);
}

#[test]
fn test_find_by_type_returns_first_inserted() {
    let bytes = container_bytes(&[("FrSt", "first"), ("duPe", "one"), ("duPe", "two")]);
    let container = Container::parse(&bytes).unwrap();
    let found = container.find_by_type("duPe").unwrap();
    assert_eq!(found.data(), "one".as_bytes());
}

#[test]
fn test_end_to_end_scenario() {
    let mut container = Container::new();
    container.append(chunk_from("teXt", "hello"));
    let bytes = container.serialize();

    let parsed = Container::parse(&bytes).unwrap();
    let message = parsed
        .find_by_type("teXt")
        .map(|c| c.data_as_string().unwrap());
    assert_eq!(message, Some(String::from("hello")));
    assert!(parsed.find_by_type("zzzz").is_none());

    let mut parsed = parsed;
    parsed.append(chunk_from("ruSt", "secret"));
    let encoded = parsed.serialize();
    assert_eq!(encoded.len(), bytes.len() + 12 + 6);
}

#[test]
fn test_truncated_container_never_parses() {
    let bytes = container_bytes(&[("FrSt", "first"), ("LaSt", "last")]);
    let truncated = &bytes[..bytes.len() - 1];
    assert!(matches!(
        Container::parse(truncated),
        Err(ContainerError::Chunk(ChunkError::Incomplete))
    ));

    let only_signature = signature().to_vec();
    assert!(Container::parse(&only_signature).is_ok());
    let truncated_signature = &only_signature[..7];
    assert!(matches!(
        Container::parse(truncated_signature),
        Err(ContainerError::Incomplete)
    ));
}

#[test]
fn test_serialize_empty_container_is_signature() {
    let container = Container::new();
    assert_eq!(container.serialize(), signature().to_vec());
    assert_eq!(container.serialize(), vec![137u8, 80, 78, 71, 13, 10, 26, 10]);
}

#[test]
fn test_empty_payload_chunk() {
    let chunk = chunk_from("emTy", "");
    assert_eq!(chunk.length(), 0);
    let frame = chunk.serialize();
    assert_eq!(frame.len(), 12);
    let parsed = Chunk::try_from(frame.as_ref()).unwrap();
    assert_eq!(parsed.data(), &[] as &[u8]);
}
