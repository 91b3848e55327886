//! The metadata record: validation rules and the text round trip.

use chunkcrypt::{check_chunk_len, check_num_chunks, Chunk, Error, Metadata};

fn fixed_chunk(tag: u8) -> Chunk {
    let id: Vec<u8> = (0..16).map(|i| (i as u8).wrapping_add(tag)).collect();
    let key: Vec<u8> = (0..16).map(|i| (i as u8).wrapping_mul(3).wrapping_add(tag)).collect();
    Chunk::new(id, key)
}

fn chunks(n: usize) -> Vec<Chunk> {
    (0..n).map(|i| fixed_chunk(i as u8)).collect()
}

#[test]
fn check_chunk_len_rule() {
    assert!(check_chunk_len(16).is_ok());
    assert!(check_chunk_len(0).is_ok());
    assert!(check_chunk_len(4096).is_ok());
    assert_eq!(check_chunk_len(30).unwrap_err(), Error::ChunkLenNotMultiple);
    assert_eq!(check_chunk_len(17).unwrap_err(), Error::ChunkLenNotMultiple);
}

#[test]
fn check_num_chunks_rule() {
    // expected = (file_len + chunk_len - 16) / (chunk_len - 16)
    assert!(check_num_chunks(100, 32, 7).is_ok());
    assert_eq!(check_num_chunks(100, 32, 4).unwrap_err(), Error::ChunkCountMismatch);
    assert!(check_num_chunks(50, 48, 2).is_ok());
    assert!(check_num_chunks(0, 32, 1).is_ok());
}

#[test]
fn metadata_new_validates() {
    // Rule A first, then the degenerate length, then rule B.
    assert_eq!(Metadata::new(100, 30, chunks(4)).unwrap_err(), Error::ChunkLenNotMultiple);
    assert_eq!(Metadata::new(100, 16, chunks(4)).unwrap_err(), Error::ChunkLenTooSmall);
    assert_eq!(Metadata::new(100, 0, chunks(4)).unwrap_err(), Error::ChunkLenTooSmall);
    assert_eq!(Metadata::new(100, 32, chunks(4)).unwrap_err(), Error::ChunkCountMismatch);
    let m = Metadata::new(100, 32, chunks(7)).unwrap();
    assert_eq!(m.file_len, 100);
    assert_eq!(m.chunk_len, 32);
    assert_eq!(m.chunks.len(), 7);
}

#[test]
fn serialize_parse_round_trip() {
    let m = Metadata::new(100, 32, chunks(7)).unwrap();
    let text = m.serialize();
    let back = Metadata::parse(&text).unwrap();
    assert_eq!(back.file_len, m.file_len);
    assert_eq!(back.chunk_len, m.chunk_len);
    assert_eq!(back.chunks, m.chunks);
}

#[test]
fn serialize_layout() {
    let m = Metadata::new(50, 48, chunks(2)).unwrap();
    let text = m.serialize();
    // A 42-character head line, then one 58-character line per chunk.
    assert_eq!(text.len(), 42 + 58 * 2);
    let mut lines = text.lines();
    let head = lines.next().unwrap();
    assert_eq!(head, format!("{:020} {:020}", 50, 48));
    for (i, line) in lines.enumerate() {
        assert_eq!(line.len(), 57);
        let (id_part, key_part) = line.split_once(':').unwrap();
        assert_eq!(id_part, m.chunks[i].id_string());
        assert_eq!(key_part, m.chunks[i].key_string());
    }
}

#[test]
fn parse_rejects_malformed_text() {
    assert_eq!(Metadata::parse("").unwrap_err(), Error::MalformedMetadata);
    assert_eq!(Metadata::parse("not a record").unwrap_err(), Error::MalformedMetadata);
    let m = Metadata::new(100, 32, chunks(7)).unwrap();
    let text = m.serialize();
    // One character short of a whole chunk line.
    let truncated = &text[..text.len() - 1];
    assert_eq!(Metadata::parse(truncated).unwrap_err(), Error::MalformedMetadata);
    // The space between the two lengths replaced.
    let bad_sep = format!("x{}", &text[1..]);
    assert_eq!(Metadata::parse(&bad_sep).unwrap_err(), Error::MalformedMetadata);
}

#[test]
fn parse_rejects_malformed_id() {
    let m = Metadata::new(100, 32, chunks(7)).unwrap();
    let mut text: Vec<char> = m.serialize().chars().collect();
    // First character of the first chunk line's identity field.
    text[42] = 'z';
    let text: String = text.into_iter().collect();
    assert_eq!(Metadata::parse(&text).unwrap_err(), Error::MalformedId);
}

#[test]
fn parse_rejects_malformed_key() {
    let m = Metadata::new(100, 32, chunks(7)).unwrap();
    let mut text: Vec<char> = m.serialize().chars().collect();
    // First character of the first chunk line's key field.
    text[42 + 33] = '!';
    let text: String = text.into_iter().collect();
    assert_eq!(Metadata::parse(&text).unwrap_err(), Error::MalformedKey);
}

#[test]
fn parse_rejects_wrong_key_length() {
    let m = Metadata::new(100, 32, chunks(7)).unwrap();
    let mut text: Vec<char> = m.serialize().chars().collect();
    // 24 characters of plain base64 with no padding decode to 18 bytes,
    // which is no 16-byte key.
    for i in 0..24 {
        text[42 + 33 + i] = 'A';
    }
    let text: String = text.into_iter().collect();
    assert_eq!(Metadata::parse(&text).unwrap_err(), Error::MalformedKey);
}

#[test]
fn parse_does_not_revalidate() {
    // The text round trip carries any record, even one the decrypting
    // side's count rule would refuse; validation is decryption's check.
    let m = Metadata { file_len: usize::MAX, chunk_len: 32, chunks: chunks(1) };
    let text = m.serialize();
    let back = Metadata::parse(&text).unwrap();
    assert_eq!(back.file_len, usize::MAX);
    assert_eq!(back.chunk_len, 32);
    assert_eq!(back.chunks, m.chunks);
}

#[test]
fn parse_rejects_oversized_length() {
    let m = Metadata::new(100, 32, chunks(7)).unwrap();
    let mut text: Vec<char> = m.serialize().chars().collect();
    // Twenty nines do not fit a usize.
    for i in 0..20 {
        text[i] = '9';
    }
    let text: String = text.into_iter().collect();
    assert_eq!(Metadata::parse(&text).unwrap_err(), Error::MalformedMetadata);
}

#[test]
fn id_and_key_text_forms() {
    let chunk = Chunk::new((0u8..16).collect(), (0u8..16).collect());
    assert_eq!(chunk.id_string(), "000102030405060708090a0b0c0d0e0f");
    assert_eq!(chunk.key_string(), "AAECAwQFBgcICQoLDA0ODw==");
}

#[test]
fn error_messages_are_distinct() {
    assert_eq!(Error::ChunkLenNotMultiple.message(), "chunk length must be a multiple of 16");
    assert_eq!(Error::AuthFailure.message(), "authentication failed");
    assert_ne!(Error::MalformedId.message(), Error::MalformedKey.message());
}
