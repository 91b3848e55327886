//! The encrypt/decrypt pipelines end to end, with the real cipher.

use chunkcrypt::{decrypt_file, encrypt_file, encrypt_file_unchunked, Chunk, Error, Metadata};

fn sample(n: usize) -> Vec<u8> {
    (0..n).map(|i| (i * 7 + 3) as u8).collect()
}

#[test]
fn round_trip_two_chunks() {
    // 50 bytes at chunk length 48: two chunks, and the count rule accepts
    // them, since (50 + 48 - 16) / (48 - 16) == 2.
    let data = sample(50);
    let (m, objs) = encrypt_file(&data, 48).unwrap();
    assert_eq!(m.file_len, 50);
    assert_eq!(m.chunk_len, 48);
    assert_eq!(m.chunks.len(), 2);
    assert_eq!(objs.len(), 2);
    assert_eq!(objs[0].len(), 64);
    assert_eq!(objs[1].len(), 64);
    let out = decrypt_file(&m, &objs).unwrap();
    assert_eq!(out, data);
}

#[test]
fn round_trip_single_chunk() {
    // 10 bytes at chunk length 32: one chunk, accepted since
    // (10 + 32 - 16) / (32 - 16) == 1.
    let data = sample(10);
    let (m, objs) = encrypt_file(&data, 32).unwrap();
    assert_eq!(m.chunks.len(), 1);
    let out = decrypt_file(&m, &objs).unwrap();
    assert_eq!(out, data);
}

#[test]
fn round_trip_exact_boundary() {
    // 63 bytes at chunk length 48: a full chunk and a 15-byte tail.
    let data = sample(63);
    let (m, objs) = encrypt_file(&data, 48).unwrap();
    assert_eq!(m.chunks.len(), 2);
    let out = decrypt_file(&m, &objs).unwrap();
    assert_eq!(out, data);
}

#[test]
fn chunk_len_not_multiple_fails() {
    let data = sample(50);
    assert_eq!(encrypt_file(&data, 30).unwrap_err(), Error::ChunkLenNotMultiple);
    assert_eq!(encrypt_file(&data, 1).unwrap_err(), Error::ChunkLenNotMultiple);
}

#[test]
fn chunk_len_zero_fails() {
    let data = sample(50);
    assert_eq!(encrypt_file(&data, 0).unwrap_err(), Error::ChunkLenTooSmall);
}

#[test]
fn empty_input_fails() {
    let data = Vec::new();
    assert_eq!(encrypt_file(&data, 32).unwrap_err(), Error::EmptyInput);
    assert_eq!(encrypt_file_unchunked(&data).unwrap_err(), Error::EmptyInput);
}

#[test]
fn unchunked_ten_bytes() {
    // A 10-byte file in unchunked mode: padded to 16, one object of
    // 16 + 16 bytes, and the record says {file_len: 10, chunk_len: 16}.
    let data = sample(10);
    let (m, objs) = encrypt_file_unchunked(&data).unwrap();
    assert_eq!(m.file_len, 10);
    assert_eq!(m.chunk_len, 16);
    assert_eq!(m.chunks.len(), 1);
    assert_eq!(objs.len(), 1);
    assert_eq!(objs[0].len(), 32);
    // The chunk-count rule divides by chunk_len - 16, which is zero here:
    // the whole-record decryption refuses such a record outright.
    assert_eq!(decrypt_file(&m, &objs).unwrap_err(), Error::ChunkLenTooSmall);
    // The bytes still come back chunk by chunk: open the one object and
    // trim the zero padding off at file_len.
    let mut buf = objs[0].clone();
    m.chunks[0].decrypt(&mut buf).unwrap();
    assert_eq!(buf.len(), 16);
    assert_eq!(&buf[..10], &data[..]);
    for i in 10..16 {
        assert_eq!(buf[i], 0);
    }
}

#[test]
fn chunked_hundred_bytes() {
    // A 100-byte file at chunk length 32: four objects of 48 bytes each.
    let data = sample(100);
    let (m, objs) = encrypt_file(&data, 32).unwrap();
    assert_eq!(m.file_len, 100);
    assert_eq!(m.chunk_len, 32);
    assert_eq!(m.chunks.len(), 4);
    assert_eq!(objs.len(), 4);
    for o in &objs {
        assert_eq!(o.len(), 48);
    }
    // The verbatim count rule expects (100 + 32 - 16) / (32 - 16) == 7
    // chunks and so rejects this record's own four.
    assert_eq!(decrypt_file(&m, &objs).unwrap_err(), Error::ChunkCountMismatch);
    // Chunk by chunk the 100 bytes come back: three full windows and the
    // final four (100 mod 32) bytes of the zero-padded last window.
    let mut out = Vec::new();
    for (i, obj) in objs.iter().enumerate() {
        let mut buf = obj.clone();
        m.chunks[i].decrypt(&mut buf).unwrap();
        assert_eq!(buf.len(), 32);
        if i < 3 {
            out.extend_from_slice(&buf);
        } else {
            out.extend_from_slice(&buf[..4]);
        }
    }
    assert_eq!(out, data);
}

#[test]
fn tamper_detection() {
    // Flipping a bit anywhere in a stored object makes decryption fail
    // with an authentication error; no wrong plaintext ever comes back.
    let data = sample(10);
    let (m, objs) = encrypt_file(&data, 32).unwrap();
    let positions = [0usize, 1, 13, 25, objs[0].len() - 1];
    for &pos in &positions {
        for bit in 0..8 {
            let mut tampered = objs.clone();
            tampered[0][pos] ^= 1u8 << bit;
            assert_eq!(decrypt_file(&m, &tampered).unwrap_err(), Error::AuthFailure);
        }
    }
}

#[test]
fn truncated_object_fails() {
    let data = sample(10);
    let (m, objs) = encrypt_file(&data, 32).unwrap();
    let mut short = objs.clone();
    short[0].pop();
    assert_eq!(decrypt_file(&m, &short).unwrap_err(), Error::ObjectLenMismatch);
}

#[test]
fn reordered_chunks_give_reordered_bytes() {
    // Decrypting with the chunk order swapped still succeeds chunk by
    // chunk, but yields the bytes in the wrong order: order is the
    // caller's responsibility and is not checksummed.
    let data = sample(50);
    let (m, objs) = encrypt_file(&data, 48).unwrap();
    assert_eq!(m.chunks.len(), 2);
    let swapped_meta = Metadata {
        file_len: m.file_len,
        chunk_len: m.chunk_len,
        chunks: vec![m.chunks[1].clone(), m.chunks[0].clone()],
    };
    let swapped_objs = vec![objs[1].clone(), objs[0].clone()];
    let out = decrypt_file(&swapped_meta, &swapped_objs).unwrap();
    // The second window — the last two file bytes then zero padding — is
    // written in full, then the first window trimmed to two bytes.
    let mut expected = Vec::new();
    expected.extend_from_slice(&data[48..50]);
    expected.extend_from_slice(&[0u8; 46]);
    expected.extend_from_slice(&data[0..2]);
    assert_eq!(out.len(), 50);
    assert_eq!(out, expected);
    assert_ne!(out, data);
}

#[test]
fn ciphertext_differs_from_plaintext() {
    // The sealed object is not the padded window with a tag tacked on:
    // the window itself is transformed.
    let data = sample(32);
    let (m, objs) = encrypt_file(&data, 32).unwrap();
    assert_eq!(m.chunks.len(), 1);
    assert_ne!(&objs[0][..32], &data[..32]);
}

#[test]
fn random_chunks_are_distinct() {
    let a = Chunk::random();
    let b = Chunk::random();
    assert_eq!(a.id.len(), 16);
    assert_eq!(a.key.len(), 16);
    assert_ne!((a.id.clone(), a.key.clone()), (b.id.clone(), b.key.clone()));
}

#[test]
fn known_chunk_encrypt_decrypt() {
    // A fixed chunk: sealing then opening one 16-byte window in place.
    let id: Vec<u8> = (0u8..16).collect();
    let key: Vec<u8> = (100u8..116).collect();
    let chunk = Chunk::new(id, key);
    assert_eq!(chunk.nonce(), (100u8..112).collect::<Vec<u8>>());
    let window: Vec<u8> = (0u8..16).collect();
    let mut buf = window.clone();
    chunk.encrypt(&mut buf);
    assert_eq!(buf.len(), 32);
    assert_ne!(&buf[..16], &window[..]);
    chunk.decrypt(&mut buf).unwrap();
    assert_eq!(buf, window);
}
