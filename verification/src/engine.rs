//! The encrypt and decrypt pipelines, on in-memory bytes.
//!
//! Encryption partitions the input into fixed-size windows, zero-pads the
//! last one, seals each window under a fresh random chunk, and returns the
//! metadata record beside the ciphertext objects, one per chunk and in
//! chunk order. Decryption validates the record, opens every object, and
//! reassembles the file in order, trimming the final chunk back to the
//! true byte count. Reading and writing files around these pipelines is
//! the caller's part.

use crate::chunk::{nonce_of, Chunk};
use crate::errors::Error;
use crate::gcm::{aes_gcm_open, aes_gcm_seal, GCM_PLAIN_MAX};
use crate::meta::{check_chunk_len, check_num_chunks, expected_count, Metadata, MetadataView};
use vstd::arithmetic::div_mod::{
    lemma_fundamental_div_mod, lemma_fundamental_div_mod_converse,
};
use vstd::prelude::*;

verus! {

/// How many windows a file of `file_len` bytes yields at window length
/// `chunk_len`: the last window may be partial.
pub open spec fn num_windows(file_len: int, chunk_len: int) -> int
    recommends
        chunk_len > 0,
{
    (file_len + chunk_len - 1) / chunk_len
}

/// Window `i` of the file, zero-padded up to `chunk_len`.
pub open spec fn window(data: Seq<u8>, chunk_len: int, i: int) -> Seq<u8>
    recommends
        chunk_len > 0,
        0 <= i,
{
    Seq::new(
        chunk_len as nat,
        |j: int|
            if i * chunk_len + j < data.len() {
                data[i * chunk_len + j]
            } else {
                0u8
            },
    )
}

/// The true byte count of the final chunk, recovered from the file length
/// alone: a full chunk where the length divides evenly, the remainder
/// otherwise.
pub open spec fn last_true_len(file_len: int, chunk_len: int) -> int
    recommends
        chunk_len > 0,
{
    if file_len % chunk_len == 0 {
        chunk_len
    } else {
        file_len % chunk_len
    }
}

/// The first `k` segments, concatenated in order.
pub open spec fn concat_upto(segs: Seq<Seq<u8>>, k: int) -> Seq<u8>
    recommends
        0 <= k <= segs.len(),
    decreases k,
{
    if k <= 0 {
        Seq::empty()
    } else {
        concat_upto(segs, k - 1) + segs[k - 1]
    }
}

/// The reassembled file: every segment in full but the last, which is
/// trimmed to `last_len` bytes.
pub open spec fn assemble(segs: Seq<Seq<u8>>, last_len: int) -> Seq<u8>
    recommends
        segs.len() > 0,
        0 <= last_len <= segs[segs.len() - 1].len(),
{
    concat_upto(segs, segs.len() - 1) + segs[segs.len() - 1].take(last_len)
}

/// The byte strings a vector of buffers holds, in order.
pub open spec fn views_of(objects: Seq<Vec<u8>>) -> Seq<Seq<u8>> {
    Seq::new(objects.len(), |i: int| objects[i]@)
}

/// Everything decryption does, as a function of the metadata record and
/// the ciphertext objects (given in chunk order): the validation order,
/// which error comes out of which failure, and the exact bytes on success.
pub open spec fn decrypt_model(m: MetadataView, objects: Seq<Seq<u8>>) -> Result<Seq<u8>, Error>
    recommends
        objects.len() == m.chunks.len(),
{
    if m.chunk_len % 16 != 0 {
        Err(Error::ChunkLenNotMultiple)
    } else if m.chunk_len <= 16 {
        Err(Error::ChunkLenTooSmall)
    } else if m.chunks.len() != expected_count(m.file_len, m.chunk_len) {
        Err(Error::ChunkCountMismatch)
    } else if exists|i: int|
        0 <= i < objects.len() && (#[trigger] objects[i]).len() != m.chunk_len + 16 {
        Err(Error::ObjectLenMismatch)
    } else if exists|i: int|
        0 <= i < objects.len() && aes_gcm_open(
            m.chunks[i].key,
            nonce_of(m.chunks[i].key),
            #[trigger] objects[i],
        ) is None {
        Err(Error::AuthFailure)
    } else {
        Ok(
            assemble(
                Seq::new(
                    objects.len(),
                    |i: int|
                        aes_gcm_open(m.chunks[i].key, nonce_of(m.chunks[i].key), objects[i])->0,
                ),
                last_true_len(m.file_len, m.chunk_len),
            ),
        )
    }
}

/// A file of at least one byte spans at least one window, and its windows
/// bracket its length: the full ones fall short of it, the last reaches it
/// within `last_true_len` bytes.
proof fn lemma_window_count(file_len: int, chunk_len: int)
    requires
        chunk_len > 0,
        file_len > 0,
    ensures
        num_windows(file_len, chunk_len) >= 1,
        (num_windows(file_len, chunk_len) - 1) * chunk_len + last_true_len(file_len, chunk_len)
            == file_len,
        0 < last_true_len(file_len, chunk_len) <= chunk_len,
{
    let n = num_windows(file_len, chunk_len);
    lemma_fundamental_div_mod(file_len + chunk_len - 1, chunk_len);
    let s = (file_len + chunk_len - 1) % chunk_len;
    assert(file_len == (n - 1) * chunk_len + (s + 1)) by (nonlinear_arith)
        requires
            file_len + chunk_len - 1 == chunk_len * n + s,
    ;
    assert(n >= 1) by (nonlinear_arith)
        requires
            file_len == (n - 1) * chunk_len + (s + 1),
            0 <= s < chunk_len,
            file_len > 0,
            chunk_len > 0,
    ;
    if s + 1 == chunk_len {
        lemma_fundamental_div_mod_converse(file_len, chunk_len, n, 0);
    } else {
        lemma_fundamental_div_mod_converse(file_len, chunk_len, n - 1, s + 1);
    }
}

/// Concatenating the first `k` windows gives the first `k * chunk_len`
/// bytes of the file.
proof fn lemma_concat_windows(data: Seq<u8>, chunk_len: int, k: int)
    requires
        chunk_len > 0,
        0 <= k,
        k * chunk_len <= data.len(),
    ensures
        concat_upto(
            Seq::new(num_windows(data.len() as int, chunk_len) as nat, |i: int| window(data, chunk_len, i)),
            k,
        ) =~= data.take(k * chunk_len),
    decreases k,
{
    let wins = Seq::new(
        num_windows(data.len() as int, chunk_len) as nat,
        |i: int| window(data, chunk_len, i),
    );
    if k > 0 {
        assert((k - 1) * chunk_len >= 0 && (k - 1) * chunk_len + chunk_len == k * chunk_len) by (nonlinear_arith)
            requires
                k > 0,
                chunk_len > 0,
        ;
        lemma_concat_windows(data, chunk_len, k - 1);
        assert(k - 1 < num_windows(data.len() as int, chunk_len)) by {
            lemma_window_count(data.len() as int, chunk_len);
            let n = num_windows(data.len() as int, chunk_len);
            assert((n - 1) * chunk_len + last_true_len(data.len() as int, chunk_len)
                == data.len());
            assert(k * chunk_len <= data.len());
            assert(k <= n) by (nonlinear_arith)
                requires
                    chunk_len > 0,
                    k * chunk_len <= (n - 1) * chunk_len + last_true_len(
                        data.len() as int,
                        chunk_len,
                    ),
                    last_true_len(data.len() as int, chunk_len) <= chunk_len,
            ;
        }
        assert(wins[k - 1] =~= data.subrange((k - 1) * chunk_len, k * chunk_len));
        assert(data.take((k - 1) * chunk_len) + data.subrange((k - 1) * chunk_len, k * chunk_len)
            =~= data.take(k * chunk_len));
        assert(concat_upto(wins, k) =~= data.take(k * chunk_len));
    } else {
        assert(k * chunk_len == 0) by (nonlinear_arith)
            requires
                k == 0,
        ;
        assert(concat_upto(wins, k) =~= data.take(k * chunk_len));
    }
}

/// Reassembling the windows of a file — full windows in order, the last
/// trimmed to the true byte count — gives back exactly the file.
pub proof fn lemma_assemble_windows(data: Seq<u8>, chunk_len: int)
    requires
        chunk_len > 0,
        data.len() > 0,
    ensures
        assemble(
            Seq::new(num_windows(data.len() as int, chunk_len) as nat, |i: int| window(data, chunk_len, i)),
            last_true_len(data.len() as int, chunk_len),
        ) == data,
{
    let f = data.len() as int;
    let n = num_windows(f, chunk_len);
    let last = last_true_len(f, chunk_len);
    let wins = Seq::new(n as nat, |i: int| window(data, chunk_len, i));
    lemma_window_count(f, chunk_len);
    assert((n - 1) * chunk_len <= f);
    lemma_concat_windows(data, chunk_len, n - 1);
    assert(wins[n - 1].take(last) =~= data.subrange((n - 1) * chunk_len, f));
    assert(data.take((n - 1) * chunk_len) + data.subrange((n - 1) * chunk_len, f) =~= data);
}

/// Round trip: wherever the chunk-count rule accepts what encryption
/// produced — a record whose window count matches the derived count —
/// decrypting the sealed windows gives back exactly the original bytes.
pub proof fn lemma_round_trip(m: MetadataView, data: Seq<u8>, objects: Seq<Seq<u8>>)
    requires
        m.chunk_len % 16 == 0,
        m.chunk_len > 16,
        m.file_len == data.len(),
        data.len() > 0,
        m.chunks.len() == num_windows(data.len() as int, m.chunk_len),
        m.chunks.len() == expected_count(m.file_len, m.chunk_len),
        objects.len() == m.chunks.len(),
        forall|i: int| 0 <= i < objects.len() ==> (#[trigger] objects[i]).len() == m.chunk_len
            + 16,
        forall|i: int|
            0 <= i < objects.len() ==> aes_gcm_open(
                m.chunks[i].key,
                nonce_of(m.chunks[i].key),
                #[trigger] objects[i],
            ) == Some(window(data, m.chunk_len, i)),
    ensures
        decrypt_model(m, objects) == Ok::<Seq<u8>, Error>(data),
{
    let c = m.chunk_len;
    let ov = Seq::new(
        objects.len(),
        |j: int| aes_gcm_open(m.chunks[j].key, nonce_of(m.chunks[j].key), objects[j])->0,
    );
    let wins = Seq::new(num_windows(data.len() as int, c) as nat, |j: int| window(data, c, j));
    assert(ov =~= wins);
    lemma_assemble_windows(data, c);
}

/// Encrypts a file's bytes at nominal chunk length `chunk_len`: the input
/// is cut into `chunk_len`-byte windows, the last window is zero-padded up
/// to `chunk_len`, and every window is sealed under a fresh random chunk.
/// Returns the metadata record and the ciphertext objects, one per chunk
/// and in chunk order; the object for chunk `i` belongs under the name
/// `id_string` of chunk `i`. The ensured `decrypt_model` clause says
/// exactly when decryption will accept this output and that it then
/// returns the original bytes; the chunk-count rule it reproduces can
/// reject counts this function genuinely produces.
pub fn encrypt_file(data: &Vec<u8>, chunk_len: usize) -> (r: Result<(Metadata, Vec<Vec<u8>>), Error>)
    requires
        chunk_len as int <= GCM_PLAIN_MAX as int,
        chunk_len + 16 <= usize::MAX,
    ensures
        r is Err <==> (chunk_len % 16 != 0 || chunk_len == 0 || data@.len() == 0),
        chunk_len % 16 != 0 ==> r == Err::<(Metadata, Vec<Vec<u8>>), Error>(
            Error::ChunkLenNotMultiple,
        ),
        chunk_len % 16 == 0 && chunk_len == 0 ==> r == Err::<(Metadata, Vec<Vec<u8>>), Error>(
            Error::ChunkLenTooSmall,
        ),
        chunk_len % 16 == 0 && chunk_len > 0 && data@.len() == 0 ==> r == Err::<
            (Metadata, Vec<Vec<u8>>),
            Error,
        >(Error::EmptyInput),
        match r {
            Ok((m, objects)) => {
                &&& m.wf()
                &&& m@.file_len == data@.len()
                &&& m@.chunk_len == chunk_len as int
                &&& m@.chunks.len() == num_windows(data@.len() as int, chunk_len as int)
                &&& objects@.len() == m@.chunks.len()
                &&& forall|i: int|
                    0 <= i < m@.chunks.len() ==> (#[trigger] objects@[i])@ == aes_gcm_seal(
                        m@.chunks[i].key,
                        nonce_of(m@.chunks[i].key),
                        window(data@, chunk_len as int, i),
                    )
                &&& forall|i: int|
                    0 <= i < m@.chunks.len() ==> aes_gcm_open(
                        m@.chunks[i].key,
                        nonce_of(m@.chunks[i].key),
                        (#[trigger] objects@[i])@,
                    ) == Some(window(data@, chunk_len as int, i))
                &&& forall|i: int|
                    0 <= i < m@.chunks.len() ==> (#[trigger] objects@[i])@.len() == chunk_len
                        + 16
                &&& decrypt_model(m@, views_of(objects@)) == (if chunk_len > 16 {
                    if m@.chunks.len() == expected_count(data@.len() as int, chunk_len as int) {
                        Ok::<Seq<u8>, Error>(data@)
                    } else {
                        Err::<Seq<u8>, Error>(Error::ChunkCountMismatch)
                    }
                } else {
                    Err::<Seq<u8>, Error>(Error::ChunkLenTooSmall)
                })
            },
            Err(_) => true,
        },
{
    let ghost c = chunk_len as int;
    match check_chunk_len(chunk_len) {
        Ok(()) => {},
        Err(e) => {
            return Err(e);
        },
    }
    if chunk_len == 0 {
        return Err(Error::ChunkLenTooSmall);
    }
    if data.len() == 0 {
        return Err(Error::EmptyInput);
    }
    let f = data.len();
    proof {
        lemma_window_count(f as int, c);
        assert(num_windows(f as int, c) <= f as int) by (nonlinear_arith)
            requires
                (num_windows(f as int, c) - 1) * c + last_true_len(f as int, c) == f as int,
                num_windows(f as int, c) >= 1,
                0 < last_true_len(f as int, c),
                c >= 1,
        ;
    }
    let n: usize = ((f as u128 + chunk_len as u128 - 1) / chunk_len as u128) as usize;
    assert(n as int == num_windows(f as int, c));
    let mut chunks: Vec<Chunk> = Vec::new();
    let mut objects: Vec<Vec<u8>> = Vec::new();
    let mut i: usize = 0;
    while i < n
        invariant
            i <= n,
            n as int == num_windows(f as int, c),
            c == chunk_len as int,
            f == data@.len(),
            f > 0,
            chunk_len >= 16,
            chunk_len as int <= GCM_PLAIN_MAX as int,
            chunk_len + 16 <= usize::MAX,
            chunks@.len() == i,
            objects@.len() == i,
            forall|j: int| 0 <= j < i ==> (#[trigger] chunks@[j]).wf(),
            forall|j: int|
                0 <= j < i ==> (#[trigger] objects@[j])@ == aes_gcm_seal(
                    chunks@[j]@.key,
                    nonce_of(chunks@[j]@.key),
                    window(data@, c, j),
                ),
            forall|j: int|
                0 <= j < i ==> aes_gcm_open(
                    chunks@[j]@.key,
                    nonce_of(chunks@[j]@.key),
                    (#[trigger] objects@[j])@,
                ) == Some(window(data@, c, j)),
            forall|j: int| 0 <= j < i ==> (#[trigger] objects@[j])@.len() == chunk_len + 16,
        decreases n - i,
    {
        proof {
            lemma_window_count(f as int, c);
            assert(i * c < f as int && i * c + c <= f as int + c) by (nonlinear_arith)
                requires
                    (n as int - 1) * c + last_true_len(f as int, c) == f as int,
                    0 < last_true_len(f as int, c) <= c,
                    0 <= i as int <= n as int - 1,
                    c >= 1,
            ;
        }
        let start: usize = i * chunk_len;
        let end: usize = if f - start > chunk_len {
            start + chunk_len
        } else {
            f
        };
        let mut buf: Vec<u8> = Vec::new();
        let mut k: usize = start;
        while k < end
            invariant
                start <= k <= end <= f,
                f == data@.len(),
                buf@ =~= data@.subrange(start as int, k as int),
            decreases end - k,
        {
            buf.push(data[k]);
            k = k + 1;
        }
        proof {
            assert(end as int - start as int <= c);
            assert(buf@ =~= window(data@, c, i as int).take(buf@.len() as int)) by {
                assert(forall|jj: int|
                    0 <= jj < buf@.len() ==> buf@[jj] == #[trigger] window(data@, c, i as int)[jj]);
            }
        }
        while buf.len() < chunk_len
            invariant
                buf@.len() <= chunk_len,
                c == chunk_len as int,
                f == data@.len(),
                end as int == if f as int - start as int > c {
                    start as int + c
                } else {
                    f as int
                },
                start as int == i as int * c,
                end <= f,
                buf@.len() >= end as int - start as int,
                buf@ =~= window(data@, c, i as int).take(buf@.len() as int),
            decreases chunk_len - buf@.len(),
        {
            buf.push(0);
            proof {
                let w = window(data@, c, i as int);
                let l = buf@.len() as int;
                assert(i as int * c + (l - 1) >= f as int);
                assert(w[l - 1] == 0u8);
                assert(buf@ =~= w.take(l));
            }
        }
        proof {
            assert(buf@ =~= window(data@, c, i as int));
        }
        let chunk = Chunk::random();
        let mut obj = buf;
        chunk.encrypt(&mut obj);
        chunks.push(chunk);
        objects.push(obj);
        i = i + 1;
    }
    let m = Metadata { file_len: f, chunk_len, chunks };
    proof {
        assert(m@.chunks =~= Seq::new(m.chunks@.len() as nat, |j: int| m.chunks@[j]@));
        if chunk_len > 16 && n as int == expected_count(f as int, c) {
            lemma_round_trip(m@, data@, views_of(objects@));
        }
    }
    Ok((m, objects))
}

/// The length a buffer is zero-padded to in unchunked mode: up to the
/// next multiple of 16.
pub open spec fn pad16(len: int) -> int {
    if len % 16 == 0 {
        len
    } else {
        len + 16 - len % 16
    }
}

/// Encrypts a file's bytes as one single chunk: the whole input is
/// zero-padded up to the next multiple of 16 and sealed under one fresh
/// random chunk, and the metadata record carries that padded length as its
/// chunk length. The ensured `decrypt_model` clause records that the
/// chunk-count rule never accepts such a record — the rule divides by
/// `chunk_len - 16` and expects at least two chunks of any record it can
/// evaluate — so the single object is recovered chunk by chunk instead.
pub fn encrypt_file_unchunked(data: &Vec<u8>) -> (r: Result<(Metadata, Vec<Vec<u8>>), Error>)
    requires
        data@.len() as int + 16 <= GCM_PLAIN_MAX as int,
        data@.len() + 32 <= usize::MAX,
    ensures
        r is Err <==> data@.len() == 0,
        r is Err ==> r == Err::<(Metadata, Vec<Vec<u8>>), Error>(Error::EmptyInput),
        match r {
            Ok((m, objects)) => {
                &&& m.wf()
                &&& m@.file_len == data@.len()
                &&& m@.chunk_len == pad16(data@.len() as int)
                &&& m@.chunks.len() == 1
                &&& objects@.len() == 1
                &&& objects@[0]@ == aes_gcm_seal(
                    m@.chunks[0].key,
                    nonce_of(m@.chunks[0].key),
                    window(data@, pad16(data@.len() as int), 0),
                )
                &&& aes_gcm_open(m@.chunks[0].key, nonce_of(m@.chunks[0].key), objects@[0]@)
                    == Some(window(data@, pad16(data@.len() as int), 0))
                &&& objects@[0]@.len() == pad16(data@.len() as int) + 16
                &&& decrypt_model(m@, views_of(objects@)) == (if pad16(data@.len() as int)
                    <= 16 {
                    Err::<Seq<u8>, Error>(Error::ChunkLenTooSmall)
                } else {
                    Err::<Seq<u8>, Error>(Error::ChunkCountMismatch)
                })
            },
            Err(_) => true,
        },
{
    if data.len() == 0 {
        return Err(Error::EmptyInput);
    }
    let f = data.len();
    let rem = f % 16;
    let pad_len: usize = if rem == 0 {
        f
    } else {
        f + 16 - rem
    };
    let ghost p = pad_len as int;
    proof {
        assert(p == pad16(f as int));
        assert(p % 16 == 0) by {
            lemma_fundamental_div_mod(f as int, 16);
            if f as int % 16 == 0 {
            } else {
                lemma_fundamental_div_mod_converse(p, 16, f as int / 16 + 1, 0);
            }
        }
    }
    let mut buf: Vec<u8> = Vec::new();
    let mut k: usize = 0;
    while k < f
        invariant
            k <= f,
            f == data@.len(),
            buf@ =~= data@.take(k as int),
        decreases f - k,
    {
        buf.push(data[k]);
        k = k + 1;
    }
    proof {
        assert(buf@ =~= window(data@, p, 0).take(buf@.len() as int)) by {
            assert(forall|jj: int|
                0 <= jj < buf@.len() ==> buf@[jj] == #[trigger] window(data@, p, 0)[jj]);
        }
    }
    while buf.len() < pad_len
        invariant
            f <= buf@.len() <= pad_len,
            f == data@.len(),
            p == pad_len as int,
            buf@ =~= window(data@, p, 0).take(buf@.len() as int),
        decreases pad_len - buf@.len(),
    {
        buf.push(0);
        proof {
            let w = window(data@, p, 0);
            let l = buf@.len() as int;
            assert(w[l - 1] == 0u8);
            assert(buf@ =~= w.take(l));
        }
    }
    proof {
        assert(buf@ =~= window(data@, p, 0));
    }
    let chunk = Chunk::random();
    let mut obj = buf;
    chunk.encrypt(&mut obj);
    let mut chunks: Vec<Chunk> = Vec::new();
    chunks.push(chunk);
    let mut objects: Vec<Vec<u8>> = Vec::new();
    objects.push(obj);
    let m = Metadata { file_len: f, chunk_len: pad_len, chunks };
    proof {
        assert(m@.chunks.len() == 1);
        assert(m@.chunks[0] == chunk@);
        if p > 16 {
            let e = expected_count(f as int, p);
            assert(2 * (p - 16) == (p - 16) * 2 + 0) by (nonlinear_arith);
            lemma_fundamental_div_mod_converse(2 * (p - 16), p - 16, 2, 0);
            vstd::arithmetic::div_mod::lemma_div_is_ordered(
                2 * (p - 16),
                f as int + p - 16,
                p - 16,
            );
            assert(e >= 2);
            assert(decrypt_model(m@, views_of(objects@)) == Err::<Seq<u8>, Error>(
                Error::ChunkCountMismatch,
            ));
        }
    }
    Ok((m, objects))
}

/// Rebuilds the file named by a metadata record out of its ciphertext
/// objects, given in chunk order: validates the record, opens every
/// object under its chunk's key, and writes the chunks back in order,
/// trimming the last to the true byte count. Returns exactly what
/// [`decrypt_model`] says, error cases included.
pub fn decrypt_file(metadata: &Metadata, objects: &Vec<Vec<u8>>) -> (r: Result<Vec<u8>, Error>)
    requires
        metadata.wf(),
        objects@.len() == metadata.chunks@.len(),
    ensures
        match r {
            Ok(v) => decrypt_model(metadata@, views_of(objects@)) == Ok::<Seq<u8>, Error>(v@),
            Err(e) => decrypt_model(metadata@, views_of(objects@)) == Err::<Seq<u8>, Error>(e),
        },
{
    let ghost m = metadata@;
    let ghost objs = views_of(objects@);
    match check_chunk_len(metadata.chunk_len) {
        Ok(()) => {},
        Err(e) => {
            return Err(e);
        },
    }
    if metadata.chunk_len <= 16 {
        return Err(Error::ChunkLenTooSmall);
    }
    match check_num_chunks(metadata.file_len, metadata.chunk_len, metadata.chunks.len()) {
        Ok(()) => {},
        Err(e) => {
            return Err(e);
        },
    }
    let n = metadata.chunks.len();
    let chunk_len = metadata.chunk_len;
    let mut i: usize = 0;
    while i < n
        invariant
            i <= n,
            m == metadata@,
            objs == views_of(objects@),
            n == objects@.len(),
            n == m.chunks.len(),
            chunk_len == m.chunk_len,
            chunk_len % 16 == 0,
            chunk_len > 16,
            m.chunks.len() == expected_count(m.file_len, m.chunk_len),
            forall|j: int| 0 <= j < i ==> (#[trigger] objs[j]).len() == chunk_len + 16,
        decreases n - i,
    {
        let ol = objects[i].len();
        if ol < 16 || ol - 16 != chunk_len {
            assert(objs[i as int].len() != m.chunk_len + 16);
            return Err(Error::ObjectLenMismatch);
        }
        i = i + 1;
    }
    let mut opened: Vec<Vec<u8>> = Vec::new();
    let mut i: usize = 0;
    while i < n
        invariant
            i <= n,
            m == metadata@,
            metadata.wf(),
            objs == views_of(objects@),
            n == objects@.len(),
            n == metadata.chunks@.len(),
            n == m.chunks.len(),
            chunk_len == m.chunk_len,
            chunk_len % 16 == 0,
            chunk_len > 16,
            m.chunks.len() == expected_count(m.file_len, m.chunk_len),
            opened@.len() == i,
            forall|j: int| 0 <= j < n ==> (#[trigger] objs[j]).len() == chunk_len + 16,
            forall|j: int| 0 <= j < i ==> (#[trigger] opened@[j])@.len() == chunk_len,
            forall|j: int|
                0 <= j < i ==> aes_gcm_open(
                    m.chunks[j].key,
                    nonce_of(m.chunks[j].key),
                    #[trigger] objs[j],
                ) == Some(opened@[j]@),
        decreases n - i,
    {
        let mut buf = objects[i].clone();
        proof {
            assert(buf@ =~= objs[i as int]);
            assert(metadata.chunks@[i as int]@ == m.chunks[i as int]);
        }
        match metadata.chunks[i].decrypt(&mut buf) {
            Ok(()) => {},
            Err(e) => {
                assert(aes_gcm_open(
                    m.chunks[i as int].key,
                    nonce_of(m.chunks[i as int].key),
                    objs[i as int],
                ) is None);
                return Err(e);
            },
        }
        opened.push(buf);
        i = i + 1;
    }
    assert(forall|j: int|
        0 <= j < n ==> aes_gcm_open(
            m.chunks[j].key,
            nonce_of(m.chunks[j].key),
            #[trigger] objs[j],
        ) is Some);
    let ghost ov = Seq::new(
        objs.len(),
        |j: int| aes_gcm_open(m.chunks[j].key, nonce_of(m.chunks[j].key), objs[j])->0,
    );
    proof {
        assert(views_of(opened@) =~= ov);
        vstd::arithmetic::div_mod::lemma_div_is_ordered(
            m.chunk_len - 16,
            m.file_len + m.chunk_len - 16,
            m.chunk_len - 16,
        );
        vstd::arithmetic::div_mod::lemma_div_by_self(m.chunk_len - 16);
        assert(n >= 1);
    }
    let last_len: usize = if metadata.file_len % chunk_len == 0 {
        chunk_len
    } else {
        metadata.file_len % chunk_len
    };
    assert(last_len as int == last_true_len(m.file_len, m.chunk_len));
    let mut out: Vec<u8> = Vec::new();
    let mut i: usize = 0;
    while i < n - 1
        invariant
            i <= n - 1,
            1 <= n,
            n == opened@.len(),
            ov == views_of(opened@),
            chunk_len == m.chunk_len,
            forall|j: int| 0 <= j < n ==> (#[trigger] opened@[j])@.len() == chunk_len,
            out@ =~= concat_upto(ov, i as int),
        decreases n - 1 - i,
    {
        let seg = &opened[i];
        let mut j: usize = 0;
        while j < seg.len()
            invariant
                j <= seg@.len(),
                out@ =~= concat_upto(ov, i as int) + seg@.take(j as int),
            decreases seg@.len() - j,
        {
            out.push(seg[j]);
            j = j + 1;
        }
        proof {
            assert(seg@.take(seg@.len() as int) =~= seg@);
            assert(ov[i as int] == seg@);
            assert(out@ =~= concat_upto(ov, i + 1));
        }
        i = i + 1;
    }
    let seg = &opened[n - 1];
    assert(last_len <= seg@.len());
    let mut j: usize = 0;
    while j < last_len
        invariant
            j <= last_len,
            last_len <= seg@.len(),
            out@ =~= concat_upto(ov, n - 1) + seg@.take(j as int),
            seg@ == ov[n - 1],
            n == opened@.len(),
            1 <= n,
        decreases last_len - j,
    {
        out.push(seg[j]);
        j = j + 1;
    }
    proof {
        assert(out@ =~= assemble(ov, last_len as int));
    }
    Ok(out)
}

} // verus!
