//! The metadata record: original length, nominal chunk length, and the
//! ordered chunks, with the two validity rules on it.
//!
//! Rule A: the chunk length is a multiple of 16, the cipher's block and tag
//! unit. Rule B: the number of chunks equals the count derived from the
//! file length and the chunk length by `expected_count`. That derivation is
//! the one the decryption side has always used, reproduced verbatim for
//! compatibility; it divides by `chunk_len - 16`, so a chunk length of 16
//! or less — though it passes rule A — cannot be accounted for and is
//! refused outright.

use crate::b64::{base64_decode, base64_inv, base64_of};
use crate::chunk::{Chunk, ChunkView};
use crate::decimal::{dec20, dec_fixed, dec_val, is_dec_digit, parse_dec20, DEC_WIDTH};
use crate::errors::Error;
use crate::hex::{bytes_of_hex, decode_hex, hex_of};
use vstd::prelude::*;

verus! {

/// What a metadata record is mathematically.
pub struct MetadataView {
    pub file_len: int,
    pub chunk_len: int,
    pub chunks: Seq<ChunkView>,
}

impl MetadataView {
    /// Every chunk carries full-size identity and key.
    pub open spec fn wf(&self) -> bool {
        forall|i: int| 0 <= i < self.chunks.len() ==> (#[trigger] self.chunks[i]).wf()
    }
}

/// The number of chunks the record is expected to list for a file of
/// `file_len` bytes at nominal chunk length `chunk_len`.
pub open spec fn expected_count(file_len: int, chunk_len: int) -> int
    recommends
        chunk_len > 16,
{
    (file_len + chunk_len - 16) / (chunk_len - 16)
}

/// The record linking a file's length and chunking to the identities and
/// keys of its ciphertext objects.
#[derive(Debug)]
pub struct Metadata {
    /// Exact byte length of the original file, before any padding.
    pub file_len: usize,
    /// Plaintext length each chunk was padded to before sealing.
    pub chunk_len: usize,
    /// The chunks, in original byte order.
    pub chunks: Vec<Chunk>,
}

impl View for Metadata {
    type V = MetadataView;

    open spec fn view(&self) -> MetadataView {
        MetadataView {
            file_len: self.file_len as int,
            chunk_len: self.chunk_len as int,
            chunks: Seq::new(self.chunks@.len(), |i: int| self.chunks@[i]@),
        }
    }
}

impl Metadata {
    /// Every chunk carries full-size identity and key.
    pub open spec fn wf(&self) -> bool {
        self@.wf()
    }

    /// Builds a record after checking rule A and rule B; each violated rule
    /// is reported, rule A first.
    pub fn new(file_len: usize, chunk_len: usize, chunks: Vec<Chunk>) -> (r: Result<
        Metadata,
        Error,
    >)
        requires
            forall|i: int| 0 <= i < chunks@.len() ==> (#[trigger] chunks@[i]).wf(),
        ensures
            match r {
                Ok(m) => {
                    &&& chunk_len % 16 == 0
                    &&& chunk_len > 16
                    &&& chunks@.len() == expected_count(file_len as int, chunk_len as int)
                    &&& m@.file_len == file_len as int
                    &&& m@.chunk_len == chunk_len as int
                    &&& m@.chunks == Seq::new(chunks@.len(), |i: int| chunks@[i]@)
                    &&& m.wf()
                },
                Err(e) => {
                    &&& e == if chunk_len % 16 != 0 {
                        Error::ChunkLenNotMultiple
                    } else if chunk_len <= 16 {
                        Error::ChunkLenTooSmall
                    } else {
                        Error::ChunkCountMismatch
                    }
                    &&& !(chunk_len % 16 == 0 && chunk_len > 16 && chunks@.len()
                        == expected_count(file_len as int, chunk_len as int))
                },
            },
    {
        check_chunk_len(chunk_len)?;
        if chunk_len <= 16 {
            return Err(Error::ChunkLenTooSmall);
        }
        check_num_chunks(file_len, chunk_len, chunks.len())?;
        Ok(Metadata { file_len, chunk_len, chunks })
    }
}

/// One line of the metadata text: 32 hex digits of identity, a colon, 24
/// base64 characters of key, a line break.
pub open spec fn chunk_line(c: ChunkView) -> Seq<char> {
    hex_of(c.id) + seq![':'] + base64_of(c.key) + seq!['\n']
}

/// The first `k` chunk lines, in order.
pub open spec fn chunk_lines(chunks: Seq<ChunkView>, k: int) -> Seq<char>
    recommends
        0 <= k <= chunks.len(),
    decreases k,
{
    if k <= 0 {
        Seq::empty()
    } else {
        chunk_lines(chunks, k - 1) + chunk_line(chunks[k - 1])
    }
}

/// The metadata text: the two lengths as twenty-digit numbers on a head
/// line, then one line per chunk.
pub open spec fn serialize_spec(m: MetadataView) -> Seq<char> {
    dec_fixed(m.file_len, DEC_WIDTH as nat) + seq![' '] + dec_fixed(m.chunk_len, DEC_WIDTH as nat)
        + seq!['\n'] + chunk_lines(m.chunks, m.chunks.len() as int)
}

/// Whether twenty characters from `base` are all decimal digits.
pub open spec fn dec_field_ok(text: Seq<char>, base: int) -> bool {
    forall|i: int| base <= i < base + 20 ==> is_dec_digit(#[trigger] text[i])
}

/// Reading the first `k` chunk lines back out of the text, line by line:
/// a line with colon or break out of place is a malformed record; then a
/// bad identity is reported before a bad key.
pub open spec fn parse_chunks(text: Seq<char>, k: int) -> Result<Seq<ChunkView>, Error>
    recommends
        42 + 58 * k <= text.len(),
    decreases k,
{
    if k <= 0 {
        Ok(Seq::empty())
    } else {
        match parse_chunks(text, k - 1) {
            Err(e) => Err(e),
            Ok(pre) => {
                let base = 42 + 58 * (k - 1);
                if text[base + 32] != ':' || text[base + 57] != '\n' {
                    Err(Error::MalformedMetadata)
                } else {
                    match bytes_of_hex(text.subrange(base, base + 32)) {
                        None => Err(Error::MalformedId),
                        Some(id) => match base64_inv(text.subrange(base + 33, base + 57)) {
                            None => Err(Error::MalformedKey),
                            Some(key) => if key.len() != 16 {
                                Err(Error::MalformedKey)
                            } else {
                                Ok(pre.push(ChunkView { id, key }))
                            },
                        },
                    }
                }
            },
        }
    }
}

/// Everything parsing does, as a function of the text: the overall shape
/// first, then the two lengths, then the chunk lines in order.
pub open spec fn parse_spec(text: Seq<char>) -> Result<MetadataView, Error> {
    if text.len() < 42 || (text.len() - 42) % 58 != 0 {
        Err(Error::MalformedMetadata)
    } else if text[20] != ' ' || text[41] != '\n' {
        Err(Error::MalformedMetadata)
    } else if !dec_field_ok(text, 0) || dec_val(text.subrange(0, 20)) > usize::MAX {
        Err(Error::MalformedMetadata)
    } else if !dec_field_ok(text, 21) || dec_val(text.subrange(21, 41)) > usize::MAX {
        Err(Error::MalformedMetadata)
    } else {
        match parse_chunks(text, (text.len() - 42) / 58) {
            Err(e) => Err(e),
            Ok(chunks) => Ok(
                MetadataView {
                    file_len: dec_val(text.subrange(0, 20)),
                    chunk_len: dec_val(text.subrange(21, 41)),
                    chunks,
                },
            ),
        }
    }
}

/// The facts the trusted base64 contracts give about every key of a
/// record: its text is 24 characters and decodes back to the key.
pub open spec fn keys_encodable(chunks: Seq<ChunkView>) -> bool {
    forall|j: int|
        0 <= j < chunks.len() ==> base64_of((#[trigger] chunks[j]).key).len() == 24 && base64_inv(
            base64_of(chunks[j].key),
        ) == Some(chunks[j].key)
}

/// The first `k` chunk lines take 58 characters each.
proof fn lemma_chunk_lines_len(chunks: Seq<ChunkView>, k: int)
    requires
        0 <= k <= chunks.len(),
        forall|j: int| 0 <= j < chunks.len() ==> (#[trigger] chunks[j]).wf(),
        keys_encodable(chunks),
    ensures
        chunk_lines(chunks, k).len() == 58 * k,
    decreases k,
{
    if k > 0 {
        lemma_chunk_lines_len(chunks, k - 1);
        crate::hex::lemma_hex_of_len(chunks[k - 1].id);
    }
}

/// Line `j` sits at offset `58 * j` of the first `k` lines.
proof fn lemma_chunk_lines_index(chunks: Seq<ChunkView>, k: int, j: int)
    requires
        0 <= j < k <= chunks.len(),
        forall|jj: int| 0 <= jj < chunks.len() ==> (#[trigger] chunks[jj]).wf(),
        keys_encodable(chunks),
    ensures
        chunk_lines(chunks, k).subrange(58 * j, 58 * j + 58) =~= chunk_line(chunks[j]),
    decreases k,
{
    lemma_chunk_lines_len(chunks, k - 1);
    crate::hex::lemma_hex_of_len(chunks[k - 1].id);
    if j == k - 1 {
        assert(chunk_line(chunks[k - 1]).len() == 58);
        assert(chunk_lines(chunks, k).subrange(58 * j, 58 * j + 58) =~= chunk_line(chunks[j]));
    } else {
        lemma_chunk_lines_index(chunks, k - 1, j);
        assert(chunk_lines(chunks, k).subrange(58 * j, 58 * j + 58) =~= chunk_lines(
            chunks,
            k - 1,
        ).subrange(58 * j, 58 * j + 58));
    }
}

/// Reading the first `j` lines of a serialized record gives its first `j`
/// chunks back.
proof fn lemma_parse_chunks_serialized(m: MetadataView, j: int)
    requires
        m.wf(),
        keys_encodable(m.chunks),
        0 <= m.file_len <= usize::MAX,
        0 <= m.chunk_len <= usize::MAX,
        0 <= j <= m.chunks.len(),
    ensures
        parse_chunks(serialize_spec(m), j) == Ok::<Seq<ChunkView>, Error>(m.chunks.take(j)),
    decreases j,
{
    let text = serialize_spec(m);
    let chunks = m.chunks;
    let k = chunks.len() as int;
    crate::decimal::lemma_usize_fits_dec20();
    crate::decimal::lemma_dec_fixed_shape(m.file_len, DEC_WIDTH as nat);
    crate::decimal::lemma_dec_fixed_shape(m.chunk_len, DEC_WIDTH as nat);
    lemma_chunk_lines_len(chunks, k);
    if j == 0 {
        assert(m.chunks.take(0) =~= Seq::<ChunkView>::empty());
    } else {
        lemma_parse_chunks_serialized(m, j - 1);
        let base = 42 + 58 * (j - 1);
        lemma_chunk_lines_index(chunks, k, j - 1);
        let line = chunk_line(chunks[j - 1]);
        crate::hex::lemma_hex_of_len(chunks[j - 1].id);
        assert(text.subrange(base, base + 58) =~= chunk_lines(chunks, k).subrange(
            58 * (j - 1),
            58 * (j - 1) + 58,
        ));
        assert(text.subrange(base, base + 58) =~= line);
        assert(line[32] == ':');
        assert(line[57] == '\n');
        assert(text[base + 32] == line[32]);
        assert(text[base + 57] == line[57]);
        assert(text.subrange(base, base + 32) =~= hex_of(chunks[j - 1].id));
        crate::hex::lemma_hex_round_trip(chunks[j - 1].id);
        assert(forall|t: int|
            0 <= t < 24 ==> line[33 + t] == #[trigger] base64_of(chunks[j - 1].key)[t]);
        assert(text.subrange(base + 33, base + 57) =~= base64_of(chunks[j - 1].key));
        assert(m.chunks.take(j - 1).push(chunks[j - 1]) =~= m.chunks.take(j));
    }
}

/// Reading a serialized record back gives the record: the shape checks
/// pass, the two lengths read back, and every chunk line reads back.
proof fn lemma_parse_serialized(m: MetadataView)
    requires
        m.wf(),
        keys_encodable(m.chunks),
        0 <= m.file_len <= usize::MAX,
        0 <= m.chunk_len <= usize::MAX,
    ensures
        parse_spec(serialize_spec(m)) == Ok::<MetadataView, Error>(m),
{
    let text = serialize_spec(m);
    let chunks = m.chunks;
    let k = chunks.len() as int;
    crate::decimal::lemma_usize_fits_dec20();
    crate::decimal::lemma_dec_fixed_shape(m.file_len, DEC_WIDTH as nat);
    crate::decimal::lemma_dec_fixed_shape(m.chunk_len, DEC_WIDTH as nat);
    crate::decimal::lemma_dec_fixed_val(m.file_len, DEC_WIDTH as nat);
    crate::decimal::lemma_dec_fixed_val(m.chunk_len, DEC_WIDTH as nat);
    lemma_chunk_lines_len(chunks, k);
    assert(text.len() == 42 + 58 * k);
    vstd::arithmetic::div_mod::lemma_mod_multiples_basic(k, 58);
    vstd::arithmetic::div_mod::lemma_div_by_multiple(k, 58);
    assert((text.len() - 42) % 58 == 0);
    assert((text.len() - 42) / 58 == k);
    assert(text[20] == ' ');
    assert(text[41] == '\n');
    assert(text.subrange(0, 20) =~= dec_fixed(m.file_len, DEC_WIDTH as nat));
    assert(text.subrange(21, 41) =~= dec_fixed(m.chunk_len, DEC_WIDTH as nat));
    assert(dec_field_ok(text, 0));
    assert(dec_field_ok(text, 21));
    lemma_parse_chunks_serialized(m, k);
    assert(m.chunks.take(k) =~= m.chunks);
}

/// A line that fails to read keeps the whole record from reading.
proof fn lemma_parse_chunks_err(text: Seq<char>, i: int, k: int)
    requires
        0 <= i <= k,
        parse_chunks(text, i) is Err,
    ensures
        parse_chunks(text, k) == parse_chunks(text, i),
    decreases k - i,
{
    if k > i {
        lemma_parse_chunks_err(text, i, k - 1);
    }
}

impl Metadata {
    /// The transportable text of the record. The second ensured clause is
    /// the round-trip law: reading the text back gives this record.
    pub fn serialize(&self) -> (r: String)
        requires
            self.wf(),
        ensures
            r@ == serialize_spec(self@),
            parse_spec(r@) == Ok::<MetadataView, Error>(self@),
    {
        proof {
            reveal_strlit(" ");
            reveal_strlit("\n");
            reveal_strlit(":");
        }
        let mut r = dec20(self.file_len);
        r.append(" ");
        let cl = dec20(self.chunk_len);
        r.append(cl.as_str());
        r.append("\n");
        let ghost head = dec_fixed(self@.file_len, DEC_WIDTH as nat) + seq![' '] + dec_fixed(
            self@.chunk_len,
            DEC_WIDTH as nat,
        ) + seq!['\n'];
        proof {
            assert(r@ =~= head + chunk_lines(self@.chunks, 0));
        }
        let n = self.chunks.len();
        let mut i: usize = 0;
        while i < n
            invariant
                i <= n,
                n == self.chunks@.len(),
                self.wf(),
                head == dec_fixed(self@.file_len, DEC_WIDTH as nat) + seq![' '] + dec_fixed(
                    self@.chunk_len,
                    DEC_WIDTH as nat,
                ) + seq!['\n'],
                r@ =~= head + chunk_lines(self@.chunks, i as int),
                keys_encodable(self@.chunks.take(i as int)),
            decreases n - i,
        {
            proof {
                reveal_strlit("\n");
                reveal_strlit(":");
                assert(self.chunks@[i as int]@ == self@.chunks[i as int]);
                assert(self@.chunks[i as int].wf());
            }
            let id_s = self.chunks[i].id_string();
            r.append(id_s.as_str());
            r.append(":");
            let key_s = self.chunks[i].key_string();
            r.append(key_s.as_str());
            r.append("\n");
            proof {
                assert(self@.chunks[i as int] == self.chunks@[i as int]@);
                assert(r@ =~= head + (chunk_lines(self@.chunks, i as int) + chunk_line(
                    self@.chunks[i as int],
                )));
                assert(r@ =~= head + chunk_lines(self@.chunks, i + 1));
                assert(self@.chunks.take(i + 1).drop_last() =~= self@.chunks.take(i as int));
                assert(keys_encodable(self@.chunks.take(i + 1))) by {
                    assert(forall|j: int|
                        0 <= j < i + 1 ==> self@.chunks.take(i + 1)[j] == self@.chunks[j]);
                }
            }
            i = i + 1;
        }
        proof {
            assert(self@.chunks.take(n as int) =~= self@.chunks);
            assert(r@ =~= serialize_spec(self@));
            lemma_parse_serialized(self@);
        }
        r
    }

    /// Reads a record out of its transportable text; every way the text
    /// can be wrong is reported as [`parse_spec`] says. The record itself
    /// is not revalidated here: rules A and B are the decrypting side's
    /// checks.
    pub fn parse(text: &str) -> (r: Result<Metadata, Error>)
        ensures
            match r {
                Ok(m) => parse_spec(text@) == Ok::<MetadataView, Error>(m@) && m.wf(),
                Err(e) => parse_spec(text@) == Err::<MetadataView, Error>(e),
            },
    {
        let n = text.unicode_len();
        if n < 42 || (n - 42) % 58 != 0 {
            return Err(Error::MalformedMetadata);
        }
        let sp = text.get_char(20);
        let nl = text.get_char(41);
        if !(sp == ' ' && nl == '\n') {
            return Err(Error::MalformedMetadata);
        }
        let file_len = match parse_dec20(text, 0) {
            Some(v) => v,
            None => {
                return Err(Error::MalformedMetadata);
            },
        };
        let chunk_len = match parse_dec20(text, 21) {
            Some(v) => v,
            None => {
                return Err(Error::MalformedMetadata);
            },
        };
        let k = (n - 42) / 58;
        proof {
            vstd::arithmetic::div_mod::lemma_fundamental_div_mod(n as int - 42, 58);
            assert(dec_field_ok(text@, 0)) by {
                let f = text@.subrange(0, 20);
                assert(forall|t: int| 0 <= t < 20 ==> #[trigger] text@[t] == f[t]);
            }
            assert(dec_field_ok(text@, 21)) by {
                let f = text@.subrange(21, 41);
                assert(forall|t: int| 0 <= t < 20 ==> text@[21 + t] == #[trigger] f[t]);
                assert(forall|t: int| 21 <= t < 41 ==> #[trigger] text@[t] == f[t - 21]);
            }
        }
        let mut chunks: Vec<Chunk> = Vec::new();
        let mut base: usize = 42;
        let mut i: usize = 0;
        proof {
            assert(Seq::new(0nat, |j: int| chunks@[j]@) =~= Seq::<ChunkView>::empty());
        }
        while i < k
            invariant
                i <= k,
                base == 42 + 58 * i,
                42 + 58 * k == n,
                n == text@.len(),
                k == (text@.len() - 42) / 58,
                (text@.len() - 42) % 58 == 0,
                text@[20] == ' ',
                text@[41] == '\n',
                dec_field_ok(text@, 0),
                dec_field_ok(text@, 21),
                file_len as int == dec_val(text@.subrange(0, 20)),
                chunk_len as int == dec_val(text@.subrange(21, 41)),
                chunks@.len() == i,
                forall|j: int| 0 <= j < i ==> (#[trigger] chunks@[j]).wf(),
                parse_chunks(text@, i as int) == Ok::<Seq<ChunkView>, Error>(
                    Seq::new(i as nat, |j: int| chunks@[j]@),
                ),
            decreases k - i,
        {
            let ghost gi = i as int;
            let ghost pre = Seq::new(i as nat, |j: int| chunks@[j]@);
            let colon = text.get_char(base + 32);
            let nl2 = text.get_char(base + 57);
            if !(colon == ':' && nl2 == '\n') {
                proof {
                    assert(parse_chunks(text@, gi + 1) == Err::<Seq<ChunkView>, Error>(
                        Error::MalformedMetadata,
                    ));
                    lemma_parse_chunks_err(text@, gi + 1, k as int);
                }
                return Err(Error::MalformedMetadata);
            }
            let id_str = text.substring_char(base, base + 32);
            let id = match decode_hex(id_str) {
                Some(v) => v,
                None => {
                    proof {
                        assert(parse_chunks(text@, gi + 1) == Err::<Seq<ChunkView>, Error>(
                            Error::MalformedId,
                        ));
                        lemma_parse_chunks_err(text@, gi + 1, k as int);
                    }
                    return Err(Error::MalformedId);
                },
            };
            let key_str = text.substring_char(base + 33, base + 57);
            let key = match base64_decode(key_str) {
                Some(v) => v,
                None => {
                    proof {
                        assert(parse_chunks(text@, gi + 1) == Err::<Seq<ChunkView>, Error>(
                            Error::MalformedKey,
                        ));
                        lemma_parse_chunks_err(text@, gi + 1, k as int);
                    }
                    return Err(Error::MalformedKey);
                },
            };
            if key.len() != 16 {
                proof {
                    assert(parse_chunks(text@, gi + 1) == Err::<Seq<ChunkView>, Error>(
                        Error::MalformedKey,
                    ));
                    lemma_parse_chunks_err(text@, gi + 1, k as int);
                }
                return Err(Error::MalformedKey);
            }
            proof {
                crate::hex::lemma_bytes_of_hex_len(text@.subrange(base as int, base as int + 32));
            }
            let chunk = Chunk::new(id, key);
            let ghost cv = chunk@;
            chunks.push(chunk);
            proof {
                assert(parse_chunks(text@, gi + 1) == Ok::<Seq<ChunkView>, Error>(pre.push(cv)));
                assert(Seq::new((i + 1) as nat, |j: int| chunks@[j]@) =~= pre.push(cv));
            }
            i = i + 1;
            base = base + 58;
        }
        let m = Metadata { file_len, chunk_len, chunks };
        proof {
            assert(m@.chunks =~= Seq::new(k as nat, |j: int| m.chunks@[j]@));
            assert(parse_spec(text@) == Ok::<MetadataView, Error>(m@));
        }
        Ok(m)
    }
}

/// Rule A: the nominal chunk length must be a multiple of 16 bytes.
pub fn check_chunk_len(chunk_len: usize) -> (r: Result<(), Error>)
    ensures
        r is Ok <==> chunk_len % 16 == 0,
        r is Err ==> r == Err::<(), Error>(Error::ChunkLenNotMultiple),
{
    if chunk_len % 16 == 0 {
        Ok(())
    } else {
        Err(Error::ChunkLenNotMultiple)
    }
}

/// Rule B: the number of chunks must equal the derived count.
pub fn check_num_chunks(file_len: usize, chunk_len: usize, num_chunks: usize) -> (r: Result<
    (),
    Error,
>)
    requires
        chunk_len > 16,
    ensures
        r is Ok <==> num_chunks == expected_count(file_len as int, chunk_len as int),
        r is Err ==> r == Err::<(), Error>(Error::ChunkCountMismatch),
{
    let expected: u128 = (file_len as u128 + chunk_len as u128 - 16) / (chunk_len as u128 - 16);
    if num_chunks as u128 == expected {
        Ok(())
    } else {
        Err(Error::ChunkCountMismatch)
    }
}

} // verus!
