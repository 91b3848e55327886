//! The command-line argument rules: which words follow the subcommand,
//! how a chunk is written as `identity:key`, and the usage texts. The
//! process edge — reading the arguments and printing — stays with the
//! caller; these functions turn argument words into values.

use crate::b64::{base64_decode, base64_inv};
use crate::chunk::{Chunk, ChunkView};
use crate::decimal::{dec_val, is_dec_digit};
use crate::hex::{bytes_of_hex, decode_hex};
use vstd::prelude::*;

verus! {

/// Everything the argument rules can object to.
#[derive(Clone, Copy, Debug, PartialEq, Eq, Structural)]
pub enum CliError {
    /// No subcommand, or a word where an option was expected.
    Usage,
    /// The encrypt subcommand lacks its input path.
    UsageEncrypt,
    /// The decrypt subcommand lacks a path or the file length.
    UsageDecrypt,
    /// A chunk length of zero was asked for.
    ChunkLenZero,
    /// A chunk length that is no multiple of 16 was asked for.
    ChunkLenNotMultiple,
    /// A number field does not read as a `usize`.
    BadNumber,
    /// A chunk word is not `identity:key` with 32 hex digits and a
    /// 16-byte base64 key.
    MalformedChunkSpec,
    /// The decrypt subcommand names no chunks at all.
    NoChunks,
}

/// What the encrypt subcommand was asked to do.
#[derive(Debug)]
pub struct EncryptParams {
    /// The file to read.
    pub path_in: String,
    /// The directory for the ciphertext objects.
    pub path_out: String,
    /// The nominal chunk length, or `None` for unchunked mode.
    pub chunk_len: Option<usize>,
}

/// What an [`EncryptParams`] is mathematically.
pub struct EncryptParamsView {
    pub path_in: Seq<char>,
    pub path_out: Seq<char>,
    pub chunk_len: Option<int>,
}

impl View for EncryptParams {
    type V = EncryptParamsView;

    open spec fn view(&self) -> EncryptParamsView {
        EncryptParamsView {
            path_in: self.path_in@,
            path_out: self.path_out@,
            chunk_len: match self.chunk_len {
                Some(v) => Some(v as int),
                None => None,
            },
        }
    }
}

/// What the decrypt subcommand was asked to do.
#[derive(Debug)]
pub struct DecryptParams {
    /// The directory holding the ciphertext objects.
    pub path_in: String,
    /// The file to write.
    pub path_out: String,
    /// The original file length.
    pub file_len: usize,
    /// The chunks, in original order.
    pub chunks: Vec<Chunk>,
}

/// What a [`DecryptParams`] is mathematically.
pub struct DecryptParamsView {
    pub path_in: Seq<char>,
    pub path_out: Seq<char>,
    pub file_len: int,
    pub chunks: Seq<ChunkView>,
}

impl View for DecryptParams {
    type V = DecryptParamsView;

    open spec fn view(&self) -> DecryptParamsView {
        DecryptParamsView {
            path_in: self.path_in@,
            path_out: self.path_out@,
            file_len: self.file_len as int,
            chunks: Seq::new(self.chunks@.len(), |i: int| self.chunks@[i]@),
        }
    }
}

/// The texts a list of argument words holds, in order.
pub open spec fn str_views(args: Seq<String>) -> Seq<Seq<char>> {
    Seq::new(args.len(), |i: int| args[i]@)
}

/// The number an argument word stands for: all decimal digits, at least
/// one, value within `usize`.
pub open spec fn parse_usize_spec(s: Seq<char>) -> Option<int> {
    if s.len() == 0 || !(forall|i: int| 0 <= i < s.len() ==> is_dec_digit(#[trigger] s[i])) {
        None
    } else if dec_val(s) > usize::MAX {
        None
    } else {
        Some(dec_val(s))
    }
}

/// Whether two texts are the same.
fn str_eq(a: &str, b: &str) -> (r: bool)
    ensures
        r <==> a@ == b@,
{
    let la = a.unicode_len();
    let lb = b.unicode_len();
    if la != lb {
        return false;
    }
    let mut i: usize = 0;
    while i < la
        invariant
            i <= la,
            la == a@.len(),
            la == b@.len(),
            forall|j: int| 0 <= j < i ==> a@[j] == b@[j],
        decreases la - i,
    {
        if a.get_char(i) != b.get_char(i) {
            return false;
        }
        i = i + 1;
    }
    proof {
        assert(a@ =~= b@);
    }
    true
}

/// Reads an argument word as a number; `None` where a character is no
/// digit, the word is empty, or the value does not fit `usize`.
fn parse_usize(s: &str) -> (r: Option<usize>)
    ensures
        match r {
            Some(v) => parse_usize_spec(s@) == Some(v as int),
            None => parse_usize_spec(s@) is None,
        },
{
    let n = s.unicode_len();
    if n == 0 {
        return None;
    }
    let cap: u128 = usize::MAX as u128 + 1;
    let mut v: u128 = 0;
    let mut i: usize = 0;
    while i < n
        invariant
            i <= n,
            n == s@.len(),
            cap == usize::MAX as u128 + 1,
            forall|j: int| 0 <= j < i ==> is_dec_digit(#[trigger] s@[j]),
            dec_val(s@.take(i as int)) <= usize::MAX ==> v as int == dec_val(s@.take(i as int)),
            dec_val(s@.take(i as int)) > usize::MAX ==> v == cap,
            v <= cap,
            dec_val(s@.take(i as int)) >= 0,
        decreases n - i,
    {
        let c = s.get_char(i);
        let u = c as u32;
        if u < 48 || u > 57 {
            assert(!is_dec_digit(s@[i as int]));
            return None;
        }
        let d = (u - 48) as u128;
        proof {
            let t = s@.take(i + 1);
            assert(t.drop_last() =~= s@.take(i as int));
            assert(t.last() == c);
            assert(dec_val(t) == dec_val(s@.take(i as int)) * 10 + (u - 48));
        }
        v = v * 10 + d;
        if v > cap {
            v = cap;
        }
        i = i + 1;
    }
    proof {
        assert(s@.take(n as int) =~= s@);
    }
    if v > usize::MAX as u128 {
        return None;
    }
    Some(v as usize)
}

/// The chunk length as the record will hold it.
pub open spec fn opt_len_view(o: Option<usize>) -> Option<int> {
    match o {
        Some(v) => Some(v as int),
        None => None,
    }
}

/// The option words of the encrypt subcommand, read two at a time from
/// word `i` with the choices made so far: `-c` takes a chunk length —
/// nonzero, a multiple of 16 — and `-o` an output directory; anything
/// else is a usage error.
pub open spec fn parse_e_opts(
    args: Seq<Seq<char>>,
    i: int,
    chunk_len: Option<int>,
    path_out: Seq<char>,
) -> Result<(Option<int>, Seq<char>), CliError>
    recommends
        0 <= i,
    decreases args.len() - i,
{
    if i >= args.len() {
        Ok((chunk_len, path_out))
    } else if args[i] == "-c"@ && i + 1 < args.len() {
        match parse_usize_spec(args[i + 1]) {
            None => Err(CliError::BadNumber),
            Some(v) => if v == 0 {
                Err(CliError::ChunkLenZero)
            } else if v % 16 != 0 {
                Err(CliError::ChunkLenNotMultiple)
            } else {
                parse_e_opts(args, i + 2, Some(v), path_out)
            },
        }
    } else if args[i] == "-o"@ && i + 1 < args.len() {
        parse_e_opts(args, i + 2, chunk_len, args[i + 1])
    } else {
        Err(CliError::Usage)
    }
}

/// Everything the encrypt argument rules do: the first word is the input
/// path, the rest are options; the output directory defaults to the
/// current one.
pub open spec fn parse_e_spec(args: Seq<Seq<char>>) -> Result<EncryptParamsView, CliError> {
    if args.len() == 0 {
        Err(CliError::UsageEncrypt)
    } else {
        match parse_e_opts(args, 1, None, "."@) {
            Err(e) => Err(e),
            Ok((cl, po)) => Ok(
                EncryptParamsView { path_in: args[0], path_out: po, chunk_len: cl },
            ),
        }
    }
}

/// Reads the words of the encrypt subcommand, those after the subcommand
/// itself. Returns exactly what [`parse_e_spec`] says, errors included.
pub fn parse_e_args(args: &[String]) -> (r: Result<EncryptParams, CliError>)
    ensures
        match r {
            Ok(p) => parse_e_spec(str_views(args@)) == Ok::<EncryptParamsView, CliError>(p@),
            Err(e) => parse_e_spec(str_views(args@)) == Err::<EncryptParamsView, CliError>(e),
        },
{
    let ghost va = str_views(args@);
    if args.len() == 0 {
        return Err(CliError::UsageEncrypt);
    }
    let path_in = args[0].clone();
    let mut chunk_len: Option<usize> = None;
    let mut path_out = String::from_str(".");
    let mut i: usize = 1;
    while i < args.len()
        invariant
            1 <= i,
            va == str_views(args@),
            parse_e_opts(va, 1, None, "."@) == parse_e_opts(
                va,
                i as int,
                opt_len_view(chunk_len),
                path_out@,
            ),
        decreases args@.len() - i,
    {
        let arg = &args[i];
        let is_c = str_eq(arg.as_str(), "-c");
        let is_o = str_eq(arg.as_str(), "-o");
        if is_c && i + 1 < args.len() {
            match parse_usize(args[i + 1].as_str()) {
                None => {
                    return Err(CliError::BadNumber);
                },
                Some(v) => {
                    if v == 0 {
                        return Err(CliError::ChunkLenZero);
                    }
                    if v % 16 != 0 {
                        return Err(CliError::ChunkLenNotMultiple);
                    }
                    chunk_len = Some(v);
                    i = i + 2;
                },
            }
        } else if is_o && i + 1 < args.len() {
            path_out = args[i + 1].clone();
            i = i + 2;
        } else {
            return Err(CliError::Usage);
        }
    }
    Ok(EncryptParams { path_in, path_out, chunk_len })
}

/// The index of the first colon of a text, or its length where it has
/// none.
pub open spec fn first_colon(s: Seq<char>) -> int
    decreases s.len(),
{
    if s.len() == 0 {
        0
    } else if s[0] == ':' {
        0
    } else {
        1 + first_colon(s.subrange(1, s.len() as int))
    }
}

/// Whether a text holds a colon at all.
pub open spec fn has_colon(s: Seq<char>) -> bool {
    exists|t: int| 0 <= t < s.len() && s[t] == ':'
}

/// The first colon is a colon, and nothing before it is one.
pub proof fn lemma_first_colon(s: Seq<char>)
    ensures
        0 <= first_colon(s) <= s.len(),
        first_colon(s) < s.len() ==> s[first_colon(s)] == ':',
        forall|t: int| 0 <= t < first_colon(s) ==> s[t] != ':',
    decreases s.len(),
{
    if s.len() > 0 && s[0] != ':' {
        let rest = s.subrange(1, s.len() as int);
        lemma_first_colon(rest);
        assert(forall|t: int|
            1 <= t < first_colon(s) ==> #[trigger] s[t] == rest[t - 1] && rest[t - 1] != ':');
    }
}

/// The chunk a word of the form `identity:key` stands for: 32 hex digits,
/// one colon, base64 for a 16-byte key — `None` for any other shape.
pub open spec fn chunk_spec_view(s: Seq<char>) -> Option<ChunkView> {
    let fc = first_colon(s);
    if fc >= s.len() {
        None
    } else if has_colon(s.subrange(fc + 1, s.len() as int)) {
        None
    } else {
        match bytes_of_hex(s.subrange(0, fc)) {
            None => None,
            Some(id) => if id.len() != 16 {
                None
            } else {
                match base64_inv(s.subrange(fc + 1, s.len() as int)) {
                    None => None,
                    Some(key) => if key.len() != 16 {
                        None
                    } else {
                        Some(ChunkView { id, key })
                    },
                }
            },
        }
    }
}

/// The chunk words of the decrypt subcommand, read from word `i` until a
/// word that starts with a dash or the end.
pub open spec fn parse_d_chunks(args: Seq<Seq<char>>, i: int, acc: Seq<ChunkView>) -> Result<
    Seq<ChunkView>,
    CliError,
>
    recommends
        0 <= i,
    decreases args.len() - i,
{
    if i >= args.len() {
        Ok(acc)
    } else if args[i].len() > 0 && args[i][0] == '-' {
        Ok(acc)
    } else {
        match chunk_spec_view(args[i]) {
            None => Err(CliError::MalformedChunkSpec),
            Some(cv) => parse_d_chunks(args, i + 1, acc.push(cv)),
        }
    }
}

/// Everything the decrypt argument rules do: input directory, output
/// path, original file length, then at least one chunk word.
pub open spec fn parse_d_spec(args: Seq<Seq<char>>) -> Result<DecryptParamsView, CliError> {
    if args.len() < 3 {
        Err(CliError::UsageDecrypt)
    } else {
        match parse_usize_spec(args[2]) {
            None => Err(CliError::BadNumber),
            Some(fl) => match parse_d_chunks(args, 3, Seq::empty()) {
                Err(e) => Err(e),
                Ok(chunks) => if chunks.len() == 0 {
                    Err(CliError::NoChunks)
                } else {
                    Ok(
                        DecryptParamsView {
                            path_in: args[0],
                            path_out: args[1],
                            file_len: fl,
                            chunks,
                        },
                    )
                },
            },
        }
    }
}

/// The index of the first colon of a word.
fn find_colon(s: &str) -> (r: usize)
    ensures
        r as int == first_colon(s@),
{
    let n = s.unicode_len();
    let mut i: usize = 0;
    while i < n
        invariant
            i <= n,
            n == s@.len(),
            forall|j: int| 0 <= j < i ==> s@[j] != ':',
        decreases n - i,
    {
        if s.get_char(i) == ':' {
            proof {
                lemma_first_colon(s@);
            }
            return i;
        }
        i = i + 1;
    }
    proof {
        lemma_first_colon(s@);
    }
    n
}

/// Reads one `identity:key` word as a chunk.
fn parse_chunk_word(s: &str) -> (r: Option<Chunk>)
    ensures
        match r {
            Some(c) => chunk_spec_view(s@) == Some(c@) && c.wf(),
            None => chunk_spec_view(s@) is None,
        },
{
    let n = s.unicode_len();
    let fc = find_colon(s);
    if fc >= n {
        return None;
    }
    let ghost rest = s@.subrange(fc as int + 1, n as int);
    let mut j: usize = fc + 1;
    while j < n
        invariant
            fc + 1 <= j <= n,
            n == s@.len(),
            fc as int == first_colon(s@),
            fc < n,
            rest == s@.subrange(fc as int + 1, n as int),
            forall|t: int| fc + 1 <= t < j ==> s@[t] != ':',
        decreases n - j,
    {
        if s.get_char(j) == ':' {
            proof {
                assert(rest[j - fc - 1] == ':');
                assert(has_colon(rest));
            }
            return None;
        }
        j = j + 1;
    }
    proof {
        assert(!has_colon(rest)) by {
            assert(forall|t: int| 0 <= t < rest.len() ==> #[trigger] rest[t] == s@[fc + 1 + t]);
        }
    }
    let id_str = s.substring_char(0, fc);
    let id = match decode_hex(id_str) {
        Some(v) => v,
        None => {
            return None;
        },
    };
    if id.len() != 16 {
        return None;
    }
    let key_str = s.substring_char(fc + 1, n);
    let key = match base64_decode(key_str) {
        Some(v) => v,
        None => {
            return None;
        },
    };
    if key.len() != 16 {
        return None;
    }
    Some(Chunk::new(id, key))
}

impl DecryptParams {
    /// Every chunk carries full-size identity and key.
    pub open spec fn wf(&self) -> bool {
        forall|i: int| 0 <= i < self@.chunks.len() ==> (#[trigger] self@.chunks[i]).wf()
    }
}

/// Reads the words of the decrypt subcommand, those after the subcommand
/// itself. Returns exactly what [`parse_d_spec`] says, errors included.
pub fn parse_d_args(args: &[String]) -> (r: Result<DecryptParams, CliError>)
    ensures
        match r {
            Ok(p) => parse_d_spec(str_views(args@)) == Ok::<DecryptParamsView, CliError>(p@)
                && p.wf(),
            Err(e) => parse_d_spec(str_views(args@)) == Err::<DecryptParamsView, CliError>(e),
        },
{
    let ghost va = str_views(args@);
    if args.len() < 3 {
        return Err(CliError::UsageDecrypt);
    }
    let file_len = match parse_usize(args[2].as_str()) {
        Some(v) => v,
        None => {
            return Err(CliError::BadNumber);
        },
    };
    let mut chunks: Vec<Chunk> = Vec::new();
    let mut i: usize = 3;
    proof {
        assert(Seq::new(0nat, |j: int| chunks@[j]@) =~= Seq::<ChunkView>::empty());
    }
    while i < args.len()
        invariant_except_break
            3 <= i,
            va == str_views(args@),
            args@.len() >= 3,
            parse_usize_spec(va[2]) == Some(file_len as int),
            chunks@.len() == i - 3,
            forall|j: int| 0 <= j < chunks@.len() ==> (#[trigger] chunks@[j]).wf(),
            parse_d_chunks(va, 3, Seq::empty()) == parse_d_chunks(
                va,
                i as int,
                Seq::new(chunks@.len(), |j: int| chunks@[j]@),
            ),
        ensures
            forall|j: int| 0 <= j < chunks@.len() ==> (#[trigger] chunks@[j]).wf(),
            parse_d_chunks(va, 3, Seq::empty()) == Ok::<Seq<ChunkView>, CliError>(
                Seq::new(chunks@.len(), |j: int| chunks@[j]@),
            ),
        decreases args@.len() - i,
    {
        let arg = &args[i];
        let al = arg.as_str().unicode_len();
        if al > 0 && arg.as_str().get_char(0) == '-' {
            break ;
        }
        let ghost pre = Seq::new(chunks@.len(), |j: int| chunks@[j]@);
        let chunk = match parse_chunk_word(arg.as_str()) {
            Some(c) => c,
            None => {
                return Err(CliError::MalformedChunkSpec);
            },
        };
        let ghost cv = chunk@;
        chunks.push(chunk);
        proof {
            assert(Seq::new(chunks@.len(), |j: int| chunks@[j]@) =~= pre.push(cv));
        }
        i = i + 1;
    }
    if chunks.len() == 0 {
        return Err(CliError::NoChunks);
    }
    let p = DecryptParams {
        path_in: args[0].clone(),
        path_out: args[1].clone(),
        file_len,
        chunks,
    };
    proof {
        assert(p@.chunks =~= Seq::new(p.chunks@.len(), |j: int| p.chunks@[j]@));
    }
    Ok(p)
}

/// What either subcommand was asked to do.
#[derive(Debug)]
pub enum Params {
    /// The encrypt subcommand.
    Encrypt(EncryptParams),
    /// The decrypt subcommand.
    Decrypt(DecryptParams),
}

/// What a [`Params`] is mathematically.
pub enum ParamsView {
    Encrypt(EncryptParamsView),
    Decrypt(DecryptParamsView),
}

impl View for Params {
    type V = ParamsView;

    open spec fn view(&self) -> ParamsView {
        match self {
            Params::Encrypt(p) => ParamsView::Encrypt(p@),
            Params::Decrypt(p) => ParamsView::Decrypt(p@),
        }
    }
}

/// Everything the argument rules do, from the first word after the
/// program name: `e` or `d` picks the subcommand, anything else is a
/// usage error.
pub open spec fn parse_args_spec(args: Seq<Seq<char>>) -> Result<ParamsView, CliError> {
    if args.len() == 0 {
        Err(CliError::Usage)
    } else if args[0] == "e"@ {
        match parse_e_spec(args.subrange(1, args.len() as int)) {
            Ok(p) => Ok(ParamsView::Encrypt(p)),
            Err(e) => Err(e),
        }
    } else if args[0] == "d"@ {
        match parse_d_spec(args.subrange(1, args.len() as int)) {
            Ok(p) => Ok(ParamsView::Decrypt(p)),
            Err(e) => Err(e),
        }
    } else {
        Err(CliError::Usage)
    }
}

/// Reads all the words after the program name. Returns exactly what
/// [`parse_args_spec`] says, errors included.
pub fn parse_args(args: &[String]) -> (r: Result<Params, CliError>)
    ensures
        match r {
            Ok(p) => parse_args_spec(str_views(args@)) == Ok::<ParamsView, CliError>(p@),
            Err(e) => parse_args_spec(str_views(args@)) == Err::<ParamsView, CliError>(e),
        },
        r matches Ok(Params::Decrypt(dp)) ==> dp.wf(),
{
    if args.len() == 0 {
        return Err(CliError::Usage);
    }
    let rest = vstd::slice::slice_subrange(args, 1, args.len());
    proof {
        assert(str_views(rest@) =~= str_views(args@).subrange(1, str_views(args@).len() as int));
    }
    if str_eq(args[0].as_str(), "e") {
        match parse_e_args(rest) {
            Ok(p) => Ok(Params::Encrypt(p)),
            Err(e) => Err(e),
        }
    } else if str_eq(args[0].as_str(), "d") {
        match parse_d_args(rest) {
            Ok(p) => Ok(Params::Decrypt(p)),
            Err(e) => Err(e),
        }
    } else {
        Err(CliError::Usage)
    }
}

/// The one-line usage text, for an unknown or missing subcommand.
pub fn usage(program: &str) -> (r: String)
    ensures
        r@ == "Usage: "@ + program@ + " (e | d) <path_in> [options]"@,
{
    let mut r = String::from_str("Usage: ");
    r.append(program);
    r.append(" (e | d) <path_in> [options]");
    r
}

/// The usage text of the encrypt subcommand.
pub fn usage_e(program: &str) -> (r: String)
    ensures
        r@ == "Usage: "@ + program@ + " e <path_in> [options]\n"@
            + "\nEncrypts a file. If -c is not provided, the entire file is encrypted as a\nsingle block of minimal size.\n\nOptions:\n    -c chunk_len    write chunks of this many bytes\n    -o out_path     write to this directory\n"@,
{
    let mut r = String::from_str("Usage: ");
    r.append(program);
    r.append(" e <path_in> [options]\n");
    r.append(
        "\nEncrypts a file. If -c is not provided, the entire file is encrypted as a\nsingle block of minimal size.\n\nOptions:\n    -c chunk_len    write chunks of this many bytes\n    -o out_path     write to this directory\n",
    );
    r
}

/// The usage text of the decrypt subcommand.
pub fn usage_d(program: &str) -> (r: String)
    ensures
        r@ == "Usage: "@ + program@ + " d <path_in> <path_out> <file_len> (<chunk> ...)\n"@
            + "\nDecrypt a file. Each chunk should be specified as its filename followed by its\nkey (in base 64), separated by a colon.\n"@,
{
    let mut r = String::from_str("Usage: ");
    r.append(program);
    r.append(" d <path_in> <path_out> <file_len> (<chunk> ...)\n");
    r.append(
        "\nDecrypt a file. Each chunk should be specified as its filename followed by its\nkey (in base 64), separated by a colon.\n",
    );
    r
}

} // verus!
