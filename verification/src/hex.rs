//! Lowercase hex rendering of byte strings, and its inverse.
//!
//! Chunk identifiers are 16 random bytes shown as 32 hex digits; the text
//! form doubles as the name of the chunk's ciphertext object.

use vstd::prelude::*;

verus! {

/// The hex digit character for one value below 16; letters are lowercase.
pub open spec fn hex_digit(n: int) -> char
    recommends
        0 <= n < 16,
{
    if n == 0 {
        '0'
    } else if n == 1 {
        '1'
    } else if n == 2 {
        '2'
    } else if n == 3 {
        '3'
    } else if n == 4 {
        '4'
    } else if n == 5 {
        '5'
    } else if n == 6 {
        '6'
    } else if n == 7 {
        '7'
    } else if n == 8 {
        '8'
    } else if n == 9 {
        '9'
    } else if n == 10 {
        'a'
    } else if n == 11 {
        'b'
    } else if n == 12 {
        'c'
    } else if n == 13 {
        'd'
    } else if n == 14 {
        'e'
    } else {
        'f'
    }
}

/// Whether a character is a hex digit in either case.
pub open spec fn is_hex_digit(c: char) -> bool {
    ('0' <= c && c <= '9') || ('a' <= c && c <= 'f') || ('A' <= c && c <= 'F')
}

/// The value of one hex digit character.
pub open spec fn hex_val(c: char) -> int
    recommends
        is_hex_digit(c),
{
    if '0' <= c && c <= '9' {
        c as u32 - '0' as u32
    } else if 'a' <= c && c <= 'f' {
        10 + c as u32 - 'a' as u32
    } else {
        10 + c as u32 - 'A' as u32
    }
}

/// The hex text of a byte string: two digits per byte, high nibble first.
pub open spec fn hex_of(bytes: Seq<u8>) -> Seq<char>
    decreases bytes.len(),
{
    if bytes.len() == 0 {
        Seq::empty()
    } else {
        seq![hex_digit(bytes[0] as int / 16), hex_digit(bytes[0] as int % 16)] + hex_of(
            bytes.subrange(1, bytes.len() as int),
        )
    }
}

/// The bytes a hex text stands for, or `None` where the text has odd length
/// or holds a character that is no hex digit.
pub open spec fn bytes_of_hex(text: Seq<char>) -> Option<Seq<u8>>
    decreases text.len(),
{
    if text.len() == 0 {
        Some(Seq::empty())
    } else if text.len() == 1 {
        None
    } else if !is_hex_digit(text[0]) || !is_hex_digit(text[1]) {
        None
    } else {
        match bytes_of_hex(text.subrange(2, text.len() as int)) {
            Some(rest) => Some(seq![(hex_val(text[0]) * 16 + hex_val(text[1])) as u8] + rest),
            None => None,
        }
    }
}

/// Reading a digit back gives the value it was made from.
pub proof fn lemma_hex_digit_val(n: int)
    requires
        0 <= n < 16,
    ensures
        is_hex_digit(hex_digit(n)),
        hex_val(hex_digit(n)) == n,
{
}

/// Hex text is twice as long as the bytes it shows.
pub proof fn lemma_hex_of_len(bytes: Seq<u8>)
    ensures
        hex_of(bytes).len() == 2 * bytes.len(),
    decreases bytes.len(),
{
    if bytes.len() > 0 {
        lemma_hex_of_len(bytes.subrange(1, bytes.len() as int));
    }
}

/// Hex rendering distributes over concatenation.
pub proof fn lemma_hex_of_append(a: Seq<u8>, b: Seq<u8>)
    ensures
        hex_of(a + b) == hex_of(a) + hex_of(b),
    decreases a.len(),
{
    if a.len() == 0 {
        assert(a + b =~= b);
        assert(hex_of(a) + hex_of(b) =~= hex_of(b));
    } else {
        let rest = a.subrange(1, a.len() as int);
        lemma_hex_of_append(rest, b);
        assert((a + b).subrange(1, (a + b).len() as int) =~= rest + b);
        assert(hex_of(a + b) =~= hex_of(a) + hex_of(b));
    }
}

/// Reading hex text back yields exactly the bytes it was made from.
pub proof fn lemma_hex_round_trip(bytes: Seq<u8>)
    ensures
        bytes_of_hex(hex_of(bytes)) == Some(bytes),
    decreases bytes.len(),
{
    if bytes.len() == 0 {
        assert(hex_of(bytes).len() == 0);
    } else {
        let rest = bytes.subrange(1, bytes.len() as int);
        lemma_hex_round_trip(rest);
        lemma_hex_of_len(rest);
        let b0 = bytes[0];
        lemma_hex_digit_val(b0 as int / 16);
        lemma_hex_digit_val(b0 as int % 16);
        let text = hex_of(bytes);
        assert(text.subrange(2, text.len() as int) =~= hex_of(rest));
        assert(seq![(hex_val(text[0]) * 16 + hex_val(text[1])) as u8] + rest =~= bytes);
    }
}

/// Hex text that parses stands for half as many bytes.
pub proof fn lemma_bytes_of_hex_len(text: Seq<char>)
    requires
        bytes_of_hex(text) is Some,
    ensures
        2 * bytes_of_hex(text)->0.len() == text.len(),
    decreases text.len(),
{
    if text.len() > 0 {
        lemma_bytes_of_hex_len(text.subrange(2, text.len() as int));
    }
}

/// Parsing from the front: an even-length prefix parses on its own.
pub proof fn lemma_bytes_of_hex_append(a: Seq<char>, b: Seq<char>)
    requires
        a.len() % 2 == 0,
    ensures
        bytes_of_hex(a + b) == match (bytes_of_hex(a), bytes_of_hex(b)) {
            (Some(x), Some(y)) => Some(x + y),
            _ => None,
        },
    decreases a.len(),
{
    if a.len() == 0 {
        assert(a + b =~= b);
        if bytes_of_hex(b) is Some {
            assert(Seq::<u8>::empty() + bytes_of_hex(b).unwrap() =~= bytes_of_hex(b).unwrap());
        }
    } else {
        let rest = a.subrange(2, a.len() as int);
        lemma_bytes_of_hex_append(rest, b);
        assert((a + b).subrange(2, (a + b).len() as int) =~= rest + b);
        if is_hex_digit(a[0]) && is_hex_digit(a[1]) {
            let head = seq![(hex_val(a[0]) * 16 + hex_val(a[1])) as u8];
            match (bytes_of_hex(rest), bytes_of_hex(b)) {
                (Some(x), Some(y)) => {
                    assert(head + (x + y) =~= (head + x) + y);
                },
                _ => {},
            }
        }
    }
}

/// The hex digit character for one value below 16, as a one-character text.
pub(crate) fn hex_digit_str(n: u8) -> (r: &'static str)
    requires
        n < 16,
    ensures
        r@ =~= seq![hex_digit(n as int)],
{
    proof {
        reveal_strlit("0");
        reveal_strlit("1");
        reveal_strlit("2");
        reveal_strlit("3");
        reveal_strlit("4");
        reveal_strlit("5");
        reveal_strlit("6");
        reveal_strlit("7");
        reveal_strlit("8");
        reveal_strlit("9");
        reveal_strlit("a");
        reveal_strlit("b");
        reveal_strlit("c");
        reveal_strlit("d");
        reveal_strlit("e");
        reveal_strlit("f");
    }
    if n == 0 {
        "0"
    } else if n == 1 {
        "1"
    } else if n == 2 {
        "2"
    } else if n == 3 {
        "3"
    } else if n == 4 {
        "4"
    } else if n == 5 {
        "5"
    } else if n == 6 {
        "6"
    } else if n == 7 {
        "7"
    } else if n == 8 {
        "8"
    } else if n == 9 {
        "9"
    } else if n == 10 {
        "a"
    } else if n == 11 {
        "b"
    } else if n == 12 {
        "c"
    } else if n == 13 {
        "d"
    } else if n == 14 {
        "e"
    } else {
        "f"
    }
}

/// Renders bytes as lowercase hex text.
pub fn encode_hex(bytes: &[u8]) -> (r: String)
    ensures
        r@ == hex_of(bytes@),
{
    let mut r = String::new();
    let mut i: usize = 0;
    while i < bytes.len()
        invariant
            i <= bytes@.len(),
            r@ == hex_of(bytes@.subrange(0, i as int)),
        decreases bytes@.len() - i,
    {
        let b = bytes[i];
        let hi = hex_digit_str(b / 16);
        let lo = hex_digit_str(b % 16);
        r.append(hi);
        r.append(lo);
        proof {
            let prefix = bytes@.subrange(0, i as int);
            let one = seq![b];
            lemma_hex_of_append(prefix, one);
            assert(prefix + one =~= bytes@.subrange(0, i + 1));
            let tail = one.subrange(1, 1);
            assert(tail =~= Seq::<u8>::empty());
            assert(hex_of(tail) =~= Seq::<char>::empty());
            assert(hex_of(one) =~= seq![hex_digit(b as int / 16), hex_digit(b as int % 16)]);
            assert(r@ =~= hex_of(bytes@.subrange(0, i + 1)));
        }
        i = i + 1;
    }
    proof {
        assert(bytes@.subrange(0, bytes@.len() as int) =~= bytes@);
    }
    r
}

/// The value of one hex digit character, or `None` for any other character.
fn hex_val_of(c: char) -> (r: Option<u8>)
    ensures
        r is Some <==> is_hex_digit(c),
        r is Some ==> r->0 == hex_val(c) && r->0 < 16,
{
    let u = c as u32;
    if u >= 48 && u <= 57 {
        Some((u - 48) as u8)
    } else if u >= 97 && u <= 102 {
        Some((u - 87) as u8)
    } else if u >= 65 && u <= 70 {
        Some((u - 55) as u8)
    } else {
        None
    }
}

/// Reads hex text back into bytes; `None` where the text has odd length or
/// holds a character that is no hex digit.
pub fn decode_hex(text: &str) -> (r: Option<Vec<u8>>)
    ensures
        match r {
            Some(v) => bytes_of_hex(text@) == Some(v@),
            None => bytes_of_hex(text@) is None,
        },
{
    let n = text.unicode_len();
    if n % 2 != 0 {
        proof {
            lemma_odd_hex_none(text@);
        }
        return None;
    }
    let mut v: Vec<u8> = Vec::new();
    let mut i: usize = 0;
    while i < n
        invariant
            i <= n,
            i % 2 == 0,
            n % 2 == 0,
            n == text@.len(),
            bytes_of_hex(text@.subrange(0, i as int)) == Some(v@),
        decreases n - i,
    {
        let c0 = text.get_char(i);
        let c1 = text.get_char(i + 1);
        let ghost prefix = text@.subrange(0, i as int);
        let ghost pair = text@.subrange(i as int, i + 2);
        proof {
            lemma_bytes_of_hex_append(prefix, pair);
            assert(prefix + pair =~= text@.subrange(0, i + 2));
            assert(pair.len() == 2 && pair[0] == c0 && pair[1] == c1);
        }
        let h0 = match hex_val_of(c0) {
            Some(h) => h,
            None => {
                proof {
                    lemma_bytes_of_hex_append(
                        text@.subrange(0, i + 2),
                        text@.subrange(i + 2, n as int),
                    );
                    assert(text@.subrange(0, i + 2) + text@.subrange(i + 2, n as int) =~= text@);
                }
                return None;
            },
        };
        let h1 = match hex_val_of(c1) {
            Some(h) => h,
            None => {
                proof {
                    lemma_bytes_of_hex_append(
                        text@.subrange(0, i + 2),
                        text@.subrange(i + 2, n as int),
                    );
                    assert(text@.subrange(0, i + 2) + text@.subrange(i + 2, n as int) =~= text@);
                }
                return None;
            },
        };
        v.push(h0 * 16 + h1);
        proof {
            let ptail = pair.subrange(2, 2);
            assert(ptail =~= Seq::<char>::empty());
            assert(bytes_of_hex(ptail) == Some(Seq::<u8>::empty()));
            assert(seq![(hex_val(c0) * 16 + hex_val(c1)) as u8] + Seq::<u8>::empty() =~= seq![(
            hex_val(c0) * 16 + hex_val(c1)) as u8]);
            assert(bytes_of_hex(pair) == Some(seq![(hex_val(c0) * 16 + hex_val(c1)) as u8]));
            assert(Some(v@) == bytes_of_hex(text@.subrange(0, i + 2)));
        }
        i = i + 2;
    }
    proof {
        assert(text@.subrange(0, n as int) =~= text@);
    }
    Some(v)
}

/// Odd-length text is no hex rendering of bytes.
proof fn lemma_odd_hex_none(text: Seq<char>)
    requires
        text.len() % 2 == 1,
    ensures
        bytes_of_hex(text) is None,
    decreases text.len(),
{
    if text.len() > 1 {
        lemma_odd_hex_none(text.subrange(2, text.len() as int));
    }
}

} // verus!
