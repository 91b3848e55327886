//! Fixed-width decimal numbers for the metadata text: every length is
//! written as exactly twenty digits, zero-padded, so the text can be read
//! back positionally. The digit characters are the first ten hex digits.

use crate::hex::{hex_digit, hex_digit_str, hex_val};
use vstd::arithmetic::div_mod::{
    lemma_div_denominator, lemma_fundamental_div_mod, lemma_mod_division_less_than_divisor,
};
use vstd::prelude::*;

verus! {

/// How many digits every number field carries.
pub const DEC_WIDTH: usize = 20;

/// Whether a character is a decimal digit.
pub open spec fn is_dec_digit(c: char) -> bool {
    '0' <= c && c <= '9'
}

/// Ten to the `w`-th power.
pub open spec fn pow10(w: nat) -> int
    decreases w,
{
    if w == 0 {
        1
    } else {
        10 * pow10((w - 1) as nat)
    }
}

/// The number a run of digit characters stands for.
pub open spec fn dec_val(s: Seq<char>) -> int
    recommends
        forall|i: int| 0 <= i < s.len() ==> is_dec_digit(#[trigger] s[i]),
    decreases s.len(),
{
    if s.len() == 0 {
        0
    } else {
        dec_val(s.drop_last()) * 10 + hex_val(s.last())
    }
}

/// `n` written in exactly `width` digits, zero-padded, most significant
/// first.
pub open spec fn dec_fixed(n: int, width: nat) -> Seq<char>
    recommends
        0 <= n < pow10(width),
    decreases width,
{
    if width == 0 {
        Seq::empty()
    } else {
        dec_fixed(n / 10, (width - 1) as nat).push(hex_digit(n % 10))
    }
}

/// Every character of a fixed-width rendering is a digit, and there are
/// exactly `width` of them.
pub proof fn lemma_dec_fixed_shape(n: int, width: nat)
    requires
        n >= 0,
    ensures
        dec_fixed(n, width).len() == width,
        forall|i: int| 0 <= i < width ==> is_dec_digit(#[trigger] dec_fixed(n, width)[i]),
    decreases width,
{
    if width > 0 {
        lemma_dec_fixed_shape(n / 10, (width - 1) as nat);
        assert(0 <= n % 10 < 10);
    }
}

/// Reading a fixed-width rendering back gives the number it was made from.
pub proof fn lemma_dec_fixed_val(n: int, width: nat)
    requires
        0 <= n < pow10(width),
    ensures
        dec_val(dec_fixed(n, width)) == n,
    decreases width,
{
    if width == 0 {
    } else {
        assert(n / 10 < pow10((width - 1) as nat)) by (nonlinear_arith)
            requires
                n < pow10(width),
                pow10(width) == 10 * pow10((width - 1) as nat),
                n >= 0,
        ;
        lemma_dec_fixed_val(n / 10, (width - 1) as nat);
        let s = dec_fixed(n, width);
        assert(s.drop_last() =~= dec_fixed(n / 10, (width - 1) as nat));
        assert(s.last() == hex_digit(n % 10));
        assert(0 <= n % 10 < 10);
        assert(hex_val(hex_digit(n % 10)) == n % 10);
        lemma_fundamental_div_mod(n, 10);
    }
}

/// Powers of ten are positive.
pub proof fn lemma_pow10_pos(w: nat)
    ensures
        pow10(w) >= 1,
    decreases w,
{
    if w > 0 {
        lemma_pow10_pos((w - 1) as nat);
    }
}

/// Twenty digits cover every `usize` value.
pub proof fn lemma_usize_fits_dec20()
    ensures
        (usize::MAX as int) < pow10(DEC_WIDTH as nat),
{
    reveal_with_fuel(pow10, 21);
}

/// Renders a length as exactly twenty digits, zero-padded.
pub fn dec20(n: usize) -> (r: String)
    ensures
        r@ == dec_fixed(n as int, DEC_WIDTH as nat),
        r@.len() == DEC_WIDTH,
{
    proof {
        lemma_usize_fits_dec20();
        lemma_dec_fixed_shape(n as int, DEC_WIDTH as nat);
        reveal_with_fuel(pow10, 21);
    }
    let mut r = String::new();
    let mut p: u128 = 10_000_000_000_000_000_000;
    let mut i: usize = 0;
    while i < 20
        invariant
            i <= 20,
            i < 20 ==> p as int == pow10((19 - i) as nat),
            r@ =~= dec_fixed(n as int / pow10((20 - i) as nat), i as nat),
        decreases 20 - i,
    {
        proof {
            lemma_pow10_pos((19 - i) as nat);
        }
        let d: u8 = ((n as u128 / p) % 10) as u8;
        let ghost q = pow10((19 - i) as nat);
        proof {
            lemma_mod_division_less_than_divisor(n as int / q, 10);
            assert(n as int / q >= 0);
            lemma_div_denominator(n as int, q, 10);
            assert(q * 10 == pow10((20 - i) as nat));
            assert((n as int / q) / 10 == n as int / pow10((20 - i) as nat));
        }
        r.append(hex_digit_str(d));
        proof {
            assert(dec_fixed(n as int / q, (i + 1) as nat).drop_last() =~= dec_fixed(
                n as int / pow10((20 - i) as nat),
                i as nat,
            ));
            assert(r@ =~= dec_fixed(n as int / q, (i + 1) as nat));
        }
        i = i + 1;
        if i < 20 {
            p = p / 10;
            proof {
                assert(pow10((20 - i) as nat) / 10 == pow10((19 - i) as nat)) by {
                    assert(pow10((20 - i) as nat) == 10 * pow10((19 - i) as nat));
                    lemma_div_denominator(pow10((20 - i) as nat), 10, 1);
                    assert(10 * pow10((19 - i) as nat) / 10 == pow10((19 - i) as nat))
                        by (nonlinear_arith);
                }
            }
        }
    }
    proof {
        assert(pow10(0) == 1);
        assert(n as int / 1 == n as int);
        assert(r@ =~= dec_fixed(n as int, DEC_WIDTH as nat));
    }
    r
}

/// Reads the twenty-digit field of `text` that starts at `pos`; `None`
/// where a character is no digit or the value does not fit `usize`.
pub fn parse_dec20(text: &str, pos: usize) -> (r: Option<usize>)
    requires
        pos + 20 <= text@.len(),
        pos + 20 <= usize::MAX,
    ensures
        ({
            let field = text@.subrange(pos as int, pos as int + 20);
            match r {
                Some(v) => {
                    &&& forall|i: int| 0 <= i < 20 ==> is_dec_digit(#[trigger] field[i])
                    &&& v as int == dec_val(field)
                },
                None => !((forall|i: int| 0 <= i < 20 ==> is_dec_digit(#[trigger] field[i]))
                    && dec_val(field) <= usize::MAX),
            }
        }),
{
    let ghost field = text@.subrange(pos as int, pos as int + 20);
    let mut v: u128 = 0;
    let mut i: usize = 0;
    while i < 20
        invariant
            i <= 20,
            pos + 20 <= text@.len(),
            pos + 20 <= usize::MAX,
            field == text@.subrange(pos as int, pos as int + 20),
            forall|j: int| 0 <= j < i ==> is_dec_digit(#[trigger] field[j]),
            v as int == dec_val(field.take(i as int)),
            (v as int) < pow10(i as nat),
        decreases 20 - i,
    {
        let c = text.get_char(pos + i);
        let u = c as u32;
        if u < 48 || u > 57 {
            assert(!is_dec_digit(field[i as int]));
            return None;
        }
        proof {
            reveal_with_fuel(pow10, 21);
            assert(pow10((i + 1) as nat) == 10 * pow10(i as nat));
        }
        v = v * 10 + (u - 48) as u128;
        proof {
            let t = field.take(i + 1);
            assert(t.drop_last() =~= field.take(i as int));
            assert(t.last() == c);
            assert(hex_val(c) == u - 48);
            assert(v as int == dec_val(t));
        }
        i = i + 1;
    }
    proof {
        assert(field.take(20) =~= field);
    }
    if v > usize::MAX as u128 {
        return None;
    }
    Some(v as usize)
}

} // verus!
