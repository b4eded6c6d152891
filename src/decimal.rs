//! Fixed-width and plain decimal text, and reading an unsigned 16-bit number back.

use vstd::prelude::*;

verus! {

/// Whether the byte is an ASCII decimal digit.
pub open spec fn is_digit(b: u8) -> bool {
    48 <= b <= 57
}

/// Whether every byte of `s` is a decimal digit.
pub open spec fn all_digits(s: Seq<u8>) -> bool {
    forall|i: int| 0 <= i < s.len() ==> is_digit(#[trigger] s[i])
}

/// Ten to the power `w`.
pub open spec fn pow10(w: nat) -> nat
    decreases w,
{
    if w == 0 {
        1
    } else {
        10 * pow10((w - 1) as nat)
    }
}

/// The last `width` decimal digits of `n`, most significant first, padded with zeros.
pub open spec fn fixed_digits(n: nat, width: nat) -> Seq<u8>
    decreases width,
{
    if width == 0 {
        seq![]
    } else {
        fixed_digits(n / 10, (width - 1) as nat).push((48 + n % 10) as u8)
    }
}

/// The decimal digits of `n` without leading zeros; zero is written `0`.
pub open spec fn decimal_digits(n: nat) -> Seq<u8>
    decreases n,
{
    if n < 10 {
        seq![(48 + n) as u8]
    } else {
        decimal_digits(n / 10).push((48 + n % 10) as u8)
    }
}

/// The number that a string of decimal digits denotes.
pub open spec fn digits_value(s: Seq<u8>) -> nat
    decreases s.len(),
{
    if s.len() == 0 {
        0
    } else {
        digits_value(s.drop_last()) * 10 + (s.last() - 48) as nat
    }
}

/// The digits of a decimal number written as an optional `+` and one or more digits.
pub open spec fn unsigned_body(s: Seq<u8>) -> Option<Seq<u8>> {
    let body = if s.len() > 0 && s[0] == 43 {
        s.subrange(1, s.len() as int)
    } else {
        s
    };
    if body.len() > 0 && all_digits(body) {
        Some(body)
    } else {
        None
    }
}

/// The `u16` that `s` denotes as decimal text, if it is one.
pub open spec fn u16_of_text(s: Seq<u8>) -> Option<u16> {
    match unsigned_body(s) {
        Some(body) => if digits_value(body) <= 65535 {
            Some(digits_value(body) as u16)
        } else {
            None
        },
        None => None,
    }
}

/// Writes the last `width` decimal digits of `n`, padded with zeros.
pub fn fixed_text(n: u32, width: usize) -> (r: Vec<u8>)
    ensures
        r@ == fixed_digits(n as nat, width as nat),
    decreases width,
{
    if width == 0 {
        Vec::new()
    } else {
        let mut v = fixed_text(n / 10, width - 1);
        v.push((48 + n % 10) as u8);
        v
    }
}

/// Writes `n` in decimal without leading zeros.
pub fn decimal_text(n: u32) -> (r: Vec<u8>)
    ensures
        r@ == decimal_digits(n as nat),
    decreases n,
{
    if n < 10 {
        let mut v = Vec::new();
        v.push((48 + n) as u8);
        v
    } else {
        let mut v = decimal_text(n / 10);
        v.push((48 + n % 10) as u8);
        v
    }
}

/// Reads decimal text as a `u16`: an optional `+` and one or more digits, at most 65535.
pub fn parse_u16(s: &[u8]) -> (r: Option<u16>)
    ensures
        r == u16_of_text(s@),
{
    let start: usize = if s.len() > 0 && s[0] == 43 {
        1
    } else {
        0
    };
    let ghost body = if s@.len() > 0 && s@[0] == 43 {
        s@.subrange(1, s@.len() as int)
    } else {
        s@
    };
    if start == s.len() {
        return None;
    }
    let mut value: u32 = 0;
    let mut big: bool = false;
    let mut i: usize = start;
    while i < s.len()
        invariant
            start <= i <= s.len(),
            start < s.len(),
            body == s@.subrange(start as int, s@.len() as int),
            unsigned_body(s@) == (if body.len() > 0 && all_digits(body) {
                Some(body)
            } else {
                None
            }),
            all_digits(s@.subrange(start as int, i as int)),
            !big ==> value as nat == digits_value(s@.subrange(start as int, i as int)),
            !big ==> value <= 65535,
            big ==> digits_value(s@.subrange(start as int, i as int)) > 65535,
        decreases s.len() - i,
    {
        let b = s[i];
        if b < 48 || b > 57 {
            assert(body[i - start] == s@[i as int]);
            assert(!is_digit(body[i - start]));
            assert(!all_digits(body));
            return None;
        }
        let ghost pre = s@.subrange(start as int, i as int);
        let ghost next = s@.subrange(start as int, i + 1);
        assert(next.drop_last() =~= pre);
        if !big {
            let v2: u32 = value * 10 + (b - 48) as u32;
            if v2 > 65535 {
                big = true;
            } else {
                value = v2;
            }
        }
        i = i + 1;
    }
    assert(s@.subrange(start as int, i as int) =~= body);
    if big {
        None
    } else {
        Some(value as u16)
    }
}

/// The digits written by `fixed_digits` are `width` digits that denote `n`, for `n` below
/// ten to the power `width`.
pub proof fn lemma_fixed_digits(n: nat, width: nat)
    requires
        n < pow10(width),
    ensures
        fixed_digits(n, width).len() == width,
        all_digits(fixed_digits(n, width)),
        digits_value(fixed_digits(n, width)) == n,
    decreases width,
{
    if width == 0 {
    } else {
        let p = pow10((width - 1) as nat);
        assert(n / 10 < p) by (nonlinear_arith)
            requires
                n < 10 * p,
        ;
        lemma_fixed_digits(n / 10, (width - 1) as nat);
        let s = fixed_digits(n, width);
        assert(s.drop_last() =~= fixed_digits(n / 10, (width - 1) as nat));
    }
}

/// The digits written by `decimal_digits` are one or more digits that denote `n`.
pub proof fn lemma_decimal_digits(n: nat)
    ensures
        decimal_digits(n).len() >= 1,
        all_digits(decimal_digits(n)),
        digits_value(decimal_digits(n)) == n,
    decreases n,
{
    if n < 10 {
        assert(decimal_digits(n).drop_last() =~= Seq::<u8>::empty());
        assert(digits_value(Seq::<u8>::empty()) == 0);
    } else {
        lemma_decimal_digits(n / 10);
        let s = decimal_digits(n);
        assert(s.drop_last() =~= decimal_digits(n / 10));
    }
}

/// A `u16` written in decimal reads back as the same number.
pub proof fn lemma_decimal_round_trip(v: u16)
    ensures
        u16_of_text(decimal_digits(v as nat)) == Some(v),
{
    lemma_decimal_digits(v as nat);
    let s = decimal_digits(v as nat);
    assert(is_digit(s[0]));
}

/// A number below 10000, written as four zero-padded digits, reads back as the same number.
pub proof fn lemma_fixed4_round_trip(v: u16)
    requires
        v < 10000,
    ensures
        u16_of_text(fixed_digits(v as nat, 4)) == Some(v),
{
    assert(pow10(4) == 10000) by {
        reveal_with_fuel(pow10, 5);
    }
    lemma_fixed_digits(v as nat, 4);
    let s = fixed_digits(v as nat, 4);
    assert(is_digit(s[0]));
}

} // verus!
