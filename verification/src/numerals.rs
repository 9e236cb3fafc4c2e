//! Which texts are numbers, and which numbers they are.

use vstd::prelude::*;

use crate::barrier;
use crate::number;
use crate::readback;
use crate::text;

verus! {

/// Nothing but decimal digits from `a` up to `b`.
pub open spec fn digits_between(s: Seq<char>, a: int, b: int) -> bool {
    forall|k: int| a <= k < b ==> 0x30 <= #[trigger] s[k] as u32 <= 0x39
}

/// `s` is a decimal number: perhaps a sign; digits up to `a`; perhaps a point and
/// digits up to `b`; and perhaps an exponent, whose digits start at `d`. There is a
/// digit before the exponent, and one in it.
pub open spec fn decimal_shape(s: Seq<char>, i: int, a: int, b: int, d: int) -> bool {
    &&& i == 0 || (i == 1 && s.len() > 0 && (s[0] == '+' || s[0] == '-'))
    &&& i <= a <= b <= s.len()
    &&& digits_between(s, i, a)
    &&& b > a ==> s[a] == '.' && digits_between(s, a + 1, b)
    &&& a > i || b > a + 1
    &&& b < s.len() ==> {
        &&& s[b] == 'e' || s[b] == 'E'
        &&& d == b + 1 || (d == b + 2 && (s[b + 1] == '+' || s[b + 1] == '-'))
        &&& d < s.len()
        &&& digits_between(s, d, s.len() as int)
    }
}

/// `s` is this word, behind `i` characters, in letters of either case.
pub open spec fn in_either_case(s: Seq<char>, i: int, w: Seq<char>) -> bool {
    &&& s.len() == i + w.len()
    &&& forall|k: int|
        0 <= k < w.len() ==> (#[trigger] w[k]) == s[i + k] || w[k] as u32 == s[i + k] as u32 + 32
}

/// `s` is a word that stands for a number, perhaps behind a sign.
pub open spec fn number_word(s: Seq<char>, i: int) -> bool {
    &&& i == 0 || (i == 1 && s.len() > 0 && (s[0] == '+' || s[0] == '-'))
    &&& in_either_case(s, i, "inf"@) || in_either_case(s, i, "infinity"@) || in_either_case(
        s,
        i,
        "nan"@,
    )
}

proof fn lemma_digit_code(c: char)
    ensures
        number::digit(c) <==> 0x30 <= c as u32 <= 0x39,
{
}

proof fn lemma_same_code(a: char, b: char)
    requires
        a as u32 == b as u32,
    ensures
        a == b,
{
}

proof fn lemma_hex_char(c: char)
    ensures
        hex_char(c) <==> text::hex_value(c) is Some,
{
    let u = c as u32;
    if 0x30 <= u <= 0x39 {
        readback::lemma_hex_value(c, (u - 0x30) as u8);
    } else if 0x41 <= u <= 0x46 {
        readback::lemma_hex_value(c, (u - 0x41 + 10) as u8);
    } else if 0x61 <= u <= 0x66 {
        readback::lemma_hex_value(c, (u - 0x61 + 10) as u8);
    }
    if let Some(d) = text::hex_value(c) {
        readback::lemma_hex_value(c, d);
    }
}

proof fn lemma_digits_end(s: Seq<char>, i: int)
    requires
        0 <= i <= s.len(),
    ensures
        i <= number::digits_end(s, i) <= s.len(),
        digits_between(s, i, number::digits_end(s, i)),
        number::digits_end(s, i) < s.len() ==> !number::digit(s[number::digits_end(s, i)]),
    decreases s.len() - i,
{
    if i < s.len() && number::digit(s[i]) {
        lemma_digits_end(s, i + 1);
    }
}

proof fn lemma_digits_end_is(s: Seq<char>, i: int, e: int)
    requires
        0 <= i <= e <= s.len(),
        digits_between(s, i, e),
        e < s.len() ==> !number::digit(s[e]),
    ensures
        number::digits_end(s, i) == e,
{
    lemma_digits_end(s, i);
    let f = number::digits_end(s, i);
    if f < e {
        lemma_digit_code(s[f]);
        assert(0x30 <= s[f] as u32 <= 0x39);
    }
    if e < f {
        lemma_digit_code(s[e]);
        assert(0x30 <= s[e] as u32 <= 0x39);
    }
}

/// A text is a number exactly where it is a decimal number, or a word that stands for
/// one.
pub proof fn lemma_number(t: &str, r: bool)
    requires
        call_ensures(number::is_number, (t,), r),
    ensures
        r <==> (exists|i: int, a: int, b: int, d: int| #[trigger] decimal_shape(t@, i, a, b, d))
            || (exists|i: int| #[trigger] number_word(t@, i)),
{
    let s = t@;
    if r {
        lemma_is_shaped(s);
    }
    if exists|i: int, a: int, b: int, d: int| #[trigger] decimal_shape(s, i, a, b, d) {
        let (i, a, b, d) = choose|i: int, a: int, b: int, d: int| #[trigger]
            decimal_shape(s, i, a, b, d);
        lemma_shaped_is(s, i, a, b, d);
    }
    if exists|i: int| #[trigger] number_word(s, i) {
        let i = choose|i: int| #[trigger] number_word(s, i);
        lemma_word_is(s, i);
    }
}

proof fn lemma_is_shaped(s: Seq<char>)
    requires
        number::number(s),
    ensures
        (exists|i: int, a: int, b: int, d: int| #[trigger] decimal_shape(s, i, a, b, d)) || (
        exists|i: int| #[trigger] number_word(s, i)),
{
    let i = number::after_sign(s, 0);
    if number::decimal_number(s, i) {
        lemma_digits_end(s, i);
        let a = number::digits_end(s, i);
        let b = number::after_point(s, a);
        if a < s.len() && s[a] == '.' {
            lemma_digits_end(s, a + 1);
        }
        let d = number::after_sign(s, b + 1);
        if b < s.len() {
            lemma_digits_end(s, d);
        }
        assert(decimal_shape(s, i, a, b, d));
    } else {
        lemma_cases(s, i);
        assert(number_word(s, i));
    }
}

proof fn lemma_shaped_is(s: Seq<char>, i: int, a: int, b: int, d: int)
    requires
        decimal_shape(s, i, a, b, d),
    ensures
        number::number(s),
{
    if i == 0 && s.len() > 0 {
        if a > 0 {
            assert(0x30 <= s[0] as u32 <= 0x39);
        }
        assert(s[0] != '+' && s[0] != '-');
    }
    assert(number::after_sign(s, 0) == i);
    lemma_digits_end_is(s, i, a);
    if b > a {
        lemma_digits_end_is(s, a + 1, b);
    }
    assert(number::after_point(s, a) == b);
    if b < s.len() {
        if d == b + 1 {
            assert(0x30 <= s[d] as u32 <= 0x39);
        }
        assert(number::after_sign(s, b + 1) == d);
        lemma_digits_end_is(s, d, s.len() as int);
    }
}

proof fn lemma_cases(s: Seq<char>, i: int)
    requires
        0 <= i <= s.len(),
    ensures
        number::word(s, i, "inf"@, "INF"@) <==> in_either_case(s, i, "inf"@),
        number::word(s, i, "infinity"@, "INFINITY"@) <==> in_either_case(s, i, "infinity"@),
        number::word(s, i, "nan"@, "NAN"@) <==> in_either_case(s, i, "nan"@),
{
    reveal_strlit("inf");
    reveal_strlit("INF");
    reveal_strlit("infinity");
    reveal_strlit("INFINITY");
    reveal_strlit("nan");
    reveal_strlit("NAN");
    lemma_case(s, i, "inf"@, "INF"@);
    lemma_case(s, i, "infinity"@, "INFINITY"@);
    lemma_case(s, i, "nan"@, "NAN"@);
}

proof fn lemma_case(s: Seq<char>, i: int, small: Seq<char>, capital: Seq<char>)
    requires
        0 <= i <= s.len(),
        small.len() == capital.len(),
        forall|k: int|
            0 <= k < small.len() ==> (#[trigger] small[k]) as u32 == capital[k] as u32 + 32,
    ensures
        number::word(s, i, small, capital) <==> in_either_case(s, i, small),
{
    if number::word(s, i, small, capital) {
        assert forall|k: int| 0 <= k < small.len() implies (#[trigger] small[k]) == s[i + k]
            || small[k] as u32 == s[i + k] as u32 + 32 by {}
    }
    if in_either_case(s, i, small) {
        assert forall|k: int| 0 <= k < small.len() implies (#[trigger] s[i + k]) == small[k] || s[i
            + k] == capital[k] by {
            assert(small[k] as u32 == capital[k] as u32 + 32);
            if small[k] != s[i + k] {
                lemma_same_code(s[i + k], capital[k]);
            }
        }
    }
}

proof fn lemma_word_is(s: Seq<char>, i: int)
    requires
        number_word(s, i),
    ensures
        number::number(s),
{
    reveal_strlit("inf");
    reveal_strlit("infinity");
    reveal_strlit("nan");
    assert("inf"@[0] == 'i' && "infinity"@[0] == 'i' && "nan"@[0] == 'n');
    if i == 0 {
        assert(s[i + 0] != '+' && s[i + 0] != '-');
    }
    lemma_cases(s, i);
}

// --------------------------------------------------------------- hexadecimal

/// A character that is a hexadecimal digit, of either case.
pub open spec fn hex_char(c: char) -> bool {
    let u = c as u32;
    0x30 <= u <= 0x39 || 0x41 <= u <= 0x46 || 0x61 <= u <= 0x66
}

/// Nothing but hexadecimal digits.
pub open spec fn all_hex(s: Seq<char>) -> bool {
    forall|i: int| 0 <= i < s.len() ==> hex_char(#[trigger] s[i])
}

/// What stands behind a plus sign, where there is one.
pub open spec fn unsigned(s: Seq<char>) -> Seq<char> {
    if s.len() > 1 && s[0] == '+' {
        s.skip(1)
    } else {
        s
    }
}

/// What digits say, to the base of 16.
pub open spec fn base_16(s: Seq<char>) -> int
    decreases s.len(),
{
    if s.len() == 0 {
        0
    } else {
        let u = s.last() as u32;
        16 * base_16(s.drop_last()) + (if u >= 0x61 {
            u - 0x61 + 10
        } else if u >= 0x41 {
            u - 0x41 + 10
        } else {
            u - 0x30
        })
    }
}

proof fn lemma_base_16(s: Seq<char>)
    ensures
        barrier::digits_value(s) is Some <==> all_hex(s),
        barrier::digits_value(s) matches Some(v) ==> v == base_16(s),
    decreases s.len(),
{
    if s.len() > 0 {
        let p = s.drop_last();
        lemma_base_16(p);
        let d = text::hex_value(s.last());
        lemma_hex_char(s.last());
        if d is Some {
            readback::lemma_hex_value(s.last(), d->Some_0);
        }
        if forall|i: int| 0 <= i < s.len() ==> hex_char(#[trigger] s[i]) {
            assert(hex_char(s[s.len() - 1]));
            assert forall|i: int| 0 <= i < p.len() implies hex_char(#[trigger] p[i]) by {
                assert(p[i] == s[i]);
            }
        }
        if barrier::digits_value(s) is Some {
            assert forall|i: int| 0 <= i < s.len() implies hex_char(#[trigger] s[i]) by {
                if i < p.len() {
                    assert(p[i] == s[i]);
                }
            }
        }
    }
}

/// A hexadecimal number is its digits, of which there is one at least, perhaps behind
/// a plus sign, as long as 64 bits hold it.
pub proof fn lemma_hex_number(s: &str, r: Option<u64>)
    requires
        call_ensures(barrier::parse_hex, (s,), r),
    ensures
        r is Some <==> unsigned(s@).len() > 0 && all_hex(unsigned(s@)) && base_16(unsigned(s@))
            <= u64::MAX,
        r matches Some(v) ==> v == base_16(unsigned(s@)),
{
    let d = unsigned(s@);
    lemma_base_16(d);
    if let Some(v) = r {
        assert(barrier::digits_value(d) == Some(v as nat));
    }
}

} // verus!
