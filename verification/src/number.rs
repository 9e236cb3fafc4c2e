//! Texts that stand for floating-point numbers, by the grammar that std gives
//! for them. What number a text stands for is not asked here.

use vstd::prelude::*;

use crate::text::chars_of;

verus! {

/// `c` is a decimal digit.
pub open spec fn digit(c: char) -> bool {
    '0' <= c && c <= '9'
}

/// Where the digits end that stand from `i` on.
pub open spec fn digits_end(s: Seq<char>, i: int) -> int
    decreases s.len() - i,
{
    if 0 <= i < s.len() && digit(s[i]) {
        digits_end(s, i + 1)
    } else {
        i
    }
}

/// Where a text goes on after a sign, if one stands at `i`.
pub open spec fn after_sign(s: Seq<char>, i: int) -> int {
    if i < s.len() && (s[i] == '+' || s[i] == '-') {
        i + 1
    } else {
        i
    }
}

/// Where a text goes on after digits and a point, if one stands at `i`, with the
/// digits behind it.
pub open spec fn after_point(s: Seq<char>, i: int) -> int {
    if i < s.len() && s[i] == '.' {
        digits_end(s, i + 1)
    } else {
        i
    }
}

/// From `i` on there are digits, a point or both, and a digit on one side of
/// the point.
pub open spec fn has_digit(s: Seq<char>, i: int) -> bool {
    let a = digits_end(s, i);
    a > i || after_point(s, a) > a + 1
}

/// From `i` on there is an exponent and nothing else.
pub open spec fn exponent(s: Seq<char>, i: int) -> bool {
    let d = after_sign(s, i + 1);
    &&& i < s.len()
    &&& s[i] == 'e' || s[i] == 'E'
    &&& d < s.len()
    &&& digits_end(s, d) == s.len()
}

/// From `i` on there is a decimal number, with or without an exponent.
pub open spec fn decimal_number(s: Seq<char>, i: int) -> bool {
    let end = after_point(s, digits_end(s, i));
    has_digit(s, i) && (end == s.len() || exponent(s, end))
}

/// From `i` on there is a word and nothing else, each letter small or capital.
pub open spec fn word(s: Seq<char>, i: int, small: Seq<char>, capital: Seq<char>) -> bool {
    &&& s.len() - i == small.len()
    &&& forall|k: int|
        0 <= k < small.len() ==> (#[trigger] s[i + k]) == small[k] || s[i + k] == capital[k]
}

/// The text stands for a floating-point number.
pub open spec fn number(s: Seq<char>) -> bool {
    let i = after_sign(s, 0);
    ||| decimal_number(s, i)
    ||| word(s, i, "inf"@, "INF"@)
    ||| word(s, i, "infinity"@, "INFINITY"@)
    ||| word(s, i, "nan"@, "NAN"@)
}

fn skip_digits(v: &Vec<char>, from: usize) -> (r: usize)
    requires
        from <= v@.len(),
    ensures
        from <= r <= v@.len(),
        r == digits_end(v@, from as int),
{
    let mut i: usize = from;
    while i < v.len() && '0' <= v[i] && v[i] <= '9'
        invariant
            from <= i <= v@.len(),
            digits_end(v@, from as int) == digits_end(v@, i as int),
        decreases v@.len() - i,
    {
        i = i + 1;
    }
    i
}

fn skip_sign(v: &Vec<char>, from: usize) -> (r: usize)
    requires
        from <= v@.len(),
    ensures
        from <= r <= v@.len(),
        r == after_sign(v@, from as int),
{
    if from < v.len() && (v[from] == '+' || v[from] == '-') {
        from + 1
    } else {
        from
    }
}

fn is_exponent(v: &Vec<char>, from: usize) -> (r: bool)
    requires
        from <= v@.len(),
    ensures
        r == exponent(v@, from as int),
{
    if from >= v.len() || !(v[from] == 'e' || v[from] == 'E') {
        return false;
    }
    let d: usize = skip_sign(v, from + 1);
    d < v.len() && skip_digits(v, d) == v.len()
}

fn is_decimal_number(v: &Vec<char>, from: usize) -> (r: bool)
    requires
        from <= v@.len(),
    ensures
        r == decimal_number(v@, from as int),
{
    let a: usize = skip_digits(v, from);
    let mut end: usize = a;
    if a < v.len() && v[a] == '.' {
        end = skip_digits(v, a + 1);
    }
    let digits: bool = a > from || (end > a && end - a > 1);
    digits && (end == v.len() || is_exponent(v, end))
}

fn is_word(v: &Vec<char>, from: usize, small: &str, capital: &str) -> (r: bool)
    requires
        from <= v@.len(),
        small@.len() == capital@.len(),
    ensures
        r == word(v@, from as int, small@, capital@),
{
    let lo = chars_of(small);
    let up = chars_of(capital);
    let n: usize = v.len();
    if n - from != lo.len() {
        return false;
    }
    let mut k: usize = 0;
    while k < lo.len()
        invariant
            k <= lo@.len(),
            lo@.len() == up@.len(),
            lo@ == small@,
            up@ == capital@,
            n == v@.len(),
            from + lo@.len() == n,
            forall|j: int|
                0 <= j < k ==> (#[trigger] v@[from + j]) == small@[j] || v@[from + j]
                    == capital@[j],
        decreases lo@.len() - k,
    {
        if v[from + k] != lo[k] && v[from + k] != up[k] {
            assert(v@[from + k as int] != small@[k as int]);
            return false;
        }
        k = k + 1;
    }
    true
}

/// Whether a text stands for a floating-point number.
pub fn is_number(s: &str) -> (r: bool)
    ensures
        r == number(s@),
{
    proof {
        reveal_strlit("inf");
        reveal_strlit("INF");
        reveal_strlit("infinity");
        reveal_strlit("INFINITY");
        reveal_strlit("nan");
        reveal_strlit("NAN");
    }
    let v = chars_of(s);
    let from: usize = skip_sign(&v, 0);
    is_decimal_number(&v, from) || is_word(&v, from, "inf", "INF") || is_word(
        &v,
        from,
        "infinity",
        "INFINITY",
    ) || is_word(&v, from, "nan", "NAN")
}

} // verus!
