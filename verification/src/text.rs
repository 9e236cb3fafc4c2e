//! Text that the formats here are made of: decimal and hexadecimal digits,
//! white space, and the pieces of a string.

use vstd::prelude::*;
use vstd::utf8;

verus! {

/// `String::push` of the standard library appends one character.
pub assume_specification[ String::push ](s: &mut String, c: char)
    ensures
        final(s)@ == old(s)@.push(c),
;

/// The characters with Unicode's `White_Space` property.
pub open spec fn white_space(c: char) -> bool {
    let u = c as u32;
    ||| 0x09 <= u <= 0x0d
    ||| u == 0x20
    ||| u == 0x85
    ||| u == 0xa0
    ||| u == 0x1680
    ||| 0x2000 <= u <= 0x200a
    ||| u == 0x2028
    ||| u == 0x2029
    ||| u == 0x202f
    ||| u == 0x205f
    ||| u == 0x3000
}

/// `char::is_whitespace` of the standard library tells whether a character has
/// Unicode's `White_Space` property.
pub assume_specification[ char::is_whitespace ](c: char) -> (r: bool)
    ensures
        r == white_space(c),
;

// ------------------------------------------------------------------ digits

/// The character of a digit below 16, in lower case.
pub open spec fn digit_char(d: nat) -> char {
    if d < 10 {
        ('0' as u32 + d) as char
    } else {
        ('a' as u32 + (d - 10)) as char
    }
}

/// The character of the digit `d`.
pub fn digit(d: u8) -> (c: char)
    requires
        d < 16,
    ensures
        c == digit_char(d as nat),
{
    if d < 10 {
        (0x30u8 + d) as char
    } else {
        (0x61u8 + (d - 10)) as char
    }
}

/// The decimal digits of `n`, without leading zeros.
pub open spec fn decimal_digits(n: nat) -> Seq<char>
    decreases n,
{
    if n < 10 {
        seq![digit_char(n)]
    } else {
        decimal_digits(n / 10).push(digit_char(n % 10))
    }
}

/// `n` in decimal, with leading zeros up to `width` characters.
pub open spec fn padded_digits(n: nat, width: nat) -> Seq<char> {
    let d = decimal_digits(n);
    if d.len() >= width {
        d
    } else {
        Seq::new((width - d.len()) as nat, |i: int| '0') + d
    }
}

/// The decimal digits of `n`.
pub fn decimal(n: u64) -> (s: String)
    ensures
        s@ == decimal_digits(n as nat),
    decreases n,
{
    if n < 10 {
        let mut s = String::new();
        s.push(digit(n as u8));
        assert(s@ =~= decimal_digits(n as nat));
        s
    } else {
        let mut s = decimal(n / 10);
        s.push(digit((n % 10) as u8));
        s
    }
}

/// `n` in decimal, with leading zeros up to `width` characters.
pub fn decimal_padded(n: u64, width: usize) -> (s: String)
    ensures
        s@ == padded_digits(n as nat, width as nat),
{
    let digits = decimal(n);
    let len: usize = digits.as_str().unicode_len();
    let mut s = String::new();
    if len < width {
        let missing: usize = width - len;
        let mut i: usize = 0;
        while i < missing
            invariant
                i <= missing,
                s@ =~= Seq::new(i as nat, |k: int| '0'),
            decreases missing - i,
        {
            s.push('0');
            i = i + 1;
        }
    }
    s.append(digits.as_str());
    assert(s@ =~= padded_digits(n as nat, width as nat));
    s
}

// -------------------------------------------------------------- hexadecimal

/// Two lower-case hexadecimal digits per byte.
pub open spec fn hex_digits(b: Seq<u8>) -> Seq<char>
    decreases b.len(),
{
    if b.len() == 0 {
        Seq::empty()
    } else {
        hex_digits(b.drop_last()) + seq![
            digit_char((b.last() / 16) as nat),
            digit_char((b.last() % 16) as nat),
        ]
    }
}

/// Two lower-case hexadecimal digits per byte.
pub fn hex_encode(b: &[u8]) -> (s: String)
    ensures
        s@ == hex_digits(b@),
{
    let mut s = String::new();
    let mut i: usize = 0;
    assert(b@.take(0) =~= Seq::empty());
    while i < b.len()
        invariant
            i <= b@.len(),
            s@ == hex_digits(b@.take(i as int)),
        decreases b@.len() - i,
    {
        let x: u8 = b[i];
        s.push(digit(x / 16));
        s.push(digit(x % 16));
        assert(b@.take(i + 1).drop_last() =~= b@.take(i as int));
        assert(s@ =~= hex_digits(b@.take(i + 1)));
        i = i + 1;
    }
    assert(b@.take(i as int) =~= b@);
    s
}

/// Two lower-case hexadecimal digits per byte, for the code of a contract.
pub fn hex_bytes(b: &[u8]) -> (s: String)
    ensures
        s@ == hex_digits(b@),
{
    hex_encode(b)
}

/// Why a string is no hexadecimal byte string.
#[derive(Clone, Copy, Debug, PartialEq, Eq, Structural)]
pub enum HexError {
    /// The string has an odd number of bytes.
    Odd,
    /// A pair of characters is no number in base 16.
    Digit,
}

/// The value of a hexadecimal digit of either case.
pub open spec fn hex_value(c: char) -> Option<u8> {
    if '0' <= c <= '9' {
        Some((c as u32 - '0' as u32) as u8)
    } else if 'a' <= c <= 'f' {
        Some((c as u32 - 'a' as u32 + 10) as u8)
    } else if 'A' <= c <= 'F' {
        Some((c as u32 - 'A' as u32 + 10) as u8)
    } else {
        None
    }
}

/// The number that two characters stand for in base 16. The first may be a
/// plus sign.
pub open spec fn pair_value(a: char, b: char) -> Option<u8> {
    match (hex_value(a), hex_value(b)) {
        (Some(x), Some(y)) => Some((x * 16 + y) as u8),
        (None, Some(y)) => if a == '+' { Some(y) } else { None },
        _ => None,
    }
}

/// The number of bytes that UTF-8 takes for a character.
pub open spec fn utf8_width(c: char) -> nat {
    let u = c as u32;
    if u < 0x80 {
        1
    } else if u < 0x800 {
        2
    } else if u < 0x10000 {
        3
    } else {
        4
    }
}

/// Cutting `s` into slices of two bytes meets a pair that is no number before
/// it meets a character that a cut would split.
pub open spec fn pairs_whole(s: Seq<char>) -> bool
    decreases s.len(),
{
    if s.len() == 0 {
        true
    } else if utf8_width(s[0]) == 1 {
        &&& s.len() >= 2
        &&& utf8_width(s[1]) == 1
        &&& pair_value(s[0], s[1]) is Some ==> pairs_whole(s.subrange(2, s.len() as int))
    } else {
        utf8_width(s[0]) == 2
    }
}

/// The bytes that the pairs of `s` stand for, or `None` where a pair is no
/// number.
pub open spec fn pair_bytes(s: Seq<char>) -> Option<Seq<u8>>
    decreases s.len(),
{
    if s.len() == 0 {
        Some(Seq::empty())
    } else if s.len() == 1 {
        None
    } else {
        match (pair_value(s[0], s[1]), pair_bytes(s.subrange(2, s.len() as int))) {
            (Some(v), Some(rest)) => Some(seq![v] + rest),
            _ => None,
        }
    }
}

/// The characters of `s`.
pub fn chars_of(s: &str) -> (v: Vec<char>)
    ensures
        v@ == s@,
{
    let mut v: Vec<char> = Vec::new();
    for c in it: s.chars()
        invariant
            v@ == it.seq().take(it.index() as int),
            it.seq() == s@,
    {
        v.push(c);
        assert(it.seq().take(it.index() + 1) =~= it.seq().take(it.index() as int).push(c));
    }
    assert(v@ =~= s@);
    v
}

/// The value of a hexadecimal digit of either case.
pub fn hex_value_of(c: char) -> (r: Option<u8>)
    ensures
        r == hex_value(c),
{
    if '0' <= c && c <= '9' {
        Some((c as u32 - 0x30) as u8)
    } else if 'a' <= c && c <= 'f' {
        Some((c as u32 - 0x61 + 10) as u8)
    } else if 'A' <= c && c <= 'F' {
        Some((c as u32 - 0x41 + 10) as u8)
    } else {
        None
    }
}

/// The number that two characters stand for in base 16.
pub fn pair_value_of(a: char, b: char) -> (r: Option<u8>)
    ensures
        r == pair_value(a, b),
{
    match (hex_value_of(a), hex_value_of(b)) {
        (Some(x), Some(y)) => Some(x * 16 + y),
        (None, Some(y)) => if a == '+' {
            Some(y)
        } else {
            None
        },
        _ => None,
    }
}

/// Cutting `s` into two-byte slices never splits a character before a slice
/// turns out to be no number.
pub open spec fn hex_cuts(s: Seq<char>) -> bool {
    utf8::encode_utf8(s).len() % 2 == 0 ==> pairs_whole(s)
}

/// Whether `hex_decode` accepts to look at `s`.
pub fn hex_cuts_whole(s: &str) -> (r: bool)
    ensures
        r == hex_cuts(s@),
{
    if s.as_bytes().len() % 2 != 0 {
        return true;
    }
    let v = chars_of(s);
    let mut i: usize = 0;
    assert(v@.subrange(0, v@.len() as int) =~= v@);
    while i < v.len()
        invariant
            i <= v@.len(),
            v@ == s@,
            utf8::encode_utf8(s@).len() % 2 == 0,
            pairs_whole(s@) == pairs_whole(v@.subrange(i as int, v@.len() as int)),
        decreases v@.len() - i,
    {
        let ghost rest = v@.subrange(i as int, v@.len() as int);
        let a: char = v[i];
        if (a as u32) >= 0x80 {
            return (a as u32) < 0x800;
        }
        if i + 1 >= v.len() || (v[i + 1] as u32) >= 0x80 {
            return false;
        }
        if pair_value_of(a, v[i + 1]).is_none() {
            return true;
        }
        assert(rest.subrange(2, rest.len() as int) =~= v@.subrange(i + 2, v@.len() as int));
        i = i + 2;
    }
    true
}

/// What a string of hexadecimal pairs stands for.
pub open spec fn hex_decoded(s: Seq<char>) -> Result<Seq<u8>, HexError> {
    if utf8::encode_utf8(s).len() % 2 != 0 {
        Err(HexError::Odd)
    } else {
        match pair_bytes(s) {
            Some(b) => Ok(b),
            None => Err(HexError::Digit),
        }
    }
}

/// Reads a string of hexadecimal pairs.
pub fn hex_decode(s: &str) -> (r: Result<Vec<u8>, HexError>)
    requires
        hex_cuts(s@),
    ensures
        match r {
            Ok(v) => hex_decoded(s@) == Ok::<Seq<u8>, HexError>(v@),
            Err(e) => hex_decoded(s@) == Err::<Seq<u8>, HexError>(e),
        },
{
    if s.as_bytes().len() % 2 != 0 {
        return Err(HexError::Odd);
    }
    let v = chars_of(s);
    let mut out: Vec<u8> = Vec::new();
    let mut i: usize = 0;
    assert(v@.subrange(0, v@.len() as int) =~= v@);
    while i < v.len()
        invariant
            i <= v@.len(),
            v@ == s@,
            utf8::encode_utf8(s@).len() % 2 == 0,
            pairs_whole(v@.subrange(i as int, v@.len() as int)),
            pair_bytes(s@) is Some <==> pair_bytes(v@.subrange(i as int, v@.len() as int)) is Some,
            pair_bytes(v@.subrange(i as int, v@.len() as int)) matches Some(rest) ==> pair_bytes(s@)
                == Some(out@ + rest),
        decreases v@.len() - i,
    {
        let ghost rest = v@.subrange(i as int, v@.len() as int);
        if (v[i] as u32) >= 0x80 {
            return Err(HexError::Digit);
        }
        match pair_value_of(v[i], v[i + 1]) {
            None => {
                return Err(HexError::Digit);
            },
            Some(b) => {
                let ghost before = out@;
                out.push(b);
                proof {
                    let tail = v@.subrange(i + 2, v@.len() as int);
                    assert(rest.subrange(2, rest.len() as int) =~= tail);
                    if let Some(t) = pair_bytes(tail) {
                        assert(before + (seq![b] + t) =~= before.push(b) + t);
                    }
                }
            },
        }
        i = i + 2;
    }
    assert(out@ + Seq::<u8>::empty() =~= out@);
    Ok(out)
}

proof fn lemma_digit_value(d: nat)
    requires
        d < 16,
    ensures
        hex_value(digit_char(d)) == Some(d as u8),
        (digit_char(d) as u32) < 0x80,
{
}

proof fn lemma_pairs_concat(a: Seq<char>, b: Seq<char>)
    requires
        a.len() % 2 == 0,
        utf8::is_ascii_chars(a),
        utf8::is_ascii_chars(b),
        pair_bytes(a) is Some,
        pair_bytes(b) is Some,
        pairs_whole(b),
    ensures
        pair_bytes(a + b) == Some(pair_bytes(a)->0 + pair_bytes(b)->0),
        pairs_whole(a + b),
    decreases a.len(),
{
    if a.len() == 0 {
        assert(a + b =~= b);
        assert(pair_bytes(a)->0 + pair_bytes(b)->0 =~= pair_bytes(b)->0);
    } else {
        let tail = a.subrange(2, a.len() as int);
        lemma_pairs_concat(tail, b);
        assert((a + b).subrange(2, (a + b).len() as int) =~= tail + b);
        let v = pair_value(a[0], a[1])->0;
        assert(seq![v] + (pair_bytes(tail)->0 + pair_bytes(b)->0) =~= (seq![v] + pair_bytes(tail)->0)
            + pair_bytes(b)->0);
        assert(utf8::is_ascii_chars(a));
        assert((a + b)[0] == a[0] && (a + b)[1] == a[1]);
    }
}

/// Decoding undoes encoding: the hexadecimal digits of a byte string are
/// accepted by `hex_decode`, which gives the byte string back.
pub proof fn lemma_hex_round_trip(b: Seq<u8>)
    ensures
        hex_cuts(hex_digits(b)),
        utf8::encode_utf8(hex_digits(b)).len() % 2 == 0,
        pair_bytes(hex_digits(b)) == Some(b),
        pairs_whole(hex_digits(b)),
        utf8::is_ascii_chars(hex_digits(b)),
        hex_digits(b).len() == 2 * b.len(),
    decreases b.len(),
{
    if b.len() > 0 {
        lemma_hex_round_trip(b.drop_last());
        let hi = (b.last() / 16) as nat;
        let lo = (b.last() % 16) as nat;
        let two = seq![digit_char(hi), digit_char(lo)];
        lemma_digit_value(hi);
        lemma_digit_value(lo);
        assert(two.subrange(2, 2) =~= Seq::empty());
        assert(pairs_whole(two.subrange(2, 2)));
        assert(pair_bytes(two.subrange(2, 2)) == Some(Seq::<u8>::empty()));
        assert(pair_bytes(two) == Some(seq![b.last()])) by {
            assert(seq![b.last()] + Seq::<u8>::empty() =~= seq![b.last()]);
        }
        lemma_pairs_concat(hex_digits(b.drop_last()), two);
        assert(b.drop_last() + seq![b.last()] =~= b);
    }
    utf8::is_ascii_chars_encode_utf8(hex_digits(b));
}

} // verus!
