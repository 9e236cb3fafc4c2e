//! What is written can be read back: words, numbers, texts and records, place by
//! place.

use vstd::arithmetic::div_mod;
use vstd::arithmetic::power;
use vstd::prelude::*;

use crate::hash;
use crate::primitives;
use crate::primitives::{Address, B256, U256};
use crate::text;
use crate::text::HexError;
use crate::walk::{Row, RowView};

verus! {

// --------------------------------------------------------------------- words

/// The byte at place `i` of a number in `n` bytes, most significant first, is the
/// digit of the number at that place, to the base 256.
pub proof fn lemma_be_byte(v: nat, n: nat, i: int)
    requires
        0 <= i < n,
    ensures
        primitives::be_bytes(v, n).len() == n,
        primitives::be_bytes(v, n)[i] as int == (v as int / power::pow(256, (n - 1 - i) as nat))
            % 256,
    decreases n,
{
    primitives::lemma_be_bytes_len(v, n);
    let m = (n - 1) as nat;
    primitives::lemma_be_bytes_len(v / 256, m);
    if i == n - 1 {
        power::lemma_pow0(256);
        div_mod::lemma_div_basics(v as int);
    } else {
        lemma_be_byte(v / 256, m, i);
        let k = (m - 1 - i) as nat;
        power::lemma_pow_positive(256, k);
        reveal(power::pow);
        assert(power::pow(256, (k + 1) as nat) == 256 * power::pow(256, k));
        div_mod::lemma_div_denominator(v as int, 256, power::pow(256, k));
    }
}

/// The number that bytes say, most significant first: the bytes in front count
/// for as many powers of 256 as there are bytes behind them.
pub proof fn lemma_be_value_joined(a: Seq<u8>, b: Seq<u8>)
    ensures
        primitives::be_value(a + b) == primitives::be_value(a) * power::pow(256, b.len())
            + primitives::be_value(b),
        b.len() == 1 ==> primitives::be_value(b) == b[0],
    decreases b.len(),
{
    if b.len() == 0 {
        power::lemma_pow0(256);
        assert(a + b =~= a);
    } else {
        let p = b.drop_last();
        lemma_be_value_joined(a, p);
        assert((a + b).drop_last() =~= a + p);
        reveal(power::pow);
        let x = primitives::be_value(a) as int;
        let w = power::pow(256, p.len());
        assert(power::pow(256, b.len()) == 256 * w);
        assert((x * w + primitives::be_value(p)) * 256 == x * (256 * w) + primitives::be_value(p)
            * 256) by (nonlinear_arith);
        if b.len() == 1 {
            assert(p =~= Seq::<u8>::empty());
        }
    }
}

/// The number that eight bytes say, least significant first.
pub proof fn lemma_le_value_of_eight(s: Seq<u8>)
    requires
        s.len() == 8,
    ensures
        primitives::le_value(s) == s[0] + 0x100 * s[1] + 0x1_0000 * s[2] + 0x100_0000 * s[3]
            + 0x1_0000_0000 * s[4] + 0x100_0000_0000 * s[5] + 0x1_0000_0000_0000 * s[6]
            + 0x100_0000_0000_0000 * s[7],
{
    reveal_with_fuel(primitives::le_value, 9);
    assert(s.skip(1).skip(1) =~= s.skip(2));
    assert(s.skip(2).skip(1) =~= s.skip(3));
    assert(s.skip(3).skip(1) =~= s.skip(4));
    assert(s.skip(4).skip(1) =~= s.skip(5));
    assert(s.skip(5).skip(1) =~= s.skip(6));
    assert(s.skip(6).skip(1) =~= s.skip(7));
    assert(s.skip(7).skip(1) =~= s.skip(8));
}

/// The bytes of a hash are those of its two halves, the higher half first.
pub proof fn lemma_b256_bytes(h: B256, i: int)
    requires
        0 <= i < 32,
    ensures
        h.bytes().len() == 32,
        i < 16 ==> h.bytes()[i] as int == (h.hi as int / power::pow(256, (15 - i) as nat)) % 256,
        i >= 16 ==> h.bytes()[i] as int == (h.lo as int / power::pow(256, (31 - i) as nat)) % 256,
{
    primitives::lemma_be_bytes_len(h.hi as nat, 16);
    primitives::lemma_be_bytes_len(h.lo as nat, 16);
    if i < 16 {
        lemma_be_byte(h.hi as nat, 16, i);
    } else {
        lemma_be_byte(h.lo as nat, 16, i - 16);
    }
}

/// The bytes of a number are those of its two halves, the higher half first, and
/// say the number.
pub proof fn lemma_u256_bytes(v: U256, i: int)
    requires
        0 <= i < 32,
    ensures
        v.bytes().len() == 32,
        i < 16 ==> v.bytes()[i] as int == (v.hi as int / power::pow(256, (15 - i) as nat)) % 256,
        i >= 16 ==> v.bytes()[i] as int == (v.lo as int / power::pow(256, (31 - i) as nat)) % 256,
        primitives::be_value(v.bytes()) == v.hi
            * 0x1_0000_0000_0000_0000_0000_0000_0000_0000 + v.lo,
        v.value() == v.hi * 0x1_0000_0000_0000_0000_0000_0000_0000_0000 + v.lo,
{
    let a = primitives::be_bytes(v.hi as nat, 16);
    let b = primitives::be_bytes(v.lo as nat, 16);
    primitives::lemma_be_bytes_len(v.hi as nat, 16);
    primitives::lemma_be_bytes_len(v.lo as nat, 16);
    if i < 16 {
        lemma_be_byte(v.hi as nat, 16, i);
    } else {
        lemma_be_byte(v.lo as nat, 16, i - 16);
    }
    primitives::lemma_pow256_16();
    primitives::lemma_be_round_trip(v.hi as nat, 16);
    primitives::lemma_be_round_trip(v.lo as nat, 16);
    lemma_be_value_joined(a, b);
    lemma_pow_of_sixteen();
}

proof fn lemma_pow_of_sixteen()
    ensures
        power::pow(256, 16) == 0x1_0000_0000_0000_0000_0000_0000_0000_0000int,
{
    reveal_with_fuel(power::pow, 17);
    assert(power::pow(256, 4) == 0x1_0000_0000int);
    power::lemma_pow_adds(256, 4, 4);
    power::lemma_pow_adds(256, 8, 8);
}

/// The bytes of an address: four of its higher part, then sixteen of its lower.
pub proof fn lemma_address_bytes(a: Address, i: int)
    requires
        0 <= i < 20,
    ensures
        a.bytes().len() == 20,
        i < 4 ==> a.bytes()[i] as int == (a.hi as int / power::pow(256, (3 - i) as nat)) % 256,
        i >= 4 ==> a.bytes()[i] as int == (a.lo as int / power::pow(256, (19 - i) as nat)) % 256,
{
    primitives::lemma_be_bytes_len(a.hi as nat, 4);
    primitives::lemma_be_bytes_len(a.lo as nat, 16);
    if i < 4 {
        lemma_be_byte(a.hi as nat, 4, i);
    } else {
        lemma_be_byte(a.lo as nat, 16, i - 4);
    }
}

/// Hashes, numbers and addresses stand in the order of their bytes, and are the
/// same where their bytes are.
pub proof fn lemma_words_in_byte_order(
    a: B256,
    b: B256,
    u: U256,
    v: U256,
    x: Address,
    y: Address,
)
    ensures
        a.before(b) <==> primitives::bytes_before(a.bytes(), b.bytes()),
        a == b <==> a.bytes() == b.bytes(),
        u.before(v) <==> primitives::bytes_before(u.bytes(), v.bytes()),
        u == v <==> u.bytes() == v.bytes(),
        u.before(v) <==> u.hi * 0x1_0000_0000_0000_0000_0000_0000_0000_0000 + u.lo < v.hi
            * 0x1_0000_0000_0000_0000_0000_0000_0000_0000 + v.lo,
        x.before(y) <==> primitives::bytes_before(x.bytes(), y.bytes()),
        x == y <==> x.bytes() == y.bytes(),
{
    primitives::lemma_b256_order(a, b);
    let c = B256 { hi: u.hi, lo: u.lo };
    let d = B256 { hi: v.hi, lo: v.lo };
    primitives::lemma_b256_order(c, d);
    assert(c.bytes() == u.bytes() && d.bytes() == v.bytes());
    primitives::lemma_be_bytes_len(x.hi as nat, 4);
    primitives::lemma_be_bytes_len(y.hi as nat, 4);
    primitives::lemma_be_bytes_len(x.lo as nat, 16);
    primitives::lemma_be_bytes_len(y.lo as nat, 16);
    primitives::lemma_pow256_16();
    primitives::lemma_be_round_trip(x.hi as nat, 4);
    primitives::lemma_be_round_trip(y.hi as nat, 4);
    primitives::lemma_be_round_trip(x.lo as nat, 16);
    primitives::lemma_be_round_trip(y.lo as nat, 16);
    primitives::lemma_bytes_order(x.bytes(), y.bytes());
    lemma_be_value_joined(
        primitives::be_bytes(x.hi as nat, 4),
        primitives::be_bytes(x.lo as nat, 16),
    );
    lemma_be_value_joined(
        primitives::be_bytes(y.hi as nat, 4),
        primitives::be_bytes(y.lo as nat, 16),
    );
    lemma_pow_of_sixteen();
}

// -------------------------------------------------------------------- digits

/// The sixteen digits.
pub proof fn lemma_digits()
    ensures
        text::digit_char(0) == '0',
        text::digit_char(1) == '1',
        text::digit_char(2) == '2',
        text::digit_char(3) == '3',
        text::digit_char(4) == '4',
        text::digit_char(5) == '5',
        text::digit_char(6) == '6',
        text::digit_char(7) == '7',
        text::digit_char(8) == '8',
        text::digit_char(9) == '9',
        text::digit_char(10) == 'a',
        text::digit_char(11) == 'b',
        text::digit_char(12) == 'c',
        text::digit_char(13) == 'd',
        text::digit_char(14) == 'e',
        text::digit_char(15) == 'f',
{
}

proof fn lemma_digit_code(d: nat)
    requires
        d < 16,
    ensures
        d < 10 ==> text::digit_char(d) as u32 == 0x30 + d,
        d >= 10 ==> text::digit_char(d) as u32 == 0x61 + (d - 10),
{
}

/// Two digits stand for each byte, the higher first.
pub proof fn lemma_hex_digit(b: Seq<u8>, i: int)
    requires
        0 <= i < b.len(),
    ensures
        text::hex_digits(b).len() == 2 * b.len(),
        text::hex_digits(b)[2 * i] == text::digit_char((b[i] / 16) as nat),
        text::hex_digits(b)[2 * i + 1] == text::digit_char((b[i] % 16) as nat),
    decreases b.len(),
{
    text::lemma_hex_round_trip(b);
    let p = b.drop_last();
    text::lemma_hex_round_trip(p);
    if i < p.len() {
        lemma_hex_digit(p, i);
    }
}

/// What a character stands for as a hexadecimal digit.
pub proof fn lemma_hex_value(c: char, d: u8)
    ensures
        text::hex_value(c) == Some(d) <==> {
            ||| 0x30 <= c as u32 <= 0x39 && d == c as u32 - 0x30
            ||| 0x41 <= c as u32 <= 0x46 && d == c as u32 - 0x41 + 10
            ||| 0x61 <= c as u32 <= 0x66 && d == c as u32 - 0x61 + 10
        },
{
}

/// What two characters stand for as a byte: their digits, the higher first, or
/// one digit behind a plus sign.
pub proof fn lemma_pair_value(a: char, b: char, v: u8)
    ensures
        text::pair_value(a, b) == Some(v) <==> exists|x: int, y: int|
            {
                &&& #[trigger] digit_of(b, y)
                &&& #[trigger] digit_of(a, x) || a == '+' && x == 0
                &&& v == 16 * x + y
            },
{
    if let Some(y) = text::hex_value(b) {
        assert(digit_of(b, y as int));
        if let Some(x) = text::hex_value(a) {
            assert(digit_of(a, x as int));
        } else {
            assert(!digit_of(a, 0));
        }
    }
}

/// `c` is the hexadecimal digit `d`, in either case.
pub open spec fn digit_of(c: char, d: int) -> bool {
    ||| 0x30 <= c as u32 <= 0x39 && d == c as u32 - 0x30
    ||| 0x41 <= c as u32 <= 0x46 && d == c as u32 - 0x41 + 10
    ||| 0x61 <= c as u32 <= 0x66 && d == c as u32 - 0x61 + 10
}

/// A text is decoded pair by pair, and only where each pair is a byte.
pub proof fn lemma_decoded_by_pairs(s: Seq<char>, b: Seq<u8>)
    ensures
        text::pair_bytes(s) == Some(b) <==> {
            &&& s.len() == 2 * b.len()
            &&& forall|i: int|
                0 <= i < b.len() ==> text::pair_value(s[2 * i], s[2 * i + 1]) == Some(
                    #[trigger] b[i],
                )
        },
    decreases s.len(),
{
    if s.len() == 0 {
        assert(b.len() == 0 ==> b =~= Seq::<u8>::empty());
    } else if s.len() >= 2 {
        let rest = s.subrange(2, s.len() as int);
        if b.len() > 0 {
            lemma_decoded_by_pairs(rest, b.skip(1));
            assert(b =~= seq![b[0]] + b.skip(1));
            if text::pair_bytes(s) == Some(b) {
                let v = text::pair_value(s[0], s[1])->0;
                let more = text::pair_bytes(rest)->0;
                assert(b == seq![v] + more);
                assert(b[0] == v);
                assert(more =~= b.skip(1));
            }
            if s.len() == 2 * b.len() {
                assert forall|i: int| 0 <= i < b.len() - 1 implies #[trigger] b.skip(1)[i] == b[i
                    + 1] && rest[2 * i] == s[2 * (i + 1)] && rest[2 * i + 1] == s[2 * (i + 1)
                    + 1] by {}
                if text::pair_bytes(s) == Some(b) {
                    assert forall|i: int| 0 <= i < b.len() implies text::pair_value(
                        s[2 * i],
                        s[2 * i + 1],
                    ) == Some(#[trigger] b[i]) by {
                        if i > 0 {
                            assert(b.skip(1)[i - 1] == b[i]);
                        }
                    }
                }
                if forall|i: int|
                    0 <= i < b.len() ==> text::pair_value(s[2 * i], s[2 * i + 1]) == Some(
                        #[trigger] b[i],
                    ) {
                    assert forall|i: int| 0 <= i < b.len() - 1 implies text::pair_value(
                        rest[2 * i],
                        rest[2 * i + 1],
                    ) == Some(#[trigger] b.skip(1)[i]) by {
                        assert(text::pair_value(s[2 * (i + 1)], s[2 * (i + 1) + 1]) == Some(
                            b[i + 1],
                        ));
                    }
                    assert(text::pair_value(s[0], s[1]) == Some(b[0]));
                }
            }
        }
    }
}

/// The number that decimal digits say.
pub open spec fn decimal_read(s: Seq<char>) -> int
    decreases s.len(),
{
    if s.len() == 0 {
        0
    } else {
        10 * decimal_read(s.drop_last()) + (s.last() as u32 - 0x30)
    }
}

/// A number in decimal says the number, in digits alone and without a zero in
/// front.
pub proof fn lemma_decimal_says(n: nat)
    ensures
        decimal_read(text::decimal_digits(n)) == n,
        text::decimal_digits(n).len() > 0,
        text::decimal_digits(n)[0] == '0' ==> n == 0 && text::decimal_digits(n).len() == 1,
        forall|i: int|
            0 <= i < text::decimal_digits(n).len() ==> 0x30 <= #[trigger] text::decimal_digits(
                n,
            )[i] as u32 <= 0x39,
    decreases n,
{
    let s = text::decimal_digits(n);
    lemma_digit_code(n % 10);
    reveal_with_fuel(decimal_read, 2);
    if n < 10 {
        assert(s.drop_last() =~= Seq::<char>::empty());
        assert(n % 10 == n);
    } else {
        lemma_decimal_says(n / 10);
        assert(s.drop_last() =~= text::decimal_digits(n / 10));
        assert(s[0] == text::decimal_digits(n / 10)[0]);
        assert forall|i: int| 0 <= i < s.len() implies 0x30 <= #[trigger] s[i] as u32 <= 0x39 by {
            if i < s.len() - 1 {
                assert(s[i] == text::decimal_digits(n / 10)[i]);
            }
        }
    }
}

proof fn lemma_zeros_in_front(k: nat, s: Seq<char>)
    ensures
        decimal_read(Seq::new(k, |i: int| '0') + s) == decimal_read(s),
    decreases k + s.len(),
{
    let z = Seq::new(k, |i: int| '0');
    if s.len() > 0 {
        lemma_zeros_in_front(k, s.drop_last());
        assert((z + s).drop_last() =~= z + s.drop_last());
    } else if k > 0 {
        let y = Seq::new((k - 1) as nat, |i: int| '0');
        lemma_zeros_in_front((k - 1) as nat, s);
        assert((z + s).drop_last() =~= y + s);
    } else {
        assert(z + s =~= s);
    }
}

/// A padded number says the number too, in as many digits as are asked for
/// unless it needs more.
pub proof fn lemma_padded_says(n: nat, width: nat)
    ensures
        decimal_read(text::padded_digits(n, width)) == n,
        text::padded_digits(n, width).len() >= width,
        text::padded_digits(n, width).len() > width ==> text::padded_digits(n, width)
            == text::decimal_digits(n),
        forall|i: int|
            0 <= i < text::padded_digits(n, width).len() ==> 0x30 <= #[trigger] text::padded_digits(
                n,
                width,
            )[i] as u32 <= 0x39,
{
    lemma_decimal_says(n);
    let d = text::decimal_digits(n);
    if d.len() < width {
        let k = (width - d.len()) as nat;
        lemma_zeros_in_front(k, d);
        let s = text::padded_digits(n, width);
        assert forall|i: int| 0 <= i < s.len() implies 0x30 <= #[trigger] s[i] as u32 <= 0x39 by {
            if i >= k {
                assert(s[i] == d[i - k]);
            }
        }
    }
}

// --------------------------------------------------------------------- texts

/// The number that hexadecimal digits say.
pub open spec fn hex_read(s: Seq<char>) -> int
    decreases s.len(),
{
    if s.len() == 0 {
        0
    } else {
        16 * hex_read(s.drop_last()) + (if s.last() as u32 >= 0x61 {
            s.last() as u32 - 0x61 + 10
        } else {
            s.last() as u32 - 0x30
        })
    }
}

proof fn lemma_hex_digits_say(b: Seq<u8>)
    ensures
        hex_read(text::hex_digits(b)) == primitives::be_value(b),
    decreases b.len(),
{
    if b.len() > 0 {
        let p = b.drop_last();
        let s = text::hex_digits(b);
        lemma_hex_digits_say(p);
        text::lemma_hex_round_trip(p);
        assert(s.drop_last().drop_last() =~= text::hex_digits(p));
        let high = (b.last() / 16) as nat;
        let low = (b.last() % 16) as nat;
        lemma_digit_code(high);
        lemma_digit_code(low);
        reveal_with_fuel(hex_read, 3);
        assert(s.last() == text::digit_char(low));
        assert(s.drop_last().last() == text::digit_char(high));
    }
}

proof fn lemma_without_zeros_says(s: Seq<char>)
    requires
        s.len() > 0,
    ensures
        hex_read(hash::without_leading_zeros(s)) == hex_read(s),
        hash::without_leading_zeros(s).len() > 0,
        hash::without_leading_zeros(s)[0] == '0' ==> hash::without_leading_zeros(s).len() == 1,
    decreases s.len(),
{
    if s.len() > 1 && s[0] == '0' {
        lemma_without_zeros_says(s.drop_first());
        lemma_zero_digit_in_front(s.drop_first());
        assert(s =~= seq!['0'] + s.drop_first());
    }
}

proof fn lemma_zero_digit_in_front(s: Seq<char>)
    ensures
        hex_read(seq!['0'] + s) == hex_read(s),
    decreases s.len(),
{
    reveal_with_fuel(hex_read, 2);
    if s.len() > 0 {
        lemma_zero_digit_in_front(s.drop_last());
        assert((seq!['0'] + s).drop_last() =~= seq!['0'] + s.drop_last());
    } else {
        assert((seq!['0'] + s).drop_last() =~= Seq::<char>::empty());
    }
}

/// A hash is written as `0x` and all of its digits, two for each byte.
pub proof fn lemma_b256_text(h: B256, i: int)
    requires
        0 <= i < 32,
    ensures
        hash::b256_text(h).len() == 66,
        hash::b256_text(h)[0] == '0',
        hash::b256_text(h)[1] == 'x',
        hash::b256_text(h)[2 + 2 * i] == text::digit_char((h.bytes()[i] / 16) as nat),
        hash::b256_text(h)[3 + 2 * i] == text::digit_char((h.bytes()[i] % 16) as nat),
{
    lemma_b256_bytes(h, i);
    lemma_hex_digit(h.bytes(), i);
}

/// An address is written as `0x` and all of its digits, two for each byte.
pub proof fn lemma_address_text(a: Address, i: int)
    requires
        0 <= i < 20,
    ensures
        hash::address_text(a).len() == 42,
        hash::address_text(a)[0] == '0',
        hash::address_text(a)[1] == 'x',
        hash::address_text(a)[2 + 2 * i] == text::digit_char((a.bytes()[i] / 16) as nat),
        hash::address_text(a)[3 + 2 * i] == text::digit_char((a.bytes()[i] % 16) as nat),
{
    lemma_address_bytes(a, i);
    lemma_hex_digit(a.bytes(), i);
}

/// A number is written as `0x` and its hexadecimal digits, which say it, without
/// a zero in front.
pub proof fn lemma_u256_text(v: U256)
    ensures
        hash::u256_text(v).len() > 2,
        hash::u256_text(v)[0] == '0',
        hash::u256_text(v)[1] == 'x',
        hex_read(hash::u256_text(v).skip(2)) == v.hi
            * 0x1_0000_0000_0000_0000_0000_0000_0000_0000 + v.lo,
        hash::u256_text(v)[2] == '0' ==> hash::u256_text(v).len() == 3,
{
    let d = text::hex_digits(v.bytes());
    lemma_u256_bytes(v, 0);
    lemma_hex_digit(v.bytes(), 0);
    lemma_hex_digits_say(v.bytes());
    lemma_without_zeros_says(d);
    assert(hash::u256_text(v).skip(2) =~= hash::without_leading_zeros(d));
}

/// Different hashes, addresses and numbers are written differently.
pub proof fn lemma_texts_tell_apart(a: B256, b: B256, x: Address, y: Address, u: U256, v: U256)
    ensures
        hash::b256_text(a) == hash::b256_text(b) ==> a == b,
        hash::address_text(x) == hash::address_text(y) ==> x == y,
        hash::u256_text(u) == hash::u256_text(v) ==> u == v,
{
    if hash::b256_text(a) == hash::b256_text(b) {
        assert(hash::b256_text(a).skip(2) =~= text::hex_digits(a.bytes()));
        assert(hash::b256_text(b).skip(2) =~= text::hex_digits(b.bytes()));
        text::lemma_hex_round_trip(a.bytes());
        text::lemma_hex_round_trip(b.bytes());
    }
    if hash::address_text(x) == hash::address_text(y) {
        assert(hash::address_text(x).skip(2) =~= text::hex_digits(x.bytes()));
        assert(hash::address_text(y).skip(2) =~= text::hex_digits(y.bytes()));
        text::lemma_hex_round_trip(x.bytes());
        text::lemma_hex_round_trip(y.bytes());
    }
    lemma_words_in_byte_order(a, b, u, v, x, y);
    lemma_u256_text(u);
    lemma_u256_text(v);
}

/// Bytes that are published as text are read back from it.
pub proof fn lemma_prefixed_bytes(b: Seq<u8>)
    ensures
        hash::prefixed(text::hex_digits(b)).len() == 2 + 2 * b.len(),
        hash::prefixed(text::hex_digits(b))[0] == '0',
        hash::prefixed(text::hex_digits(b))[1] == 'x',
        text::pair_bytes(hash::prefixed(text::hex_digits(b)).skip(2)) == Some(b),
{
    text::lemma_hex_round_trip(b);
    assert(hash::prefixed(text::hex_digits(b)).skip(2) =~= text::hex_digits(b));
}

// ------------------------------------------------------------------- records

/// What an account's record holds, place by place: the hash of its address, its
/// nonce, its balance, and the hash of its code or zeros.
pub proof fn lemma_account_record(row: RowView)
    requires
        row is Account,
    ensures
        row.bytes().len() == 104,
        row.bytes().subrange(0, 32) == row->Account_0.hashed.bytes(),
        primitives::be_value(row.bytes().subrange(32, 40)) == row->Account_0.nonce,
        row.bytes().subrange(40, 72) == row->Account_0.balance.bytes(),
        row->Account_0.bytecode_hash matches Some(h) ==> row.bytes().subrange(72, 104) == h.bytes(),
        row->Account_0.bytecode_hash is None ==> forall|i: int|
            72 <= i < 104 ==> #[trigger] row.bytes()[i] == 0,
        row.key() == row->Account_0.hashed.bytes(),
{
    let a = row->Account_0;
    let nonce = primitives::be_bytes(a.nonce as nat, 8);
    let last = match a.bytecode_hash {
        Some(h) => h.bytes(),
        None => primitives::be_bytes(0, 32),
    };
    lemma_b256_bytes(a.hashed, 0);
    lemma_u256_bytes(a.balance, 0);
    primitives::lemma_be_bytes_len(a.nonce as nat, 8);
    primitives::lemma_be_bytes_len(0, 32);
    primitives::lemma_pow256_16();
    primitives::lemma_be_round_trip(a.nonce as nat, 8);
    if let Some(h) = a.bytecode_hash {
        lemma_b256_bytes(h, 0);
    }
    let r = row.bytes();
    assert(r.subrange(0, 32) =~= a.hashed.bytes());
    assert(r.subrange(32, 40) =~= nonce);
    assert(r.subrange(40, 72) =~= a.balance.bytes());
    assert(r.subrange(72, 104) =~= last);
    if a.bytecode_hash is None {
        assert forall|i: int| 72 <= i < 104 implies #[trigger] r[i] == 0 by {
            assert(r[i] == last[i - 72]);
            lemma_be_byte(0, 32, i - 72);
            power::lemma_pow_positive(256, (31 - (i - 72)) as nat);
            div_mod::lemma_div_basics(power::pow(256, (31 - (i - 72)) as nat));
        }
    }
}

/// What a slot's record holds, place by place: the hash of its address, the hash
/// of its key, and its value.
pub proof fn lemma_slot_record(row: RowView)
    requires
        row is Slot,
    ensures
        row.bytes().len() == 96,
        row.bytes().subrange(0, 32) == row->Slot_0.hashed_addr.bytes(),
        row.bytes().subrange(32, 64) == row->Slot_0.key.bytes(),
        row.bytes().subrange(64, 96) == row->Slot_0.value.bytes(),
        row.key() == row->Slot_0.hashed_addr.bytes() + row->Slot_0.key.bytes(),
{
    let s = row->Slot_0;
    lemma_b256_bytes(s.hashed_addr, 0);
    lemma_b256_bytes(s.key, 0);
    lemma_u256_bytes(s.value, 0);
    assert(row.bytes().subrange(0, 32) =~= s.hashed_addr.bytes());
    assert(row.bytes().subrange(32, 64) =~= s.key.bytes());
    assert(row.bytes().subrange(64, 96) =~= s.value.bytes());
}

/// What a code's record holds, place by place: its hash, its length, and all of
/// it.
pub proof fn lemma_code_record(row: RowView)
    requires
        row is Code,
        row->Code_bytes.len() <= u32::MAX,
    ensures
        row.bytes().len() == 36 + row->Code_bytes.len(),
        row.bytes().subrange(0, 32) == row->Code_hash.bytes(),
        primitives::be_value(row.bytes().subrange(32, 36)) == row->Code_bytes.len(),
        row.bytes().skip(36) == row->Code_bytes,
        row.key() == row->Code_hash.bytes(),
{
    let n = row->Code_bytes.len();
    lemma_b256_bytes(row->Code_hash, 0);
    primitives::lemma_be_bytes_len(n, 4);
    primitives::lemma_pow256_16();
    primitives::lemma_be_round_trip(n, 4);
    assert(row.bytes().subrange(0, 32) =~= row->Code_hash.bytes());
    assert(row.bytes().subrange(32, 36) =~= primitives::be_bytes(n, 4));
    assert(row.bytes().skip(36) =~= row->Code_bytes);
}

/// Rows of one table that differ have different records; an account without code
/// is told from one with code, as no code has the hash of zeros.
pub proof fn lemma_records_tell_apart(a: RowView, b: RowView)
    requires
        a.bytes() == b.bytes(),
        (a is Account && b is Account) || (a is Slot && b is Slot) || (a is Code && b is Code),
        a is Account ==> a->Account_0.bytecode_hash != Some(B256 { hi: 0, lo: 0 })
            && b->Account_0.bytecode_hash != Some(B256 { hi: 0, lo: 0 }),
        a is Code ==> a->Code_bytes.len() <= u32::MAX && b->Code_bytes.len() <= u32::MAX,
    ensures
        a == b,
{
    match (a, b) {
        (RowView::Account(x), RowView::Account(y)) => {
            lemma_account_record(a);
            lemma_account_record(b);
            let zero = B256 { hi: 0, lo: 0 };
            lemma_words_in_byte_order(
                x.hashed,
                y.hashed,
                x.balance,
                y.balance,
                Address { hi: 0, lo: 0 },
                Address { hi: 0, lo: 0 },
            );
            lemma_zero_bytes();
            match (x.bytecode_hash, y.bytecode_hash) {
                (Some(g), Some(h)) => {
                    primitives::lemma_b256_order(g, h);
                },
                (Some(g), None) => {
                    primitives::lemma_b256_order(g, zero);
                    assert(b.bytes().subrange(72, 104) =~= zero.bytes());
                },
                (None, Some(h)) => {
                    primitives::lemma_b256_order(h, zero);
                    assert(a.bytes().subrange(72, 104) =~= zero.bytes());
                },
                (None, None) => {},
            }
        },
        (RowView::Slot(x), RowView::Slot(y)) => {
            lemma_slot_record(a);
            lemma_slot_record(b);
            primitives::lemma_b256_order(x.hashed_addr, y.hashed_addr);
            primitives::lemma_b256_order(x.key, y.key);
            lemma_words_in_byte_order(
                x.key,
                y.key,
                x.value,
                y.value,
                Address { hi: 0, lo: 0 },
                Address { hi: 0, lo: 0 },
            );
        },
        (RowView::Code { hash: g, .. }, RowView::Code { hash: h, .. }) => {
            lemma_code_record(a);
            lemma_code_record(b);
            primitives::lemma_b256_order(g, h);
        },
        _ => {},
    }
}

proof fn lemma_zero_bytes()
    ensures
        (B256 { hi: 0, lo: 0 }).bytes().len() == 32,
        forall|i: int| 0 <= i < 32 ==> #[trigger] (B256 { hi: 0, lo: 0 }).bytes()[i] == 0,
{
    let zero = B256 { hi: 0, lo: 0 };
    lemma_b256_bytes(zero, 0);
    assert forall|i: int| 0 <= i < 32 implies #[trigger] zero.bytes()[i] == 0 by {
        lemma_b256_bytes(zero, i);
        let e = if i < 16 {
            (15 - i) as nat
        } else {
            (31 - i) as nat
        };
        power::lemma_pow_positive(256, e);
        div_mod::lemma_div_basics(power::pow(256, e));
    }
}

// --------------------------------------------------------------------- calls

/// What is given for a row is its record and its key, and its head is the first word
/// of either.
pub proof fn lemma_row_calls(row: Row, record: Vec<u8>, key: Vec<u8>, head: B256)
    requires
        call_ensures(Row::record_bytes, (&row,), record),
        call_ensures(Row::record_key, (&row,), key),
        call_ensures(Row::head, (&row,), head),
        row matches Row::Code { bytes, .. } ==> bytes@.len() <= u32::MAX,
    ensures
        record@.subrange(0, 32) == head.bytes(),
        key@.subrange(0, 32) == head.bytes(),
        row matches Row::Account(a) ==> {
            &&& record@.len() == 104 && key@.len() == 32
            &&& head == a.hashed
            &&& primitives::be_value(record@.subrange(32, 40)) == a.nonce
            &&& record@.subrange(40, 72) == a.balance.bytes()
            &&& a.bytecode_hash matches Some(h) ==> record@.subrange(72, 104) == h.bytes()
            &&& a.bytecode_hash is None ==> forall|i: int|
                72 <= i < 104 ==> #[trigger] record@[i] == 0
        },
        row matches Row::Slot(s) ==> {
            &&& record@.len() == 96 && key@.len() == 64
            &&& head == s.hashed_addr
            &&& record@.subrange(32, 64) == s.key.bytes()
            &&& record@.subrange(64, 96) == s.value.bytes()
            &&& key@.subrange(32, 64) == s.key.bytes()
        },
        row matches Row::Code { hash, bytes } ==> {
            &&& record@.len() == 36 + bytes@.len() && key@.len() == 32
            &&& head == hash
            &&& primitives::be_value(record@.subrange(32, 36)) == bytes@.len()
            &&& record@.skip(36) == bytes@
        },
{
    lemma_b256_bytes(head, 0);
    match row {
        Row::Account(a) => {
            lemma_account_record(row@);
            assert(key@.subrange(0, 32) =~= head.bytes());
        },
        Row::Slot(s) => {
            lemma_slot_record(row@);
            lemma_b256_bytes(s.key, 0);
            assert(key@.subrange(0, 32) =~= head.bytes());
            assert(key@.subrange(32, 64) =~= s.key.bytes());
        },
        Row::Code { hash, bytes } => {
            lemma_code_record(row@);
            assert(key@.subrange(0, 32) =~= head.bytes());
        },
    }
}

/// A hash, a number and an address go to bytes and come back from them.
pub proof fn lemma_word_calls(
    h: B256,
    hb: Vec<u8>,
    hs: &[u8],
    g: B256,
    v: U256,
    vb: Vec<u8>,
    vs: &[u8],
    u: U256,
    a: Address,
    ab: Vec<u8>,
    abs: &[u8],
    b: Address,
)
    requires
        call_ensures(B256::to_bytes, (&h,), hb),
        call_ensures(B256::from_slice, (hs,), g),
        hs@ == hb@,
        call_ensures(U256::to_bytes, (&v,), vb),
        call_ensures(U256::from_slice, (vs,), u),
        vs@ == vb@,
        call_ensures(Address::to_bytes, (&a,), ab),
        call_ensures(Address::from_slice, (abs,), b),
        abs@ == ab@,
    ensures
        hb@.len() == 32,
        vb@.len() == 32,
        ab@.len() == 20,
        g == h,
        u == v,
        b == a,
        forall|i: int|
            0 <= i < 16 ==> #[trigger] hb@[i] as int == (h.hi as int / power::pow(
                256,
                (15 - i) as nat,
            )) % 256,
        forall|i: int|
            16 <= i < 32 ==> #[trigger] hb@[i] as int == (h.lo as int / power::pow(
                256,
                (31 - i) as nat,
            )) % 256,
        primitives::be_value(vb@) == v.hi * 0x1_0000_0000_0000_0000_0000_0000_0000_0000 + v.lo,
{
    lemma_b256_bytes(h, 0);
    lemma_u256_bytes(v, 0);
    lemma_address_bytes(a, 0);
    lemma_words_in_byte_order(g, h, u, v, b, a);
    assert forall|i: int| 0 <= i < 16 implies #[trigger] hb@[i] as int == (h.hi as int
        / power::pow(256, (15 - i) as nat)) % 256 by {
        lemma_b256_bytes(h, i);
    }
    assert forall|i: int| 16 <= i < 32 implies #[trigger] hb@[i] as int == (h.lo as int
        / power::pow(256, (31 - i) as nat)) % 256 by {
        lemma_b256_bytes(h, i);
    }
}

/// Words are compared by their halves, the higher first, and small numbers are what
/// they are.
pub proof fn lemma_order_calls(
    a: B256,
    b: B256,
    r: bool,
    u: U256,
    v: U256,
    s: bool,
    x: Address,
    y: Address,
    t: bool,
    n: u64,
    small: U256,
    zero: U256,
)
    requires
        call_ensures(B256::is_before, (&a, &b), r),
        call_ensures(U256::is_before, (&u, &v), s),
        call_ensures(Address::is_before, (&x, &y), t),
        call_ensures(U256::from_u64, (n,), small),
        call_ensures(U256::zero, (), zero),
    ensures
        r <==> a.hi < b.hi || a.hi == b.hi && a.lo < b.lo,
        s <==> u.hi < v.hi || u.hi == v.hi && u.lo < v.lo,
        t <==> x.hi < y.hi || x.hi == y.hi && x.lo < y.lo,
        small.hi == 0 && small.lo == n,
        zero.hi == 0 && zero.lo == 0,
{
}

/// A word of one byte over and over has that byte in every place.
pub proof fn lemma_repeat_byte(byte: u8, r: B256, i: int)
    requires
        call_ensures(B256::repeat_byte, (byte,), r),
        0 <= i < 32,
    ensures
        r.bytes()[i] == byte,
{
}

/// What is appended stands behind what was there, in as many bytes as were asked for,
/// and reads as the number.
pub proof fn lemma_append_calls(
    x: &mut Vec<u8>,
    v: u128,
    n: usize,
    y: &mut Vec<u8>,
    h: B256,
    z: &mut Vec<u8>,
    u: U256,
)
    requires
        n <= 16,
        v < primitives::pow256(n as nat),
        call_ensures(primitives::append_be, (x, v, n), ()),
        call_ensures(B256::append_to, (&h, y), ()),
        call_ensures(U256::append_to, (&u, z), ()),
    ensures
        final(x)@.len() == old(x)@.len() + n,
        final(x)@.take(old(x)@.len() as int) == old(x)@,
        primitives::be_value(final(x)@.skip(old(x)@.len() as int)) == v,
        final(y)@.take(old(y)@.len() as int) == old(y)@,
        final(y)@.skip(old(y)@.len() as int) == h.bytes(),
        final(z)@.take(old(z)@.len() as int) == old(z)@,
        final(z)@.skip(old(z)@.len() as int) == u.bytes(),
{
    primitives::lemma_be_bytes_len(v as nat, n as nat);
    primitives::lemma_be_round_trip(v as nat, n as nat);
    assert(final(x)@.take(old(x)@.len() as int) =~= old(x)@);
    assert(final(x)@.skip(old(x)@.len() as int) =~= primitives::be_bytes(v as nat, n as nat));
    assert(final(y)@.take(old(y)@.len() as int) =~= old(y)@);
    assert(final(y)@.skip(old(y)@.len() as int) =~= h.bytes());
    assert(final(z)@.take(old(z)@.len() as int) =~= old(z)@);
    assert(final(z)@.skip(old(z)@.len() as int) =~= u.bytes());
}

/// Numbers are read at their place: most significant byte first, or eight bytes the
/// other way round.
pub proof fn lemma_read_calls(b: &[u8], from: usize, n: usize, v: u128, at: usize, w: u64)
    requires
        n <= 16,
        from + n <= b@.len(),
        at + 8 <= b@.len(),
        call_ensures(primitives::read_be, (b, from, n), v),
        call_ensures(primitives::read_le8, (b, at), w),
    ensures
        v == primitives::be_value(b@.subrange(from as int, from + n)),
        w == b@[at as int] + 0x100 * b@[at + 1] + 0x1_0000 * b@[at + 2] + 0x100_0000 * b@[at + 3]
            + 0x1_0000_0000 * b@[at + 4] + 0x100_0000_0000 * b@[at + 5] + 0x1_0000_0000_0000
            * b@[at + 6] + 0x100_0000_0000_0000 * b@[at + 7],
{
    lemma_le_value_of_eight(b@.subrange(at as int, at + 8));
}

/// Numbers are written in decimal, and bytes in hexadecimal, in a way that says them.
pub proof fn lemma_number_calls(
    n: u64,
    width: usize,
    plain: String,
    padded: String,
    b: &[u8],
    hex: String,
    same: String,
)
    requires
        call_ensures(text::decimal, (n,), plain),
        call_ensures(text::decimal_padded, (n, width), padded),
        call_ensures(text::hex_encode, (b,), hex),
        call_ensures(text::hex_bytes, (b,), same),
    ensures
        decimal_read(plain@) == n,
        plain@[0] == '0' ==> plain@.len() == 1,
        decimal_read(padded@) == n,
        padded@.len() >= width,
        padded@.len() > width ==> padded@ == plain@,
        hex@.len() == 2 * b@.len(),
        hex@ == same@,
        forall|i: int|
            0 <= i < b@.len() ==> {
                &&& hex@[2 * i] == text::digit_char((#[trigger] b@[i] / 16) as nat)
                &&& hex@[2 * i + 1] == text::digit_char((b@[i] % 16) as nat)
            },
{
    lemma_decimal_says(n as nat);
    lemma_padded_says(n as nat, width as nat);
    text::lemma_hex_round_trip(b@);
    assert forall|i: int| 0 <= i < b@.len() implies {
        &&& hex@[2 * i] == text::digit_char((#[trigger] b@[i] / 16) as nat)
        &&& hex@[2 * i + 1] == text::digit_char((b@[i] % 16) as nat)
    } by {
        lemma_hex_digit(b@, i);
    }
}

/// What is decoded is, pair by pair, what the text says; a text of an odd length is
/// refused as such, any other that does not decode for a digit.
pub proof fn lemma_decode_call(s: &str, r: Result<Vec<u8>, HexError>)
    requires
        text::hex_cuts(s@),
        call_ensures(text::hex_decode, (s,), r),
    ensures
        r matches Ok(v) ==> {
            &&& s@.len() == 2 * v@.len()
            &&& forall|i: int|
                0 <= i < v@.len() ==> text::pair_value(s@[2 * i], s@[2 * i + 1]) == Some(
                    #[trigger] v@[i],
                )
        },
        r == Err::<Vec<u8>, HexError>(HexError::Odd) <==> vstd::utf8::encode_utf8(s@).len() % 2
            != 0,
        r == Err::<Vec<u8>, HexError>(HexError::Digit) ==> text::pair_bytes(s@) is None,
{
    if let Ok(v) = r {
        lemma_decoded_by_pairs(s@, v@);
    }
}

/// A text is decoded where every two of its characters are the digits of a byte.
pub proof fn lemma_decode_is_owed(s: &str, r: Result<Vec<u8>, HexError>)
    requires
        text::hex_cuts(s@),
        call_ensures(text::hex_decode, (s,), r),
    ensures
        vstd::utf8::encode_utf8(s@).len() % 2 == 0 && s@.len() % 2 == 0 && (forall|i: int|
            0 <= i < s@.len() / 2 ==> #[trigger] pair_at(s@, i) is Some) ==> r is Ok,
        r is Err && r->Err_0 is Digit <==> vstd::utf8::encode_utf8(s@).len() % 2 == 0 && !(s@.len()
            % 2 == 0 && forall|i: int| 0 <= i < s@.len() / 2 ==> #[trigger] pair_at(s@, i) is Some),
{
    lemma_all_pairs(s@);
}

/// What the `i`th two characters stand for as a byte.
pub open spec fn pair_at(s: Seq<char>, i: int) -> Option<u8> {
    text::pair_value(s[2 * i], s[2 * i + 1])
}

proof fn lemma_all_pairs(s: Seq<char>)
    ensures
        text::pair_bytes(s) is Some <==> s.len() % 2 == 0 && forall|i: int|
            0 <= i < s.len() / 2 ==> #[trigger] pair_at(s, i) is Some,
    decreases s.len(),
{
    if s.len() >= 2 {
        let t = s.subrange(2, s.len() as int);
        lemma_all_pairs(t);
        assert(t.len() / 2 == s.len() / 2 - 1);
        if text::pair_bytes(s) is Some {
            assert forall|i: int| 0 <= i < s.len() / 2 implies #[trigger] pair_at(s, i) is Some by {
                if i > 0 {
                    assert(pair_at(t, i - 1) is Some);
                    assert(t[2 * (i - 1)] == s[2 * i]);
                    assert(t[2 * (i - 1) + 1] == s[2 * i + 1]);
                }
            }
        }
        if s.len() % 2 == 0 && forall|i: int|
            0 <= i < s.len() / 2 ==> #[trigger] pair_at(s, i) is Some {
            assert(pair_at(s, 0) is Some);
            assert forall|i: int| 0 <= i < t.len() / 2 implies #[trigger] pair_at(t, i) is Some by {
                assert(pair_at(s, i + 1) is Some);
                assert(t[2 * i] == s[2 * (i + 1)]);
                assert(t[2 * i + 1] == s[2 * (i + 1) + 1]);
            }
        }
    }
}

/// What was encoded is decoded to what it was.
pub proof fn lemma_hex_comes_back(b: &[u8], hex: String, s: &str, r: Result<Vec<u8>, HexError>)
    requires
        call_ensures(text::hex_encode, (b,), hex),
        s@ == hex@,
        call_ensures(text::hex_decode, (s,), r),
    ensures
        text::hex_cuts(s@),
        r matches Ok(v) && v@ == b@,
{
    text::lemma_hex_round_trip(b@);
}

/// Hashes, addresses and numbers are written as texts that tell them.
pub proof fn lemma_text_calls(
    h: B256,
    ht: String,
    a: Address,
    at: String,
    v: U256,
    vt: String,
)
    requires
        call_ensures(hash::hex_b256, (&h,), ht),
        call_ensures(hash::hex_address, (&a,), at),
        call_ensures(hash::hex_u256, (v,), vt),
    ensures
        ht@.len() == 66 && ht@[0] == '0' && ht@[1] == 'x',
        text::pair_bytes(ht@.skip(2)) == Some(h.bytes()),
        at@.len() == 42 && at@[0] == '0' && at@[1] == 'x',
        text::pair_bytes(at@.skip(2)) == Some(a.bytes()),
        vt@.len() > 2 && vt@[0] == '0' && vt@[1] == 'x',
        hex_read(vt@.skip(2)) == v.hi * 0x1_0000_0000_0000_0000_0000_0000_0000_0000 + v.lo,
        vt@[2] == '0' ==> vt@.len() == 3,
{
    lemma_b256_bytes(h, 0);
    lemma_address_bytes(a, 0);
    lemma_prefixed_bytes(h.bytes());
    lemma_prefixed_bytes(a.bytes());
    lemma_u256_text(v);
}

/// A digest is that of the bytes, all of them and no others.
pub proof fn lemma_digest_call(b: &[u8], r: B256)
    requires
        call_ensures(hash::keccak256, (b,), r),
    ensures
        r.bytes() == hash::keccak256_of(b@),
{
}

} // verus!
