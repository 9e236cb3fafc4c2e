//! How the hashed keyspace is cut into ranges that are walked side by side.

use vstd::prelude::*;

use crate::hash::to_array;
use crate::primitives;
use crate::primitives::{append_be, B256};
use crate::text;
use crate::text::{decimal_padded, hex_decode, HexError};

verus! {

/// The number of values of the leading half of a key.
pub open spec fn halves() -> int {
    0x1_0000_0000_0000_0000_0000_0000_0000_0000int
}

/// How many leading halves each of `n` shards covers, the last but for what is
/// left.
pub open spec fn shard_step(n: u32) -> int {
    (u128::MAX as int / n as int) + 1
}

/// A bound whose leading half is `half` and whose trailing half is zero.
pub open spec fn bound_bytes(half: int) -> Seq<u8> {
    primitives::be_bytes((half % halves()) as nat, 16) + primitives::be_bytes(0, 16)
}

fn half_bound(half: u128, trailing: u128) -> (r: [u8; 32])
    ensures
        r@ == primitives::be_bytes(half as nat, 16) + primitives::be_bytes(trailing as nat, 16),
{
    let mut bytes: Vec<u8> = Vec::new();
    append_be(&mut bytes, half, 16);
    append_be(&mut bytes, trailing, 16);
    proof {
        primitives::lemma_be_bytes_len(half as nat, 16);
        primitives::lemma_be_bytes_len(trailing as nat, 16);
        assert(bytes@ =~= primitives::be_bytes(half as nat, 16) + primitives::be_bytes(
            trailing as nat,
            16,
        ));
    }
    to_array::<32>(bytes.as_slice())
}

/// Shard `i` of `n` covers the hashed keys from the first bound up to, not
/// including, the second: equal slices, exact at the edges. The last shard has
/// no upper bound.
pub fn shard_bounds(i: u32, n: u32) -> (r: ([u8; 32], Option<[u8; 32]>))
    requires
        n > 0,
        i < u32::MAX,
    ensures
        r.0@ == bound_bytes(shard_step(n) * i),
        match r.1 {
            None => i + 1 == n,
            Some(hi) => i + 1 != n && hi@ == bound_bytes(shard_step(n) * (i + 1)),
        },
{
    let step: u128 = (u128::MAX / n as u128).wrapping_add(1);
    assert(n > 1 ==> step == shard_step(n)) by {
        if n > 1 {
            lemma_step_bound(n);
        }
    }
    assert(n == 1 ==> step == 0 && shard_step(n) == halves()) by {
        if n == 1 {
            vstd::arithmetic::div_mod::lemma_div_basics(u128::MAX as int);
        }
    }
    let low: u128 = step.wrapping_mul(i as u128);
    proof {
        lemma_wrapped(step as int, n, i as int);
    }
    let lo: [u8; 32] = half_bound(low, 0);
    if i + 1 == n {
        (lo, None)
    } else {
        let high: u128 = step.wrapping_mul((i + 1) as u128);
        proof {
            lemma_wrapped(step as int, n, i + 1);
        }
        (lo, Some(half_bound(high, 0)))
    }
}

proof fn lemma_step_bound(n: u32)
    requires
        n > 1,
    ensures
        shard_step(n) <= u128::MAX,
{
    assert(u128::MAX as int / n as int <= u128::MAX as int / 2) by (nonlinear_arith)
        requires
            n >= 2,
    ;
}

proof fn lemma_wrapped(step: int, n: u32, k: int)
    requires
        n > 0,
        k >= 0,
        n > 1 ==> step == shard_step(n),
        n == 1 ==> step == 0 && shard_step(n) == halves(),
    ensures
        (step * k) % halves() == (shard_step(n) * k) % halves(),
        0 <= step * k,
{
    if n == 1 {
        assert(0 * k == 0) by (nonlinear_arith);
        vstd::arithmetic::div_mod::lemma_mod_multiples_basic(k, halves());
        assert(halves() * k == k * halves()) by (nonlinear_arith);
    } else {
        assert(0 <= step * k) by (nonlinear_arith)
            requires
                step >= 0,
                k >= 0,
        ;
    }
}

/// The first leading half that shard `i` of `n` covers.
pub open spec fn shard_low(i: int, n: u32) -> int {
    shard_step(n) * i
}

/// `key` lies in shard `i` of `n`: not before the lower bound, and before the
/// upper bound where there is one.
pub open spec fn in_shard(key: B256, i: int, n: u32) -> bool {
    &&& shard_low(i, n) <= key.hi
    &&& i + 1 == n || key.hi < shard_low(i + 1, n)
}

/// The bounds of a shard are what they say: its lower bound does not wrap
/// around, and keys compare to the bounds as their leading halves do.
pub proof fn lemma_shard_bounds_exact(i: int, n: u32, key: B256)
    requires
        n > 0,
        0 <= i < n,
    ensures
        0 <= shard_low(i, n) < halves(),
        primitives::bytes_before(key.bytes(), bound_bytes(shard_low(i, n))) <==> key.hi < shard_low(
            i,
            n,
        ),
{
    lemma_low_fits(i, n);
    let low = B256 { hi: shard_low(i, n) as u128, lo: 0 };
    vstd::arithmetic::div_mod::lemma_small_mod(shard_low(i, n) as nat, halves() as nat);
    assert(low.bytes() == bound_bytes(shard_low(i, n)));
    primitives::lemma_b256_order(key, low);
}

proof fn lemma_low_fits(i: int, n: u32)
    requires
        n > 0,
        0 <= i < n,
    ensures
        0 <= shard_low(i, n) < halves(),
{
    let q = u128::MAX as int / n as int;
    let m = n as int;
    if n == 1 {
        assert(shard_step(n) * 0 == 0) by (nonlinear_arith);
    } else {
        assert(q * m <= u128::MAX as int) by (nonlinear_arith)
            requires
                q == u128::MAX as int / m,
                m > 0,
        ;
        assert(q >= 0x1_0000_0000_0000_0000) by (nonlinear_arith)
            requires
                q == 0xffff_ffff_ffff_ffff_ffff_ffff_ffff_ffffint / m,
                0 < m <= 0xffff_ffff,
        ;
        assert((q + 1) * i <= (q + 1) * (m - 1)) by (nonlinear_arith)
            requires
                q >= 0,
                i <= m - 1,
        ;
        assert((q + 1) * (m - 1) == q * m - q + m - 1) by (nonlinear_arith);
        assert((q + 1) * i >= 0) by (nonlinear_arith)
            requires
                q >= 0,
                i >= 0,
        ;
    }
}

/// The shards are disjoint and cover the whole keyspace: every key lies in
/// exactly one of them.
pub proof fn lemma_shards_partition(key: B256, n: u32) -> (i: int)
    requires
        n > 0,
    ensures
        0 <= i < n,
        in_shard(key, i, n),
        forall|j: int| 0 <= j < n && #[trigger] in_shard(key, j, n) ==> j == i,
{
    let step = shard_step(n);
    let q = key.hi as int / step;
    assert(step > 0) by {
        assert(u128::MAX as int / n as int >= 0) by (nonlinear_arith)
            requires
                n > 0,
        ;
    }
    vstd::arithmetic::div_mod::lemma_fundamental_div_mod(key.hi as int, step);
    vstd::arithmetic::div_mod::lemma_mod_bound(key.hi as int, step);
    assert(q >= 0) by {
        vstd::arithmetic::div_mod::lemma_div_pos_is_pos(key.hi as int, step);
    }
    assert(step * (q + 1) == step * q + step) by (nonlinear_arith);
    assert(q < n) by {
        let m = n as int;
        let d = u128::MAX as int / m;
        vstd::arithmetic::div_mod::lemma_fundamental_div_mod(u128::MAX as int, m);
        vstd::arithmetic::div_mod::lemma_mod_bound(u128::MAX as int, m);
        assert(step * m == m * d + m) by (nonlinear_arith)
            requires
                step == d + 1,
        ;
        if q >= m {
            assert(step * q >= step * m) by (nonlinear_arith)
                requires
                    q >= m,
                    step > 0,
            ;
        }
    }
    assert forall|j: int| 0 <= j < n && #[trigger] in_shard(key, j, n) implies j == q by {
        if j > q {
            assert(step * j >= step * (q + 1)) by (nonlinear_arith)
                requires
                    j >= q + 1,
                    step > 0,
            ;
        }
        if j < q {
            assert(step * (j + 1) <= step * q) by (nonlinear_arith)
                requires
                    j + 1 <= q,
                    step > 0,
            ;
        }
    }
    q
}

/// Shards in their order are one sorted stream: a key of an earlier shard
/// stands before every key of a later one.
pub proof fn lemma_shards_ascend(a: B256, i: int, b: B256, j: int, n: u32)
    requires
        n > 0,
        0 <= i < j < n,
        in_shard(a, i, n),
        in_shard(b, j, n),
    ensures
        a.before(b),
{
    let step = shard_step(n);
    assert(step > 0) by {
        assert(u128::MAX as int / n as int >= 0) by (nonlinear_arith)
            requires
                n > 0,
        ;
    }
    assert(step * (i + 1) <= step * j) by (nonlinear_arith)
        requires
            i + 1 <= j,
            step > 0,
    ;
}

/// The name of a table's shard: the table and the shard with two digits.
pub open spec fn shard_name_of(table: Seq<char>, i: u32) -> Seq<char> {
    table + "-"@ + text::padded_digits(i as nat, 2)
}

/// The name of a table's shard.
pub fn shard_name(table: &str, i: u32) -> (r: String)
    ensures
        r@ == shard_name_of(table@, i),
{
    let mut name: String = table.to_owned();
    name.append("-");
    name.append(decimal_padded(i as u64, 2).as_str());
    proof {
        assert(name@ =~= shard_name_of(table@, i));
    }
    name
}

// ------------------------------------------------------------------ warming

/// `s` without the prefixes `0x` that it starts with.
pub open spec fn unprefixed(s: Seq<char>) -> Seq<char>
    decreases s.len(),
{
    if s.len() >= 2 && s[0] == '0' && s[1] == 'x' {
        unprefixed(s.skip(2))
    } else {
        s
    }
}

/// `s` without the prefixes `0x` that it starts with.
pub fn without_prefix(s: &str) -> (r: String)
    ensures
        r@ == unprefixed(s@),
{
    let v = text::chars_of(s);
    let mut i: usize = 0;
    assert(v@.skip(0) =~= v@);
    while v.len() - i >= 2 && v[i] == '0' && v[i + 1] == 'x'
        invariant
            i <= v@.len(),
            unprefixed(s@) == unprefixed(v@.skip(i as int)),
        decreases v@.len() - i,
    {
        assert(v@.skip(i as int).skip(2) =~= v@.skip(i + 2));
        i = i + 2;
    }
    let mut out = String::new();
    let ghost from = i as int;
    assert(out@ =~= v@.subrange(from, from));
    while i < v.len()
        invariant
            0 <= from <= i <= v@.len(),
            out@ == v@.subrange(from, i as int),
        decreases v@.len() - i,
    {
        out.push(v[i]);
        assert(out@ =~= v@.subrange(from, i + 1));
        i = i + 1;
    }
    assert(out@ =~= v@.skip(from));
    out
}

/// Why a text is no bound.
#[derive(Clone, Copy, Debug, PartialEq, Eq, Structural)]
pub enum BoundError {
    /// It is no hexadecimal byte string.
    Hex(HexError),
    /// It is not 32 bytes long.
    Length(usize),
}

/// Reads a bound of the keyspace: 32 bytes in hexadecimal.
pub fn parse_bound(h: &str) -> (r: Result<[u8; 32], BoundError>)
    requires
        text::hex_cuts(unprefixed(h@)),
    ensures
        match (r, text::hex_decoded(unprefixed(h@))) {
            (Ok(b), Ok(v)) => v.len() == 32 && b@ == v,
            (Err(BoundError::Length(n)), Ok(v)) => v.len() != 32 && n == v.len(),
            (Err(BoundError::Hex(e)), Err(x)) => e == x,
            _ => false,
        },
{
    let digits = without_prefix(h);
    match hex_decode(digits.as_str()) {
        Ok(v) => {
            if v.len() == 32 {
                Ok(to_array::<32>(v.as_slice()))
            } else {
                Err(BoundError::Length(v.len()))
            }
        },
        Err(e) => Err(BoundError::Hex(e)),
    }
}

/// The leading half of a bound; that of no upper bound is the greatest.
pub open spec fn upper_half(hi: Option<[u8; 32]>) -> int {
    match hi {
        Some(h) => primitives::be_value(h@.take(16)) as int,
        None => u128::MAX as int,
    }
}

/// The leading half at which range `i` of `n` begins, from `lo` to `hi`.
pub open spec fn warm_low(lo: int, hi: int, i: int, n: u32) -> int {
    lo + ((hi - lo) / (n as int)) * i
}

/// The leading half at which range `i` of `n` ends.
pub open spec fn warm_high(lo: int, hi: int, i: int, n: u32) -> int {
    if i + 1 == n {
        hi
    } else {
        warm_low(lo, hi, i + 1, n)
    }
}

proof fn lemma_warm_low_fits(lo: int, hi: int, i: int, n: u32)
    requires
        lo <= hi,
        0 <= i <= n,
        n > 0,
    ensures
        lo <= warm_low(lo, hi, i, n) <= hi,
        0 <= ((hi - lo) / (n as int)) * i <= hi - lo,
{
    let m = n as int;
    let d = (hi - lo) / m;
    vstd::arithmetic::div_mod::lemma_fundamental_div_mod(hi - lo, m);
    vstd::arithmetic::div_mod::lemma_mod_bound(hi - lo, m);
    vstd::arithmetic::div_mod::lemma_div_pos_is_pos(hi - lo, m);
    assert(0 <= d * i <= d * m) by (nonlinear_arith)
        requires
            0 <= i <= m,
            0 <= d,
    ;
    assert(d * m == m * d) by (nonlinear_arith);
}

fn leading_half(b: &[u8; 32]) -> (r: u128)
    ensures
        r == primitives::be_value(b@.take(16)),
{
    let v: u128 = primitives::read_be(b.as_slice(), 0, 16);
    assert(b@.subrange(0, 16) =~= b@.take(16));
    v
}

/// The keys that warmer `i` of `n` touches, of a region from `lo` up to `hi`
/// if that is given.
pub fn warm_range(lo: &[u8; 32], hi: &Option<[u8; 32]>, i: u32, n: u32) -> (r: (
    [u8; 32],
    [u8; 32],
))
    requires
        i < n,
        primitives::be_value(lo@.take(16)) <= upper_half(*hi),
    ensures
        ({
            let a = primitives::be_value(lo@.take(16)) as int;
            let b = upper_half(*hi);
            &&& r.0@ == primitives::be_bytes(warm_low(a, b, i as int, n) as nat, 16)
                + primitives::be_bytes(0, 16)
            &&& r.1@ == primitives::be_bytes(warm_high(a, b, i as int, n) as nat, 16)
                + primitives::be_bytes(u128::MAX as nat, 16)
        }),
{
    let low: u128 = leading_half(lo);
    let high: u128 = match hi {
        Some(h) => leading_half(h),
        None => u128::MAX,
    };
    let step: u128 = (high - low) / (n as u128);
    proof {
        lemma_warm_low_fits(low as int, high as int, i as int, n);
        lemma_warm_low_fits(low as int, high as int, i + 1, n);
    }
    let a: u128 = low + step * (i as u128);
    let b: u128 = if i + 1 == n {
        high
    } else {
        low + step * (i as u128 + 1)
    };
    (half_bound(a, 0), half_bound(b, u128::MAX))
}

/// The warmers together touch the whole region, each going on where the one
/// before it ends.
pub proof fn lemma_warm_ranges_join(lo: int, hi: int, i: int, n: u32)
    requires
        lo <= hi,
        0 <= i < n,
    ensures
        warm_low(lo, hi, 0, n) == lo,
        warm_high(lo, hi, n - 1, n) == hi,
        i + 1 < n ==> warm_high(lo, hi, i, n) == warm_low(lo, hi, i + 1, n),
        lo <= warm_low(lo, hi, i, n) <= warm_high(lo, hi, i, n) <= hi,
{
    let d = (hi - lo) / (n as int);
    lemma_warm_low_fits(lo, hi, i, n);
    lemma_warm_low_fits(lo, hi, i + 1, n);
    vstd::arithmetic::div_mod::lemma_div_pos_is_pos(hi - lo, n as int);
    assert(d * 0 == 0) by (nonlinear_arith);
    assert(d * i <= d * (i + 1)) by (nonlinear_arith)
        requires
            0 <= d,
    ;
}

} // verus!
