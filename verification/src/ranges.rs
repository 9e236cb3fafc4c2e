//! Which keys a shard and a warmer have: equal slices of the key space, by number.

use vstd::arithmetic::div_mod;
use vstd::prelude::*;

use crate::export;
use crate::primitives;
use crate::primitives::B256;
use crate::readback;
use crate::shard;
use crate::shard::BoundError;
use crate::text;
use crate::walk::Row;

verus! {

/// How many values the leading half of a key has.
pub open spec fn half_keys() -> int {
    0x1_0000_0000_0000_0000_0000_0000_0000_0000int
}

/// The width of each of `n` equal slices that together cover the leading halves: the
/// least that does.
pub open spec fn slice(n: u32) -> int {
    (half_keys() + n - 1) / (n as int)
}

proof fn lemma_slice(n: u32)
    requires
        n > 0,
    ensures
        slice(n) == shard::shard_step(n),
        slice(n) > 0,
        (slice(n) - 1) * n < half_keys() <= slice(n) * n,
{
    let m = half_keys();
    let k = n as int;
    let q = (m - 1) / k;
    div_mod::lemma_fundamental_div_mod(m - 1, k);
    div_mod::lemma_mod_bound(m - 1, k);
    div_mod::lemma_fundamental_div_mod(m + k - 1, k);
    div_mod::lemma_mod_bound(m + k - 1, k);
    let p = slice(n);
    assert(k * q <= m - 1 < k * q + k);
    assert(k * p <= m + k - 1 < k * p + k);
    assert(p == q + 1) by (nonlinear_arith)
        requires
            k > 0,
            k * q <= m - 1 < k * q + k,
            k * p <= m + k - 1 < k * p + k,
    ;
    assert((p - 1) * k == k * q && p * k == k * q + k) by (nonlinear_arith)
        requires
            p == q + 1,
    ;
    div_mod::lemma_div_pos_is_pos(m - 1, k);
}

proof fn lemma_bound(half: int, h: B256)
    requires
        0 <= half < half_keys(),
        h.bytes() == shard::bound_bytes(half),
    ensures
        h.hi == half,
        h.lo == 0,
{
    let b = B256 { hi: half as u128, lo: 0 };
    assert(half % half_keys() == half) by (nonlinear_arith)
        requires
            0 <= half < half_keys(),
            half_keys() > 0,
    ;
    assert(b.bytes() == shard::bound_bytes(half));
    primitives::lemma_b256_order(b, h);
}

/// Shard `i` of `n` starts at the `i`th slice and ends where the next starts; the
/// last has no end.
pub proof fn lemma_shard_bounds(
    i: u32,
    n: u32,
    r: ([u8; 32], Option<[u8; 32]>),
    lo: B256,
    hi: B256,
)
    requires
        i < n,
        i < u32::MAX,
        call_ensures(shard::shard_bounds, (i, n), r),
        lo.bytes() == r.0@,
        r.1 matches Some(h) ==> hi.bytes() == h@,
    ensures
        lo.hi == slice(n) * i,
        lo.lo == 0,
        r.1 is None <==> i + 1 == n,
        r.1 is Some ==> hi.hi == slice(n) * (i + 1) && hi.lo == 0,
{
    lemma_slice(n);
    let key = B256 { hi: 0, lo: 0 };
    shard::lemma_shard_bounds_exact(i as int, n, key);
    lemma_bound(slice(n) * i, lo);
    if i + 1 < n {
        shard::lemma_shard_bounds_exact(i + 1, n, key);
        lemma_bound(slice(n) * (i + 1), hi);
    }
}

/// A key lies in the shard whose number is that of its slice, and in no other: not
/// before the shard's first key, and before its end where it has one.
pub proof fn lemma_key_has_one_shard(
    i: u32,
    n: u32,
    r: ([u8; 32], Option<[u8; 32]>),
    lo: B256,
    hi: B256,
    key: B256,
)
    requires
        i < n,
        i < u32::MAX,
        call_ensures(shard::shard_bounds, (i, n), r),
        lo.bytes() == r.0@,
        r.1 matches Some(h) ==> hi.bytes() == h@,
    ensures
        !key.before(lo) && (r.1 is Some ==> key.before(hi)) <==> key.hi as int / slice(n) == i,
        0 <= key.hi as int / slice(n) < n,
{
    lemma_shard_bounds(i, n, r, lo, hi);
    lemma_slice(n);
    let w = slice(n);
    let k = key.hi as int;
    let q = k / w;
    div_mod::lemma_fundamental_div_mod(k, w);
    div_mod::lemma_mod_bound(k, w);
    div_mod::lemma_div_pos_is_pos(k, w);
    assert(w * q <= k < w * q + w);
    let j = i as int;
    let m = n as int;
    assert(q == j <==> w * j <= k < w * (j + 1)) by (nonlinear_arith)
        requires
            w > 0,
            w * q <= k < w * q + w,
    ;
    assert(q < m) by (nonlinear_arith)
        requires
            w > 0,
            w * q <= k,
            k < half_keys() <= w * m,
    ;
    assert(key.before(lo) <==> k < w * j);
    if r.1 is Some {
        assert(key.before(hi) <==> k < w * (j + 1));
    } else {
        assert(k < w * (j + 1));
    }
}

/// The warmers of a region share it evenly: the first starts with the region, each
/// goes on where the one before it ended, the last ends with the region, and all but
/// the last are of one width.
pub proof fn lemma_warm_ranges(
    lo: [u8; 32],
    hi: Option<[u8; 32]>,
    i: u32,
    n: u32,
    r: ([u8; 32], [u8; 32]),
)
    requires
        i < n,
        primitives::be_value(lo@.take(16)) <= shard::upper_half(hi),
        call_ensures(shard::warm_range, (&lo, &hi, i, n), r),
    ensures
        ({
            let a = primitives::be_value(lo@.take(16)) as int;
            let b = match hi {
                Some(h) => primitives::be_value(h@.take(16)) as int,
                None => half_keys() - 1,
            };
            let w = (b - a) / (n as int);
            &&& primitives::be_value(r.0@.take(16)) == a + w * i
            &&& i + 1 < n ==> primitives::be_value(r.1@.take(16)) == a + w * (i + 1)
            &&& i + 1 == n ==> primitives::be_value(r.1@.take(16)) == b
        }),
        forall|k: int| 16 <= k < 32 ==> #[trigger] r.0@[k] == 0,
        forall|k: int| 16 <= k < 32 ==> #[trigger] r.1@[k] == 0xff,
{
    let a = primitives::be_value(lo@.take(16)) as int;
    let b = shard::upper_half(hi);
    shard::lemma_warm_ranges_join(a, b, i as int, n);
    primitives::lemma_be_bytes_of_value(lo@.take(16));
    primitives::lemma_pow256_16();
    if let Some(h) = hi {
        primitives::lemma_be_bytes_of_value(h@.take(16));
    }
    let x = shard::warm_low(a, b, i as int, n) as nat;
    let y = shard::warm_high(a, b, i as int, n) as nat;
    primitives::lemma_be_bytes_len(x, 16);
    primitives::lemma_be_bytes_len(y, 16);
    primitives::lemma_be_bytes_len(0, 16);
    primitives::lemma_be_bytes_len(u128::MAX as nat, 16);
    primitives::lemma_be_round_trip(x, 16);
    primitives::lemma_be_round_trip(y, 16);
    assert(r.0@.take(16) =~= primitives::be_bytes(x, 16));
    assert(r.1@.take(16) =~= primitives::be_bytes(y, 16));
    assert forall|k: int| 16 <= k < 32 implies #[trigger] r.0@[k] == 0 by {
        assert(r.0@[k] == primitives::be_bytes(0, 16)[k - 16]);
        lemma_zero_half(k - 16);
    }
    assert forall|k: int| 16 <= k < 32 implies #[trigger] r.1@[k] == 0xff by {
        assert(r.1@[k] == primitives::be_bytes(u128::MAX as nat, 16)[k - 16]);
        lemma_full_half(k - 16);
    }
}

proof fn lemma_zero_half(i: int)
    requires
        0 <= i < 16,
    ensures
        primitives::be_bytes(0, 16)[i] == 0,
{
    let s = Seq::new(16, |k: int| 0u8);
    lemma_value_of_zeros(s);
    primitives::lemma_be_bytes_of_value(s);
    assert(primitives::be_bytes(0, 16) == s);
}

proof fn lemma_value_of_zeros(s: Seq<u8>)
    requires
        forall|k: int| 0 <= k < s.len() ==> s[k] == 0,
    ensures
        primitives::be_value(s) == 0,
    decreases s.len(),
{
    if s.len() > 0 {
        lemma_value_of_zeros(s.drop_last());
    }
}

proof fn lemma_full_half(i: int)
    requires
        0 <= i < 16,
    ensures
        primitives::be_bytes(u128::MAX as nat, 16)[i] == 0xff,
{
    let s = Seq::new(16, |k: int| 0xffu8);
    lemma_value_of_ones(s);
    primitives::lemma_be_bytes_of_value(s);
    primitives::lemma_pow256_16();
    assert(primitives::be_bytes(u128::MAX as nat, 16) == s);
}

proof fn lemma_value_of_ones(s: Seq<u8>)
    requires
        forall|k: int| 0 <= k < s.len() ==> s[k] == 0xff,
    ensures
        primitives::be_value(s) == primitives::pow256(s.len()) - 1,
    decreases s.len(),
{
    if s.len() > 0 {
        lemma_value_of_ones(s.drop_last());
    }
}

proof fn lemma_unprefixed(s: Seq<char>) -> (k: int)
    ensures
        k >= 0,
        s.len() == shard::unprefixed(s).len() + 2 * k,
        s.skip(2 * k) == shard::unprefixed(s),
        forall|j: int|
            0 <= j < 2 * k ==> #[trigger] s[j] == (if j % 2 == 0 {
                '0'
            } else {
                'x'
            }),
        !(shard::unprefixed(s).len() >= 2 && shard::unprefixed(s)[0] == '0'
            && shard::unprefixed(s)[1] == 'x'),
    decreases s.len(),
{
    if s.len() >= 2 && s[0] == '0' && s[1] == 'x' {
        let t = s.skip(2);
        let k = lemma_unprefixed(t);
        assert(s.skip(2 * (k + 1)) =~= t.skip(2 * k));
        assert forall|j: int| 0 <= j < 2 * (k + 1) implies #[trigger] s[j] == (if j % 2 == 0 {
            '0'
        } else {
            'x'
        }) by {
            if j >= 2 {
                assert(t[j - 2] == s[j]);
            }
        }
        k + 1
    } else {
        assert(s.skip(0) =~= s);
        0
    }
}

/// A text without its prefixes is what stands behind all `0x` in front, and has none
/// in front itself.
pub proof fn lemma_without_prefix(s: &str, r: String) -> (k: int)
    requires
        call_ensures(shard::without_prefix, (s,), r),
    ensures
        k >= 0,
        s@.len() == r@.len() + 2 * k,
        s@.skip(2 * k) == r@,
        forall|j: int|
            0 <= j < 2 * k ==> #[trigger] s@[j] == (if j % 2 == 0 {
                '0'
            } else {
                'x'
            }),
        !(r@.len() >= 2 && r@[0] == '0' && r@[1] == 'x'),
{
    lemma_unprefixed(s@)
}

/// A bound is what its digits say behind the prefix, thirty-two bytes; a text of
/// another length is refused with the length it has.
pub proof fn lemma_parse_bound(h: &str, bare: String, r: Result<[u8; 32], BoundError>)
    requires
        call_ensures(shard::without_prefix, (h,), bare),
        text::hex_cuts(bare@),
        call_ensures(shard::parse_bound, (h,), r),
    ensures
        r matches Ok(b) ==> bare@.len() == 64 && forall|i: int|
            0 <= i < 32 ==> text::pair_value(bare@[2 * i], bare@[2 * i + 1]) == Some(
                #[trigger] b@[i],
            ),
        r matches Err(BoundError::Length(n)) ==> bare@.len() == 2 * n && n != 32,
        r matches Err(BoundError::Hex(_)) ==> text::hex_decoded(bare@) is Err,
{
    if let Ok(v) = text::hex_decoded(bare@) {
        readback::lemma_decoded_by_pairs(bare@, v);
    }
}

/// A warmer counts the bytes of a code, and of a slot what its record and its entry
/// take.
pub proof fn lemma_warmed_bytes(row: Row, r: u64)
    requires
        call_ensures(export::warmed_bytes, (&row,), r),
    ensures
        row matches Row::Code { bytes, .. } ==> r == bytes@.len(),
        row is Slot ==> r == 96 + 32,
{
    if let Row::Code { bytes, .. } = row {
        assert(bytes@.len() == bytes.len());
    }
}

} // verus!
