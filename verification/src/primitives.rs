//! Fixed-width words: hashes, 256-bit integers, account addresses, and the
//! big-endian byte strings they are written as.

use vstd::prelude::*;

verus! {

/// The `n` big-endian bytes of `v` (of its lowest `8 * n` bits).
pub open spec fn be_bytes(v: nat, n: nat) -> Seq<u8>
    decreases n,
{
    if n == 0 {
        Seq::empty()
    } else {
        be_bytes(v / 256, (n - 1) as nat).push((v % 256) as u8)
    }
}

/// The number whose big-endian bytes are `s`.
pub open spec fn be_value(s: Seq<u8>) -> nat
    decreases s.len(),
{
    if s.len() == 0 {
        0
    } else {
        be_value(s.drop_last()) * 256 + s.last() as nat
    }
}

/// 256 to the power of `n`.
pub open spec fn pow256(n: nat) -> nat
    decreases n,
{
    if n == 0 {
        1
    } else {
        pow256((n - 1) as nat) * 256
    }
}

/// `be_bytes` yields exactly the requested number of bytes.
pub proof fn lemma_be_bytes_len(v: nat, n: nat)
    ensures
        be_bytes(v, n).len() == n,
    decreases n,
{
    if n > 0 {
        lemma_be_bytes_len(v / 256, (n - 1) as nat);
    }
}

/// A number that fits is read back from its bytes.
pub proof fn lemma_be_round_trip(v: nat, n: nat)
    requires
        v < pow256(n),
    ensures
        be_value(be_bytes(v, n)) == v,
    decreases n,
{
    if n > 0 {
        let s = be_bytes(v, n);
        assert(v / 256 < pow256((n - 1) as nat)) by {
            vstd::arithmetic::div_mod::lemma_multiply_divide_lt(
                v as int,
                256,
                pow256((n - 1) as nat) as int,
            );
        }
        lemma_be_round_trip(v / 256, (n - 1) as nat);
        assert(s.drop_last() =~= be_bytes(v / 256, (n - 1) as nat));
        assert(s.last() == (v % 256) as u8);
    }
}

/// Bytes are recovered from the number they stand for.
pub proof fn lemma_be_bytes_of_value(s: Seq<u8>)
    ensures
        be_bytes(be_value(s), s.len()) == s,
        be_value(s) < pow256(s.len()),
    decreases s.len(),
{
    if s.len() > 0 {
        lemma_be_bytes_of_value(s.drop_last());
        let high = be_value(s.drop_last());
        let v = be_value(s);
        assert(v == high * 256 + s.last());
        assert(v / 256 == high && v % 256 == s.last() as nat);
        assert(be_bytes(v, s.len()) =~= s.drop_last().push(s.last()));
        assert(s.drop_last().push(s.last()) =~= s);
    }
}

pub proof fn lemma_pow256_16()
    ensures
        pow256(4) == 0x1_0000_0000nat,
        pow256(8) == 0x1_0000_0000_0000_0000nat,
        pow256(16) == 0x1_0000_0000_0000_0000_0000_0000_0000_0000nat,
{
    reveal_with_fuel(pow256, 17);
}

/// Appends the `n` big-endian bytes of `v` to `out`.
pub fn append_be(out: &mut Vec<u8>, v: u128, n: usize)
    requires
        n <= 16,
    ensures
        final(out)@ == old(out)@ + be_bytes(v as nat, n as nat),
    decreases n,
{
    if n == 0 {
        assert(out@ =~= old(out)@ + be_bytes(v as nat, 0));
    } else {
        let ghost before = out@;
        append_be(out, v / 256, n - 1);
        out.push((v % 256) as u8);
        assert(out@ =~= before + be_bytes(v as nat, n as nat));
    }
}

/// Reads `n` big-endian bytes of `bytes`, from index `from` on.
pub fn read_be(bytes: &[u8], from: usize, n: usize) -> (v: u128)
    requires
        n <= 16,
        from + n <= bytes@.len(),
    ensures
        v as nat == be_value(bytes@.subrange(from as int, from + n)),
{
    let total: usize = bytes.len();
    let mut v: u128 = 0;
    let mut i: usize = 0;
    proof {
        lemma_pow256_16();
        assert(bytes@.subrange(from as int, from as int) =~= Seq::empty());
    }
    while i < n
        invariant
            i <= n <= 16,
            from + n <= bytes@.len() == total,
            v as nat == be_value(bytes@.subrange(from as int, from + i)),
            pow256(16) == 0x1_0000_0000_0000_0000_0000_0000_0000_0000nat,
        decreases n - i,
    {
        proof {
            let s = bytes@.subrange(from as int, from + i + 1);
            assert(s.drop_last() =~= bytes@.subrange(from as int, from + i));
            lemma_be_bytes_of_value(s);
            lemma_pow256_monotone(s.len(), 16);
        }
        v = v * 256 + bytes[from + i] as u128;
        i = i + 1;
    }
    v
}

/// The number whose little-endian bytes are `s`.
pub open spec fn le_value(s: Seq<u8>) -> nat
    decreases s.len(),
{
    if s.len() == 0 {
        0
    } else {
        s[0] as nat + 256 * le_value(s.skip(1))
    }
}

/// Reads the eight little-endian bytes of `bytes` from index `from` on.
pub fn read_le8(bytes: &[u8], from: usize) -> (v: u64)
    requires
        from + 8 <= bytes@.len(),
    ensures
        v == le_value(bytes@.subrange(from as int, from + 8)),
{
    let total: usize = bytes.len();
    let mut v: u128 = 0;
    let mut i: usize = 8;
    proof {
        lemma_pow256_16();
    }
    while i > 0
        invariant
            i <= 8,
            from + 8 <= total,
            total == bytes@.len(),
            v == le_value(bytes@.subrange(from + i, from + 8)),
            v < pow256((8 - i) as nat),
            pow256(8) == 0x1_0000_0000_0000_0000nat,
        decreases i,
    {
        let ghost rest = bytes@.subrange(from + i, from + 8);
        let ghost more = bytes@.subrange(from + i - 1, from + 8);
        proof {
            lemma_pow256_monotone((8 - i) as nat, 8);
            assert(more.skip(1) =~= rest);
            assert(pow256((8 - i + 1) as nat) == pow256((8 - i) as nat) * 256);
        }
        v = bytes[from + (i - 1)] as u128 + 256 * v;
        i = i - 1;
    }
    v as u64
}

pub proof fn lemma_pow256_monotone(a: nat, b: nat)
    requires
        a <= b,
    ensures
        pow256(a) <= pow256(b),
    decreases b - a,
{
    if a < b {
        lemma_pow256_monotone(a, (b - 1) as nat);
    }
}

/// A 32-byte hash, as its two big-endian halves.
#[derive(Clone, Copy, Debug, PartialEq, Eq, PartialOrd, Ord, Hash, Structural)]
pub struct B256 {
    /// Bytes 0 to 15.
    pub hi: u128,
    /// Bytes 16 to 31.
    pub lo: u128,
}

/// An unsigned 256-bit integer, as its two halves.
#[derive(Clone, Copy, Debug, PartialEq, Eq, PartialOrd, Ord, Hash, Structural)]
pub struct U256 {
    /// The upper 128 bits.
    pub hi: u128,
    /// The lower 128 bits.
    pub lo: u128,
}

/// A 20-byte account address.
#[derive(Clone, Copy, Debug, PartialEq, Eq, PartialOrd, Ord, Hash, Structural)]
pub struct Address {
    /// Bytes 0 to 3.
    pub hi: u32,
    /// Bytes 4 to 19.
    pub lo: u128,
}

/// The number and hash that identify one block.
#[derive(Clone, Copy, Debug, PartialEq, Eq, Hash, Structural)]
pub struct BlockNumHash {
    /// Block number.
    pub number: u64,
    /// Block hash.
    pub hash: B256,
}

/// `a` stands before `b` when 32-byte strings are ordered byte by byte.
pub open spec fn word_lt(a_hi: u128, a_lo: u128, b_hi: u128, b_lo: u128) -> bool {
    a_hi < b_hi || (a_hi == b_hi && a_lo < b_lo)
}

/// Byte strings of the same length in dictionary order.
pub open spec fn bytes_before(a: Seq<u8>, b: Seq<u8>) -> bool {
    exists|k: int|
        {
            &&& 0 <= k < a.len()
            &&& #[trigger] a[k] < b[k]
            &&& forall|j: int| 0 <= j < k ==> #[trigger] a[j] == b[j]
        }
}

/// Big-endian byte strings of the same length stand in dictionary order when
/// the numbers stand in numeric order.
pub proof fn lemma_bytes_order(a: Seq<u8>, b: Seq<u8>)
    requires
        a.len() == b.len(),
    ensures
        bytes_before(a, b) <==> be_value(a) < be_value(b),
        a == b <==> be_value(a) == be_value(b),
    decreases a.len(),
{
    lemma_be_bytes_of_value(a);
    lemma_be_bytes_of_value(b);
    if a.len() > 0 {
        let p = a.drop_last();
        let q = b.drop_last();
        let n = a.len() - 1;
        lemma_bytes_order(p, q);
        if bytes_before(p, q) {
            let k = choose|k: int|
                {
                    &&& 0 <= k < p.len()
                    &&& #[trigger] p[k] < q[k]
                    &&& forall|j: int| 0 <= j < k ==> #[trigger] p[j] == q[j]
                };
            assert(a[k] < b[k]);
            assert forall|j: int| 0 <= j < k implies #[trigger] a[j] == b[j] by {
                assert(p[j] == q[j]);
            }
        }
        if p == q && a.last() < b.last() {
            assert(a[n] < b[n]);
            assert forall|j: int| 0 <= j < n implies #[trigger] a[j] == b[j] by {
                assert(p[j] == q[j]);
            }
        }
        if bytes_before(a, b) {
            let k = choose|k: int|
                {
                    &&& 0 <= k < a.len()
                    &&& #[trigger] a[k] < b[k]
                    &&& forall|j: int| 0 <= j < k ==> #[trigger] a[j] == b[j]
                };
            if k < n {
                assert(p[k] < q[k]);
                assert forall|j: int| 0 <= j < k implies #[trigger] p[j] == q[j] by {
                    assert(a[j] == b[j]);
                }
                assert(bytes_before(p, q));
            } else {
                assert(p =~= q);
            }
        }
    }
}

proof fn lemma_two_halves(a: Seq<u8>, b: Seq<u8>, c: Seq<u8>, d: Seq<u8>)
    requires
        a.len() == c.len(),
        b.len() == d.len(),
    ensures
        bytes_before(a + b, c + d) <==> bytes_before(a, c) || (a == c && bytes_before(b, d)),
        a + b == c + d <==> a == c && b == d,
{
    let x = a + b;
    let y = c + d;
    let n = a.len() as int;
    assert(x.subrange(0, n) =~= a);
    assert(y.subrange(0, n) =~= c);
    assert(x.subrange(n, x.len() as int) =~= b);
    assert(y.subrange(n, y.len() as int) =~= d);
    if bytes_before(x, y) {
        let k = choose|k: int|
            {
                &&& 0 <= k < x.len()
                &&& #[trigger] x[k] < y[k]
                &&& forall|j: int| 0 <= j < k ==> #[trigger] x[j] == y[j]
            };
        if k < n {
            assert(a[k] < c[k]);
            assert forall|j: int| 0 <= j < k implies #[trigger] a[j] == c[j] by {
                assert(x[j] == y[j]);
            }
        } else {
            assert forall|j: int| 0 <= j < n implies a[j] == c[j] by {
                assert(x[j] == y[j]);
            }
            assert(a =~= c);
            assert(b[k - n] < d[k - n]);
            assert forall|j: int| 0 <= j < k - n implies #[trigger] b[j] == d[j] by {
                assert(x[j + n] == y[j + n]);
            }
        }
    }
    if bytes_before(a, c) {
        let k = choose|k: int|
            {
                &&& 0 <= k < a.len()
                &&& #[trigger] a[k] < c[k]
                &&& forall|j: int| 0 <= j < k ==> #[trigger] a[j] == c[j]
            };
        assert(x[k] < y[k]);
        assert forall|j: int| 0 <= j < k implies #[trigger] x[j] == y[j] by {
            assert(a[j] == c[j]);
        }
    }
    if a == c && bytes_before(b, d) {
        let k = choose|k: int|
            {
                &&& 0 <= k < b.len()
                &&& #[trigger] b[k] < d[k]
                &&& forall|j: int| 0 <= j < k ==> #[trigger] b[j] == d[j]
            };
        assert(x[k + n] < y[k + n]);
        assert forall|j: int| 0 <= j < k + n implies #[trigger] x[j] == y[j] by {
            if j >= n {
                assert(b[j - n] == d[j - n]);
            }
        }
    }
}

/// Hashes stand in the dictionary order of their bytes, and only equal hashes
/// have the same bytes.
pub proof fn lemma_b256_order(a: B256, b: B256)
    ensures
        a.before(b) <==> bytes_before(a.bytes(), b.bytes()),
        a == b <==> a.bytes() == b.bytes(),
        a.bytes().len() == 32,
{
    let (ah, al) = (be_bytes(a.hi as nat, 16), be_bytes(a.lo as nat, 16));
    let (bh, bl) = (be_bytes(b.hi as nat, 16), be_bytes(b.lo as nat, 16));
    lemma_pow256_16();
    lemma_be_bytes_len(a.hi as nat, 16);
    lemma_be_bytes_len(a.lo as nat, 16);
    lemma_be_bytes_len(b.hi as nat, 16);
    lemma_be_bytes_len(b.lo as nat, 16);
    lemma_be_round_trip(a.hi as nat, 16);
    lemma_be_round_trip(a.lo as nat, 16);
    lemma_be_round_trip(b.hi as nat, 16);
    lemma_be_round_trip(b.lo as nat, 16);
    lemma_bytes_order(ah, bh);
    lemma_bytes_order(al, bl);
    lemma_two_halves(ah, al, bh, bl);
}

impl B256 {
    /// The 32 bytes of the hash.
    pub open spec fn bytes(self) -> Seq<u8> {
        be_bytes(self.hi as nat, 16) + be_bytes(self.lo as nat, 16)
    }

    /// Byte-wise order.
    pub open spec fn before(self, other: Self) -> bool {
        word_lt(self.hi, self.lo, other.hi, other.lo)
    }

    /// Whether `self` stands before `other`, byte by byte.
    pub fn is_before(&self, other: &Self) -> (r: bool)
        ensures
            r == self.before(*other),
    {
        self.hi < other.hi || (self.hi == other.hi && self.lo < other.lo)
    }

    /// The hash made of the 32 bytes given.
    pub fn from_slice(bytes: &[u8]) -> (r: Self)
        requires
            bytes@.len() == 32,
        ensures
            r.bytes() == bytes@,
    {
        let hi = read_be(bytes, 0, 16);
        let lo = read_be(bytes, 16, 16);
        proof {
            lemma_be_bytes_of_value(bytes@.subrange(0, 16));
            lemma_be_bytes_of_value(bytes@.subrange(16, 32));
            assert(bytes@.subrange(0, 16) + bytes@.subrange(16, 32) =~= bytes@);
        }
        B256 { hi, lo }
    }

    /// The hash whose 32 bytes all are `byte`.
    pub fn repeat_byte(byte: u8) -> (r: Self)
        ensures
            r.bytes() == Seq::new(32, |i: int| byte),
    {
        let bytes: [u8; 32] = [byte; 32];
        let r = B256::from_slice(bytes.as_slice());
        assert(bytes@ =~= Seq::new(32, |i: int| byte));
        r
    }

    /// The 32 bytes of the hash.
    pub fn to_bytes(&self) -> (r: Vec<u8>)
        ensures
            r@ == self.bytes(),
    {
        let mut out: Vec<u8> = Vec::new();
        self.append_to(&mut out);
        assert(out@ =~= self.bytes());
        out
    }

    /// Appends the 32 bytes of the hash to `out`.
    pub fn append_to(&self, out: &mut Vec<u8>)
        ensures
            final(out)@ == old(out)@ + self.bytes(),
    {
        let ghost before = out@;
        append_be(out, self.hi, 16);
        append_be(out, self.lo, 16);
        assert(out@ =~= before + self.bytes());
    }
}

impl U256 {
    /// The 32 big-endian bytes of the integer.
    pub open spec fn bytes(self) -> Seq<u8> {
        be_bytes(self.hi as nat, 16) + be_bytes(self.lo as nat, 16)
    }

    /// The integer's value.
    pub open spec fn value(self) -> nat {
        self.hi as nat * 0x1_0000_0000_0000_0000_0000_0000_0000_0000nat + self.lo as nat
    }

    /// Numeric order.
    pub open spec fn before(self, other: Self) -> bool {
        word_lt(self.hi, self.lo, other.hi, other.lo)
    }

    /// Whether `self` is less than `other`.
    pub fn is_before(&self, other: &Self) -> (r: bool)
        ensures
            r == self.before(*other),
            r == (self.value() < other.value()),
    {
        self.hi < other.hi || (self.hi == other.hi && self.lo < other.lo)
    }

    /// The integer zero.
    pub fn zero() -> (r: Self)
        ensures
            r.value() == 0,
            r.hi == 0,
            r.lo == 0,
    {
        U256 { hi: 0, lo: 0 }
    }

    /// The integer `v`.
    pub fn from_u64(v: u64) -> (r: Self)
        ensures
            r.value() == v,
            r.hi == 0,
            r.lo == v,
    {
        U256 { hi: 0, lo: v as u128 }
    }

    /// The integer with the 32 big-endian bytes given.
    pub fn from_slice(bytes: &[u8]) -> (r: Self)
        requires
            bytes@.len() == 32,
        ensures
            r.bytes() == bytes@,
    {
        let b = B256::from_slice(bytes);
        U256 { hi: b.hi, lo: b.lo }
    }

    /// The 32 big-endian bytes of the integer.
    pub fn to_bytes(&self) -> (r: Vec<u8>)
        ensures
            r@ == self.bytes(),
    {
        let mut out: Vec<u8> = Vec::new();
        self.append_to(&mut out);
        assert(out@ =~= self.bytes());
        out
    }

    /// Appends the 32 big-endian bytes of the integer to `out`.
    pub fn append_to(&self, out: &mut Vec<u8>)
        ensures
            final(out)@ == old(out)@ + self.bytes(),
    {
        let ghost before = out@;
        append_be(out, self.hi, 16);
        append_be(out, self.lo, 16);
        assert(out@ =~= before + self.bytes());
    }
}

impl Address {
    /// The 20 bytes of the address.
    pub open spec fn bytes(self) -> Seq<u8> {
        be_bytes(self.hi as nat, 4) + be_bytes(self.lo as nat, 16)
    }

    /// Byte-wise order.
    pub open spec fn before(self, other: Self) -> bool {
        self.hi < other.hi || (self.hi == other.hi && self.lo < other.lo)
    }

    /// Whether `self` stands before `other`, byte by byte.
    pub fn is_before(&self, other: &Self) -> (r: bool)
        ensures
            r == self.before(*other),
    {
        self.hi < other.hi || (self.hi == other.hi && self.lo < other.lo)
    }

    /// The address made of the 20 bytes given.
    pub fn from_slice(bytes: &[u8]) -> (r: Self)
        requires
            bytes@.len() == 20,
        ensures
            r.bytes() == bytes@,
    {
        let hi = read_be(bytes, 0, 4);
        let lo = read_be(bytes, 4, 16);
        proof {
            lemma_pow256_16();
            lemma_be_bytes_of_value(bytes@.subrange(0, 4));
            lemma_be_bytes_of_value(bytes@.subrange(4, 20));
            assert(bytes@.subrange(0, 4) + bytes@.subrange(4, 20) =~= bytes@);
        }
        Address { hi: hi as u32, lo }
    }

    /// The 20 bytes of the address.
    pub fn to_bytes(&self) -> (r: Vec<u8>)
        ensures
            r@ == self.bytes(),
    {
        let mut out: Vec<u8> = Vec::new();
        append_be(&mut out, self.hi as u128, 4);
        append_be(&mut out, self.lo, 16);
        assert(out@ =~= self.bytes());
        out
    }
}

} // verus!
