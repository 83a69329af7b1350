//! Fixed-width address values with bit-level operations.

use vstd::prelude::*;

verus! {

broadcast use vstd::array::group_array_axioms;

/// Failure to read an address text in either family.
#[derive(Debug, Clone, Copy)]
pub struct AddrParseError;

/// An IPv4 or IPv6 address value held as a fixed-size byte buffer.
///
/// Bytes are stored least-significant first, which is the order convenient
/// for left shifts; e.g. the dotted-quad address `1.2.3.4` is held as
/// `[4, 3, 2, 1]`.
#[derive(Debug, Clone, Copy)]
pub enum Prefix {
    V4([u8; 4]),
    V6([u8; 16]),
}

/// Bit `k` (least-significant bit is `k == 0`) of the byte `b`.
pub open spec fn byte_bit(b: u8, k: u8) -> bool {
    (b >> k) & 1 == 1
}

/// The bits of a least-significant-first byte buffer, most significant
/// bit of the whole value first.
pub open spec fn bits_of_bytes(s: Seq<u8>) -> Seq<bool> {
    Seq::new(8 * s.len(), |i: int| byte_bit(s[s.len() - 1 - i / 8], (7 - i % 8) as u8))
}

/// A sequence of `n` zero bits.
pub open spec fn falses(n: nat) -> Seq<bool> {
    Seq::new(n, |i: int| false)
}

/// Byte `j` of a whole byte buffer shifted left by one bit: each byte is
/// shifted and receives the top bit of the byte below it as carry.
pub open spec fn shl1_byte(b: Seq<u8>, j: int) -> u8 {
    if j == 0 {
        b[0] << 1u8
    } else {
        (b[j] << 1u8) | (b[j - 1] >> 7u8)
    }
}

proof fn lemma_byte_shl_carry(x: u8, y: u8, k: u8)
    requires
        k <= 6,
    ensures
        byte_bit((x << 1u8) | (y >> 7u8), (k + 1) as u8) == byte_bit(x, k),
{
    assert(k <= 6 ==> ((((x << 1u8) | (y >> 7u8)) >> ((k + 1) as u8)) & 1) == ((x >> k) & 1))
        by (bit_vector);
}

proof fn lemma_byte_shl_first(x: u8, k: u8)
    requires
        k <= 6,
    ensures
        byte_bit(x << 1u8, (k + 1) as u8) == byte_bit(x, k),
{
    assert(k <= 6 ==> (((x << 1u8) >> ((k + 1) as u8)) & 1) == ((x >> k) & 1)) by (bit_vector);
}

proof fn lemma_byte_shl_low(x: u8, y: u8)
    ensures
        byte_bit((x << 1u8) | (y >> 7u8), 0) == byte_bit(y, 7),
        !byte_bit(x << 1u8, 0),
{
    assert(((((x << 1u8) | (y >> 7u8)) >> 0u8) & 1) == ((y >> 7u8) & 1)) by (bit_vector);
    assert((((x << 1u8) >> 0u8) & 1) == 0) by (bit_vector);
}

/// Shifting every byte left with cross-byte carry shifts the whole bit
/// sequence: the top bit is discarded and a zero enters at the bottom.
proof fn lemma_shl1_bits(old_b: Seq<u8>, new_b: Seq<u8>)
    requires
        old_b.len() == new_b.len(),
        old_b.len() >= 1,
        forall|j: int| 0 <= j < new_b.len() ==> new_b[j] == shl1_byte(old_b, j),
    ensures
        bits_of_bytes(new_b) == bits_of_bytes(old_b).drop_first().push(false),
{
    let l = old_b.len() as int;
    let w = 8 * l;
    let shifted = bits_of_bytes(old_b).drop_first().push(false);
    assert forall|i: int| 0 <= i < w implies bits_of_bytes(new_b)[i] == shifted[i] by {
        let j = l - 1 - i / 8;
        let k = 7 - i % 8;
        assert(0 <= i / 8 < l);
        assert(0 <= i % 8 < 8);
        assert(new_b[j] == shl1_byte(old_b, j));
        if k >= 1 {
            assert((i + 1) / 8 == i / 8);
            assert((i + 1) % 8 == i % 8 + 1);
            assert(i + 1 < w);
            if j == 0 {
                lemma_byte_shl_first(old_b[0], (k - 1) as u8);
            } else {
                lemma_byte_shl_carry(old_b[j], old_b[j - 1], (k - 1) as u8);
            }
            assert(bits_of_bytes(new_b)[i] == bits_of_bytes(old_b)[i + 1]);
        } else {
            assert(i % 8 == 7);
            if j >= 1 {
                assert((i + 1) / 8 == i / 8 + 1);
                assert((i + 1) % 8 == 0);
                assert(i + 1 < w);
                lemma_byte_shl_low(old_b[j], old_b[j - 1]);
                assert(bits_of_bytes(new_b)[i] == bits_of_bytes(old_b)[i + 1]);
            } else {
                assert(i == w - 1);
                lemma_byte_shl_low(old_b[0], old_b[0]);
                assert(!bits_of_bytes(new_b)[i]);
            }
        }
    }
    assert(bits_of_bytes(new_b) =~= shifted);
}

/// Iterated single-bit left shifts of a bit sequence: each step drops
/// the leading bit and appends a zero bit.
pub open spec fn iter_shl1(b: Seq<bool>, n: nat) -> Seq<bool>
    decreases n,
{
    if n == 0 {
        b
    } else {
        iter_shl1(b, (n - 1) as nat).drop_first().push(false)
    }
}

/// Law: shifting left bit by bit, `n` times over, gives the same bits as
/// one left shift by `n`, for every shift count up to the bit width.
pub proof fn lemma_shift_left_iterated(b: Seq<bool>, n: nat)
    requires
        n <= b.len(),
    ensures
        iter_shl1(b, n) == b.skip(n as int) + falses(n),
    decreases n,
{
    if n == 0 {
        assert(iter_shl1(b, 0) =~= b.skip(0) + falses(0));
    } else {
        lemma_shift_left_iterated(b, (n - 1) as nat);
        assert(iter_shl1(b, n) =~= b.skip(n as int) + falses(n));
    }
}

fn eq_bytes<const N: usize>(a: &[u8; N], b: &[u8; N]) -> (r: bool)
    ensures
        r == (a@ =~= b@),
{
    let mut i: usize = 0;
    while i < N
        invariant
            i <= N,
            forall|j: int| 0 <= j < i ==> a@[j] == b@[j],
        decreases N - i,
    {
        if a[i] != b[i] {
            return false;
        }
        i = i + 1;
    }
    true
}

fn rev_bytes<const N: usize>(b: &[u8; N]) -> (r: [u8; N])
    ensures
        r@ == b@.reverse(),
{
    let mut r: [u8; N] = [0; N];
    let mut i: usize = 0;
    while i < N
        invariant
            i <= N,
            forall|j: int| 0 <= j < i ==> r@[j] == b@[N - 1 - j],
        decreases N - i,
    {
        r[i] = b[N - 1 - i];
        i = i + 1;
    }
    proof {
        assert(r@ =~= b@.reverse());
    }
    r
}

fn shl1_bytes<const N: usize>(b: &[u8; N]) -> (r: [u8; N])
    requires
        N >= 1,
    ensures
        forall|j: int| 0 <= j < N ==> r@[j] == shl1_byte(b@, j),
{
    let mut r: [u8; N] = [0; N];
    r[0] = b[0] << 1u8;
    let mut idx: usize = 1;
    while idx < N
        invariant
            1 <= idx <= N,
            forall|j: int| 0 <= j < idx ==> r@[j] == shl1_byte(b@, j),
        decreases N - idx,
    {
        r[idx] = (b[idx] << 1u8) | (b[idx - 1] >> 7u8);
        idx = idx + 1;
    }
    r
}

impl Prefix {
    /// The bit width of the address family: 32 for V4, 128 for V6.
    pub open spec fn width(self) -> nat {
        match self {
            Prefix::V4(_) => 32,
            Prefix::V6(_) => 128,
        }
    }

    /// The stored bytes, least significant first.
    pub open spec fn byte_seq(self) -> Seq<u8> {
        match self {
            Prefix::V4(a) => a@,
            Prefix::V6(a) => a@,
        }
    }

    /// The address bits, most significant first; length equals `width()`.
    pub open spec fn bits(self) -> Seq<bool> {
        bits_of_bytes(self.byte_seq())
    }

    /// Whether `self` and `other` belong to the same address family.
    pub open spec fn same_family(self, other: Prefix) -> bool {
        self is V4 == other is V4
    }

    /// The whole address shifted left by one bit; the most significant
    /// bit is discarded and a zero bit enters at the least significant
    /// end.
    fn shl1(&self) -> (r: Prefix)
        ensures
            r.same_family(*self),
            r.bits() == self.bits().drop_first().push(false),
    {
        match *self {
            Prefix::V4(bytes) => {
                let s = shl1_bytes::<4>(&bytes);
                proof {
                    lemma_shl1_bits(bytes@, s@);
                }
                Prefix::V4(s)
            },
            Prefix::V6(bytes) => {
                let s = shl1_bytes::<16>(&bytes);
                proof {
                    lemma_shl1_bits(bytes@, s@);
                }
                Prefix::V6(s)
            },
        }
    }

    /// The address shifted left by `n` bits, as one logical shift of the
    /// whole value: the leading `n` bits are discarded and `n` zero bits
    /// enter at the least significant end.
    pub fn shift_left(&self, n: usize) -> (r: Prefix)
        requires
            n < self.width(),
        ensures
            r.same_family(*self),
            r.bits() == self.bits().skip(n as int) + falses(n as nat),
    {
        let mut cur: Prefix = *self;
        let mut k: usize = 0;
        proof {
            assert(cur.bits() =~= self.bits().skip(0) + falses(0));
        }
        while k < n
            invariant
                k <= n < self.width(),
                cur.same_family(*self),
                cur.bits() == self.bits().skip(k as int) + falses(k as nat),
            decreases n - k,
        {
            cur = cur.shl1();
            proof {
                assert(cur.bits() =~= self.bits().skip(k + 1) + falses((k + 1) as nat));
            }
            k = k + 1;
        }
        cur
    }

    /// An address from its text: a dotted-quad address gives a V4
    /// prefix; otherwise a colon-hex address (with `::` compression
    /// and an optional embedded dotted-quad tail) gives a V6 prefix.
    pub fn from_str(s: &str) -> (r: Result<Prefix, AddrParseError>)
        ensures
            (r is Ok) == (crate::text::spec_addr_bytes(s@) is Some),
            r matches Ok(p) ==> {
                &&& p.byte_seq() == crate::text::spec_addr_bytes(s@)->0.reverse()
                &&& (p is V4) == (crate::text::spec_ipv4(s@) is Some)
            },
    {
        let v = crate::text::str_chars(s);
        let n = v.len();
        proof {
            assert(v@.subrange(0, n as int) =~= s@);
        }
        match crate::text::parse_ipv4_in(&v, 0, n) {
            Some(o) => Ok(Prefix::from_ipv4(o)),
            None => match crate::text::parse_ipv6_in(&v, 0, n) {
                Some(b) => Ok(Prefix::from_ipv6(b)),
                None => Err(AddrParseError),
            },
        }
    }

    /// The same address with its bytes in the opposite order; turns a
    /// most-significant-first buffer into the stored order and back.
    pub fn reverse_bytes(&self) -> (r: Prefix)
        ensures
            r.same_family(*self),
            r.byte_seq() == self.byte_seq().reverse(),
    {
        match self {
            Prefix::V4(bytes) => Prefix::V4(rev_bytes::<4>(bytes)),
            Prefix::V6(bytes) => Prefix::V6(rev_bytes::<16>(bytes)),
        }
    }

    /// A V4 prefix from its four octets in network order (most
    /// significant first).
    pub fn from_ipv4(octets: [u8; 4]) -> (r: Prefix)
        ensures
            r is V4,
            r.byte_seq() == octets@.reverse(),
    {
        Prefix::V4(octets).reverse_bytes()
    }

    /// A V6 prefix from its sixteen octets in network order (most
    /// significant first).
    pub fn from_ipv6(octets: [u8; 16]) -> (r: Prefix)
        ensures
            r is V6,
            r.byte_seq() == octets@.reverse(),
    {
        Prefix::V6(octets).reverse_bytes()
    }

    /// The four octets of a V4 prefix in network order (most significant
    /// first).
    pub fn octets(&self) -> (r: [u8; 4])
        requires
            self is V4,
        ensures
            r@ == self.byte_seq().reverse(),
    {
        match self {
            Prefix::V4(bytes) => rev_bytes::<4>(bytes),
            Prefix::V6(_) => [0; 4],
        }
    }

    /// The most significant bit of the address: 1 or 0.
    pub fn msbit(&self) -> (r: u8)
        ensures
            r <= 1,
            (r == 1) == self.bits()[0],
    {
        proof {
            assert(self.bits().len() == 8 * self.byte_seq().len());
        }
        match *self {
            Prefix::V4(bytes) => {
                let r = (bytes[3] & 0x80) >> 7;
                proof {
                    let b = bytes[3];
                    assert((((b & 0x80) >> 7) == 1) == ((b >> 7) & 1 == 1)) by (bit_vector);
                    assert(((b & 0x80) >> 7) <= 1) by (bit_vector);
                }
                r
            },
            Prefix::V6(bytes) => {
                let r = (bytes[15] & 0x80) >> 7;
                proof {
                    let b = bytes[15];
                    assert((((b & 0x80) >> 7) == 1) == ((b >> 7) & 1 == 1)) by (bit_vector);
                    assert(((b & 0x80) >> 7) <= 1) by (bit_vector);
                }
                r
            },
        }
    }
}

impl PartialEq for Prefix {
    fn eq(&self, other: &Prefix) -> bool {
        match (self, other) {
            (Prefix::V4(a), Prefix::V4(b)) => {
                let r = eq_bytes::<4>(a, b);
                proof {
                    if a@ =~= b@ {
                        assert(*a =~= *b);
                        assert(*self == *other);
                    } else {
                        assert(*self != *other);
                    }
                }
                r
            },
            (Prefix::V6(a), Prefix::V6(b)) => {
                let r = eq_bytes::<16>(a, b);
                proof {
                    if a@ =~= b@ {
                        assert(*a =~= *b);
                        assert(*self == *other);
                    } else {
                        assert(*self != *other);
                    }
                }
                r
            },
            _ => false,
        }
    }
}

impl vstd::std_specs::cmp::PartialEqSpecImpl for Prefix {
    open spec fn obeys_eq_spec() -> bool {
        true
    }

    open spec fn eq_spec(&self, other: &Prefix) -> bool {
        *self == *other
    }
}

impl Eq for Prefix {

}

} // verus!
