//! Plain identifier types used across the node: 32-byte hashes, proposal
//! short ids and transaction outpoints.

use vstd::prelude::*;

verus! {

/// A 32-byte identifier (a block hash, a transaction hash, a filter hash),
/// held as four 64-bit limbs in big-endian order: `w0` holds bytes 0..8,
/// `w3` holds bytes 24..32. Comparing limb tuples lexicographically is the
/// same as comparing the 32 bytes lexicographically.
#[derive(Clone, Copy, Debug, PartialEq, Eq, Structural, Hash)]
pub struct Byte32 {
    pub w0: u64,
    pub w1: u64,
    pub w2: u64,
    pub w3: u64,
}

/// Byte `i` (0 = most significant) of a 64-bit word.
pub open spec fn u64_byte(x: u64, i: int) -> u8 {
    (x >> ((7 - i) * 8)) as u8
}

/// The eight bytes of a 64-bit word, most significant first.
pub open spec fn u64_be_bytes(x: u64) -> Seq<u8> {
    Seq::new(8, |i: int| u64_byte(x, i))
}

/// The 64-bit word read from eight bytes, most significant first.
pub open spec fn u64_from_be_bytes(s: Seq<u8>) -> u64
    recommends
        s.len() == 8,
{
    (((s[0] as u64) << 56) | ((s[1] as u64) << 48) | ((s[2] as u64) << 40) | ((s[3] as u64) << 32)
        | ((s[4] as u64) << 24) | ((s[5] as u64) << 16) | ((s[6] as u64) << 8) | (s[7] as u64)) as u64
}

pub proof fn lemma_u64_bytes_roundtrip(x: u64)
    ensures
        u64_from_be_bytes(u64_be_bytes(x)) == x,
{
    assert(((((x >> 56) as u8) as u64) << 56 | (((x >> 48) as u8) as u64) << 48 | (((x >> 40)
        as u8) as u64) << 40 | (((x >> 32) as u8) as u64) << 32 | (((x >> 24) as u8) as u64) << 24
        | (((x >> 16) as u8) as u64) << 16 | (((x >> 8) as u8) as u64) << 8 | (((x >> 0) as u8)
        as u64)) == x) by (bit_vector);
    assert(u64_be_bytes(x)[7] == (x >> ((7 - 7) * 8)) as u8);
    assert((x >> ((7 - 7) * 8)) as u8 == (x >> 0) as u8);
}

pub proof fn lemma_u64_bytes_decode(s: Seq<u8>)
    requires
        s.len() == 8,
    ensures
        u64_be_bytes(u64_from_be_bytes(s)) =~= s,
{
    let b0 = s[0];
    let b1 = s[1];
    let b2 = s[2];
    let b3 = s[3];
    let b4 = s[4];
    let b5 = s[5];
    let b6 = s[6];
    let b7 = s[7];
    let x = u64_from_be_bytes(s);
    assert(x == (((b0 as u64) << 56) | ((b1 as u64) << 48) | ((b2 as u64) << 40) | ((b3
        as u64) << 32) | ((b4 as u64) << 24) | ((b5 as u64) << 16) | ((b6 as u64) << 8) | (b7
        as u64)) as u64);
    assert({
        let y = (((b0 as u64) << 56) | ((b1 as u64) << 48) | ((b2 as u64) << 40) | ((b3
            as u64) << 32) | ((b4 as u64) << 24) | ((b5 as u64) << 16) | ((b6 as u64) << 8) | (b7
            as u64)) as u64;
        (y >> 56) as u8 == b0 && (y >> 48) as u8 == b1 && (y >> 40) as u8 == b2 && (y >> 32)
            as u8 == b3 && (y >> 24) as u8 == b4 && (y >> 16) as u8 == b5 && (y >> 8) as u8 == b6
            && (y >> 0) as u8 == b7
    }) by (bit_vector);
    assert forall|i: int| 0 <= i < 8 implies u64_be_bytes(x)[i] == s[i] by {
        if i == 0 {
            assert(u64_byte(x, 0) == (x >> 56) as u8);
        } else if i == 1 {
            assert(u64_byte(x, 1) == (x >> 48) as u8);
        } else if i == 2 {
            assert(u64_byte(x, 2) == (x >> 40) as u8);
        } else if i == 3 {
            assert(u64_byte(x, 3) == (x >> 32) as u8);
        } else if i == 4 {
            assert(u64_byte(x, 4) == (x >> 24) as u8);
        } else if i == 5 {
            assert(u64_byte(x, 5) == (x >> 16) as u8);
        } else if i == 6 {
            assert(u64_byte(x, 6) == (x >> 8) as u8);
        } else {
            assert(u64_byte(x, 7) == (x >> 0) as u8);
        }
    }
}

/// Append the eight bytes of `x` to `out`, most significant first.
pub fn push_u64_be(out: &mut Vec<u8>, x: u64)
    ensures
        final(out)@ == old(out)@ + u64_be_bytes(x),
{
    out.push((x >> 56) as u8);
    out.push((x >> 48) as u8);
    out.push((x >> 40) as u8);
    out.push((x >> 32) as u8);
    out.push((x >> 24) as u8);
    out.push((x >> 16) as u8);
    out.push((x >> 8) as u8);
    out.push(x as u8);
    proof {
        assert(x as u8 == (x >> 0) as u8) by (bit_vector);
        assert(out@ =~= old(out)@ + u64_be_bytes(x));
    }
}

/// Read a 64-bit word from `bytes` at offset `off`, most significant byte first.
pub fn read_u64_be(bytes: &Vec<u8>, off: usize) -> (r: u64)
    requires
        off + 8 <= bytes@.len(),
    ensures
        r == u64_from_be_bytes(bytes@.subrange(off as int, off + 8)),
{
    let n = bytes.len();
    proof {
        assert(off + 8 <= n);
    }
    let r = ((bytes[off] as u64) << 56) | ((bytes[off + 1] as u64) << 48) | ((bytes[off + 2]
        as u64) << 40) | ((bytes[off + 3] as u64) << 32) | ((bytes[off + 4] as u64) << 24)
        | ((bytes[off + 5] as u64) << 16) | ((bytes[off + 6] as u64) << 8) | (bytes[off + 7]
        as u64);
    proof {
        let s = bytes@.subrange(off as int, off + 8);
        assert(s[0] == bytes@[off as int] && s[1] == bytes@[off + 1] && s[2] == bytes@[off + 2]
            && s[3] == bytes@[off + 3] && s[4] == bytes@[off + 4] && s[5] == bytes@[off + 5] && s[6]
            == bytes@[off + 6] && s[7] == bytes@[off + 7]);
    }
    r
}

impl Byte32 {
    /// The 32 bytes of the identifier, most significant limb first.
    pub open spec fn bytes(self) -> Seq<u8> {
        u64_be_bytes(self.w0) + u64_be_bytes(self.w1) + u64_be_bytes(self.w2) + u64_be_bytes(
            self.w3,
        )
    }

    /// Byte-wise lexicographic "strictly less", as limb-tuple order.
    pub open spec fn lt_spec(self, other: Byte32) -> bool {
        self.w0 < other.w0 || (self.w0 == other.w0 && (self.w1 < other.w1 || (self.w1 == other.w1
            && (self.w2 < other.w2 || (self.w2 == other.w2 && self.w3 < other.w3)))))
    }

    /// The all-zero identifier, used to seed hash chains.
    pub fn zero() -> (r: Byte32)
        ensures
            r == (Byte32 { w0: 0, w1: 0, w2: 0, w3: 0 }),
    {
        Byte32 { w0: 0, w1: 0, w2: 0, w3: 0 }
    }

    /// Byte-wise lexicographic comparison.
    pub fn lt(&self, other: &Byte32) -> (r: bool)
        ensures
            r == self.lt_spec(*other),
    {
        self.w0 < other.w0 || (self.w0 == other.w0 && (self.w1 < other.w1 || (self.w1 == other.w1
            && (self.w2 < other.w2 || (self.w2 == other.w2 && self.w3 < other.w3)))))
    }

    /// The 32 bytes of the identifier as a vector.
    pub fn to_bytes(&self) -> (r: Vec<u8>)
        ensures
            r@ == self.bytes(),
            r@.len() == 32,
    {
        let mut out: Vec<u8> = Vec::new();
        push_u64_be(&mut out, self.w0);
        push_u64_be(&mut out, self.w1);
        push_u64_be(&mut out, self.w2);
        push_u64_be(&mut out, self.w3);
        proof {
            assert(out@ =~= self.bytes());
        }
        out
    }

    /// The identifier whose 32 bytes are `bytes`.
    pub fn from_bytes(bytes: &Vec<u8>) -> (r: Byte32)
        requires
            bytes@.len() == 32,
        ensures
            r.bytes() == bytes@,
    {
        let w0 = read_u64_be(bytes, 0);
        let w1 = read_u64_be(bytes, 8);
        let w2 = read_u64_be(bytes, 16);
        let w3 = read_u64_be(bytes, 24);
        let r = Byte32 { w0, w1, w2, w3 };
        proof {
            lemma_u64_bytes_decode(bytes@.subrange(0, 8));
            lemma_u64_bytes_decode(bytes@.subrange(8, 16));
            lemma_u64_bytes_decode(bytes@.subrange(16, 24));
            lemma_u64_bytes_decode(bytes@.subrange(24, 32));
            assert(r.bytes() =~= bytes@);
        }
        r
    }
}

/// A byte-for-byte copy of `v`.
pub fn copy_bytes(v: &Vec<u8>) -> (r: Vec<u8>)
    ensures
        r@ == v@,
{
    let mut out: Vec<u8> = Vec::new();
    let mut i: usize = 0;
    while i < v.len()
        invariant
            0 <= i <= v@.len(),
            out@ == v@.subrange(0, i as int),
        decreases v@.len() - i,
    {
        out.push(v[i]);
        i += 1;
        proof {
            assert(out@ =~= v@.subrange(0, i as int));
        }
    }
    proof {
        assert(out@ =~= v@);
    }
    out
}

/// Two identifiers with the same bytes are the same identifier.
pub proof fn lemma_byte32_bytes_injective(a: Byte32, b: Byte32)
    requires
        a.bytes() == b.bytes(),
    ensures
        a == b,
{
    lemma_u64_bytes_roundtrip(a.w0);
    lemma_u64_bytes_roundtrip(a.w1);
    lemma_u64_bytes_roundtrip(a.w2);
    lemma_u64_bytes_roundtrip(a.w3);
    lemma_u64_bytes_roundtrip(b.w0);
    lemma_u64_bytes_roundtrip(b.w1);
    lemma_u64_bytes_roundtrip(b.w2);
    lemma_u64_bytes_roundtrip(b.w3);
    assert(a.bytes().subrange(0, 8) =~= u64_be_bytes(a.w0));
    assert(a.bytes().subrange(8, 16) =~= u64_be_bytes(a.w1));
    assert(a.bytes().subrange(16, 24) =~= u64_be_bytes(a.w2));
    assert(a.bytes().subrange(24, 32) =~= u64_be_bytes(a.w3));
    assert(b.bytes().subrange(0, 8) =~= u64_be_bytes(b.w0));
    assert(b.bytes().subrange(8, 16) =~= u64_be_bytes(b.w1));
    assert(b.bytes().subrange(16, 24) =~= u64_be_bytes(b.w2));
    assert(b.bytes().subrange(24, 32) =~= u64_be_bytes(b.w3));
}

/// The first ten bytes of a transaction hash: eight from `w0`, the top two
/// bytes of `w1`.
#[derive(Clone, Copy, Debug, PartialEq, Eq, Structural, Hash)]
pub struct ProposalShortId {
    pub hi: u64,
    pub lo: u16,
}

/// The short id of a transaction hash.
pub open spec fn short_id_of(h: Byte32) -> ProposalShortId {
    ProposalShortId { hi: h.w0, lo: (h.w1 >> 48) as u16 }
}

impl ProposalShortId {
    /// The short id that proposal lists use for the transaction with hash `h`.
    pub fn from_tx_hash(h: &Byte32) -> (r: ProposalShortId)
        ensures
            r == short_id_of(*h),
    {
        ProposalShortId { hi: h.w0, lo: (h.w1 >> 48) as u16 }
    }
}

/// A reference to the `index`-th output of the transaction with hash `tx_hash`.
#[derive(Clone, Copy, Debug, PartialEq, Eq, Structural, Hash)]
pub struct OutPoint {
    pub tx_hash: Byte32,
    pub index: u32,
}

} // verus!
