use vstd::prelude::*;
use vstd::arithmetic::div_mod::{
    lemma_div_denominator, lemma_fundamental_div_mod, lemma_fundamental_div_mod_converse,
};
use vstd::std_specs::bits::{u32_leading_zeros, u64_leading_zeros};

verus! {

/// Number of bytes in an identifier.
pub const ID_LEN: usize = 20;

/// Number of bytes in a node identifier.
pub const NODE_ID_LEN: usize = 20;

/// Number of bytes in an info-hash.
pub const INFO_HASH_LEN: usize = 20;

/// Number of bits in an identifier.
pub const ID_BITS: usize = 160;

/// A 160-bit identifier, held as three big-endian limbs: the first 32 bits,
/// the next 64 bits and the last 64 bits.
#[derive(Clone, Copy, Debug, PartialEq, Eq, Hash, Structural)]
pub struct Id {
    pub hi: u32,
    pub mid: u64,
    pub lo: u64,
}

/// Identifier of a participant of the overlay.
pub type NodeId = Id;

/// Identifier of a piece of content.
pub type InfoHash = Id;

/// The number that four bytes denote, most significant byte first.
pub open spec fn be32(b0: u8, b1: u8, b2: u8, b3: u8) -> nat {
    (b0 as nat) * 0x100_0000 + (b1 as nat) * 0x1_0000 + (b2 as nat) * 0x100 + (b3 as nat)
}

/// The number that eight bytes of `bytes` denote, starting at `at`, most
/// significant byte first.
pub open spec fn be64(bytes: Seq<u8>, at: int) -> nat {
    be32(bytes[at], bytes[at + 1], bytes[at + 2], bytes[at + 3]) * 0x1_0000_0000 + be32(
        bytes[at + 4],
        bytes[at + 5],
        bytes[at + 6],
        bytes[at + 7],
    )
}

/// Byte `index` (0 is the most significant) of a 32-bit number.
pub open spec fn byte_of_u32(x: u32, index: int) -> u8 {
    if index == 0 {
        (x / 0x100_0000) as u8
    } else if index == 1 {
        ((x / 0x1_0000) % 0x100) as u8
    } else if index == 2 {
        ((x / 0x100) % 0x100) as u8
    } else {
        (x % 0x100) as u8
    }
}

/// Byte `index` (0 is the most significant) of a 64-bit number.
pub open spec fn byte_of_u64(x: u64, index: int) -> u8 {
    if index < 4 {
        byte_of_u32((x / 0x1_0000_0000) as u32, index)
    } else {
        byte_of_u32((x % 0x1_0000_0000) as u32, index - 4)
    }
}

/// Packing four bytes and taking the result apart again gives the bytes back.
pub proof fn lemma_be32_bytes(b0: u8, b1: u8, b2: u8, b3: u8)
    ensures
        be32(b0, b1, b2, b3) <= u32::MAX,
        byte_of_u32(be32(b0, b1, b2, b3) as u32, 0) == b0,
        byte_of_u32(be32(b0, b1, b2, b3) as u32, 1) == b1,
        byte_of_u32(be32(b0, b1, b2, b3) as u32, 2) == b2,
        byte_of_u32(be32(b0, b1, b2, b3) as u32, 3) == b3,
{
    let x = be32(b0, b1, b2, b3) as int;
    lemma_fundamental_div_mod_converse(
        x,
        0x100_0000,
        b0 as int,
        (b1 as int) * 0x1_0000 + (b2 as int) * 0x100 + (b3 as int),
    );
    lemma_fundamental_div_mod_converse(
        x,
        0x1_0000,
        (b0 as int) * 0x100 + (b1 as int),
        (b2 as int) * 0x100 + (b3 as int),
    );
    lemma_fundamental_div_mod_converse((b0 as int) * 0x100 + (b1 as int), 0x100, b0 as int, b1 as int);
    lemma_fundamental_div_mod_converse(
        x,
        0x100,
        (b0 as int) * 0x1_0000 + (b1 as int) * 0x100 + (b2 as int),
        b3 as int,
    );
    lemma_fundamental_div_mod_converse(
        (b0 as int) * 0x1_0000 + (b1 as int) * 0x100 + (b2 as int),
        0x100,
        (b0 as int) * 0x100 + (b1 as int),
        b2 as int,
    );
}

/// Taking a 32-bit number apart and packing its bytes gives the number back.
pub proof fn lemma_bytes_be32(x: u32)
    ensures
        be32(byte_of_u32(x, 0), byte_of_u32(x, 1), byte_of_u32(x, 2), byte_of_u32(x, 3)) == x,
{
    let a = x as int / 0x100_0000;
    let b = x as int / 0x1_0000;
    let c = x as int / 0x100;
    lemma_fundamental_div_mod(x as int, 0x100);
    lemma_fundamental_div_mod(c, 0x100);
    lemma_fundamental_div_mod(b, 0x100);
    lemma_div_denominator(x as int, 0x100, 0x100);
    lemma_div_denominator(x as int, 0x1_0000, 0x100);
    assert(b == c / 0x100);
    assert(a == b / 0x100);
}

/// Packing eight bytes and taking the result apart again gives the bytes back.
pub proof fn lemma_be64_bytes(bytes: Seq<u8>, at: int)
    ensures
        be64(bytes, at) <= u64::MAX,
        forall|k: int| 0 <= k < 8 ==> byte_of_u64(be64(bytes, at) as u64, k) == #[trigger] bytes[at + k],
{
    let h = be32(bytes[at], bytes[at + 1], bytes[at + 2], bytes[at + 3]);
    let l = be32(bytes[at + 4], bytes[at + 5], bytes[at + 6], bytes[at + 7]);
    lemma_be32_bytes(bytes[at], bytes[at + 1], bytes[at + 2], bytes[at + 3]);
    lemma_be32_bytes(bytes[at + 4], bytes[at + 5], bytes[at + 6], bytes[at + 7]);
    lemma_fundamental_div_mod_converse(
        (h * 0x1_0000_0000 + l) as int,
        0x1_0000_0000,
        h as int,
        l as int,
    );
}

/// Taking a 64-bit number apart and packing its bytes gives the number back.
pub proof fn lemma_bytes_be64(x: u64, bytes: Seq<u8>, at: int)
    requires
        forall|k: int| 0 <= k < 8 ==> #[trigger] bytes[at + k] == byte_of_u64(x, k),
    ensures
        be64(bytes, at) == x,
{
    lemma_fundamental_div_mod(x as int, 0x1_0000_0000);
    lemma_bytes_be32((x / 0x1_0000_0000) as u32);
    lemma_bytes_be32((x % 0x1_0000_0000) as u32);
    assert(bytes[at + 0] == byte_of_u64(x, 0));
    assert(bytes[at + 1] == byte_of_u64(x, 1));
    assert(bytes[at + 2] == byte_of_u64(x, 2));
    assert(bytes[at + 3] == byte_of_u64(x, 3));
    assert(bytes[at + 4] == byte_of_u64(x, 4));
    assert(bytes[at + 5] == byte_of_u64(x, 5));
    assert(bytes[at + 6] == byte_of_u64(x, 6));
    assert(bytes[at + 7] == byte_of_u64(x, 7));
}

/// The 32-bit number that four bytes denote, most significant byte first.
pub fn pack32(b0: u8, b1: u8, b2: u8, b3: u8) -> (x: u32)
    ensures
        x == be32(b0, b1, b2, b3),
{
    (b0 as u32) * 0x100_0000 + (b1 as u32) * 0x1_0000 + (b2 as u32) * 0x100 + (b3 as u32)
}

/// Byte `index` (0 is the most significant) of a 32-bit number.
pub fn unpack32(x: u32, index: usize) -> (b: u8)
    requires
        index < 4,
    ensures
        b == byte_of_u32(x, index as int),
{
    if index == 0 {
        (x / 0x100_0000) as u8
    } else if index == 1 {
        ((x / 0x1_0000) % 0x100) as u8
    } else if index == 2 {
        ((x / 0x100) % 0x100) as u8
    } else {
        (x % 0x100) as u8
    }
}

/// Byte `index` (0 is the most significant) of a 64-bit number.
pub fn unpack64(x: u64, index: usize) -> (b: u8)
    requires
        index < 8,
    ensures
        b == byte_of_u64(x, index as int),
{
    if index < 4 {
        unpack32((x / 0x1_0000_0000) as u32, index)
    } else {
        unpack32((x % 0x1_0000_0000) as u32, index - 4)
    }
}

impl Id {
    /// The identifier read as an unsigned 160-bit number.
    pub open spec fn value(self) -> nat {
        (self.hi as nat) * 0x1_0000_0000_0000_0000_0000_0000_0000_0000nat + (self.mid as nat)
            * 0x1_0000_0000_0000_0000nat + (self.lo as nat)
    }

    /// The identifier that twenty bytes denote, most significant byte first.
    pub open spec fn spec_from_bytes(bytes: Seq<u8>) -> Id {
        Id {
            hi: be32(bytes[0], bytes[1], bytes[2], bytes[3]) as u32,
            mid: be64(bytes, 4) as u64,
            lo: be64(bytes, 12) as u64,
        }
    }

    /// Byte `index` of the identifier, 0 being the most significant.
    pub open spec fn spec_byte(self, index: int) -> u8 {
        if index < 4 {
            byte_of_u32(self.hi, index)
        } else if index < 12 {
            byte_of_u64(self.mid, index - 4)
        } else {
            byte_of_u64(self.lo, index - 12)
        }
    }

    /// The twenty bytes of the identifier, most significant byte first.
    pub open spec fn spec_to_bytes(self) -> Seq<u8> {
        Seq::new(20, |i: int| self.spec_byte(i))
    }

    /// Twenty bytes, read as an identifier and written out again, are unchanged.
    pub proof fn lemma_from_bytes_to_bytes(bytes: Seq<u8>)
        requires
            bytes.len() == 20,
        ensures
            Id::spec_from_bytes(bytes).spec_to_bytes() == bytes,
    {
        let id = Id::spec_from_bytes(bytes);
        lemma_be32_bytes(bytes[0], bytes[1], bytes[2], bytes[3]);
        lemma_be64_bytes(bytes, 4);
        lemma_be64_bytes(bytes, 12);
        assert forall|i: int| 0 <= i < 20 implies id.spec_byte(i) == bytes[i] by {
            if i < 4 {
            } else if i < 12 {
                assert(bytes[4 + (i - 4)] == bytes[i]);
            } else {
                assert(bytes[12 + (i - 12)] == bytes[i]);
            }
        }
        assert(id.spec_to_bytes() =~= bytes);
    }

    /// An identifier, written out as bytes and read again, is unchanged.
    pub proof fn lemma_to_bytes_from_bytes(id: Id)
        ensures
            Id::spec_from_bytes(id.spec_to_bytes()) == id,
    {
        let bytes = id.spec_to_bytes();
        lemma_bytes_be32(id.hi);
        assert forall|k: int| 0 <= k < 8 implies #[trigger] bytes[4 + k] == byte_of_u64(id.mid, k) by {}
        assert forall|k: int| 0 <= k < 8 implies #[trigger] bytes[12 + k] == byte_of_u64(id.lo, k) by {}
        lemma_bytes_be64(id.mid, bytes, 4);
        lemma_bytes_be64(id.lo, bytes, 12);
    }

    /// The identifier whose bits are all zero.
    pub fn zero() -> (id: Id)
        ensures
            id == (Id { hi: 0, mid: 0, lo: 0 }),
            id.value() == 0,
    {
        Id { hi: 0, mid: 0, lo: 0 }
    }

    /// Builds an identifier from its twenty bytes, most significant first.
    pub fn from_bytes(bytes: [u8; 20]) -> (id: Id)
        ensures
            id == Id::spec_from_bytes(bytes@),
            id.spec_to_bytes() == bytes@,
    {
        let hi = pack32(bytes[0], bytes[1], bytes[2], bytes[3]);
        let mid_hi = pack32(bytes[4], bytes[5], bytes[6], bytes[7]);
        let mid_lo = pack32(bytes[8], bytes[9], bytes[10], bytes[11]);
        let lo_hi = pack32(bytes[12], bytes[13], bytes[14], bytes[15]);
        let lo_lo = pack32(bytes[16], bytes[17], bytes[18], bytes[19]);
        let id = Id {
            hi,
            mid: (mid_hi as u64) * 0x1_0000_0000 + (mid_lo as u64),
            lo: (lo_hi as u64) * 0x1_0000_0000 + (lo_lo as u64),
        };
        proof {
            Id::lemma_from_bytes_to_bytes(bytes@);
        }
        id
    }

    /// The twenty bytes of the identifier, most significant byte first.
    pub fn to_bytes(&self) -> (bytes: [u8; 20])
        ensures
            bytes@ == self.spec_to_bytes(),
            Id::spec_from_bytes(bytes@) == *self,
    {
        let bytes = [
            unpack32(self.hi, 0),
            unpack32(self.hi, 1),
            unpack32(self.hi, 2),
            unpack32(self.hi, 3),
            unpack64(self.mid, 0),
            unpack64(self.mid, 1),
            unpack64(self.mid, 2),
            unpack64(self.mid, 3),
            unpack64(self.mid, 4),
            unpack64(self.mid, 5),
            unpack64(self.mid, 6),
            unpack64(self.mid, 7),
            unpack64(self.lo, 0),
            unpack64(self.lo, 1),
            unpack64(self.lo, 2),
            unpack64(self.lo, 3),
            unpack64(self.lo, 4),
            unpack64(self.lo, 5),
            unpack64(self.lo, 6),
            unpack64(self.lo, 7),
        ];
        proof {
            assert(bytes@ =~= self.spec_to_bytes());
            Id::lemma_to_bytes_from_bytes(*self);
        }
        bytes
    }
    /// Bitwise exclusive or of two identifiers: their distance in the XOR
    /// metric, as an identifier.
    pub open spec fn xor(self, other: Id) -> Id {
        Id { hi: self.hi ^ other.hi, mid: self.mid ^ other.mid, lo: self.lo ^ other.lo }
    }

    /// The distance between two identifiers as a number.
    pub open spec fn spec_distance(self, other: Id) -> nat {
        self.xor(other).value()
    }

    /// Number of zero bits before the first one bit; 160 for zero.
    pub open spec fn leading_zeros(self) -> nat {
        if self.hi != 0 {
            u32_leading_zeros(self.hi) as nat
        } else if self.mid != 0 {
            32 + u64_leading_zeros(self.mid) as nat
        } else if self.lo != 0 {
            96 + u64_leading_zeros(self.lo) as nat
        } else {
            160
        }
    }

    /// Number of leading bits that two identifiers share; 160 if they are equal.
    pub open spec fn spec_common_prefix_len(self, other: Id) -> nat {
        self.xor(other).leading_zeros()
    }

    /// The identifier with bit `index` inverted, bit 0 being the most significant.
    pub open spec fn spec_flip_bit(self, index: int) -> Id {
        if index < 32 {
            Id { hi: self.hi ^ (1u32 << ((31 - index) as u32)), mid: self.mid, lo: self.lo }
        } else if index < 96 {
            Id { hi: self.hi, mid: self.mid ^ (1u64 << ((95 - index) as u64)), lo: self.lo }
        } else {
            Id { hi: self.hi, mid: self.mid, lo: self.lo ^ (1u64 << ((159 - index) as u64)) }
        }
    }

    /// Whether `self` is strictly nearer to `target` than `other` is; two
    /// identifiers at the same distance are equal, and then neither is nearer.
    pub open spec fn spec_nearer(self, other: Id, target: Id) -> bool {
        self.spec_distance(target) < other.spec_distance(target)
    }

    /// The distance between two identifiers in the XOR metric.
    pub fn distance(&self, other: &Id) -> (d: Id)
        ensures
            d == self.xor(*other),
    {
        Id { hi: self.hi ^ other.hi, mid: self.mid ^ other.mid, lo: self.lo ^ other.lo }
    }

    /// Whether the identifier, read as a number, is smaller than `other`.
    pub fn less_than(&self, other: &Id) -> (r: bool)
        ensures
            r == (self.value() < other.value()),
    {
        self.hi < other.hi || (self.hi == other.hi && (self.mid < other.mid || (self.mid
            == other.mid && self.lo < other.lo)))
    }

    /// Whether `self` is strictly nearer to `target` than `other` is.
    pub fn nearer(&self, other: &Id, target: &Id) -> (r: bool)
        ensures
            r == self.spec_nearer(*other, *target),
    {
        let mine = self.distance(target);
        let theirs = other.distance(target);
        mine.less_than(&theirs)
    }

    /// Number of leading bits that two identifiers share.
    pub fn common_prefix_len(&self, other: &Id) -> (n: usize)
        ensures
            n == self.spec_common_prefix_len(*other),
            n <= 160,
            n == 160 <==> *self == *other,
    {
        broadcast use vstd::std_specs::bits::group_bits_axioms;

        let d = self.distance(other);
        proof {
            let (a, b) = (self.hi, other.hi);
            assert(a ^ b == 0 <==> a == b) by (bit_vector);
            let (a, b) = (self.mid, other.mid);
            assert(a ^ b == 0 <==> a == b) by (bit_vector);
            let (a, b) = (self.lo, other.lo);
            assert(a ^ b == 0 <==> a == b) by (bit_vector);
        }
        if d.hi != 0 {
            d.hi.leading_zeros() as usize
        } else if d.mid != 0 {
            32 + d.mid.leading_zeros() as usize
        } else if d.lo != 0 {
            96 + d.lo.leading_zeros() as usize
        } else {
            160
        }
    }

    /// The identifier with bit `index` inverted, bit 0 being the most significant.
    pub fn flip_bit(&self, index: usize) -> (id: Id)
        requires
            index < 160,
        ensures
            id == self.spec_flip_bit(index as int),
    {
        if index < 32 {
            Id { hi: self.hi ^ (1u32 << ((31 - index) as u32)), mid: self.mid, lo: self.lo }
        } else if index < 96 {
            Id { hi: self.hi, mid: self.mid ^ (1u64 << ((95 - index) as u64)), lo: self.lo }
        } else {
            Id { hi: self.hi, mid: self.mid, lo: self.lo ^ (1u64 << ((159 - index) as u64)) }
        }
    }

    /// Two identifiers at the same distance from a third are equal.
    pub proof fn lemma_distance_injective(a: Id, b: Id, target: Id)
        requires
            a.xor(target) == b.xor(target),
        ensures
            a == b,
    {
        let (x, y, t) = (a.hi, b.hi, target.hi);
        assert(x ^ t == y ^ t ==> x == y) by (bit_vector);
        let (x, y, t) = (a.mid, b.mid, target.mid);
        assert(x ^ t == y ^ t ==> x == y) by (bit_vector);
        let (x, y, t) = (a.lo, b.lo, target.lo);
        assert(x ^ t == y ^ t ==> x == y) by (bit_vector);
    }

    /// Two identifiers with the same numeric value are equal.
    pub proof fn lemma_value_injective(a: Id, b: Id)
        requires
            a.value() == b.value(),
        ensures
            a == b,
    {
    }
}

impl From<[u8; 20]> for Id {
    fn from(bytes: [u8; 20]) -> (id: Id) {
        Id::from_bytes(bytes)
    }
}

impl vstd::std_specs::convert::FromSpecImpl<[u8; 20]> for Id {
    open spec fn obeys_from_spec() -> bool {
        true
    }

    open spec fn from_spec(bytes: [u8; 20]) -> Id {
        Id::spec_from_bytes(bytes@)
    }
}

} // verus!
