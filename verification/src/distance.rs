use vstd::prelude::*;

verus! {

/// The value of a big-endian byte string as a natural number.
pub open spec fn be_value(s: Seq<u8>) -> nat
    decreases s.len(),
{
    if s.len() == 0 {
        0
    } else {
        be_value(s.drop_last()) * 256 + (s.last() as nat)
    }
}

/// The byte-wise exclusive or of two 32-byte strings.
pub open spec fn xor_seq(a: Seq<u8>, b: Seq<u8>) -> Seq<u8> {
    Seq::new(32, |i: int| a[i] ^ b[i])
}

/// The XOR distance between two identifiers, as a number.
pub open spec fn xor_value(a: Seq<u8>, b: Seq<u8>) -> nat {
    be_value(xor_seq(a, b))
}

/// A 256-bit node identifier, as its big-endian bytes.
#[derive(Clone, Copy, Debug, PartialEq, Eq)]
pub struct NodeId {
    pub raw: [u8; 32],
}

/// The distance between two 256-bit identifiers, as the big-endian bytes of
/// an unsigned 256-bit integer.
#[derive(Clone, Copy, Debug)]
pub struct Distance {
    pub bytes: [u8; 32],
}

/// The XOR metric of the Kademlia routing space.
pub struct XorMetric;

/// Whether two 32-byte strings are equal.
pub fn bytes32_eq(a: &[u8; 32], b: &[u8; 32]) -> (r: bool)
    ensures
        r == (a@ == b@),
{
    let mut i: usize = 0;
    while i < 32
        invariant
            0 <= i <= 32,
            a@.len() == 32,
            b@.len() == 32,
            forall|j: int| 0 <= j < i ==> a@[j] == b@[j],
        decreases 32 - i,
    {
        if a[i] != b[i] {
            return false;
        }
        i = i + 1;
    }
    assert(a@ =~= b@);
    true
}

impl NodeId {
    pub open spec fn view(&self) -> Seq<u8> {
        self.raw@
    }

    /// Whether two node ids are equal.
    pub fn same(&self, other: &NodeId) -> (r: bool)
        ensures
            r == (self@ == other@),
    {
        bytes32_eq(&self.raw, &other.raw)
    }
}

/// Where two equally long big-endian strings first differ, the one with the
/// smaller byte there has the smaller value.
pub proof fn lemma_be_first_difference(a: Seq<u8>, b: Seq<u8>, i: int, j: int)
    requires
        a.len() == b.len(),
        0 <= i < j <= a.len(),
        a.take(i) == b.take(i),
        a[i] < b[i],
    ensures
        be_value(a.take(j)) + 1 <= be_value(b.take(j)),
    decreases j - i,
{
    if j == i + 1 {
        assert(a.take(j).drop_last() =~= a.take(i));
        assert(b.take(j).drop_last() =~= b.take(i));
    } else {
        lemma_be_first_difference(a, b, i, j - 1);
        assert(a.take(j).drop_last() =~= a.take(j - 1));
        assert(b.take(j).drop_last() =~= b.take(j - 1));
        assert(be_value(a.take(j)) == be_value(a.take(j - 1)) * 256 + a[j - 1]);
        assert(be_value(b.take(j)) == be_value(b.take(j - 1)) * 256 + b[j - 1]);
    }
}

impl Distance {
    pub open spec fn value(&self) -> nat {
        be_value(self.bytes@)
    }

    /// The zero distance.
    pub fn zero() -> (d: Distance)
        ensures
            d.value() == 0,
            forall|i: int| 0 <= i < 32 ==> d.bytes@[i] == 0,
    {
        let d = Distance { bytes: [0u8; 32] };
        proof {
            assert forall|j: int| 0 <= j <= 32 implies be_value(#[trigger] d.bytes@.take(j)) == 0 by {
                lemma_zero_prefix(d.bytes@, j);
            }
            assert(d.bytes@.take(32) =~= d.bytes@);
        }
        d
    }

    /// Compares two distances from the most significant byte down; returns
    /// `(equal, less)` for the first `n` bytes.
    fn compare_prefix(&self, other: &Distance) -> (r: (bool, bool))
        ensures
            r.0 <==> self.value() == other.value(),
            !r.0 ==> (r.1 <==> self.value() < other.value()),
    {
        let a = &self.bytes;
        let b = &other.bytes;
        let mut i: usize = 0;
        while i < 32
            invariant
                0 <= i <= 32,
                a@.len() == 32,
                b@.len() == 32,
                a@ == self.bytes@,
                b@ == other.bytes@,
                a@.take(i as int) == b@.take(i as int),
            decreases 32 - i,
        {
            if a[i] != b[i] {
                proof {
                    assert(a@.take(32) =~= a@);
                    assert(b@.take(32) =~= b@);
                    if a@[i as int] < b@[i as int] {
                        lemma_be_first_difference(a@, b@, i as int, 32);
                        assert(self.value() < other.value());
                    } else {
                        lemma_be_first_difference(b@, a@, i as int, 32);
                        assert(other.value() < self.value());
                    }
                }
                return (false, a[i] < b[i]);
            }
            assert(a@.take(i + 1) =~= a@.take(i as int).push(a@[i as int]));
            assert(b@.take(i + 1) =~= b@.take(i as int).push(b@[i as int]));
            i = i + 1;
        }
        assert(a@.take(32) =~= a@);
        assert(b@.take(32) =~= b@);
        (true, false)
    }

    /// `self <= other` as unsigned 256-bit integers.
    pub fn le(&self, other: &Distance) -> (r: bool)
        ensures
            r == (self.value() <= other.value()),
    {
        let (eq, lt) = self.compare_prefix(other);
        eq || lt
    }

    /// `self < other` as unsigned 256-bit integers.
    pub fn lt(&self, other: &Distance) -> (r: bool)
        ensures
            r == (self.value() < other.value()),
    {
        let (eq, lt) = self.compare_prefix(other);
        !eq && lt
    }

    /// The most significant 32 bits of the distance.
    pub fn big_endian_u32(&self) -> (r: u32)
        ensures
            r == be_value(self.bytes@.take(4)),
    {
        let b = &self.bytes;
        let x1: u32 = (b[0] as u32) * 256 + (b[1] as u32);
        let x2: u32 = x1 * 256 + (b[2] as u32);
        let x3: u32 = x2 * 256 + (b[3] as u32);
        proof {
            let s = b@;
            assert(s.take(0) =~= Seq::<u8>::empty());
            assert(be_value(s.take(0)) == 0);
            assert(s.take(1).drop_last() =~= s.take(0));
            assert(s.take(2).drop_last() =~= s.take(1));
            assert(s.take(3).drop_last() =~= s.take(2));
            assert(s.take(4).drop_last() =~= s.take(3));
            assert(be_value(s.take(1)) == s[0]);
            assert(be_value(s.take(2)) == be_value(s.take(1)) * 256 + s[1]);
            assert(be_value(s.take(3)) == be_value(s.take(2)) * 256 + s[2]);
            assert(be_value(s.take(4)) == be_value(s.take(3)) * 256 + s[3]);
        }
        x3
    }
}

proof fn lemma_zero_prefix(s: Seq<u8>, j: int)
    requires
        0 <= j <= s.len(),
        forall|i: int| 0 <= i < s.len() ==> s[i] == 0,
    ensures
        be_value(s.take(j)) == 0,
    decreases j,
{
    if j > 0 {
        lemma_zero_prefix(s, j - 1);
        assert(s.take(j).drop_last() =~= s.take(j - 1));
    }
}

impl XorMetric {
    /// The XOR distance between two identifiers: the byte-wise exclusive or
    /// of their big-endian representations.
    pub fn distance(x: &[u8; 32], y: &[u8; 32]) -> (d: Distance)
        ensures
            d.bytes@ == xor_seq(x@, y@),
            d.value() == xor_value(x@, y@),
    {
        let mut bytes = [0u8; 32];
        let mut i: usize = 0;
        while i < 32
            invariant
                0 <= i <= 32,
                bytes@.len() == 32,
                x@.len() == 32,
                y@.len() == 32,
                forall|j: int| 0 <= j < i ==> #[trigger] bytes@[j] == (x@[j] ^ y@[j]),
            decreases 32 - i,
        {
            bytes[i] = x[i] ^ y[i];
            i = i + 1;
        }
        assert(bytes@ =~= xor_seq(x@, y@));
        Distance { bytes }
    }
}

/// A big-endian string of value zero holds only zero bytes.
pub proof fn lemma_zero_value_all_zero(s: Seq<u8>)
    requires
        be_value(s) == 0,
    ensures
        forall|i: int| 0 <= i < s.len() ==> s[i] == 0,
    decreases s.len(),
{
    if s.len() > 0 {
        lemma_zero_value_all_zero(s.drop_last());
        assert forall|i: int| 0 <= i < s.len() implies s[i] == 0 by {
            if i < s.len() - 1 {
                assert(s[i] == s.drop_last()[i]);
            }
        }
    }
}

/// A string of zero bytes has value zero.
pub proof fn lemma_all_zero_value(s: Seq<u8>)
    requires
        forall|i: int| 0 <= i < s.len() ==> s[i] == 0,
    ensures
        be_value(s) == 0,
    decreases s.len(),
{
    if s.len() > 0 {
        lemma_all_zero_value(s.drop_last());
    }
}

/// The XOR metric: the distance is the big-endian value of the byte-wise
/// exclusive or, the same in both directions, and zero exactly between equal
/// identifiers.
pub proof fn law_xor_metric(a: Seq<u8>, b: Seq<u8>)
    requires
        a.len() == 32,
        b.len() == 32,
    ensures
        xor_value(a, b) == be_value(Seq::new(32, |i: int| a[i] ^ b[i])),
        xor_value(a, b) == xor_value(b, a),
        xor_value(a, b) == 0 <==> a == b,
{
    let x = xor_seq(a, b);
    assert(x =~= Seq::new(32, |i: int| a[i] ^ b[i]));
    assert forall|i: int| 0 <= i < 32 implies #[trigger] x[i] == xor_seq(b, a)[i] by {
        let (u, v) = (a[i], b[i]);
        assert(u ^ v == v ^ u) by (bit_vector);
    }
    assert(x =~= xor_seq(b, a));
    if xor_value(a, b) == 0 {
        lemma_zero_value_all_zero(x);
        assert forall|i: int| 0 <= i < 32 implies a[i] == b[i] by {
            let (u, v) = (a[i], b[i]);
            assert(x[i] == 0);
            assert(u ^ v == 0 ==> u == v) by (bit_vector);
        }
        assert(a =~= b);
    }
    if a == b {
        assert forall|i: int| 0 <= i < x.len() implies x[i] == 0 by {
            let u = a[i];
            assert(u ^ u == 0) by (bit_vector);
        }
        lemma_all_zero_value(x);
    }
}

/// The top 32 bits of a big-endian string are its first four bytes, the
/// first one most significant.
pub proof fn law_top_bytes_value(s: Seq<u8>)
    requires
        s.len() >= 4,
    ensures
        be_value(s.take(4)) == s[0] as nat * 0x100_0000 + s[1] as nat * 0x1_0000 + s[2] as nat * 0x100
            + s[3] as nat,
{
    assert(s.take(0) =~= Seq::<u8>::empty());
    assert(s.take(1).drop_last() =~= s.take(0));
    assert(s.take(2).drop_last() =~= s.take(1));
    assert(s.take(3).drop_last() =~= s.take(2));
    assert(s.take(4).drop_last() =~= s.take(3));
    assert(be_value(s.take(0)) == 0);
    assert(s.take(1).last() == s[0]);
    assert(be_value(s.take(1)) == s[0]);
    assert(be_value(s.take(2)) == be_value(s.take(1)) * 256 + s[1]);
    assert(be_value(s.take(3)) == be_value(s.take(2)) * 256 + s[2]);
    assert(be_value(s.take(4)) == be_value(s.take(3)) * 256 + s[3]);
}

/// Four big-endian bytes hold a value below `2^32`.
pub proof fn lemma_top_bytes_bound(s: Seq<u8>)
    requires
        s.len() == 4,
    ensures
        be_value(s) < 0x1_0000_0000,
{
    let s3 = s.drop_last();
    let s2 = s3.drop_last();
    let s1 = s2.drop_last();
    let s0 = s1.drop_last();
    assert(be_value(s0) == 0);
    assert(be_value(s1) < 0x100);
    assert(be_value(s2) < 0x1_0000);
    assert(be_value(s3) < 0x100_0000);
}

} // verus!
