//! Byte-string addresses and the order in which they are listed.
use vstd::prelude::*;

verus! {

/// The identity of a borrower or a delegate, held as the raw bytes of its
/// address. Addresses are ordered bytewise, the order in which the store
/// walks its keys.
pub struct Address {
    pub bytes: Vec<u8>,
}

impl View for Address {
    type V = Seq<u8>;

    open spec fn view(&self) -> Seq<u8> {
        self.bytes@
    }
}

/// Strict lexicographic order on byte strings: `a` precedes `b` when, after
/// a common prefix, `a` ends first or has the smaller byte.
pub open spec fn bytes_lt(a: Seq<u8>, b: Seq<u8>) -> bool {
    exists|i: int| #[trigger] lt_at(a, b, i)
}

/// `a` and `b` agree below `i`, and at `i` either `a` has ended while `b`
/// goes on, or `a` has the smaller byte.
pub open spec fn lt_at(a: Seq<u8>, b: Seq<u8>, i: int) -> bool {
    &&& 0 <= i <= a.len()
    &&& i <= b.len()
    &&& forall|j: int| 0 <= j < i ==> a[j] == b[j]
    &&& ((i == a.len() && i < b.len()) || (i < a.len() && i < b.len() && a[i] < b[i]))
}

pub proof fn lemma_lt_irreflexive(a: Seq<u8>)
    ensures
        !bytes_lt(a, a),
{
}

pub proof fn lemma_lt_transitive(a: Seq<u8>, b: Seq<u8>, c: Seq<u8>)
    requires
        bytes_lt(a, b),
        bytes_lt(b, c),
    ensures
        bytes_lt(a, c),
{
    let i = choose|i: int| lt_at(a, b, i);
    let j = choose|j: int| lt_at(b, c, j);
    if i <= j {
        assert(lt_at(a, c, i));
    } else {
        assert(lt_at(a, c, j));
    }
}

pub proof fn lemma_lt_asymmetric(a: Seq<u8>, b: Seq<u8>)
    requires
        bytes_lt(a, b),
    ensures
        !bytes_lt(b, a),
{
    if bytes_lt(b, a) {
        lemma_lt_transitive(a, b, a);
        lemma_lt_irreflexive(a);
    }
}

/// How two addresses compare.
pub enum Cmp {
    Less,
    Equal,
    Greater,
}

impl Address {
    pub fn new(bytes: Vec<u8>) -> (r: Address)
        ensures
            r@ == bytes@,
    {
        Address { bytes }
    }

    /// An equal address.
    pub fn copy(&self) -> (r: Address)
        ensures
            r@ == self@,
    {
        let mut bytes: Vec<u8> = Vec::new();
        let mut i: usize = 0;
        while i < self.bytes.len()
            invariant
                i <= self.bytes.len(),
                bytes@ == self.bytes@.subrange(0, i as int),
            decreases self.bytes.len() - i,
        {
            bytes.push(self.bytes[i]);
            i = i + 1;
            assert(bytes@ =~= self.bytes@.subrange(0, i as int));
        }
        assert(bytes@ =~= self.bytes@);
        Address { bytes }
    }

    /// The two addresses hold the same bytes.
    pub fn equals(&self, other: &Address) -> (r: bool)
        ensures
            r == (self@ == other@),
    {
        match self.compare(other) {
            Cmp::Equal => true,
            _ => false,
        }
    }

    /// Compares bytewise.
    pub fn compare(&self, other: &Address) -> (r: Cmp)
        ensures
            r is Less <==> bytes_lt(self@, other@),
            r is Equal <==> self@ == other@,
            r is Greater <==> bytes_lt(other@, self@),
    {
        let a = &self.bytes;
        let b = &other.bytes;
        let mut i: usize = 0;
        while i < a.len() && i < b.len()
            invariant
                i <= a.len(),
                i <= b.len(),
                a@ == self@,
                b@ == other@,
                forall|j: int| 0 <= j < i ==> a@[j] == b@[j],
            decreases a.len() - i,
        {
            if a[i] != b[i] {
                if a[i] < b[i] {
                    proof {
                        assert(lt_at(self@, other@, i as int));
                        lemma_lt_asymmetric(self@, other@);
                    }
                    return Cmp::Less;
                } else {
                    proof {
                        assert(lt_at(other@, self@, i as int));
                        lemma_lt_asymmetric(other@, self@);
                    }
                    return Cmp::Greater;
                }
            }
            i = i + 1;
        }
        if a.len() < b.len() {
            proof {
                assert(lt_at(self@, other@, i as int));
                lemma_lt_asymmetric(self@, other@);
            }
            Cmp::Less
        } else if b.len() < a.len() {
            proof {
                assert(lt_at(other@, self@, i as int));
                lemma_lt_asymmetric(other@, self@);
            }
            Cmp::Greater
        } else {
            proof {
                assert(self@ =~= other@);
                lemma_lt_irreflexive(self@);
            }
            Cmp::Equal
        }
    }
}

} // verus!
