//! A resource set is a fixed-width set of resource indices, backed by a dense
//! bit vector from the `bitvec` crate. Every operation the search needs —
//! create, clone, insert, union, membership, cardinality — is wrapped here
//! with an exact contract over `bits_of`, the bit contents.

use vstd::prelude::*;
use bitvec::order::Lsb0;
use bitvec::vec::BitVec;

verus! {

/// A set of resource indices, backed by bitvec's `BitVec<u64, Lsb0>`. The
/// backing is opaque here; everything the contracts say about a value goes
/// through `bits_of`, its bit contents.
#[verifier::external_body]
pub struct ResourceBits {
    inner: BitVec<u64, Lsb0>,
}

/// The sequence of bits a `ResourceBits` holds, indexed from zero.
pub uninterp spec fn bits_of(v: ResourceBits) -> Seq<bool>;

/// The set of positions at which a bit sequence is set.
pub open spec fn ones(bits: Seq<bool>) -> Set<int> {
    Set::new(|j: int| 0 <= j < bits.len() && bits[j])
}

/// Relies on bitvec's `BitVec::repeat`: repeating the zero bit `len` times
/// gives a blank vector of that length.
#[verifier::external_body]
pub fn bits_new(len: usize) -> (r: ResourceBits)
    ensures
        bits_of(r) == Seq::new(len as nat, |j: int| false),
{
    ResourceBits { inner: BitVec::repeat(false, len) }
}

/// Relies on bitvec's `Clone` for `BitVec`: the clone holds the same bits.
#[verifier::external_body]
pub fn bits_clone(v: &ResourceBits) -> (r: ResourceBits)
    ensures
        bits_of(r) == bits_of(*v),
{
    ResourceBits { inner: v.inner.clone() }
}

/// Relies on bitvec's `BitSlice::set`: writes one bit, keeping the rest.
/// `set` panics on an out-of-range index, so the index is required in range.
#[verifier::external_body]
pub fn bits_set(v: &mut ResourceBits, i: usize)
    requires
        i < bits_of(*old(v)).len(),
    ensures
        bits_of(*final(v)) == bits_of(*old(v)).update(i as int, true),
{
    v.inner.set(i, true)
}

/// Relies on bitvec's `Index` for `BitSlice`: reads one bit. Indexing panics
/// on an out-of-range index, so the index is required in range.
#[verifier::external_body]
pub fn bits_get(v: &ResourceBits, i: usize) -> (r: bool)
    requires
        i < bits_of(*v).len(),
    ensures
        r == bits_of(*v)[i as int],
{
    v.inner[i]
}

/// Relies on bitvec's `BitOrAssign` for `BitVec`: for operands of one length
/// it combines the bits pointwise with Boolean or.
#[verifier::external_body]
pub fn bits_or_assign(v: &mut ResourceBits, o: &ResourceBits)
    requires
        bits_of(*old(v)).len() == bits_of(*o).len(),
    ensures
        bits_of(*final(v)) == Seq::new(
            bits_of(*o).len(),
            |j: int| bits_of(*old(v))[j] || bits_of(*o)[j],
        ),
{
    v.inner |= &o.inner;
}

/// Relies on bitvec's `BitSlice::count_ones`: the number of set bits.
#[verifier::external_body]
pub fn bits_count_ones(v: &ResourceBits) -> (n: usize)
    ensures
        n == ones(bits_of(*v)).len(),
{
    v.inner.count_ones()
}

/// A freshly created bit vector has no position set.
pub proof fn lemma_ones_blank(len: nat)
    ensures
        ones(Seq::new(len, |j: int| false)) == Set::<int>::empty(),
{
    assert(ones(Seq::new(len, |j: int| false)) =~= Set::<int>::empty());
}

/// The pointwise or of two equal-length bit sequences sets the union of their
/// positions.
pub proof fn lemma_ones_or(a: Seq<bool>, b: Seq<bool>)
    requires
        a.len() == b.len(),
    ensures
        ones(Seq::new(b.len(), |j: int| a[j] || b[j])) == ones(a).union(ones(b)),
{
    assert(ones(Seq::new(b.len(), |j: int| a[j] || b[j])) =~= ones(a).union(ones(b)));
}

} // verus!
