//! Sets of state identifiers held as `bitvec` bit-vectors.
use bitvec::order::Lsb0;
use bitvec::vec::BitVec;
use vstd::prelude::*;

verus! {

/// A set of state identifiers: bit `i` is set iff state `i` belongs to it.
/// Verus sees only its bits, through `bits_of`.
#[verifier::external_body]
#[derive(Debug)]
pub struct StateSet {
    bits: BitVec<u8, Lsb0>,
}

/// The bits of a bit-vector, in index order.
pub uninterp spec fn bits_of(b: StateSet) -> Seq<bool>;

/// Some bit of `s` is set.
pub open spec fn some_set(s: Seq<bool>) -> bool {
    exists|i: int| 0 <= i < s.len() && #[trigger] s[i]
}

/// The longest bit-vector that the crate can encode.
pub const MAX_BITS: usize = usize::MAX / 8;

/// Relies on `BitVec::repeat`: `n` bits, all cleared. It panics above
/// `BitSlice::MAX_BITS`, which is `usize::MAX >> 3`.
#[verifier::external_body]
pub(crate) fn zeros(n: usize) -> (r: StateSet)
    requires
        n <= MAX_BITS,
    ensures
        bits_of(r) == Seq::new(n as nat, |i: int| false),
{
    StateSet { bits: BitVec::repeat(false, n) }
}

/// Relies on `BitSlice::set`: writes the bit at `i`; it panics out of bounds.
#[verifier::external_body]
pub(crate) fn set_bit(b: &mut StateSet, i: usize, v: bool)
    requires
        i < bits_of(*old(b)).len(),
    ensures
        bits_of(*final(b)) == bits_of(*old(b)).update(i as int, v),
{
    b.bits.set(i, v)
}

/// Relies on indexing a `BitSlice`: the bit at `i`; it panics out of bounds.
#[verifier::external_body]
pub(crate) fn get_bit(b: &StateSet, i: usize) -> (r: bool)
    requires
        i < bits_of(*b).len(),
    ensures
        r == bits_of(*b)[i as int],
{
    b.bits[i]
}

/// Relies on `BitVec::push`: appends one bit; it panics above
/// `BitSlice::MAX_BITS`.
#[verifier::external_body]
pub(crate) fn push_bit(b: &mut StateSet, v: bool)
    requires
        bits_of(*old(b)).len() < MAX_BITS,
    ensures
        bits_of(*final(b)) == bits_of(*old(b)).push(v),
{
    b.bits.push(v)
}

/// Relies on `PartialEq` of bit-vectors: equal lengths and equal bits.
#[verifier::external_body]
pub(crate) fn bits_eq(a: &StateSet, b: &StateSet) -> (r: bool)
    ensures
        r == (bits_of(*a) == bits_of(*b)),
{
    a.bits == b.bits
}

/// Relies on `Clone` of bit-vectors: a copy with the same bits.
#[verifier::external_body]
pub(crate) fn bits_clone(b: &StateSet) -> (r: StateSet)
    ensures
        bits_of(r) == bits_of(*b),
{
    StateSet { bits: b.bits.clone() }
}

/// Relies on `&` of bit-vectors (`BitAnd` for `BitVec`, which applies
/// `BitSlice::bitand_assign`): for operands of one length, the bitwise and.
#[verifier::external_body]
pub(crate) fn bits_and(a: &StateSet, b: &StateSet) -> (r: StateSet)
    requires
        bits_of(*a).len() == bits_of(*b).len(),
    ensures
        bits_of(r) == Seq::new(bits_of(*a).len(), |i: int| bits_of(*a)[i] && bits_of(*b)[i]),
{
    StateSet { bits: a.bits.clone() & &b.bits }
}

/// Relies on `BitSlice::iter_ones`: the indices of the set bits, in
/// increasing order.
#[verifier::external_body]
pub(crate) fn ones(b: &StateSet) -> (r: Vec<usize>)
    ensures
        forall|k: int| 0 <= k < r@.len() ==> #[trigger] r@[k] < bits_of(*b).len() && bits_of(*b)[r@[k] as int],
        forall|j: int, k: int| 0 <= j < k < r@.len() ==> #[trigger] r@[j] < #[trigger] r@[k],
        forall|i: int| 0 <= i < bits_of(*b).len() && #[trigger] bits_of(*b)[i] ==> r@.contains(i as usize),
{
    b.bits.iter_ones().collect()
}

/// Relies on `BitSlice::any`: whether some bit is set.
#[verifier::external_body]
pub(crate) fn any_bit(b: &StateSet) -> (r: bool)
    ensures
        r == some_set(bits_of(*b)),
{
    b.bits.any()
}

impl StateSet {
    /// The set of the states `ids` among `n` states.
    pub fn from_ids(n: usize, ids: &Vec<usize>) -> (r: StateSet)
        requires
            n <= MAX_BITS,
            forall|k: int| 0 <= k < ids@.len() ==> #[trigger] ids@[k] < n,
        ensures
            bits_of(r) == Seq::new(n as nat, |i: int| ids@.contains(i as usize)),
    {
        let mut r = zeros(n);
        let mut k: usize = 0;
        while k < ids.len()
            invariant
                k <= ids@.len(),
                forall|k2: int| 0 <= k2 < ids@.len() ==> #[trigger] ids@[k2] < n,
                bits_of(r).len() == n,
                forall|i: int|
                    0 <= i < n ==> #[trigger] bits_of(r)[i] == exists|k2: int|
                        0 <= k2 < k && ids@[k2] == i as usize,
            decreases ids.len() - k,
        {
            set_bit(&mut r, ids[k], true);
            k = k + 1;
        }
        proof {
            assert forall|i: int| 0 <= i < n implies #[trigger] bits_of(r)[i] == ids@.contains(i as usize) by {
                if ids@.contains(i as usize) {
                    let k2 = choose|k2: int| 0 <= k2 < ids@.len() && ids@[k2] == i as usize;
                }
            }
            assert(bits_of(r) =~= Seq::new(n as nat, |i: int| ids@.contains(i as usize)));
        }
        r
    }

    /// Whether state `i` belongs to the set.
    pub fn contains(&self, i: usize) -> (r: bool)
        requires
            i < bits_of(*self).len(),
        ensures
            r == bits_of(*self)[i as int],
    {
        get_bit(self, i)
    }
}

} // verus!
