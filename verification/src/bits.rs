//! Fixed-width bit sets, used for the node-membership sets of a state.
//!
//! The sets themselves come from the `bitset_fixed` crate; this module
//! declares that type for the verifier, gives its contents a mathematical
//! name (`bits_of`), and wraps the few operations the library needs.

use vstd::prelude::*;

verus! {

/// The bit set type of the `bitset_fixed` crate, declared opaque: the
/// library reads and writes it only through the wrappers in this module.
#[verifier::external_type_specification]
#[verifier::external_body]
pub struct ExBitSet(bitset_fixed::BitSet);

/// The set of bit positions that are set in `b`.
pub uninterp spec fn bits_of(b: bitset_fixed::BitSet) -> Set<int>;

/// The capacity that `b` was created with.
pub uninterp spec fn bit_width(b: bitset_fixed::BitSet) -> int;

/// The set of indices `0 <= i < n`.
pub open spec fn idx_below(n: int) -> Set<int> {
    Set::new(|i: int| 0 <= i && i < n)
}

/// The index range below `n` is finite.
pub proof fn lemma_idx_below_finite(n: int)
    ensures
        idx_below(n).finite(),
{
    if n <= 0 {
        assert(idx_below(n) =~= Set::<int>::empty());
    } else {
        vstd::set_lib::lemma_int_range(0, n);
        assert(idx_below(n) =~= Set::new(|i: int| 0 <= i < n));
    }
}

/// The members of `s` below `k`, listed in increasing order.
pub open spec fn inc_elems(s: Set<int>, k: int) -> Seq<int>
    decreases k,
{
    if k <= 0 {
        Seq::<int>::empty()
    } else if s.contains(k - 1) {
        inc_elems(s, k - 1).push(k - 1)
    } else {
        inc_elems(s, k - 1)
    }
}

/// Relies on bitset_fixed::BitSet::new: a zeroed set of the given capacity.
#[verifier::external_body]
pub(crate) fn bs_new(n: usize) -> (r: bitset_fixed::BitSet)
    ensures
        bit_width(r) == n as int,
        bits_of(r) == Set::<int>::empty(),
{
    bitset_fixed::BitSet::new(n)
}

/// Relies on bitset_fixed::BitSet::set: writes one bit; the index must be
/// within the capacity (the callee asserts this).
#[verifier::external_body]
pub(crate) fn bs_set(b: &mut bitset_fixed::BitSet, i: usize, v: bool)
    requires
        i < bit_width(*old(b)),
    ensures
        bit_width(*final(b)) == bit_width(*old(b)),
        bits_of(*final(b)) == (if v {
            bits_of(*old(b)).insert(i as int)
        } else {
            bits_of(*old(b)).remove(i as int)
        }),
{
    b.set(i, v)
}

/// Relies on bitset_fixed's `Index` impl: reads one bit; the index must be
/// within the capacity (the callee asserts this).
#[verifier::external_body]
pub(crate) fn bs_get(b: &bitset_fixed::BitSet, i: usize) -> (r: bool)
    requires
        i < bit_width(*b),
    ensures
        r == bits_of(*b).contains(i as int),
{
    b[i]
}

/// Relies on bitset_fixed::BitSet::count_ones: the number of set bits.
/// The callee sums the per-word counts in 32 bits, so the claim is only
/// made for capacities a 32-bit count can hold.
#[verifier::external_body]
pub(crate) fn bs_count(b: &bitset_fixed::BitSet) -> (r: usize)
    requires
        bit_width(*b) <= u32::MAX,
    ensures
        r == bits_of(*b).len(),
{
    b.count_ones() as usize
}

/// Relies on the `Clone` impl that bitset_fixed derives: an equal copy.
#[verifier::external_body]
pub(crate) fn bs_clone(b: &bitset_fixed::BitSet) -> (r: bitset_fixed::BitSet)
    ensures
        bit_width(r) == bit_width(*b),
        bits_of(r) == bits_of(*b),
{
    b.clone()
}

/// Relies on bitset_fixed's `BitOrAssign` impl: word-wise union of two sets
/// of equal capacity.
#[verifier::external_body]
pub(crate) fn bs_or(a: &mut bitset_fixed::BitSet, b: &bitset_fixed::BitSet)
    requires
        bit_width(*old(a)) == bit_width(*b),
    ensures
        bit_width(*final(a)) == bit_width(*old(a)),
        bits_of(*final(a)) == bits_of(*old(a)).union(bits_of(*b)),
{
    *a |= b
}

/// Relies on bitset_fixed's `BitAndAssign` impl: word-wise intersection of
/// two sets of equal capacity.
#[verifier::external_body]
pub(crate) fn bs_and(a: &mut bitset_fixed::BitSet, b: &bitset_fixed::BitSet)
    requires
        bit_width(*old(a)) == bit_width(*b),
    ensures
        bit_width(*final(a)) == bit_width(*old(a)),
        bits_of(*final(a)) == bits_of(*old(a)).intersect(bits_of(*b)),
{
    *a &= b
}

/// Relies on bitset_fixed's `BitXorAssign` impl: word-wise symmetric
/// difference of two sets of equal capacity.
#[verifier::external_body]
pub(crate) fn bs_xor(a: &mut bitset_fixed::BitSet, b: &bitset_fixed::BitSet)
    requires
        bit_width(*old(a)) == bit_width(*b),
    ensures
        bit_width(*final(a)) == bit_width(*old(a)),
        bits_of(*final(a)) == bits_of(*old(a)).difference(bits_of(*b)).union(
            bits_of(*b).difference(bits_of(*old(a)))
        ),
{
    *a ^= b
}

/// A bit set of capacity `n` holding exactly the given members.
pub fn bitset_of(n: usize, members: &Vec<usize>) -> (r: bitset_fixed::BitSet)
    requires
        forall|k: int| 0 <= k < members@.len() ==> (#[trigger] members@[k]) < n,
    ensures
        bit_width(r) == n as int,
        forall|j: int| #[trigger] bits_of(r).contains(j) <==> (exists|t: int|
            0 <= t < members@.len() && members@[t] as int == j),
{
    let mut b = bs_new(n);
    for k in 0..members.len()
        invariant
            bit_width(b) == n as int,
            forall|j: int| 0 <= j < members@.len() ==> (#[trigger] members@[j]) < n,
            forall|j: int| #[trigger] bits_of(b).contains(j) <==> (exists|t: int|
                0 <= t < k && members@[t] as int == j),
    {
        let ghost prev = bits_of(b);
        bs_set(&mut b, members[k], true);
        proof {
            assert forall|j: int| #[trigger] bits_of(b).contains(j) implies (exists|t: int|
                0 <= t < k + 1 && members@[t] as int == j) by {
                if j == members@[k as int] as int {
                    assert(members@[k as int] as int == j);
                } else {
                    assert(prev.contains(j));
                }
            }
            assert forall|j: int| (exists|t: int| 0 <= t < k + 1 && members@[t] as int == j)
                implies #[trigger] bits_of(b).contains(j) by {
                let t = choose|t: int| 0 <= t < k + 1 && members@[t] as int == j;
                if t < k {
                    assert(prev.contains(j));
                }
            }
        }
    }
    b
}

} // verus!
