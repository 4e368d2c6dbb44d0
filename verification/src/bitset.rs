//! The packed bit vectors that hold pattern sets, and what is taken on trust
//! about them.
//!
//! A `bit_vec::BitVec` is opaque to the verifier. `bits` names the booleans it
//! holds, and each function marked `external_body` states, over `bits`, what
//! one method of the `bit_vec` crate does. Those contracts are not proved:
//! they are read off the crate's source. The lemmas about counting bits are
//! proved.

use bit_vec::BitVec;
use vstd::prelude::*;

verus! {

/// `bit_vec::BitVec`, made known to the verifier as an opaque type.
#[verifier::external_type_specification]
#[verifier::external_body]
#[verifier::reject_recursive_types(B)]
pub struct ExBitVec<B>(bit_vec::BitVec<B>);

/// The booleans that a bit vector holds, by index.
pub uninterp spec fn bits(v: BitVec) -> Seq<bool>;

/// The number of `true` entries of a sequence.
pub open spec fn count_true(s: Seq<bool>) -> nat
    decreases s.len(),
{
    if s.len() == 0 {
        0
    } else {
        count_true(s.drop_last()) + if s.last() {
            1nat
        } else {
            0nat
        }
    }
}

/// Whether a sequence has a `true` entry.
pub open spec fn has_true(s: Seq<bool>) -> bool {
    exists|i: int| 0 <= i < s.len() && s[i]
}

/// The entrywise conjunction of two sequences of one length.
pub open spec fn seq_and(a: Seq<bool>, b: Seq<bool>) -> Seq<bool> {
    Seq::new(a.len(), |i: int| a[i] && b[i])
}

/// The entrywise disjunction of two sequences of one length.
pub open spec fn seq_or(a: Seq<bool>, b: Seq<bool>) -> Seq<bool> {
    Seq::new(a.len(), |i: int| a[i] || b[i])
}

/// `BitVec::from_elem`: a vector of `len` bits, each equal to `bit`.
#[verifier::external_body]
pub(crate) fn bitvec_from_elem(len: usize, bit: bool) -> (r: BitVec)
    ensures
        bits(r) == Seq::new(len as nat, |i: int| bit),
{
    BitVec::from_elem(len, bit)
}

/// `BitVec::len`: the number of bits.
#[verifier::external_body]
pub(crate) fn bitvec_len(v: &BitVec) -> (r: usize)
    ensures
        r == bits(*v).len(),
{
    v.len()
}

/// `BitVec::get`: the bit at `i`, or `None` when `i` is past the end.
#[verifier::external_body]
pub(crate) fn bitvec_get(v: &BitVec, i: usize) -> (r: Option<bool>)
    ensures
        i < bits(*v).len() ==> r == Some(bits(*v)[i as int]),
        i >= bits(*v).len() ==> r is None,
{
    v.get(i)
}

/// `BitVec::set`: the bit at `i` becomes `x`, the others stay. The method
/// panics when `i` is past the end.
#[verifier::external_body]
pub(crate) fn bitvec_set(v: &mut BitVec, i: usize, x: bool)
    requires
        i < bits(*old(v)).len(),
    ensures
        bits(*final(v)) == bits(*old(v)).update(i as int, x),
{
    v.set(i, x)
}

/// `BitVec::and`: each bit becomes its conjunction with the bit of `other`
/// at the same index; the result tells whether any bit changed. The method
/// panics when the lengths differ.
#[verifier::external_body]
pub(crate) fn bitvec_and(v: &mut BitVec, other: &BitVec) -> (changed: bool)
    requires
        bits(*old(v)).len() == bits(*other).len(),
    ensures
        bits(*final(v)) == seq_and(bits(*old(v)), bits(*other)),
        changed <==> bits(*final(v)) != bits(*old(v)),
{
    v.and(other)
}

/// `BitVec::or`: each bit becomes its disjunction with the bit of `other`
/// at the same index; the result tells whether any bit changed. The method
/// panics when the lengths differ.
#[verifier::external_body]
pub(crate) fn bitvec_or(v: &mut BitVec, other: &BitVec) -> (changed: bool)
    requires
        bits(*old(v)).len() == bits(*other).len(),
    ensures
        bits(*final(v)) == seq_or(bits(*old(v)), bits(*other)),
        changed <==> bits(*final(v)) != bits(*old(v)),
{
    v.or(other)
}

/// `Clone::clone` of a `BitVec`: a vector that holds the same bits.
#[verifier::external_body]
pub(crate) fn bitvec_clone(v: &BitVec) -> (r: BitVec)
    ensures
        bits(r) == bits(*v),
{
    v.clone()
}

/// `BitVec::any`: whether some bit is `true`.
#[verifier::external_body]
pub(crate) fn bitvec_any(v: &BitVec) -> (r: bool)
    ensures
        r == has_true(bits(*v)),
{
    v.any()
}

/// `BitVec::fill`: every bit becomes `bit`; the length stays.
#[verifier::external_body]
pub(crate) fn bitvec_fill(v: &mut BitVec, bit: bool)
    ensures
        bits(*final(v)) == Seq::new(bits(*old(v)).len(), |i: int| bit),
{
    v.fill(bit)
}

/// `BitVec::count_ones`: the number of bits that are `true`.
#[verifier::external_body]
pub(crate) fn bitvec_count_ones(v: &BitVec) -> (r: u64)
    ensures
        r == count_true(bits(*v)),
{
    v.count_ones()
}

/// The number of bits of a bit vector.
pub fn length(v: &BitVec) -> (r: usize)
    ensures
        r == bits(*v).len(),
{
    bitvec_len(v)
}

/// A sequence without a `true` entry counts zero, and the other way round.
pub proof fn lemma_count_true_zero(s: Seq<bool>)
    ensures
        count_true(s) == 0 <==> forall|i: int| 0 <= i < s.len() ==> !s[i],
    decreases s.len(),
{
    if s.len() > 0 {
        lemma_count_true_zero(s.drop_last());
        if count_true(s) == 0 {
            assert forall|i: int| 0 <= i < s.len() implies !s[i] by {
                if i < s.len() - 1 {
                    assert(s.drop_last()[i] == s[i]);
                }
            }
        }
        if forall|i: int| 0 <= i < s.len() ==> !s[i] {
            assert forall|i: int| 0 <= i < s.drop_last().len() implies !s.drop_last()[i] by {
                assert(s.drop_last()[i] == s[i]);
            }
        }
    }
}

/// A sequence whose entries are all `true` counts its length.
pub proof fn lemma_count_true_full(s: Seq<bool>)
    requires
        forall|i: int| 0 <= i < s.len() ==> s[i],
    ensures
        count_true(s) == s.len(),
    decreases s.len(),
{
    if s.len() > 0 {
        assert forall|i: int| 0 <= i < s.drop_last().len() implies s.drop_last()[i] by {
            assert(s.drop_last()[i] == s[i]);
        }
        lemma_count_true_full(s.drop_last());
    }
}

/// Where `a` has no `true` entry that `b` lacks, `a` counts no more than `b`;
/// and strictly less where `b` has one that `a` lacks.
pub proof fn lemma_count_true_subset(a: Seq<bool>, b: Seq<bool>)
    requires
        a.len() == b.len(),
        forall|i: int| 0 <= i < a.len() ==> (a[i] ==> b[i]),
    ensures
        count_true(a) <= count_true(b),
        (exists|i: int| 0 <= i < a.len() && b[i] && !a[i]) ==> count_true(a) < count_true(b),
        count_true(a) == count_true(b) ==> a == b,
    decreases a.len(),
{
    if a.len() > 0 {
        let a0 = a.drop_last();
        let b0 = b.drop_last();
        assert forall|i: int| 0 <= i < a0.len() && a0[i] implies b0[i] by {
            assert(a0[i] == a[i] && b0[i] == b[i]);
        }
        lemma_count_true_subset(a0, b0);
        if exists|i: int| 0 <= i < a.len() && b[i] && !a[i] {
            let i = choose|i: int| 0 <= i < a.len() && b[i] && !a[i];
            if i < a.len() - 1 {
                assert(b0[i] && !a0[i]);
            }
        }
        if count_true(a) == count_true(b) {
            assert(a0 == b0);
            assert(a =~= a0.push(a.last()));
            assert(b =~= b0.push(b.last()));
        }
    } else {
        assert(a =~= b);
    }
}

/// A sequence whose only `true` entry is at `k` counts one.
pub proof fn lemma_count_true_single(s: Seq<bool>, k: int)
    requires
        0 <= k < s.len(),
        forall|i: int| 0 <= i < s.len() ==> (s[i] <==> i == k),
    ensures
        count_true(s) == 1,
    decreases s.len(),
{
    let s0 = s.drop_last();
    if k == s.len() - 1 {
        assert forall|i: int| 0 <= i < s0.len() implies !s0[i] by {
            assert(s0[i] == s[i]);
        }
        lemma_count_true_zero(s0);
    } else {
        assert forall|i: int| 0 <= i < s0.len() implies (s0[i] <==> i == k) by {
            assert(s0[i] == s[i]);
        }
        lemma_count_true_single(s0, k);
    }
}

/// A sequence that counts one has exactly one `true` entry.
pub proof fn lemma_count_true_one(s: Seq<bool>) -> (k: int)
    requires
        count_true(s) == 1,
    ensures
        0 <= k < s.len(),
        forall|i: int| 0 <= i < s.len() ==> (s[i] <==> i == k),
    decreases s.len(),
{
    let s0 = s.drop_last();
    if s.last() {
        lemma_count_true_zero(s0);
        assert forall|i: int| 0 <= i < s.len() implies (s[i] <==> i == s.len() - 1) by {
            if i < s.len() - 1 {
                assert(s0[i] == s[i]);
            }
        }
        s.len() - 1
    } else {
        let k = lemma_count_true_one(s0);
        assert forall|i: int| 0 <= i < s.len() implies (s[i] <==> i == k) by {
            if i < s.len() - 1 {
                assert(s0[i] == s[i]);
            }
        }
        k
    }
}

} // verus!
