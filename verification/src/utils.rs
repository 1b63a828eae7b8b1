use crate::rat::Rat;
use vstd::prelude::*;

verus! {

/// A sequence of indices is strictly increasing (hence free of duplicates).
pub open spec fn uniq_sorted(s: Seq<usize>) -> bool {
    forall|i: int| 0 <= i < s.len() - 1 ==> #[trigger] s[i] < s[i + 1]
}

/// Every entry of the sequence has value zero.
pub open spec fn all_zero(s: Seq<Rat>) -> bool {
    forall|i: int| 0 <= i < s.len() ==> s[i]@.n == 0
}

/// Every rational in the sequence is well formed.
pub open spec fn rats_wf(s: Seq<Rat>) -> bool {
    forall|i: int| 0 <= i < s.len() ==> s[i].wf()
}

/// Every rational in every row is well formed.
pub open spec fn rows_wf(a: Seq<Vec<Rat>>) -> bool {
    forall|i: int| 0 <= i < a.len() ==> rats_wf(#[trigger] a[i]@)
}

/// Every row has exactly `n` entries.
pub open spec fn rows_uniform(a: Seq<Vec<Rat>>, n: int) -> bool {
    forall|i: int| 0 <= i < a.len() ==> (#[trigger] a[i]@).len() == n
}

/// Whether the indices are strictly increasing; the empty and the singleton
/// vector qualify.
pub fn is_uniq_sorted(v: &Vec<usize>) -> (r: bool)
    ensures
        r == uniq_sorted(v@),
{
    if v.len() <= 1 {
        return true;
    }
    let mut i: usize = 0;
    while i < v.len() - 1
        invariant
            v@.len() >= 2,
            0 <= i <= v@.len() - 1,
            forall|k: int| 0 <= k < i ==> #[trigger] v@[k] < v@[k + 1],
        decreases v@.len() - i,
    {
        if v[i] >= v[i + 1] {
            assert(!(v@[i as int] < v@[i as int + 1]));
            return false;
        }
        i += 1;
    }
    true
}

/// Whether every entry of the vector is zero; true for the empty vector.
pub fn all_zeroes(v: &Vec<Rat>) -> (r: bool)
    ensures
        r == all_zero(v@),
{
    let mut i: usize = 0;
    while i < v.len()
        invariant
            0 <= i <= v@.len(),
            forall|k: int| 0 <= k < i ==> v@[k]@.n == 0,
        decreases v@.len() - i,
    {
        if v[i].num != 0 {
            assert(!(v@[i as int]@.n == 0));
            return false;
        }
        i += 1;
    }
    true
}

/// A strictly increasing index sequence grows at least as fast as the
/// positions: its entry at `t` is at least `t`.
pub proof fn lemma_uniq_sorted_lower(s: Seq<usize>, t: int)
    requires
        uniq_sorted(s),
        0 <= t < s.len(),
    ensures
        s[t] >= t,
    decreases t,
{
    if t > 0 {
        lemma_uniq_sorted_lower(s, t - 1);
        assert(s[t - 1] < s[t]);
    }
}

/// A fresh vector with the same rationals.
pub(crate) fn copy_rats(v: &Vec<Rat>) -> (r: Vec<Rat>)
    ensures
        r@ == v@,
{
    let mut r: Vec<Rat> = Vec::new();
    let mut i: usize = 0;
    while i < v.len()
        invariant
            0 <= i <= v@.len(),
            r@ == v@.take(i as int),
        decreases v@.len() - i,
    {
        r.push(v[i]);
        proof {
            assert(r@ =~= v@.take(i + 1));
        }
        i += 1;
    }
    proof {
        assert(r@ =~= v@);
    }
    r
}

/// A fresh vector with the same indices.
pub(crate) fn copy_indices(v: &Vec<usize>) -> (r: Vec<usize>)
    ensures
        r@ == v@,
{
    let mut r: Vec<usize> = Vec::new();
    let mut i: usize = 0;
    while i < v.len()
        invariant
            0 <= i <= v@.len(),
            r@ == v@.take(i as int),
        decreases v@.len() - i,
    {
        r.push(v[i]);
        proof {
            assert(r@ =~= v@.take(i + 1));
        }
        i += 1;
    }
    proof {
        assert(r@ =~= v@);
    }
    r
}

/// Whether every rational in the vector is well formed.
pub(crate) fn rats_ok(v: &Vec<Rat>) -> (r: bool)
    ensures
        r == rats_wf(v@),
{
    let mut i: usize = 0;
    while i < v.len()
        invariant
            0 <= i <= v@.len(),
            forall|t: int| 0 <= t < i ==> (#[trigger] v@[t]).wf(),
        decreases v@.len() - i,
    {
        if !(v[i].den > 0 && v[i].num > i64::MIN) {
            assert(!v@[i as int].wf());
            return false;
        }
        i += 1;
    }
    true
}

/// Relies on the `format` macro and `Display` for `usize` from std: renders
/// a dimension-mismatch diagnostic as `"<prefix> (<left> != <right>)"`.
#[verifier::external_body]
pub(crate) fn mismatch_message(prefix: &str, left: usize, right: usize) -> String {
    format!("{} ({} != {})", prefix, left, right)
}

} // verus!
