//! Element-wise arithmetic on vectors and order-keeping deduplication.
use vstd::prelude::*;
use std::collections::HashSet;

verus! {

broadcast use vstd::std_specs::hash::group_hash_axioms;

/// Every element of `v` plus `n` stays within `i32`.
pub open spec fn add_fits(v: Seq<i32>, n: i32) -> bool {
    forall|i: int| 0 <= i < v.len() ==> i32::MIN <= #[trigger] v[i] + n <= i32::MAX
}

/// Returns `v` with `n` added to every element.
pub fn add_n(v: Vec<i32>, n: i32) -> (r: Vec<i32>)
    requires
        add_fits(v@, n),
    ensures
        r@.len() == v@.len(),
        forall|i: int| 0 <= i < v@.len() ==> #[trigger] r@[i] == v@[i] + n,
{
    let mut out = v;
    add_n_inplace(&mut out, n);
    out
}

/// Adds `n` to every element of `v`.
pub fn add_n_inplace(v: &mut Vec<i32>, n: i32)
    requires
        add_fits(old(v)@, n),
    ensures
        final(v)@.len() == old(v)@.len(),
        forall|i: int| 0 <= i < old(v)@.len() ==> #[trigger] final(v)@[i] == old(v)@[i] + n,
{
    let ghost orig = v@;
    let mut i: usize = 0;
    while i < v.len()
        invariant
            v@.len() == orig.len(),
            i <= v@.len(),
            add_fits(orig, n),
            forall|j: int| 0 <= j < i ==> #[trigger] v@[j] == orig[j] + n,
            forall|j: int| i <= j < v@.len() ==> #[trigger] v@[j] == orig[j],
        decreases v@.len() - i,
    {
        let x = v[i];
        assert(i32::MIN <= orig[i as int] + n <= i32::MAX);
        v.set(i, x + n);
        i += 1;
    }
}

/// The elements of `s` in order, each kept only where it first occurs.
pub open spec fn first_occurrences(s: Seq<i32>) -> Seq<i32>
    decreases s.len(),
{
    if s.len() == 0 {
        Seq::empty()
    } else if s.drop_last().contains(s.last()) {
        first_occurrences(s.drop_last())
    } else {
        first_occurrences(s.drop_last()).push(s.last())
    }
}

/// Removes every element that already occurred earlier, keeping the order of
/// first occurrences.
pub fn dedup(v: &mut Vec<i32>)
    ensures
        final(v)@ == first_occurrences(old(v)@),
{
    let ghost orig = v@;
    let mut seen: HashSet<i32> = HashSet::new();
    let mut kept: Vec<i32> = Vec::new();
    let mut i: usize = 0;
    while i < v.len()
        invariant
            v@ == orig,
            i <= orig.len(),
            kept@ == first_occurrences(orig.take(i as int)),
            forall|x: i32| seen@.contains(x) <==> orig.take(i as int).contains(x),
        decreases orig.len() - i,
    {
        let x = v[i];
        let ghost next = orig.take(i as int + 1);
        assert(next.drop_last() =~= orig.take(i as int));
        assert(next.last() == x);
        if !seen.contains(&x) {
            seen.insert(x);
            kept.push(x);
        }
        assert forall|y: i32| seen@.contains(y) <==> next.contains(y) by {
            if next.contains(y) && y != x {
                let k = choose|k: int| 0 <= k < next.len() && next[k] == y;
                assert(orig.take(i as int)[k] == y);
            }
            if orig.take(i as int).contains(y) {
                let k = choose|k: int| 0 <= k < i && orig.take(i as int)[k] == y;
                assert(next[k] == y);
            }
            if y == x {
                assert(next[i as int] == x);
            }
        }
        i += 1;
    }
    assert(orig.take(orig.len() as int) =~= orig);
    *v = kept;
}

} // verus!
