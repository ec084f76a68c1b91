//! Sorting of keyed entries.
use vstd::prelude::*;

verus! {

broadcast use vstd::seq_lib::group_to_multiset_ensures;

/// Whether `left` does not come after `right`: by key, then by index.
pub open spec fn not_after(left: (i64, usize), right: (i64, usize)) -> bool {
    left.0 < right.0 || (left.0 == right.0 && left.1 <= right.1)
}

pub open spec fn sorted(entries: Seq<(i64, usize)>) -> bool {
    forall|i: int, j: int|
        0 <= i < j < entries.len() ==> not_after(#[trigger] entries[i], #[trigger] entries[j])
}

fn merge(left: Vec<(i64, usize)>, right: Vec<(i64, usize)>) -> (merged: Vec<(i64, usize)>)
    requires
        sorted(left@),
        sorted(right@),
        left@.len() + right@.len() <= usize::MAX,
    ensures
        sorted(merged@),
        merged@.to_multiset() == left@.to_multiset().add(right@.to_multiset()),
{
    let mut merged: Vec<(i64, usize)> = Vec::new();
    let mut i: usize = 0;
    let mut j: usize = 0;
    assert(merged@.to_multiset() =~= left@.take(0).to_multiset().add(right@.take(0).to_multiset()));
    while i < left.len() || j < right.len()
        invariant
            i <= left@.len(),
            j <= right@.len(),
            left@.len() + right@.len() <= usize::MAX,
            sorted(left@),
            sorted(right@),
            sorted(merged@),
            merged@.to_multiset() == left@.take(i as int).to_multiset().add(
                right@.take(j as int).to_multiset(),
            ),
            forall|m: int, k: int|
                0 <= m < merged@.len() && i <= k < left@.len() ==> not_after(
                    #[trigger] merged@[m],
                    #[trigger] left@[k],
                ),
            forall|m: int, k: int|
                0 <= m < merged@.len() && j <= k < right@.len() ==> not_after(
                    #[trigger] merged@[m],
                    #[trigger] right@[k],
                ),
        decreases (left@.len() - i) + (right@.len() - j),
    {
        let from_left: bool = if i == left.len() {
            false
        } else if j == right.len() {
            true
        } else {
            left[i].0 < right[j].0 || (left[i].0 == right[j].0 && left[i].1 <= right[j].1)
        };
        if from_left {
            assert(left@.take(i + 1) =~= left@.take(i as int).push(left@[i as int]));
            let ghost before = merged@;
            merged.push(left[i]);
            assert(merged@ =~= before.push(left@[i as int]));
            i = i + 1;
        } else {
            assert(right@.take(j + 1) =~= right@.take(j as int).push(right@[j as int]));
            let ghost before = merged@;
            merged.push(right[j]);
            assert(merged@ =~= before.push(right@[j as int]));
            j = j + 1;
        }
        assert(merged@.to_multiset() =~= left@.take(i as int).to_multiset().add(
            right@.take(j as int).to_multiset(),
        ));
    }
    assert(left@.take(i as int) =~= left@);
    assert(right@.take(j as int) =~= right@);
    merged
}

/// The same entries in order: by key, then by index.
pub fn sort_entries(entries: Vec<(i64, usize)>) -> (result: Vec<(i64, usize)>)
    ensures
        sorted(result@),
        result@.to_multiset() == entries@.to_multiset(),
        result@.len() == entries@.len(),
    decreases entries@.len(),
{
    if entries.len() < 2 {
        return entries;
    }
    let mut left = entries;
    let ghost all = left@;
    let middle: usize = left.len() / 2;
    let right = left.split_off(middle);
    proof {
        assert(left@ + right@ =~= all);
        vstd::seq_lib::lemma_multiset_commutative(left@, right@);
    }
    let result = merge(sort_entries(left), sort_entries(right));
    assert(result@.to_multiset().len() == all.to_multiset().len());
    result
}

/// An entry of one sequence is an entry of every rearrangement of it.
pub proof fn same_entries(left: Seq<(i64, usize)>, right: Seq<(i64, usize)>)
    requires
        left.to_multiset() == right.to_multiset(),
    ensures
        left.len() == right.len(),
        forall|entry: (i64, usize)| #[trigger] left.contains(entry) == right.contains(entry),
        left.no_duplicates() ==> right.no_duplicates(),
{
    assert(left.to_multiset().len() == left.len());
    assert(right.to_multiset().len() == right.len());
    assert forall|entry: (i64, usize)| #[trigger] left.contains(entry) == right.contains(entry) by {
        assert(left.contains(entry) == (left.to_multiset().count(entry) > 0));
        assert(right.contains(entry) == (right.to_multiset().count(entry) > 0));
    }
    if left.no_duplicates() {
        left.lemma_multiset_has_no_duplicates();
        assert forall|entry: (i64, usize)|
            right.to_multiset().contains(entry) implies right.to_multiset().count(entry) == 1 by {}
        right.lemma_multiset_has_no_duplicates_conv();
    }
}

} // verus!
