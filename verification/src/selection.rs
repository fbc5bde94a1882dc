//! Which items of a list are kept.

use vstd::prelude::*;

verus! {

/// Whether places are those of the items of a list that are to be kept: all of them, in
/// their order, each once.
pub open spec fn is_selection<A>(s: Seq<A>, keep: spec_fn(A) -> bool, from: Seq<int>) -> bool {
    &&& forall|k: int|
        0 <= k < from.len() ==> 0 <= #[trigger] from[k] < s.len() && keep(s[from[k]])
    &&& forall|j: int, k: int| 0 <= j < k < from.len() ==> #[trigger] from[j] < #[trigger] from[k]
    &&& forall|i: int| 0 <= i < s.len() && keep(#[trigger] s[i]) ==> from.contains(i)
}

/// Nothing is selected from nothing.
pub proof fn lemma_empty_selection<A>(s: Seq<A>, keep: spec_fn(A) -> bool)
    requires
        s.len() == 0,
    ensures
        is_selection(s, keep, Seq::empty()),
{
}

/// One item more: it is selected where it is to be kept.
pub proof fn lemma_selection_grows<A>(s: Seq<A>, keep: spec_fn(A) -> bool, before: Seq<int>) -> (from:
    Seq<int>)
    requires
        s.len() > 0,
        is_selection(s.drop_last(), keep, before),
    ensures
        is_selection(s, keep, from),
        from == if keep(s.last()) {
            before.push(s.len() - 1)
        } else {
            before
        },
{
    let n = s.len() - 1;
    let front = s.drop_last();
    let from = if keep(s.last()) {
        before.push(n)
    } else {
        before
    };
    assert forall|k: int| 0 <= k < from.len() implies 0 <= #[trigger] from[k] < s.len() && keep(
        s[from[k]],
    ) by {
        if k < before.len() {
            assert(from[k] == before[k]);
            assert(front[before[k]] == s[before[k]]);
        }
    }
    assert forall|j: int, k: int| 0 <= j < k < from.len() implies #[trigger] from[j]
        < #[trigger] from[k] by {
        assert(from[j] == before[j]);
        if k < before.len() {
            assert(from[k] == before[k]);
        }
    }
    assert forall|i: int| 0 <= i < s.len() && keep(#[trigger] s[i]) implies from.contains(i) by {
        if i < n {
            assert(front[i] == s[i]);
            let k = choose|k: int| 0 <= k < before.len() && before[k] == i;
            assert(from[k] == i);
        } else {
            assert(from[from.len() - 1] == i);
        }
    }
    from
}

} // verus!
