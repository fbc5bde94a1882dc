//! A stable sort, stated as the order in which the positions of a list come
//! out.

use vstd::prelude::*;

use crate::text::{lemma_text_order, text_less, text_lt, texts};

verus! {

/// What an item is sorted by: a number, then a text, then a second number.
pub struct SortKey {
    pub rank: i128,
    pub text: String,
    pub minor: u64,
}

/// The view of a [`SortKey`].
pub struct SortKeyView {
    pub rank: int,
    pub text: Seq<char>,
    pub minor: int,
}

impl View for SortKey {
    type V = SortKeyView;

    open spec fn view(&self) -> SortKeyView {
        SortKeyView { rank: self.rank as int, text: self.text@, minor: self.minor as int }
    }
}

/// The views of a list of keys.
pub open spec fn keys_view(keys: Seq<SortKey>) -> Seq<SortKeyView> {
    keys.map_values(|k: SortKey| k@)
}

/// Whether `a` is smaller than `b`.
pub open spec fn key_lt(a: SortKeyView, b: SortKeyView) -> bool {
    ||| a.rank < b.rank
    ||| a.rank == b.rank && text_lt(a.text, b.text)
    ||| a.rank == b.rank && a.text == b.text && a.minor < b.minor
}

/// Whether position `i` comes out before position `j`: its key is smaller, or
/// the keys are equal and it stood before it.
pub open spec fn comes_before(keys: Seq<SortKeyView>, i: int, j: int) -> bool {
    ||| key_lt(keys[i], keys[j])
    ||| keys[i] == keys[j] && i < j
}

/// Whether `order` lists all positions of `keys` in the order of a stable
/// sort.
pub open spec fn is_stable_order(keys: Seq<SortKeyView>, order: Seq<int>) -> bool {
    &&& order.len() == keys.len()
    &&& forall|i: int| 0 <= i < order.len() ==> 0 <= #[trigger] order[i] < keys.len()
    &&& forall|i: int, j: int|
        0 <= i < j < order.len() ==> comes_before(keys, #[trigger] order[i], #[trigger] order[j])
}

/// The order in which a stable sort by `keys` lists the positions.
pub open spec fn stable_order(keys: Seq<SortKeyView>) -> Seq<int> {
    choose|order: Seq<int>| is_stable_order(keys, order)
}

/// The items of `s` in the given order.
pub open spec fn reordered<A>(s: Seq<A>, order: Seq<int>) -> Seq<A> {
    order.map_values(|i: int| s[i])
}

proof fn lemma_key_order(a: SortKeyView, b: SortKeyView, c: SortKeyView)
    ensures
        !key_lt(a, a),
        key_lt(a, b) && key_lt(b, c) ==> key_lt(a, c),
        key_lt(a, b) || key_lt(b, a) || a == b,
        !(key_lt(a, b) && key_lt(b, a)),
{
    lemma_text_order(a.text, b.text, c.text);
}

/// A position comes before itself never, and of two positions one comes
/// before the other.
pub proof fn lemma_comes_before(keys: Seq<SortKeyView>, i: int, j: int, k: int)
    ensures
        !comes_before(keys, i, i),
        comes_before(keys, i, j) && comes_before(keys, j, k) ==> comes_before(keys, i, k),
        i != j ==> comes_before(keys, i, j) || comes_before(keys, j, i),
        !(comes_before(keys, i, j) && comes_before(keys, j, i)),
{
    lemma_key_order(keys[i], keys[j], keys[k]);
}

/// A stable order lists each position once, and there is only one such order.
pub proof fn lemma_stable_order_unique(keys: Seq<SortKeyView>, a: Seq<int>, b: Seq<int>)
    requires
        is_stable_order(keys, a),
        is_stable_order(keys, b),
    ensures
        a == b,
        a.no_duplicates(),
        forall|i: int| 0 <= i < keys.len() ==> #[trigger] a.contains(i),
{
    lemma_lists_all(keys, a);
    lemma_lists_all(keys, b);
    assert forall|n: int| 0 <= n <= a.len() implies a.take(n) == b.take(n) by {
        lemma_prefixes_agree(keys, a, b, n);
    }
    assert(a.take(a.len() as int) == a);
    assert(b.take(b.len() as int) == b);
}

proof fn lemma_lists_all(keys: Seq<SortKeyView>, a: Seq<int>)
    requires
        is_stable_order(keys, a),
    ensures
        a.no_duplicates(),
        forall|i: int| 0 <= i < keys.len() ==> #[trigger] a.contains(i),
{
    assert forall|i: int, j: int| 0 <= i < a.len() && 0 <= j < a.len() && i != j implies a[i]
        != a[j] by {
        lemma_comes_before(keys, a[i], a[j], a[i]);
        if i < j {
            assert(comes_before(keys, a[i], a[j]));
        } else {
            assert(comes_before(keys, a[j], a[i]));
        }
    }
    a.unique_seq_to_set();
    let all = vstd::set_lib::set_int_range(0, keys.len() as int);
    vstd::set_lib::lemma_int_range(0, keys.len() as int);
    assert(a.to_set().subset_of(all));
    vstd::set_lib::lemma_subset_equality(a.to_set(), all);
    assert forall|i: int| 0 <= i < keys.len() implies #[trigger] a.contains(i) by {
        assert(all.contains(i));
        assert(a.to_set().contains(i));
    }
}

proof fn lemma_prefixes_agree(keys: Seq<SortKeyView>, a: Seq<int>, b: Seq<int>, n: int)
    requires
        is_stable_order(keys, a),
        is_stable_order(keys, b),
        forall|i: int| 0 <= i < keys.len() ==> #[trigger] a.contains(i),
        forall|i: int| 0 <= i < keys.len() ==> #[trigger] b.contains(i),
        0 <= n <= keys.len(),
    ensures
        a.take(n) == b.take(n),
    decreases n,
{
    if n > 0 {
        let m = n - 1;
        lemma_prefixes_agree(keys, a, b, m);
        assert forall|i: int| 0 <= i < m implies a[i] == b[i] by {
            assert(a.take(m)[i] == b.take(m)[i]);
        }
        let x = a[m];
        let y = b[m];
        assert(a.contains(y) && b.contains(x));
        let p = choose|p: int| 0 <= p < a.len() && a[p] == y;
        let q = choose|q: int| 0 <= q < b.len() && b[q] == x;
        if x != y {
            if p < m {
                assert(b[p] == y);
                lemma_comes_before(keys, b[p], b[m], b[p]);
                assert(comes_before(keys, b[p], b[m]));
            }
            if q < m {
                assert(a[q] == x);
                lemma_comes_before(keys, a[q], a[m], a[q]);
                assert(comes_before(keys, a[q], a[m]));
            }
            assert(comes_before(keys, a[m], a[p]));
            assert(comes_before(keys, b[m], b[q]));
            lemma_comes_before(keys, x, y, x);
        }
        assert(a.take(n) =~= a.take(m).push(x));
        assert(b.take(n) =~= b.take(m).push(y));
    }
}

/// Whether `a` is smaller than `b`.
fn key_less(a: &SortKey, b: &SortKey) -> (r: bool)
    ensures
        r == key_lt(a@, b@),
{
    proof {
        lemma_text_order(a.text@, b.text@, a.text@);
    }
    if a.rank != b.rank {
        a.rank < b.rank
    } else if text_less(a.text.as_str(), b.text.as_str()) {
        true
    } else if text_less(b.text.as_str(), a.text.as_str()) {
        false
    } else {
        a.minor < b.minor
    }
}

/// Whether `out` lists `count` positions of `lo..hi` in stable order.
spec fn is_run(keys: Seq<SortKeyView>, out: Seq<usize>, lo: int, hi: int) -> bool {
    &&& forall|i: int| 0 <= i < out.len() ==> lo <= #[trigger] out[i] < hi
    &&& forall|i: int, j: int|
        0 <= i < j < out.len() ==> comes_before(
            keys,
            #[trigger] out[i] as int,
            #[trigger] out[j] as int,
        )
}

fn merge(keys: &Vec<SortKey>, left: &Vec<usize>, right: &Vec<usize>, lo: usize, mid: usize, hi: usize) -> (out:
    Vec<usize>)
    requires
        lo <= mid <= hi <= keys.len(),
        left.len() + right.len() <= usize::MAX,
        is_run(keys_view(keys@), left@, lo as int, mid as int),
        is_run(keys_view(keys@), right@, mid as int, hi as int),
    ensures
        is_run(keys_view(keys@), out@, lo as int, hi as int),
        out.len() == left.len() + right.len(),
{
    let ghost kv = keys_view(keys@);
    let mut out: Vec<usize> = Vec::new();
    let mut i: usize = 0;
    let mut j: usize = 0;
    while i < left.len() || j < right.len()
        invariant
            kv == keys_view(keys@),
            lo <= mid <= hi <= keys.len(),
            left.len() + right.len() <= usize::MAX,
            is_run(kv, left@, lo as int, mid as int),
            is_run(kv, right@, mid as int, hi as int),
            i <= left.len(),
            j <= right.len(),
            out.len() == i + j,
            is_run(kv, out@, lo as int, hi as int),
            forall|a: int|
                0 <= a < out.len() && i < left.len() ==> comes_before(
                    kv,
                    #[trigger] out@[a] as int,
                    left@[i as int] as int,
                ),
            forall|a: int|
                0 <= a < out.len() && j < right.len() ==> comes_before(
                    kv,
                    #[trigger] out@[a] as int,
                    right@[j as int] as int,
                ),
        decreases left.len() + right.len() - i - j,
    {
        let take_left: bool = if i == left.len() {
            false
        } else if j == right.len() {
            true
        } else {
            !key_less(&keys[right[j]], &keys[left[i]])
        };
        let ghost before = out@;
        if take_left {
            let p: usize = left[i];
            proof {
                if j < right.len() {
                    lemma_key_order(kv[p as int], kv[right@[j as int] as int], kv[p as int]);
                    assert(comes_before(kv, p as int, right@[j as int] as int));
                }
                if i + 1 < left.len() {
                    assert(comes_before(kv, left@[i as int] as int, left@[i + 1] as int));
                    assert forall|a: int| 0 <= a < before.len() implies comes_before(
                        kv,
                        #[trigger] before[a] as int,
                        left@[i + 1] as int,
                    ) by {
                        lemma_comes_before(kv, before[a] as int, p as int, left@[i + 1] as int);
                    }
                }
            }
            out.push(p);
            i += 1;
        } else {
            let p: usize = right[j];
            proof {
                if i < left.len() {
                    assert(comes_before(kv, p as int, left@[i as int] as int));
                }
                if j + 1 < right.len() {
                    assert(comes_before(kv, right@[j as int] as int, right@[j + 1] as int));
                    assert forall|a: int| 0 <= a < before.len() implies comes_before(
                        kv,
                        #[trigger] before[a] as int,
                        right@[j + 1] as int,
                    ) by {
                        lemma_comes_before(kv, before[a] as int, p as int, right@[j + 1] as int);
                    }
                }
            }
            out.push(p);
            j += 1;
        }
    }
    out
}

fn sort_range(keys: &Vec<SortKey>, lo: usize, hi: usize) -> (out: Vec<usize>)
    requires
        lo <= hi <= keys.len(),
    ensures
        is_run(keys_view(keys@), out@, lo as int, hi as int),
        out.len() == hi - lo,
    decreases hi - lo,
{
    if hi - lo == 0 {
        Vec::new()
    } else if hi - lo == 1 {
        let mut out: Vec<usize> = Vec::new();
        out.push(lo);
        out
    } else {
        let mid: usize = lo + (hi - lo) / 2;
        let left = sort_range(keys, lo, mid);
        let right = sort_range(keys, mid, hi);
        merge(keys, &left, &right, lo, mid, hi)
    }
}

/// The order in which a stable sort by `keys` lists the positions.
pub fn sorted_positions(keys: &Vec<SortKey>) -> (order: Vec<usize>)
    ensures
        order@.map_values(|i: usize| i as int) == stable_order(keys_view(keys@)),
        is_stable_order(keys_view(keys@), order@.map_values(|i: usize| i as int)),
{
    let order = sort_range(keys, 0, keys.len());
    proof {
        let kv = keys_view(keys@);
        let o = order@.map_values(|i: usize| i as int);
        assert(is_stable_order(kv, o));
        lemma_stable_order_unique(kv, o, stable_order(kv));
    }
    order
}

/// What texts are sorted by: themselves.
pub open spec fn text_keys(all: Seq<Seq<char>>) -> Seq<SortKeyView> {
    all.map_values(|t: Seq<char>| SortKeyView { rank: 0, text: t, minor: 0 })
}

/// Texts in their order.
pub open spec fn sorted_texts(all: Seq<Seq<char>>) -> Seq<Seq<char>> {
    reordered(all, stable_order(text_keys(all)))
}

/// The positions of texts in the order of the texts.
pub fn text_positions(all: &Vec<String>) -> (order: Vec<usize>)
    ensures
        order@.map_values(|i: usize| i as int) == stable_order(text_keys(texts(all@))),
        is_stable_order(text_keys(texts(all@)), order@.map_values(|i: usize| i as int)),
{
    let ghost av = texts(all@);
    let mut keys: Vec<SortKey> = Vec::new();
    let mut i: usize = 0;
    while i < all.len()
        invariant
            i <= all.len(),
            av == texts(all@),
            keys.len() == i,
            forall|j: int| 0 <= j < i ==> #[trigger] keys@[j]@ == text_keys(av)[j],
        decreases all.len() - i,
    {
        keys.push(SortKey { rank: 0, text: all[i].clone(), minor: 0 });
        i += 1;
    }
    assert(keys_view(keys@) =~= text_keys(av));
    sorted_positions(&keys)
}

/// Texts in their order.
pub fn sort_texts(all: &Vec<String>) -> (r: Vec<String>)
    ensures
        texts(r@) == sorted_texts(texts(all@)),
{
    let ghost av = texts(all@);
    let order = text_positions(all);
    let ghost o = order@.map_values(|i: usize| i as int);
    let ghost want = reordered(av, o);
    let mut r: Vec<String> = Vec::new();
    let mut k: usize = 0;
    while k < order.len()
        invariant
            k <= order.len(),
            o == order@.map_values(|i: usize| i as int),
            order.len() == all.len(),
            av == texts(all@),
            want == reordered(av, o),
            forall|j: int| 0 <= j < o.len() ==> 0 <= #[trigger] o[j] < all.len(),
            texts(r@) == want.take(k as int),
        decreases order.len() - k,
    {
        let ghost before = r@;
        assert(o[k as int] == order@[k as int]);
        let name = all[order[k]].clone();
        r.push(name);
        proof {
            assert(texts(r@) =~= texts(before).push(name@));
            assert(want.take(k + 1) =~= want.take(k as int).push(want[k as int]));
        }
        k += 1;
    }
    assert(want.take(k as int) == want);
    r
}

proof fn insertion_point(keys: Seq<SortKeyView>, order: Seq<int>, n: int) -> (k: int)
    ensures
        0 <= k <= order.len(),
        forall|i: int| 0 <= i < k ==> comes_before(keys, #[trigger] order[i], n),
        k < order.len() ==> !comes_before(keys, order[k], n),
    decreases order.len(),
{
    if order.len() == 0 || !comes_before(keys, order[0], n) {
        0
    } else {
        let rest = order.drop_first();
        let k = insertion_point(keys, rest, n);
        assert forall|i: int| 0 <= i < k + 1 implies comes_before(keys, #[trigger] order[i], n) by {
            if i > 0 {
                assert(order[i] == rest[i - 1]);
            }
        }
        if k < rest.len() {
            assert(rest[k] == order[k + 1]);
        }
        k + 1
    }
}

proof fn stable_order_of(keys: Seq<SortKeyView>) -> (order: Seq<int>)
    ensures
        is_stable_order(keys, order),
    decreases keys.len(),
{
    if keys.len() == 0 {
        seq![]
    } else {
        let front = keys.drop_last();
        let before = stable_order_of(front);
        let n = keys.len() - 1;
        assert forall|i: int, j: int| 0 <= i < j < before.len() implies comes_before(
            keys,
            #[trigger] before[i],
            #[trigger] before[j],
        ) by {
            assert(comes_before(front, before[i], before[j]));
            assert(front[before[i]] == keys[before[i]]);
            assert(front[before[j]] == keys[before[j]]);
        }
        let k = insertion_point(keys, before, n);
        let order = before.insert(k, n);
        assert forall|i: int| 0 <= i < order.len() implies 0 <= #[trigger] order[i] < keys.len() by {
            if i < k {
                assert(order[i] == before[i]);
            } else if i > k {
                assert(order[i] == before[i - 1]);
            }
        }
        assert forall|j: int| k <= j < before.len() implies comes_before(
            keys,
            n,
            #[trigger] before[j],
        ) by {
            lemma_comes_before(keys, before[k], n, n);
            assert(before[k] != n);
            if j > k {
                assert(comes_before(keys, before[k], before[j]));
                lemma_comes_before(keys, n, before[k], before[j]);
            }
        }
        assert forall|i: int, j: int| 0 <= i < j < order.len() implies comes_before(
            keys,
            #[trigger] order[i],
            #[trigger] order[j],
        ) by {
            let a = if i <= k {
                i
            } else {
                i - 1
            };
            let b = if j <= k {
                j
            } else {
                j - 1
            };
            if i != k {
                assert(order[i] == before[a]);
            }
            if j != k {
                assert(order[j] == before[b]);
            }
        }
        order
    }
}

/// There is a stable order for any keys.
pub proof fn lemma_stable_order(keys: Seq<SortKeyView>)
    ensures
        is_stable_order(keys, stable_order(keys)),
        stable_order(keys).no_duplicates(),
        forall|i: int| 0 <= i < keys.len() ==> #[trigger] stable_order(keys).contains(i),
{
    let order = stable_order_of(keys);
    assert(is_stable_order(keys, order));
    lemma_stable_order_unique(keys, stable_order(keys), order);
}

/// Sorting texts loses none and adds none, and each comes after those before it.
pub proof fn lemma_sorted_texts(all: Seq<Seq<char>>)
    ensures
        sorted_texts(all).len() == all.len(),
        forall|t: Seq<char>| #[trigger] sorted_texts(all).contains(t) <==> all.contains(t),
        forall|i: int, j: int|
            0 <= i < j < all.len() ==> !text_lt(
                #[trigger] sorted_texts(all)[j],
                #[trigger] sorted_texts(all)[i],
            ),
{
    let keys = text_keys(all);
    let order = stable_order(keys);
    let sorted = sorted_texts(all);
    lemma_stable_order(keys);
    assert forall|t: Seq<char>| #[trigger] sorted.contains(t) <==> all.contains(t) by {
        if sorted.contains(t) {
            let i = choose|i: int| 0 <= i < sorted.len() && sorted[i] == t;
            assert(all[order[i]] == t);
        }
        if all.contains(t) {
            let i = choose|i: int| 0 <= i < all.len() && all[i] == t;
            assert(order.contains(i));
            let j = choose|j: int| 0 <= j < order.len() && order[j] == i;
            assert(sorted[j] == t);
        }
    }
    assert forall|i: int, j: int| 0 <= i < j < all.len() implies !text_lt(
        #[trigger] sorted[j],
        #[trigger] sorted[i],
    ) by {
        assert(comes_before(keys, order[i], order[j]));
        lemma_text_order(sorted[i], sorted[j], sorted[i]);
    }
}

} // verus!
