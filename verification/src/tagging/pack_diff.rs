//! What a rule pack changes relative to another one, by the names and versions
//! of their rules alone.

use vstd::prelude::*;

use crate::text::{lemma_text_order, same, text_less, text_lt, texts};

verus! {

/// The versions of the rules of a pack, by the names of the rules. The names
/// are kept in the order of strings, each once.
#[derive(Debug)]
pub struct RuleVersions {
    entries: Vec<(String, String)>,
}

/// Whether the names are in the order of strings, each once.
pub open spec fn names_ascend(entries: Seq<(Seq<char>, Seq<char>)>) -> bool {
    forall|i: int, j: int|
        0 <= i < j < entries.len() ==> text_lt((#[trigger] entries[i]).0, (#[trigger] entries[j]).0)
}

/// The version of a name.
pub open spec fn version_in(entries: Seq<(Seq<char>, Seq<char>)>, name: Seq<char>) -> Option<
    Seq<char>,
>
    decreases entries.len(),
{
    if entries.len() == 0 {
        None
    } else if entries.last().0 == name {
        Some(entries.last().1)
    } else {
        version_in(entries.drop_last(), name)
    }
}

/// The number of different names.
pub open spec fn name_count(entries: Seq<(Seq<char>, Seq<char>)>) -> nat
    decreases entries.len(),
{
    if entries.len() == 0 {
        0
    } else if version_in(entries.drop_last(), entries.last().0) is Some {
        name_count(entries.drop_last())
    } else {
        name_count(entries.drop_last()) + 1
    }
}

/// The views of a list of pairs of texts.
pub open spec fn pairs_view(v: Seq<(String, String)>) -> Seq<(Seq<char>, Seq<char>)> {
    v.map_values(|e: (String, String)| (e.0@, e.1@))
}

impl View for RuleVersions {
    type V = Seq<(Seq<char>, Seq<char>)>;

    closed spec fn view(&self) -> Seq<(Seq<char>, Seq<char>)> {
        pairs_view(self.entries@)
    }
}

/// In an ascending list a name has the version beside it, and a name with a
/// version is in the list.
proof fn lemma_version_in(entries: Seq<(Seq<char>, Seq<char>)>, name: Seq<char>)
    requires
        names_ascend(entries),
    ensures
        forall|i: int|
            0 <= i < entries.len() && (#[trigger] entries[i]).0 == name ==> version_in(
                entries,
                name,
            ) == Some(entries[i].1),
        version_in(entries, name) is Some ==> exists|i: int|
            0 <= i < entries.len() && (#[trigger] entries[i]).0 == name,
    decreases entries.len(),
{
    if entries.len() > 0 {
        let rest = entries.drop_last();
        lemma_version_in(rest, name);
        let n = entries.len() - 1;
        assert(entries[n] == entries.last());
        assert forall|i: int| 0 <= i < entries.len() && (#[trigger] entries[i]).0 == name implies version_in(
            entries,
            name,
        ) == Some(entries[i].1) by {
            if i < n {
                assert(rest[i] == entries[i]);
                assert(text_lt(entries[i].0, entries[n].0));
                lemma_text_order(entries[i].0, entries[n].0, entries[i].0);
            }
        }
        if version_in(entries, name) is Some && entries.last().0 != name {
            let i = choose|i: int| 0 <= i < rest.len() && (#[trigger] rest[i]).0 == name;
            assert(entries[i] == rest[i]);
        }
    }
}

impl RuleVersions {
    #[verifier::type_invariant]
    spec fn well_formed(self) -> bool {
        names_ascend(pairs_view(self.entries@))
    }

    /// The version of the rule `name`.
    pub open spec fn version(self, name: Seq<char>) -> Option<Seq<char>> {
        version_in(self@, name)
    }

    /// No rules.
    pub fn new() -> (r: RuleVersions)
        ensures
            r@.len() == 0,
            forall|n: Seq<char>| #[trigger] r.version(n) is None,
    {
        RuleVersions { entries: Vec::new() }
    }

    /// The version of the rule `name`.
    pub fn get(&self, name: &str) -> (r: Option<&String>)
        ensures
            match r {
                Some(v) => self.version(name@) == Some(v@),
                None => self.version(name@) is None,
            },
    {
        proof {
            use_type_invariant(self);
            lemma_version_in(self@, name@);
        }
        let mut i: usize = 0;
        while i < self.entries.len()
            invariant
                i <= self.entries.len(),
                names_ascend(self@),
                self@ == pairs_view(self.entries@),
                forall|j: int| 0 <= j < i ==> (#[trigger] self@[j]).0 != name@,
            decreases self.entries.len() - i,
        {
            assert(self@[i as int] == (self.entries@[i as int].0@, self.entries@[i as int].1@));
            if same(self.entries[i].0.as_str(), name) {
                proof {
                    lemma_version_in(self@, name@);
                }
                return Some(&self.entries[i].1);
            }
            i += 1;
        }
        None
    }

    /// The number of rules.
    pub fn len(&self) -> (r: usize)
        ensures
            r == self@.len(),
    {
        self.entries.len()
    }

    /// Stores the version of the rule `name`, in place of one it had.
    pub fn insert(&mut self, name: String, version: String)
        ensures
            forall|n: Seq<char>| #[trigger]
                final(self).version(n) == (if n == name@ {
                    Some(version@)
                } else {
                    old(self).version(n)
                }),
            final(self)@.len() == (if old(self).version(name@) is Some {
                old(self)@.len()
            } else {
                old(self)@.len() + 1
            }),
    {
        proof {
            use_type_invariant(&*self);
        }
        let ghost before = self@;
        let mut entries: Vec<(String, String)> = Vec::new();
        let mut i: usize = 0;
        let mut placed: bool = false;
        let ghost nv = name@;
        while i < self.entries.len() && text_less(self.entries[i].0.as_str(), name.as_str())
            invariant
                i <= self.entries.len(),
                before == pairs_view(self.entries@),
                names_ascend(before),
                pairs_view(entries@) == before.take(i as int),
                forall|j: int| 0 <= j < i ==> text_lt((#[trigger] before[j]).0, name@),
            decreases self.entries.len() - i,
        {
            let ghost old_entries = entries@;
            entries.push((self.entries[i].0.clone(), self.entries[i].1.clone()));
            proof {
                assert(before[i as int] == (self.entries@[i as int].0@, self.entries@[i as int].1@));
                assert(pairs_view(entries@) =~= pairs_view(old_entries).push(before[i as int]));
                assert(before.take(i + 1) =~= before.take(i as int).push(before[i as int]));
            }
            i += 1;
        }
        let ghost at = i as int;
        let ghost head = entries@;
        let ghost vv = version@;
        let replaces: bool = i < self.entries.len() && same(
            self.entries[i].0.as_str(),
            name.as_str(),
        );
        entries.push((name, version));
        proof {
            assert(pairs_view(entries@) =~= before.take(at).push((nv, vv)));
        }
        if replaces {
            i += 1;
        }
        let ghost from = i as int;
        while i < self.entries.len()
            invariant
                0 <= at <= from <= i <= self.entries.len(),
                before == pairs_view(self.entries@),
                pairs_view(entries@) == before.take(at).push((nv, vv)) + before.subrange(
                    from,
                    i as int,
                ),
            decreases self.entries.len() - i,
        {
            let ghost old_entries = entries@;
            entries.push((self.entries[i].0.clone(), self.entries[i].1.clone()));
            proof {
                assert(before[i as int] == (self.entries@[i as int].0@, self.entries@[i as int].1@));
                assert(pairs_view(entries@) =~= pairs_view(old_entries).push(before[i as int]));
                assert(before.subrange(from, i + 1) =~= before.subrange(from, i as int).push(
                    before[i as int],
                ));
            }
            i += 1;
        }
        proof {
            let after = pairs_view(entries@);
            assert(after =~= before.take(at).push((nv, vv)) + before.skip(from));
            assert forall|j: int| from <= j < before.len() implies text_lt(
                nv,
                (#[trigger] before[j]).0,
            ) by {
                lemma_text_order(nv, before[at].0, before[j].0);
                assert(before[at] == (self.entries@[at].0@, self.entries@[at].1@));
                if at < j {
                    assert(text_lt(before[at].0, before[j].0));
                }
            }
            lemma_spliced(before, at, from, nv, vv);
            lemma_version_in(before, nv);
            if at < before.len() {
                assert(before[at] == (self.entries@[at].0@, self.entries@[at].1@));
            }
            if version_in(before, nv) is Some {
                let k = choose|k: int| 0 <= k < before.len() && (#[trigger] before[k]).0 == nv;
                lemma_text_order(before[k].0, nv, before[k].0);
            }
        }
        *self = RuleVersions { entries };
        proof {
            assert forall|n: Seq<char>| #[trigger] self.version(n) == (if n == nv {
                Some(vv)
            } else {
                version_in(before, n)
            }) by {}
        }
    }

    /// The versions of a list of pairs; of pairs with one name the last counts.
    pub fn from_pairs(pairs: &Vec<(String, String)>) -> (r: RuleVersions)
        ensures
            forall|n: Seq<char>| #[trigger] r.version(n) == version_in(pairs_view(pairs@), n),
            r@.len() == name_count(pairs_view(pairs@)),
    {
        let ghost all = pairs_view(pairs@);
        let mut r = RuleVersions::new();
        let mut i: usize = 0;
        while i < pairs.len()
            invariant
                i <= pairs.len(),
                all == pairs_view(pairs@),
                forall|n: Seq<char>| #[trigger] r.version(n) == version_in(all.take(i as int), n),
                r@.len() == name_count(all.take(i as int)),
            decreases pairs.len() - i,
        {
            proof {
                let next = all.take(i + 1);
                assert(next.drop_last() == all.take(i as int));
                assert(next.last() == (pairs@[i as int].0@, pairs@[i as int].1@));
            }
            let ghost earlier = r;
            r.insert(pairs[i].0.clone(), pairs[i].1.clone());
            proof {
                assert forall|n: Seq<char>| #[trigger] r.version(n) == version_in(
                    all.take(i + 1),
                    n,
                ) by {
                    assert(earlier.version(n) == version_in(all.take(i as int), n));
                }
            }
            i += 1;
        }
        assert(all.take(i as int) == all);
        r
    }
}

/// Replacing the part `at..from`, which holds at most the name itself, by the
/// name keeps the order and changes no other version.
proof fn lemma_spliced(
    before: Seq<(Seq<char>, Seq<char>)>,
    at: int,
    from: int,
    name: Seq<char>,
    version: Seq<char>,
)
    requires
        names_ascend(before),
        0 <= at <= from <= before.len(),
        from == at || (from == at + 1 && before[at].0 == name),
        forall|j: int| 0 <= j < at ==> text_lt((#[trigger] before[j]).0, name),
        forall|j: int| from <= j < before.len() ==> text_lt(name, (#[trigger] before[j]).0),
    ensures
        ({
            let after = before.take(at).push((name, version)) + before.skip(from);
            &&& names_ascend(after)
            &&& forall|n: Seq<char>| #[trigger]
                version_in(after, n) == (if n == name {
                    Some(version)
                } else {
                    version_in(before, n)
                })
        }),
{
    let after = before.take(at).push((name, version)) + before.skip(from);
    assert forall|i: int, j: int| 0 <= i < j < after.len() implies text_lt(
        (#[trigger] after[i]).0,
        (#[trigger] after[j]).0,
    ) by {
        let x = if i < at {
            before[i].0
        } else {
            name
        };
        if i < at && j < at {
            assert(text_lt(before[i].0, before[j].0));
        } else if i < at && j > at {
            assert(text_lt(before[i].0, before[j - at - 1 + from].0));
        } else if i > at {
            assert(text_lt(before[i - at - 1 + from].0, before[j - at - 1 + from].0));
        }
    }
    assert forall|n: Seq<char>| #[trigger] version_in(after, n) == (if n == name {
        Some(version)
    } else {
        version_in(before, n)
    }) by {
        lemma_version_in(after, n);
        lemma_version_in(before, n);
        assert(after[at] == (name, version));
        if n != name {
            if version_in(before, n) is Some {
                let i = choose|i: int| 0 <= i < before.len() && (#[trigger] before[i]).0 == n;
                if i < at {
                    assert(after[i] == before[i]);
                } else {
                    assert(i >= from);
                    assert(after[i - from + at + 1] == before[i]);
                }
            } else if version_in(after, n) is Some {
                let i = choose|i: int| 0 <= i < after.len() && (#[trigger] after[i]).0 == n;
                if i < at {
                    assert(before[i] == after[i]);
                } else if i > at {
                    assert(before[i - at - 1 + from] == after[i]);
                }
            }
        }
    }
}

/// What changes between two packs, by the names of the rules.
#[derive(Debug)]
pub struct RulePackDiff {
    /// The rules that only the candidate has.
    pub new: Vec<String>,
    /// The rules that both have, in different versions.
    pub modified: Vec<String>,
    /// The rules that the candidate lacks.
    pub removed: Vec<String>,
}

impl RulePackDiff {
    /// Whether nothing changes.
    pub fn is_empty(&self) -> (r: bool)
        ensures
            r == (self.new@.len() == 0 && self.modified@.len() == 0 && self.removed@.len() == 0),
    {
        self.new.len() == 0 && self.modified.len() == 0 && self.removed.len() == 0
    }
}

/// Whether `list` holds the names for which `wanted` is true, in the order of
/// strings, each once.
pub open spec fn lists(list: Seq<Seq<char>>, wanted: spec_fn(Seq<char>) -> bool) -> bool {
    &&& forall|i: int, j: int|
        0 <= i < j < list.len() ==> text_lt(#[trigger] list[i], #[trigger] list[j])
    &&& forall|i: int| 0 <= i < list.len() ==> wanted(#[trigger] list[i])
    &&& forall|n: Seq<char>| wanted(n) ==> #[trigger] list.contains(n)
}

/// Whether only the candidate has the rule `n`.
pub open spec fn is_new(active: RuleVersions, candidate: RuleVersions, n: Seq<char>) -> bool {
    active.version(n) is None && candidate.version(n) is Some
}

/// Whether both have the rule `n`, in different versions.
pub open spec fn is_modified(active: RuleVersions, candidate: RuleVersions, n: Seq<char>) -> bool {
    &&& active.version(n) is Some
    &&& candidate.version(n) is Some
    &&& active.version(n) != candidate.version(n)
}

/// Whether only the active pack has the rule `n`.
pub open spec fn is_removed(active: RuleVersions, candidate: RuleVersions, n: Seq<char>) -> bool {
    active.version(n) is Some && candidate.version(n) is None
}

/// The names of `all` before position `k` for which `wanted` is true, in order.
spec fn kept(
    list: Seq<Seq<char>>,
    all: Seq<(Seq<char>, Seq<char>)>,
    k: int,
    wanted: spec_fn(Seq<char>) -> bool,
) -> bool {
    &&& forall|i: int, j: int|
        0 <= i < j < list.len() ==> text_lt(#[trigger] list[i], #[trigger] list[j])
    &&& forall|i: int| 0 <= i < list.len() ==> wanted(#[trigger] list[i])
    &&& forall|i: int, j: int|
        0 <= i < list.len() && k <= j < all.len() ==> text_lt(#[trigger] list[i], (#[trigger] all[j]).0)
    &&& forall|j: int| 0 <= j < k && wanted((#[trigger] all[j]).0) ==> list.contains(all[j].0)
}

proof fn lemma_kept_step(
    list: Seq<Seq<char>>,
    all: Seq<(Seq<char>, Seq<char>)>,
    k: int,
    wanted: spec_fn(Seq<char>) -> bool,
)
    requires
        names_ascend(all),
        0 <= k < all.len(),
        kept(list, all, k, wanted),
    ensures
        wanted(all[k].0) ==> kept(list.push(all[k].0), all, k + 1, wanted),
        !wanted(all[k].0) ==> kept(list, all, k + 1, wanted),
{
    let n = all[k].0;
    let longer = list.push(n);
    if wanted(n) {
        assert forall|i: int, j: int| 0 <= i < j < longer.len() implies text_lt(
            #[trigger] longer[i],
            #[trigger] longer[j],
        ) by {
            if j == list.len() {
                assert(longer[i] == list[i]);
                assert(all[k].0 == n);
            }
        }
        assert forall|i: int, j: int| 0 <= i < longer.len() && k + 1 <= j < all.len() implies text_lt(
            #[trigger] longer[i],
            (#[trigger] all[j]).0,
        ) by {
            if i == list.len() {
                assert(text_lt(all[k].0, all[j].0));
            } else {
                assert(longer[i] == list[i]);
            }
        }
        assert forall|j: int| 0 <= j < k + 1 && wanted((#[trigger] all[j]).0) implies longer.contains(
            all[j].0,
        ) by {
            if j < k {
                let i = choose|i: int| 0 <= i < list.len() && list[i] == all[j].0;
                assert(longer[i] == all[j].0);
            } else {
                assert(longer[list.len() as int] == n);
            }
        }
    }
}

proof fn lemma_kept_all(
    list: Seq<Seq<char>>,
    versions: RuleVersions,
    wanted: spec_fn(Seq<char>) -> bool,
)
    requires
        names_ascend(versions@),
        kept(list, versions@, versions@.len() as int, wanted),
        forall|n: Seq<char>| wanted(n) ==> #[trigger] versions.version(n) is Some,
    ensures
        lists(list, wanted),
{
    assert forall|n: Seq<char>| wanted(n) implies #[trigger] list.contains(n) by {
        assert(versions.version(n) is Some);
        lemma_version_in(versions@, n);
        let i = choose|i: int| 0 <= i < versions@.len() && (#[trigger] versions@[i]).0 == n;
        assert(wanted(versions@[i].0));
    }
}

/// What `candidate` changes relative to `active`. Each of the three lists is in
/// the order of strings.
pub fn diff(active: &RuleVersions, candidate: &RuleVersions) -> (r: RulePackDiff)
    ensures
        is_diff(*active, *candidate, r),
{
    let ghost wants_new = |n: Seq<char>| is_new(*active, *candidate, n);
    let ghost wants_modified = |n: Seq<char>| is_modified(*active, *candidate, n);
    let ghost wants_removed = |n: Seq<char>| is_removed(*active, *candidate, n);
    proof {
        use_type_invariant(active);
        use_type_invariant(candidate);
    }
    let mut new: Vec<String> = Vec::new();
    let mut modified: Vec<String> = Vec::new();
    let mut removed: Vec<String> = Vec::new();
    let mut i: usize = 0;
    while i < candidate.entries.len()
        invariant
            i <= candidate.entries.len(),
            names_ascend(candidate@),
            candidate@ == pairs_view(candidate.entries@),
            wants_new == (|n: Seq<char>| is_new(*active, *candidate, n)),
            wants_modified == (|n: Seq<char>| is_modified(*active, *candidate, n)),
            kept(texts(new@), candidate@, i as int, wants_new),
            kept(texts(modified@), candidate@, i as int, wants_modified),
        decreases candidate.entries.len() - i,
    {
        let (name, version) = (&candidate.entries[i].0, &candidate.entries[i].1);
        let ghost new_before = new@;
        let ghost modified_before = modified@;
        proof {
            assert(candidate@[i as int] == (name@, version@));
            lemma_version_in(candidate@, name@);
            lemma_kept_step(texts(new@), candidate@, i as int, wants_new);
            lemma_kept_step(texts(modified@), candidate@, i as int, wants_modified);
        }
        match active.get(name.as_str()) {
            None => {
                new.push(name.clone());
                assert(texts(new@) =~= texts(new_before).push(name@));
            },
            Some(current) => {
                if !same(current.as_str(), version.as_str()) {
                    modified.push(name.clone());
                    assert(texts(modified@) =~= texts(modified_before).push(name@));
                }
            },
        }
        i += 1;
    }
    let mut k: usize = 0;
    while k < active.entries.len()
        invariant
            k <= active.entries.len(),
            names_ascend(active@),
            active@ == pairs_view(active.entries@),
            wants_removed == (|n: Seq<char>| is_removed(*active, *candidate, n)),
            kept(texts(removed@), active@, k as int, wants_removed),
        decreases active.entries.len() - k,
    {
        let name = &active.entries[k].0;
        let ghost removed_before = removed@;
        proof {
            assert(active@[k as int] == (name@, active.entries@[k as int].1@));
            lemma_version_in(active@, name@);
            lemma_kept_step(texts(removed@), active@, k as int, wants_removed);
        }
        if candidate.get(name.as_str()).is_none() {
            removed.push(name.clone());
            assert(texts(removed@) =~= texts(removed_before).push(name@));
        }
        k += 1;
    }
    proof {
        lemma_kept_all(texts(new@), *candidate, wants_new);
        lemma_kept_all(texts(modified@), *candidate, wants_modified);
        lemma_kept_all(texts(removed@), *active, wants_removed);
    }
    RulePackDiff { new, modified, removed }
}

/// Whether a diff says what a candidate changes.
pub open spec fn is_diff(active: RuleVersions, candidate: RuleVersions, d: RulePackDiff) -> bool {
    &&& lists(texts(d.new@), |n: Seq<char>| is_new(active, candidate, n))
    &&& lists(texts(d.modified@), |n: Seq<char>| is_modified(active, candidate, n))
    &&& lists(texts(d.removed@), |n: Seq<char>| is_removed(active, candidate, n))
}

/// A pack changes nothing relative to itself.
pub proof fn lemma_same_pack_no_diff(pack: RuleVersions, d: RulePackDiff)
    requires
        is_diff(pack, pack, d),
    ensures
        d.new@.len() == 0 && d.modified@.len() == 0 && d.removed@.len() == 0,
{
    let (new, modified, removed) = (texts(d.new@), texts(d.modified@), texts(d.removed@));
    if new.len() > 0 {
        assert(is_new(pack, pack, new[0]));
    }
    if modified.len() > 0 {
        assert(is_modified(pack, pack, modified[0]));
    }
    if removed.len() > 0 {
        assert(is_removed(pack, pack, removed[0]));
    }
}

/// No rule is in two of the three lists.
pub proof fn lemma_diff_lists_differ(
    active: RuleVersions,
    candidate: RuleVersions,
    d: RulePackDiff,
    name: Seq<char>,
)
    requires
        is_diff(active, candidate, d),
    ensures
        !(texts(d.new@).contains(name) && texts(d.modified@).contains(name)),
        !(texts(d.new@).contains(name) && texts(d.removed@).contains(name)),
        !(texts(d.modified@).contains(name) && texts(d.removed@).contains(name)),
{
    let (new, modified, removed) = (texts(d.new@), texts(d.modified@), texts(d.removed@));
    if new.contains(name) {
        let i = choose|i: int| 0 <= i < new.len() && new[i] == name;
        assert(is_new(active, candidate, new[i]));
    }
    if modified.contains(name) {
        let i = choose|i: int| 0 <= i < modified.len() && modified[i] == name;
        assert(is_modified(active, candidate, modified[i]));
    }
    if removed.contains(name) {
        let i = choose|i: int| 0 <= i < removed.len() && removed[i] == name;
        assert(is_removed(active, candidate, removed[i]));
    }
}

/// There is only one list of the names for which something is true.
proof fn lemma_lists_unique(
    a: Seq<Seq<char>>,
    b: Seq<Seq<char>>,
    wanted: spec_fn(Seq<char>) -> bool,
)
    requires
        lists(a, wanted),
        lists(b, wanted),
    ensures
        a == b,
    decreases a.len(),
{
    if a.len() == 0 {
        if b.len() > 0 {
            assert(wanted(b[0]));
            assert(a.contains(b[0]));
        }
        assert(a =~= b);
    } else {
        assert(wanted(a[0]));
        assert(b.contains(a[0]));
        let j = choose|j: int| 0 <= j < b.len() && b[j] == a[0];
        assert(wanted(b[0]));
        assert(a.contains(b[0]));
        let i = choose|i: int| 0 <= i < a.len() && a[i] == b[0];
        lemma_text_order(a[0], b[0], a[0]);
        if i > 0 {
            assert(text_lt(a[0], a[i]));
        }
        if j > 0 {
            assert(text_lt(b[0], b[j]));
        }
        assert(a[0] == b[0]);
        let rest = |n: Seq<char>| wanted(n) && n != a[0];
        lemma_lists_rest(a, wanted);
        lemma_lists_rest(b, wanted);
        assert(rest == (|n: Seq<char>| wanted(n) && n != b[0]));
        lemma_lists_unique(a.drop_first(), b.drop_first(), rest);
        assert(a =~= seq![a[0]] + a.drop_first());
        assert(b =~= seq![b[0]] + b.drop_first());
    }
}

proof fn lemma_lists_rest(a: Seq<Seq<char>>, wanted: spec_fn(Seq<char>) -> bool)
    requires
        lists(a, wanted),
        a.len() > 0,
    ensures
        lists(a.drop_first(), |n: Seq<char>| wanted(n) && n != a[0]),
{
    let rest = a.drop_first();
    let left = |n: Seq<char>| wanted(n) && n != a[0];
    assert forall|i: int, j: int| 0 <= i < j < rest.len() implies text_lt(
        #[trigger] rest[i],
        #[trigger] rest[j],
    ) by {
        assert(rest[i] == a[i + 1] && rest[j] == a[j + 1]);
    }
    assert forall|i: int| 0 <= i < rest.len() implies left(#[trigger] rest[i]) by {
        assert(rest[i] == a[i + 1]);
        assert(text_lt(a[0], a[i + 1]));
        lemma_text_order(a[0], a[0], a[0]);
    }
    assert forall|n: Seq<char>| left(n) implies #[trigger] rest.contains(n) by {
        assert(a.contains(n));
        let i = choose|i: int| 0 <= i < a.len() && a[i] == n;
        assert(rest[i - 1] == n);
    }
}

/// What is new in one direction is removed in the other, and what is modified is
/// modified in both.
pub proof fn lemma_diff_reversed(
    a: RuleVersions,
    b: RuleVersions,
    forth: RulePackDiff,
    back: RulePackDiff,
)
    requires
        is_diff(a, b, forth),
        is_diff(b, a, back),
    ensures
        texts(forth.new@) == texts(back.removed@),
        texts(forth.removed@) == texts(back.new@),
        texts(forth.modified@) == texts(back.modified@),
{
    assert((|n: Seq<char>| is_new(a, b, n)) =~= (|n: Seq<char>| is_removed(b, a, n)));
    assert((|n: Seq<char>| is_removed(a, b, n)) =~= (|n: Seq<char>| is_new(b, a, n)));
    assert((|n: Seq<char>| is_modified(a, b, n)) =~= (|n: Seq<char>| is_modified(b, a, n)));
    lemma_lists_unique(texts(forth.new@), texts(back.removed@), |n: Seq<char>| is_new(a, b, n));
    lemma_lists_unique(texts(forth.removed@), texts(back.new@), |n: Seq<char>| is_removed(a, b, n));
    lemma_lists_unique(
        texts(forth.modified@),
        texts(back.modified@),
        |n: Seq<char>| is_modified(a, b, n),
    );
}

} // verus!
