//! A cache that holds a limited number of entries.

use vstd::prelude::*;

use crate::text::same;

verus! {

/// A cache with a limit on the number of its entries. What it loses can be read
/// again, so which entry goes when it is full does not matter.
pub struct BoundedCache<V> {
    entries: Vec<(String, V)>,
    capacity: usize,
}

/// Whether no two entries have the same key.
pub open spec fn keys_differ<V>(s: Seq<(String, V)>) -> bool {
    forall|i: int, j: int|
        0 <= i < s.len() && 0 <= j < s.len() && i != j ==> (#[trigger] s[i]).0@ != (
        #[trigger] s[j]).0@
}

/// The values of entries by their keys.
pub open spec fn map_of<V>(s: Seq<(String, V)>) -> Map<Seq<char>, V>
    decreases s.len(),
{
    if s.len() == 0 {
        Map::empty()
    } else {
        map_of(s.drop_last()).insert(s.last().0@, s.last().1)
    }
}

proof fn lemma_map_of<V>(s: Seq<(String, V)>)
    requires
        keys_differ(s),
    ensures
        map_of(s).dom().finite(),
        map_of(s).dom().len() == s.len(),
        forall|i: int|
            0 <= i < s.len() ==> map_of(s).contains_key((#[trigger] s[i]).0@) && map_of(
                s,
            )[s[i].0@] == s[i].1,
        forall|k: Seq<char>|
            map_of(s).contains_key(k) ==> exists|i: int|
                0 <= i < s.len() && (#[trigger] s[i]).0@ == k,
    decreases s.len(),
{
    if s.len() > 0 {
        let before = s.drop_last();
        assert forall|i: int, j: int|
            0 <= i < before.len() && 0 <= j < before.len() && i != j implies (
        #[trigger] before[i]).0@ != (#[trigger] before[j]).0@ by {
            assert(before[i] == s[i] && before[j] == s[j]);
        }
        lemma_map_of(before);
        let last = s.last();
        assert(last == s[s.len() - 1]);
        assert(!map_of(before).contains_key(last.0@)) by {
            if map_of(before).contains_key(last.0@) {
                let i = choose|i: int| 0 <= i < before.len() && (#[trigger] before[i]).0@ == last.0@;
                assert(before[i] == s[i]);
            }
        }
        assert forall|i: int| 0 <= i < s.len() implies map_of(s).contains_key((#[trigger] s[i]).0@)
            && map_of(s)[s[i].0@] == s[i].1 by {
            if i < before.len() {
                assert(before[i] == s[i]);
            }
        }
        assert forall|k: Seq<char>| map_of(s).contains_key(k) implies exists|i: int|
            0 <= i < s.len() && (#[trigger] s[i]).0@ == k by {
            if k != last.0@ {
                assert(map_of(before).contains_key(k));
                let i = choose|i: int| 0 <= i < before.len() && (#[trigger] before[i]).0@ == k;
                assert(before[i] == s[i]);
            }
        }
    }
}

proof fn lemma_map_remove<V>(s: Seq<(String, V)>, at: int)
    requires
        keys_differ(s),
        0 <= at < s.len(),
    ensures
        keys_differ(s.remove(at)),
        map_of(s.remove(at)) == map_of(s).remove(s[at].0@),
{
    let t = s.remove(at);
    assert forall|i: int| 0 <= i < t.len() implies #[trigger] t[i] == s[if i < at {
        i
    } else {
        i + 1
    }] by {}
    lemma_map_of(s);
    assert(keys_differ(t));
    lemma_map_of(t);
    let want = map_of(s).remove(s[at].0@);
    assert forall|k: Seq<char>| #[trigger] map_of(t).dom().contains(k) implies want.dom().contains(
        k,
    ) && map_of(t)[k] == want[k] by {
        assert(map_of(t).contains_key(k));
        let i = choose|i: int| 0 <= i < t.len() && (#[trigger] t[i]).0@ == k;
        let j = if i < at {
            i
        } else {
            i + 1
        };
        assert(t[i] == s[j]);
    }
    assert forall|k: Seq<char>| #[trigger] want.dom().contains(k) implies map_of(t).dom().contains(
        k,
    ) by {
        assert(map_of(s).contains_key(k));
        let j = choose|j: int| 0 <= j < s.len() && (#[trigger] s[j]).0@ == k;
        assert(j != at);
        let i = if j < at {
            j
        } else {
            j - 1
        };
        assert(t[i] == s[j]);
        assert(map_of(t).contains_key(t[i].0@));
    }
    assert(map_of(t).dom() =~= want.dom());
    assert(map_of(t) =~= want);
}

impl<V> BoundedCache<V> {
    /// The values that the cache holds, by their keys.
    pub closed spec fn entries(self) -> Map<Seq<char>, V> {
        map_of(self.entries@)
    }

    /// The number of entries from which on a new one takes the place of another.
    pub closed spec fn limit(self) -> nat {
        self.capacity as nat
    }

    #[verifier::type_invariant]
    spec fn well_formed(self) -> bool {
        &&& keys_differ(self.entries@)
        &&& self.entries@.len() <= self.capacity || self.entries@.len() <= 1
    }

    /// A cache without entries.
    pub fn new(capacity: usize) -> (r: Self)
        ensures
            r.entries() == Map::<Seq<char>, V>::empty(),
            r.limit() == capacity,
    {
        BoundedCache { entries: Vec::new(), capacity }
    }

    fn find(&self, key: &str) -> (i: usize)
        ensures
            i <= self.entries.len(),
            i < self.entries.len() ==> self.entries@[i as int].0@ == key@,
            forall|j: int| 0 <= j < i ==> (#[trigger] self.entries@[j]).0@ != key@,
    {
        let mut i: usize = 0;
        while i < self.entries.len()
            invariant
                i <= self.entries.len(),
                forall|j: int| 0 <= j < i ==> (#[trigger] self.entries@[j]).0@ != key@,
            decreases self.entries.len() - i,
        {
            if same(self.entries[i].0.as_str(), key) {
                return i;
            }
            i += 1;
        }
        i
    }

    /// The value of a key.
    pub fn get(&self, key: &str) -> (r: Option<&V>)
        ensures
            match r {
                Some(v) => self.entries().contains_key(key@) && *v == self.entries()[key@],
                None => !self.entries().contains_key(key@),
            },
    {
        proof {
            use_type_invariant(self);
            lemma_map_of(self.entries@);
        }
        let i: usize = self.find(key);
        if i < self.entries.len() {
            Some(&self.entries[i].1)
        } else {
            None
        }
    }

    /// Stores a value and gives back the one that the key had. A new key takes the
    /// place of some other entry where the cache is full. The number of entries
    /// never exceeds the limit, but that there is always room for one.
    pub fn insert(&mut self, key: String, value: V) -> (r: Option<V>)
        ensures
            final(self).limit() == old(self).limit(),
            final(self).entries().contains_key(key@),
            final(self).entries()[key@] == value,
            final(self).entries().dom().finite(),
            ({
                let n = final(self).entries().dom().len();
                n <= old(self).limit() || n == 1
            }),
            match r {
                Some(v) => old(self).entries().contains_key(key@) && v == old(self).entries()[key@],
                None => !old(self).entries().contains_key(key@),
            },
            ({
                let was = old(self).entries();
                let now = final(self).entries();
                let room = was.dom().len() < old(self).limit() || was.dom().len() == 0;
                if was.contains_key(key@) || room {
                    now == was.insert(key@, value)
                } else {
                    exists|k: Seq<char>|
                        was.contains_key(k) && now == #[trigger] was.remove(k).insert(key@, value)
                }
            }),
    {
        proof {
            use_type_invariant(&*self);
            lemma_map_of(self.entries@);
        }
        let capacity: usize = self.capacity;
        let i: usize = self.find(key.as_str());
        let mut entries: Vec<(String, V)> = Vec::new();
        std::mem::swap(&mut entries, &mut self.entries);
        let ghost before = entries@;
        let mut previous: Option<V> = None;
        if i < entries.len() {
            proof {
                lemma_map_remove(before, i as int);
            }
            let (_, v) = entries.remove(i);
            previous = Some(v);
        } else if entries.len() >= capacity && entries.len() > 0 {
            proof {
                lemma_map_remove(before, 0);
                assert(old(self).entries().contains_key(before[0].0@));
                assert(!old(self).entries().contains_key(key@));
            }
            let _ = entries.remove(0);
        }
        let ghost rest = entries@;
        entries.push((key, value));
        proof {
            lemma_map_of(rest);
            assert(!map_of(rest).contains_key(key@));
            assert forall|j: int| 0 <= j < rest.len() implies (#[trigger] rest[j]).0@ != key@ by {
                assert(map_of(rest).contains_key(rest[j].0@));
            }
            assert(keys_differ(entries@));
            assert(entries@.drop_last() =~= rest);
            lemma_map_of(entries@);
            if i < before.len() {
                assert(map_of(entries@) =~= map_of(before).insert(key@, value));
            }
        }
        self.entries = entries;
        previous
    }
}

} // verus!
