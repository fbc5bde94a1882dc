//! How values are found in trees and in bytes.

use vstd::prelude::*;

use crate::bytes::{i32_at, u32_at, u64_at};
use crate::json::{
    array_index, doubles_in, has_key, int_view, item_doubles, key_index, lemma_key_index,
    member_doubles, JsonView,
};
use crate::model::{part_texts, PathPartView};
use crate::parsers::aul::raw_extraction_provider::{char_width, text_width, two_byte_chars};
use crate::selection::{is_selection, lemma_selection_grows};
use crate::text::{dec, numeral};
use crate::text_laws::lemma_digits_of_number;
use crate::time::{in_calendar, instant_of};
use crate::toml_doc::{entry, TomlView};

verus! {

/// The member of a name is the first one of an object that has it; what is no object has none.
pub proof fn lemma_member_of_object(v: JsonView, key: Seq<char>)
    ensures
        match v {
            JsonView::Object(members) => match v.get(key) {
                Some(value) => exists|i: int|
                    0 <= i < members.len() && #[trigger] members[i] == (key, value) && forall|j: int|
                        0 <= j < i ==> (#[trigger] members[j]).0 != key,
                None => forall|i: int| 0 <= i < members.len() ==> (#[trigger] members[i]).0 != key,
            },
            _ => v.get(key) is None,
        },
{
    if let JsonView::Object(members) = v {
        lemma_key_index(members, key);
        let i = key_index(members, key);
        if has_key(members, key) {
            assert(members[i] == (key, members[i].1));
        }
    }
}

/// The entry of a name is the first one of a table that has it.
pub proof fn lemma_entry_of_table(entries: Seq<(Seq<char>, TomlView)>, key: Seq<char>)
    ensures
        match entry(entries, key) {
            Some(value) => exists|i: int|
                0 <= i < entries.len() && #[trigger] entries[i] == (key, value) && forall|j: int|
                    0 <= j < i ==> (#[trigger] entries[j]).0 != key,
            None => forall|i: int| 0 <= i < entries.len() ==> (#[trigger] entries[i]).0 != key,
        },
    decreases entries.len(),
{
    if entries.len() > 0 {
        if entries[0].0 == key {
            assert(entries[0] == (key, entries[0].1));
        } else {
            let rest = entries.drop_first();
            lemma_entry_of_table(rest, key);
            match entry(rest, key) {
                Some(value) => {
                    let i = choose|i: int|
                        0 <= i < rest.len() && #[trigger] rest[i] == (key, value) && forall|j: int|
                            0 <= j < i ==> (#[trigger] rest[j]).0 != key;
                    assert(entries[i + 1] == (key, value));
                    assert forall|j: int| 0 <= j < i + 1 implies (#[trigger] entries[j]).0 != key by {
                        if j > 0 {
                            assert(rest[j - 1] == entries[j]);
                        }
                    }
                },
                None => {
                    assert forall|i: int| 0 <= i < entries.len() implies (
                    #[trigger] entries[i]).0 != key by {
                        if i > 0 {
                            assert(rest[i - 1] == entries[i]);
                        }
                    }
                },
            }
        }
    }
}

/// A way of one step more leads one step below where the way led.
pub proof fn lemma_step_more(v: JsonView, path: Seq<Seq<char>>, token: Seq<char>)
    ensures
        v.at(Seq::empty()) == Some(v),
        v.at(path.push(token)) == match v.at(path) {
            Some(inner) => inner.step(token),
            None => None,
        },
    decreases path.len(),
{
    let all = path.push(token);
    if path.len() == 0 {
        assert(all[0] == token);
        assert(all.drop_first() =~= Seq::<Seq<char>>::empty());
        if let Some(inner) = v.step(token) {
            assert(inner.at(Seq::empty()) == Some(inner));
        }
    } else {
        assert(all[0] == path[0]);
        assert(all.drop_first() =~= path.drop_first().push(token));
        if let Some(inner) = v.step(path[0]) {
            lemma_step_more(inner, path.drop_first(), token);
        }
    }
}

/// A step leads to the member of its name in an object, and to the item at its number in an
/// array.
pub proof fn lemma_one_step(items: Seq<JsonView>, members: Seq<(Seq<char>, JsonView)>, i: nat, key: Seq<char>)
    requires
        i <= usize::MAX,
    ensures
        JsonView::Object(members).step(key) == JsonView::Object(members).get(key),
        i < items.len() ==> JsonView::Array(items).step(dec(i)) == Some(items[i as int]),
        i >= items.len() ==> JsonView::Array(items).step(dec(i)) is None,
        numeral(key) is None ==> JsonView::Array(items).step(key) is None,
{
    lemma_digits_of_number(i);
}

/// A whole number of 64 bits is one value, with its sign.
pub proof fn lemma_whole_numbers(n: int)
    requires
        i64::MIN <= n <= u64::MAX,
    ensures
        int_view(n).as_i64() == if n <= i64::MAX {
            Some(n as i64)
        } else {
            None
        },
        int_view(n).as_u64() == if n >= 0 {
            Some(n as u64)
        } else {
            None
        },
{
}

proof fn lemma_doubles_of_items(items: Seq<JsonView>, i: int, bits: u64)
    requires
        0 <= i < items.len(),
        doubles_in(items[i]).contains(bits),
    ensures
        item_doubles(items).contains(bits),
    decreases items.len(),
{
    let front = items.drop_last();
    let last = doubles_in(items[items.len() - 1]);
    let all = item_doubles(items);
    if i < items.len() - 1 {
        assert(front[i] == items[i]);
        lemma_doubles_of_items(front, i, bits);
        let k = choose|k: int| 0 <= k < item_doubles(front).len() && item_doubles(front)[k] == bits;
        assert(all[k] == bits);
    } else {
        let k = choose|k: int| 0 <= k < last.len() && last[k] == bits;
        assert(all[item_doubles(front).len() + k] == bits);
    }
}

proof fn lemma_doubles_of_members(members: Seq<(Seq<char>, JsonView)>, i: int, bits: u64)
    requires
        0 <= i < members.len(),
        doubles_in(members[i].1).contains(bits),
    ensures
        member_doubles(members).contains(bits),
    decreases members.len(),
{
    let front = members.drop_last();
    let last = doubles_in(members[members.len() - 1].1);
    let all = member_doubles(members);
    if i < members.len() - 1 {
        assert(front[i] == members[i]);
        lemma_doubles_of_members(front, i, bits);
        let before = member_doubles(front);
        let k = choose|k: int| 0 <= k < before.len() && before[k] == bits;
        assert(all[k] == bits);
    } else {
        let k = choose|k: int| 0 <= k < last.len() && last[k] == bits;
        assert(all[member_doubles(front).len() + k] == bits);
    }
}

/// Every double that some way through a value leads to is listed among the doubles in it.
pub proof fn lemma_every_double_is_listed(v: JsonView, path: Seq<Seq<char>>, bits: u64)
    requires
        v.at(path) matches Some(JsonView::Float { bits: found, .. }) && found == bits,
    ensures
        doubles_in(v).contains(bits),
    decreases path.len(),
{
    if path.len() == 0 {
        assert(doubles_in(v)[0] == bits);
    } else {
        let inner = v.step(path[0])->0;
        lemma_every_double_is_listed(inner, path.drop_first(), bits);
        match v {
            JsonView::Object(members) => {
                lemma_key_index(members, path[0]);
                lemma_doubles_of_members(members, key_index(members, path[0]), bits);
            },
            JsonView::Array(items) => {
                let i = array_index(path[0])->0;
                lemma_doubles_of_items(items, i as int, bits);
            },
            _ => {},
        }
    }
}

/// The bytes of a number stand in the order of their weights, the lowest first.
pub proof fn lemma_bytes_of_numbers(b: Seq<u8>, at: int)
    requires
        0 <= at,
        at + 8 <= b.len(),
    ensures
        u32_at(b, at) % 0x100 == b[at],
        (u32_at(b, at) / 0x100) % 0x100 == b[at + 1],
        (u32_at(b, at) / 0x1_0000) % 0x100 == b[at + 2],
        u32_at(b, at) / 0x100_0000 == b[at + 3],
        u64_at(b, at) % 0x1_0000_0000 == u32_at(b, at),
        u64_at(b, at) / 0x1_0000_0000 == u32_at(b, at + 4),
        (i32_at(b, at) - u32_at(b, at)) % 0x1_0000_0000 == 0,
        i32_at(b, at) < 0 <==> b[at + 3] >= 128,
        -0x8000_0000 <= i32_at(b, at) < 0x8000_0000,
{
}

/// An instant counts whole seconds and the rest in nanoseconds, also before 1970.
pub proof fn lemma_units_of_time(n: int)
    ensures
        instant_of(n, 1_000) matches Some(t) ==> t.nanos < 1_000_000_000 && t.seconds
            * 1_000_000_000 + t.nanos == n * 1_000_000,
        instant_of(n, 1_000_000) matches Some(t) ==> t.nanos < 1_000_000_000 && t.seconds
            * 1_000_000_000 + t.nanos == n * 1_000,
        instant_of(n, 1_000_000_000) matches Some(t) ==> t.nanos < 1_000_000_000 && t.seconds
            * 1_000_000_000 + t.nanos == n,
        instant_of(n, 1_000) is Some <==> in_calendar(n / 1_000),
        instant_of(n, 1_000_000) is Some <==> in_calendar(n / 1_000_000),
        instant_of(n, 1_000_000_000) is Some <==> in_calendar(n / 1_000_000_000),
{
    if let Some(t) = instant_of(n, 1_000) {
        let r = n % 1_000;
        assert(t.nanos == r * 1_000_000);
        assert(n == (n / 1_000) * 1_000 + r);
        assert(t.seconds == n / 1_000);
    }
    if let Some(t) = instant_of(n, 1_000_000) {
        let r = n % 1_000_000;
        assert(t.nanos == r * 1_000);
        assert(n == (n / 1_000_000) * 1_000_000 + r);
        assert(t.seconds == n / 1_000_000);
    }
    if let Some(t) = instant_of(n, 1_000_000_000) {
        let r = n % 1_000_000_000;
        assert(r * (1_000_000_000int / 1_000_000_000) == r) by (nonlinear_arith);
        assert(t.nanos == r);
        assert(n == (n / 1_000_000_000) * 1_000_000_000 + r);
        assert(t.seconds == n / 1_000_000_000);
    }
}

/// The first step of the path to the texts of a program has two bytes of its identifier.
pub proof fn lemma_two_bytes(s: Seq<char>)
    ensures
        two_byte_chars(s) matches Some(n) ==> 0 < n <= s.len() && text_width(s.take(n)) == 2,
{
    reveal_with_fuel(text_width, 3);
    if s.len() >= 1 && char_width(s[0]) == 2 {
        let one = s.take(1);
        assert(one.last() == s[0]);
        assert(one.drop_last() =~= Seq::<char>::empty());
    } else if s.len() >= 2 && char_width(s[0]) == 1 && char_width(s[1]) == 1 {
        let two = s.take(2);
        let one = two.drop_last();
        assert(two.last() == s[1]);
        assert(one.last() == s[0]);
        assert(one.drop_last() =~= Seq::<char>::empty());
    }
}

/// The names on a path are those of its components that have a text, in order.
pub proof fn lemma_names_on_path(parts: Seq<PathPartView>) -> (from: Seq<int>)
    ensures
        is_selection(parts, |p: PathPartView| p.text is Some, from),
        from.len() == part_texts(parts).len(),
        forall|k: int|
            0 <= k < from.len() ==> parts[#[trigger] from[k]].text == Some(part_texts(parts)[k]),
    decreases parts.len(),
{
    if parts.len() == 0 {
        Seq::empty()
    } else {
        let front = parts.drop_last();
        let before = lemma_names_on_path(front);
        let from = lemma_selection_grows(parts, |p: PathPartView| p.text is Some, before);
        assert forall|k: int| 0 <= k < from.len() implies parts[#[trigger] from[k]].text == Some(
            part_texts(parts)[k],
        ) by {
            if k < before.len() {
                assert(from[k] == before[k]);
                assert(front[before[k]] == parts[before[k]]);
                assert(part_texts(parts)[k] == part_texts(front)[k]);
            }
        }
        from
    }
}

} // verus!
