//! JSON values: the tree that records carry in their fields, how it is read
//! from text and how it is written as text.

use vstd::prelude::*;

use crate::text::{
    chars_of, dec, dec_i64, dec_int, dec_u64, hex_digit, numeral, parse_digits, same,
};

verus! {

/// A JSON value. The members of an object keep the order in which they were
/// inserted, and a number with a fraction or an exponent carries both the bits
/// of its double and its text.
#[derive(Debug, PartialEq)]
pub enum Json {
    Null,
    Bool(bool),
    Unsigned(u64),
    Negative(i64),
    Float { bits: u64, text: String },
    Text(String),
    Array(Vec<Json>),
    Object(Vec<(String, Json)>),
}

/// The view of a [`Json`].
pub enum JsonView {
    Null,
    Bool(bool),
    Unsigned(u64),
    Negative(i64),
    Float { bits: u64, text: Seq<char> },
    Text(Seq<char>),
    Array(Seq<JsonView>),
    Object(Seq<(Seq<char>, JsonView)>),
}

impl View for Json {
    type V = JsonView;

    open spec fn view(&self) -> JsonView {
        json_view(*self)
    }
}

/// The view of a JSON value.
pub open spec fn json_view(v: Json) -> JsonView
    decreases v,
{
    match v {
        Json::Null => JsonView::Null,
        Json::Bool(b) => JsonView::Bool(b),
        Json::Unsigned(n) => JsonView::Unsigned(n),
        Json::Negative(n) => JsonView::Negative(n),
        Json::Float { bits, text } => JsonView::Float { bits, text: text@ },
        Json::Text(s) => JsonView::Text(s@),
        Json::Array(items) => JsonView::Array(items_view(items@)),
        Json::Object(members) => JsonView::Object(members_view(members@)),
    }
}

/// The views of the items of an array.
pub open spec fn items_view(items: Seq<Json>) -> Seq<JsonView>
    decreases items,
{
    Seq::new(
        items.len(),
        |i: int|
            if 0 <= i < items.len() {
                json_view(items[i])
            } else {
                JsonView::Null
            },
    )
}

/// The views of the members of an object.
pub open spec fn members_view(members: Seq<(String, Json)>) -> Seq<(Seq<char>, JsonView)>
    decreases members,
{
    Seq::new(
        members.len(),
        |i: int|
            if 0 <= i < members.len() {
                (members[i].0@, json_view(members[i].1))
            } else {
                (seq![], JsonView::Null)
            },
    )
}

/// The position of the first member named `key`, or the number of members
/// where there is none.
pub open spec fn key_index(members: Seq<(Seq<char>, JsonView)>, key: Seq<char>) -> int
    decreases members.len(),
{
    if members.len() == 0 || members[0].0 == key {
        0
    } else {
        1 + key_index(members.drop_first(), key)
    }
}

/// Whether there is a member named `key`.
pub open spec fn has_key(members: Seq<(Seq<char>, JsonView)>, key: Seq<char>) -> bool {
    key_index(members, key) < members.len()
}

/// The members after `value` was stored under `key`: in the place of the
/// member of that name, or behind all others.
pub open spec fn with_member(
    members: Seq<(Seq<char>, JsonView)>,
    key: Seq<char>,
    value: JsonView,
) -> Seq<(Seq<char>, JsonView)> {
    if has_key(members, key) {
        members.update(key_index(members, key), (key, value))
    } else {
        members.push((key, value))
    }
}

impl JsonView {
    /// The member named `key` of an object.
    pub open spec fn get(self, key: Seq<char>) -> Option<JsonView> {
        match self {
            JsonView::Object(members) => if has_key(members, key) {
                Some(members[key_index(members, key)].1)
            } else {
                None
            },
            _ => None,
        }
    }

    /// The value that the steps of `path` lead to: each step names a member of
    /// an object, or is the index of an item of an array.
    pub open spec fn at(self, path: Seq<Seq<char>>) -> Option<JsonView>
        decreases path.len(),
    {
        if path.len() == 0 {
            Some(self)
        } else {
            match self.step(path[0]) {
                Some(inner) => inner.at(path.drop_first()),
                None => None,
            }
        }
    }

    /// The value one step below.
    pub open spec fn step(self, token: Seq<char>) -> Option<JsonView> {
        match self {
            JsonView::Object(_) => self.get(token),
            JsonView::Array(items) => match array_index(token) {
                Some(i) => if i < items.len() {
                    Some(items[i as int])
                } else {
                    None
                },
                None => None,
            },
            _ => None,
        }
    }

    /// The text of a string.
    pub open spec fn as_text(self) -> Option<Seq<char>> {
        match self {
            JsonView::Text(s) => Some(s),
            _ => None,
        }
    }

    /// The value of a number that an `i64` can hold.
    pub open spec fn as_i64(self) -> Option<i64> {
        match self {
            JsonView::Unsigned(n) => if n <= i64::MAX {
                Some(n as i64)
            } else {
                None
            },
            JsonView::Negative(n) => Some(n),
            _ => None,
        }
    }

    /// The value of a number that is an unsigned integer.
    pub open spec fn as_u64(self) -> Option<u64> {
        match self {
            JsonView::Unsigned(n) => Some(n),
            _ => None,
        }
    }
}

/// The index that a step of a path stands for: a decimal numeral of a `usize`
/// without a sign or superfluous zeros.
pub open spec fn array_index(token: Seq<char>) -> Option<nat> {
    if token.len() == 0 || (token[0] == '0' && token.len() != 1) {
        None
    } else {
        match numeral(token) {
            Some(n) => if n <= usize::MAX {
                Some(n)
            } else {
                None
            },
            None => None,
        }
    }
}

/// The value of `n` as JSON.
pub open spec fn int_view(n: int) -> JsonView {
    if n < 0 {
        JsonView::Negative(n as i64)
    } else {
        JsonView::Unsigned(n as u64)
    }
}

/// The compact JSON text of a value, without spaces.
pub open spec fn json_text(v: JsonView) -> Seq<char>
    decreases v,
{
    match v {
        JsonView::Null => "null"@,
        JsonView::Bool(b) => if b {
            "true"@
        } else {
            "false"@
        },
        JsonView::Unsigned(n) => dec(n as nat),
        JsonView::Negative(n) => dec_int(n as int),
        JsonView::Float { text, .. } => text,
        JsonView::Text(s) => json_quoted(s),
        JsonView::Array(items) => seq!['['] + array_text(items) + seq![']'],
        JsonView::Object(members) => seq!['{'] + object_text(members) + seq!['}'],
    }
}

/// The texts of the items of an array, with commas between them.
pub open spec fn array_text(items: Seq<JsonView>) -> Seq<char>
    decreases items,
{
    if items.len() == 0 {
        seq![]
    } else if items.len() == 1 {
        json_text(items[0])
    } else {
        array_text(items.drop_last()) + seq![','] + json_text(items[items.len() - 1])
    }
}

/// The members of an object as `name:value`, with commas between them.
pub open spec fn object_text(members: Seq<(Seq<char>, JsonView)>) -> Seq<char>
    decreases members,
{
    if members.len() == 0 {
        seq![]
    } else {
        let last = json_quoted(members[members.len() - 1].0) + seq![':'] + json_text(
            members[members.len() - 1].1,
        );
        if members.len() == 1 {
            last
        } else {
            object_text(members.drop_last()) + seq![','] + last
        }
    }
}

/// A character inside a string of JSON: quotes, backslashes and control characters are
/// escaped.
pub open spec fn json_char(c: char) -> Seq<char> {
    if c == '"' || c == '\\' {
        seq!['\\', c]
    } else if c as nat == 8 {
        seq!['\\', 'b']
    } else if c == '\t' {
        seq!['\\', 't']
    } else if c == '\n' {
        seq!['\\', 'n']
    } else if c as nat == 12 {
        seq!['\\', 'f']
    } else if c == '\r' {
        seq!['\\', 'r']
    } else if (c as nat) < 32 {
        seq!['\\', 'u', '0', '0', hex_digit(c as nat / 16), hex_digit(c as nat % 16)]
    } else {
        seq![c]
    }
}

/// The inside of a string of JSON.
pub open spec fn json_chars(s: Seq<char>) -> Seq<char>
    decreases s.len(),
{
    if s.len() == 0 {
        seq![]
    } else {
        json_chars(s.drop_last()) + json_char(s.last())
    }
}

/// The JSON text of a string.
pub open spec fn json_quoted(s: Seq<char>) -> Seq<char> {
    seq!['"'] + json_chars(s) + seq!['"']
}

/// `serde_json::to_string` on a string: its JSON text, quotes and escapes included.
/// Writing a string cannot fail, so there is always a text.
#[verifier::external_body]
fn quoted(s: &str) -> (r: String)
    ensures
        r@ == json_quoted(s@),
{
    serde_json::to_string(s).unwrap()
}

/// A name leads to the first member that has it.
pub proof fn lemma_key_index(members: Seq<(Seq<char>, JsonView)>, key: Seq<char>)
    ensures
        0 <= key_index(members, key) <= members.len(),
        has_key(members, key) ==> members[key_index(members, key)].0 == key,
        forall|i: int| 0 <= i < key_index(members, key) ==> (#[trigger] members[i]).0 != key,
    decreases members.len(),
{
    if members.len() > 0 && members[0].0 != key {
        let rest = members.drop_first();
        lemma_key_index(rest, key);
        assert forall|i: int| 0 <= i < key_index(members, key) implies (#[trigger] members[i]).0
            != key by {
            if i > 0 {
                assert(members[i] == rest[i - 1]);
            }
        }
    }
}

/// The place that a name leads to is the first one with the name.
pub proof fn lemma_first_place(members: Seq<(Seq<char>, JsonView)>, key: Seq<char>, at: int)
    requires
        0 <= at <= members.len(),
        at < members.len() ==> members[at].0 == key,
        forall|i: int| 0 <= i < at ==> (#[trigger] members[i]).0 != key,
    ensures
        key_index(members, key) == at,
{
    lemma_key_index(members, key);
    let k = key_index(members, key);
    if k < at {
        assert(members[k].0 != key);
    } else if at < k {
        assert(members[at].0 != key);
    }
}

/// A member that is stored under a name is found there, and all others stay.
pub proof fn lemma_stored_member(
    members: Seq<(Seq<char>, JsonView)>,
    key: Seq<char>,
    value: JsonView,
    name: Seq<char>,
)
    ensures
        JsonView::Object(with_member(members, key, value)).get(name) == (if name == key {
            Some(value)
        } else {
            JsonView::Object(members).get(name)
        }),
{
    let after = with_member(members, key, value);
    let k = key_index(members, key);
    let n = key_index(members, name);
    lemma_key_index(members, key);
    lemma_key_index(members, name);
    if name == key {
        assert forall|i: int| 0 <= i < k implies (#[trigger] after[i]).0 != name by {
            assert(after[i] == members[i]);
        }
        lemma_first_place(after, name, k);
    } else if has_key(members, name) {
        assert forall|i: int| 0 <= i < n implies (#[trigger] after[i]).0 != name by {
            assert(after[i].0 == members[i].0);
        }
        lemma_first_place(after, name, n);
    } else {
        assert forall|i: int| 0 <= i < after.len() implies (#[trigger] after[i]).0 != name by {
            if i < members.len() {
                assert(after[i].0 == members[i].0);
            }
        }
        lemma_first_place(after, name, after.len() as int);
    }
}

pub proof fn lemma_items_view(items: Seq<Json>)
    ensures
        items_view(items).len() == items.len(),
        forall|i: int| 0 <= i < items.len() ==> #[trigger] items_view(items)[i] == items[i]@,
{
}

pub proof fn lemma_members_view(members: Seq<(String, Json)>)
    ensures
        members_view(members).len() == members.len(),
        forall|i: int|
            0 <= i < members.len() ==> #[trigger] members_view(members)[i] == (
                members[i].0@,
                members[i].1@,
            ),
{
}

/// The views of the steps of a path.
pub open spec fn path_view(path: Seq<&str>) -> Seq<Seq<char>> {
    path.map_values(|s: &str| s@)
}

/// The position of the first member named `key`, or the number of members.
pub fn find_key(members: &Vec<(String, Json)>, key: &str) -> (i: usize)
    ensures
        i == key_index(members_view(members@), key@),
        i <= members.len(),
{
    let ghost all = members_view(members@);
    let mut i: usize = 0;
    assert(all.skip(0) == all);
    while i < members.len()
        invariant
            i <= members.len(),
            all == members_view(members@),
            key_index(all, key@) == i + key_index(all.skip(i as int), key@),
        decreases members.len() - i,
    {
        proof {
            lemma_members_view(members@);
            assert(all.skip(i as int)[0] == all[i as int]);
            assert(all.skip(i as int).drop_first() == all.skip(i + 1));
        }
        if same(members[i].0.as_str(), key) {
            return i;
        }
        i += 1;
    }
    i
}

/// Stores `value` under `key`, in the place of the member of that name where
/// there is one.
pub fn insert(members: &mut Vec<(String, Json)>, key: &str, value: Json)
    ensures
        members_view(final(members)@) == with_member(members_view(old(members)@), key@, value@),
{
    let i: usize = find_key(members, key);
    let ghost before = members@;
    proof {
        lemma_members_view(before);
    }
    if i < members.len() {
        members.set(i, (key.to_owned(), value));
        proof {
            lemma_members_view(members@);
            assert(members_view(members@) =~= members_view(before).update(
                i as int,
                (key@, value@),
            ));
        }
    } else {
        members.push((key.to_owned(), value));
        proof {
            lemma_members_view(members@);
            assert(members_view(members@) =~= members_view(before).push((key@, value@)));
        }
    }
}

/// The index that a step of a path stands for.
fn parse_index(token: &str) -> (r: Option<usize>)
    ensures
        match r {
            Some(i) => array_index(token@) == Some(i as nat),
            None => array_index(token@) is None,
        },
{
    let v = chars_of(token);
    if v.len() == 0 {
        return None;
    }
    if v[0] == '0' && v.len() != 1 {
        return None;
    }
    assert(v@.skip(0) == v@);
    match parse_digits(&v, 0) {
        Some(n) => if n <= usize::MAX as u128 {
            Some(n as usize)
        } else {
            None
        },
        None => {
            None
        },
    }
}

impl Json {
    /// The member named `key` of an object.
    pub fn get(&self, key: &str) -> (r: Option<&Json>)
        ensures
            match r {
                Some(v) => self@.get(key@) == Some(v@),
                None => self@.get(key@) is None,
            },
    {
        match self {
            Json::Object(members) => {
                let i: usize = find_key(members, key);
                proof {
                    lemma_members_view(members@);
                }
                if i < members.len() {
                    Some(&members[i].1)
                } else {
                    None
                }
            },
            _ => None,
        }
    }

    /// The value one step below.
    fn step(&self, token: &str) -> (r: Option<&Json>)
        ensures
            match r {
                Some(v) => self@.step(token@) == Some(v@),
                None => self@.step(token@) is None,
            },
    {
        match self {
            Json::Object(_) => self.get(token),
            Json::Array(items) => {
                proof {
                    lemma_items_view(items@);
                }
                match parse_index(token) {
                    Some(i) => if i < items.len() {
                        Some(&items[i])
                    } else {
                        None
                    },
                    None => None,
                }
            },
            _ => None,
        }
    }

    /// The value that the steps of `path` lead to.
    pub fn at(&self, path: &[&str]) -> (r: Option<&Json>)
        ensures
            match r {
                Some(v) => self@.at(path_view(path@)) == Some(v@),
                None => self@.at(path_view(path@)) is None,
            },
    {
        let ghost p = path_view(path@);
        let mut here = self;
        let mut i: usize = 0;
        assert(p.skip(0) == p);
        while i < path.len()
            invariant
                i <= path.len(),
                p == path_view(path@),
                self@.at(p) == here@.at(p.skip(i as int)),
            decreases path.len() - i,
        {
            proof {
                assert(p.skip(i as int)[0] == path@[i as int]@);
                assert(p.skip(i as int).drop_first() == p.skip(i + 1));
            }
            match here.step(path[i]) {
                Some(inner) => {
                    here = inner;
                },
                None => {
                    return None;
                },
            }
            i += 1;
        }
        Some(here)
    }

    /// The text of a string.
    pub fn as_text(&self) -> (r: Option<&String>)
        ensures
            match r {
                Some(s) => self@.as_text() == Some(s@),
                None => self@.as_text() is None,
            },
    {
        match self {
            Json::Text(s) => Some(s),
            _ => None,
        }
    }

    /// The text that the steps of `path` lead to.
    pub fn text_at(&self, path: &[&str]) -> (r: Option<&String>)
        ensures
            match r {
                Some(s) => self@.at(path_view(path@)) == Some(JsonView::Text(s@)),
                None => !(self@.at(path_view(path@)) matches Some(JsonView::Text(_))),
            },
    {
        match self.at(path) {
            Some(v) => v.as_text(),
            None => None,
        }
    }

    /// The value of a number that an `i64` can hold.
    pub fn as_i64(&self) -> (r: Option<i64>)
        ensures
            r == self@.as_i64(),
    {
        match self {
            Json::Unsigned(n) => if *n <= i64::MAX as u64 {
                Some(*n as i64)
            } else {
                None
            },
            Json::Negative(n) => Some(*n),
            _ => None,
        }
    }

    /// The value of a number that is an unsigned integer.
    pub fn as_u64(&self) -> (r: Option<u64>)
        ensures
            r == self@.as_u64(),
    {
        match self {
            Json::Unsigned(n) => Some(*n),
            _ => None,
        }
    }

    /// The value of `n`.
    pub fn from_i64(n: i64) -> (r: Json)
        ensures
            r@ == int_view(n as int),
    {
        if n < 0 {
            Json::Negative(n)
        } else {
            Json::Unsigned(n as u64)
        }
    }

    /// The compact JSON text of the value.
    pub fn to_text(&self) -> (r: String)
        ensures
            r@ == json_text(self@),
        decreases self,
    {
        match self {
            Json::Null => "null".to_owned(),
            Json::Bool(b) => if *b {
                "true".to_owned()
            } else {
                "false".to_owned()
            },
            Json::Unsigned(n) => dec_u64(*n),
            Json::Negative(n) => dec_i64(*n),
            Json::Float { text, .. } => text.clone(),
            Json::Text(s) => quoted(s.as_str()),
            Json::Array(items) => {
                let mut r = String::new();
                r.push('[');
                let mut i: usize = 0;
                let ghost all = items_view(items@);
                while i < items.len()
                    invariant
                        i <= items.len(),
                        all == items_view(items@),
                        r@ == seq!['['] + array_text(all.take(i as int)),
                        decreases_to!(self => items@),
                    decreases items.len() - i,
                {
                    proof {
                        lemma_items_view(items@);
                        let next = all.take(i + 1);
                        assert(next.drop_last() == all.take(i as int));
                        assert(next[next.len() - 1] == items@[i as int]@);
                        assert(array_text(all.take(0)) == Seq::<char>::empty());
                    }
                    if i > 0 {
                        r.push(',');
                    }
                    let item = items[i].to_text();
                    r.append(item.as_str());
                    proof {
                        let before = array_text(all.take(i as int));
                        if i > 0 {
                            assert(r@ =~= seq!['['] + (before + seq![','] + item@));
                        } else {
                            assert(r@ =~= seq!['['] + item@);
                        }
                    }
                    i += 1;
                }
                r.push(']');
                assert(all.take(i as int) == all);
                r
            },
            Json::Object(members) => {
                let mut r = String::new();
                r.push('{');
                let mut i: usize = 0;
                let ghost all = members_view(members@);
                while i < members.len()
                    invariant
                        i <= members.len(),
                        all == members_view(members@),
                        r@ == seq!['{'] + object_text(all.take(i as int)),
                        decreases_to!(self => members@),
                    decreases members.len() - i,
                {
                    proof {
                        lemma_members_view(members@);
                        let next = all.take(i + 1);
                        assert(next.drop_last() == all.take(i as int));
                        assert(next[next.len() - 1] == (
                            members@[i as int].0@,
                            members@[i as int].1@,
                        ));
                        assert(object_text(all.take(0)) == Seq::<char>::empty());
                        assert(decreases_to!(members@ => members@[i as int]));
                        assert(decreases_to!(members@[i as int] => members@[i as int].1));
                    }
                    if i > 0 {
                        r.push(',');
                    }
                    let name = quoted(members[i].0.as_str());
                    let value = members[i].1.to_text();
                    r.append(name.as_str());
                    r.push(':');
                    r.append(value.as_str());
                    proof {
                        let before = object_text(all.take(i as int));
                        let last = name@ + seq![':'] + value@;
                        if i > 0 {
                            assert(r@ =~= seq!['{'] + (before + seq![','] + last));
                        } else {
                            assert(r@ =~= seq!['{'] + last);
                        }
                    }
                    i += 1;
                }
                r.push('}');
                assert(all.take(i as int) == all);
                r
            },
        }
    }
}

impl Clone for Json {
    fn clone(&self) -> (r: Json)
        ensures
            r@ == self@,
        decreases self,
    {
        match self {
            Json::Null => Json::Null,
            Json::Bool(b) => Json::Bool(*b),
            Json::Unsigned(n) => Json::Unsigned(*n),
            Json::Negative(n) => Json::Negative(*n),
            Json::Float { bits, text } => Json::Float { bits: *bits, text: text.clone() },
            Json::Text(s) => Json::Text(s.clone()),
            Json::Array(items) => {
                let mut copies: Vec<Json> = Vec::new();
                let mut i: usize = 0;
                while i < items.len()
                    invariant
                        i <= items.len(),
                        copies.len() == i,
                        forall|j: int| 0 <= j < i ==> #[trigger] copies@[j]@ == items@[j]@,
                        decreases_to!(self => items@),
                    decreases items.len() - i,
                {
                    let copy = items[i].clone();
                    copies.push(copy);
                    i += 1;
                }
                proof {
                    lemma_items_view(items@);
                    lemma_items_view(copies@);
                    assert(items_view(copies@) =~= items_view(items@));
                }
                Json::Array(copies)
            },
            Json::Object(members) => {
                let mut copies: Vec<(String, Json)> = Vec::new();
                let mut i: usize = 0;
                while i < members.len()
                    invariant
                        i <= members.len(),
                        copies.len() == i,
                        forall|j: int|
                            0 <= j < i ==> (#[trigger] copies@[j]).0@ == members@[j].0@
                                && copies@[j].1@ == members@[j].1@,
                        decreases_to!(self => members@),
                    decreases members.len() - i,
                {
                    proof {
                        assert(decreases_to!(members@ => members@[i as int]));
                        assert(decreases_to!(members@[i as int] => members@[i as int].1));
                    }
                    let copy = members[i].1.clone();
                    copies.push((members[i].0.clone(), copy));
                    i += 1;
                }
                proof {
                    lemma_members_view(members@);
                    lemma_members_view(copies@);
                    assert(members_view(copies@) =~= members_view(members@));
                }
                Json::Object(copies)
            },
        }
    }
}

/// A copy of the members of an object.
pub fn clone_members(members: &Vec<(String, Json)>) -> (r: Vec<(String, Json)>)
    ensures
        members_view(r@) == members_view(members@),
{
    let mut r: Vec<(String, Json)> = Vec::new();
    let mut i: usize = 0;
    while i < members.len()
        invariant
            i <= members.len(),
            r.len() == i,
            forall|j: int|
                0 <= j < i ==> (#[trigger] r@[j]).0@ == members@[j].0@ && r@[j].1@
                    == members@[j].1@,
        decreases members.len() - i,
    {
        r.push((members[i].0.clone(), members[i].1.clone()));
        i += 1;
    }
    proof {
        lemma_members_view(members@);
        lemma_members_view(r@);
        assert(members_view(r@) =~= members_view(members@));
    }
    r
}

/// `serde_json::Value`, a JSON value as the crate reads it.
#[verifier::external_type_specification]
#[verifier::external_body]
pub struct ExValue(serde_json::Value);

/// What a `serde_json::Value` holds.
pub uninterp spec fn value_view(v: serde_json::Value) -> JsonView;

/// The outermost layer of a `serde_json::Value`.
enum JsonLayer {
    Null,
    Bool(bool),
    Unsigned(u64),
    Negative(i64),
    Float { bits: u64, text: String },
    Text(String),
    Array(Vec<serde_json::Value>),
    Object(Vec<(String, serde_json::Value)>),
}

spec fn layer_view(layer: JsonLayer) -> JsonView {
    match layer {
        JsonLayer::Null => JsonView::Null,
        JsonLayer::Bool(b) => JsonView::Bool(b),
        JsonLayer::Unsigned(n) => JsonView::Unsigned(n),
        JsonLayer::Negative(n) => JsonView::Negative(n),
        JsonLayer::Float { bits, text } => JsonView::Float { bits, text: text@ },
        JsonLayer::Text(s) => JsonView::Text(s@),
        JsonLayer::Array(items) => JsonView::Array(
            items@.map_values(|v: serde_json::Value| value_view(v)),
        ),
        JsonLayer::Object(members) => JsonView::Object(
            members@.map_values(|m: (String, serde_json::Value)| (m.0@, value_view(m.1))),
        ),
    }
}

/// The outermost layer of a `serde_json::Value`: its variant, and what that
/// holds. The members of an object come in the order in which it keeps them.
#[verifier::external_body]
fn open_value(v: serde_json::Value) -> (r: JsonLayer)
    ensures
        layer_view(r) == value_view(v),
{
    match v {
        serde_json::Value::Null => JsonLayer::Null,
        serde_json::Value::Bool(b) => JsonLayer::Bool(b),
        serde_json::Value::Number(n) if n.is_u64() => JsonLayer::Unsigned(n.as_u64().unwrap()),
        serde_json::Value::Number(n) if n.is_i64() => JsonLayer::Negative(n.as_i64().unwrap()),
        serde_json::Value::Number(n) => {
            JsonLayer::Float { bits: n.as_f64().map_or(0, |f| f.to_bits()), text: n.to_string() }
        },
        serde_json::Value::String(s) => JsonLayer::Text(s),
        serde_json::Value::Array(items) => JsonLayer::Array(items),
        serde_json::Value::Object(members) => JsonLayer::Object(members.into_iter().collect()),
    }
}

/// The value that a `serde_json::Value` holds.
pub fn json_of(v: serde_json::Value) -> (r: Json)
    ensures
        r@ == value_view(v),
    decreases value_view(v),
{
    match open_value(v) {
        JsonLayer::Null => Json::Null,
        JsonLayer::Bool(b) => Json::Bool(b),
        JsonLayer::Unsigned(n) => Json::Unsigned(n),
        JsonLayer::Negative(n) => Json::Negative(n),
        JsonLayer::Float { bits, text } => Json::Float { bits, text },
        JsonLayer::Text(s) => Json::Text(s),
        JsonLayer::Array(items) => {
            let ghost inner = items@.map_values(|v: serde_json::Value| value_view(v));
            let ghost all = items@;
            let mut out: Vec<Json> = Vec::new();
            for item in it: items
                invariant
                    it.seq() == all,
                    inner == all.map_values(|v: serde_json::Value| value_view(v)),
                    value_view(v) == JsonView::Array(inner),
                    out.len() == it.index(),
                    forall|j: int| 0 <= j < out.len() ==> #[trigger] out@[j]@ == inner[j],
            {
                proof {
                    let k = it.index() as int;
                    assert(inner[k] == value_view(item));
                    assert(decreases_to!(value_view(v) => value_view(v)->Array_0));
                    assert(decreases_to!(inner => inner[k]));
                }
                let value = json_of(item);
                out.push(value);
            }
            proof {
                lemma_items_view(out@);
                assert(items_view(out@) =~= inner);
            }
            Json::Array(out)
        },
        JsonLayer::Object(members) => {
            let ghost inner = members@.map_values(
                |m: (String, serde_json::Value)| (m.0@, value_view(m.1)),
            );
            let ghost all = members@;
            let mut out: Vec<(String, Json)> = Vec::new();
            for member in it: members
                invariant
                    it.seq() == all,
                    inner == all.map_values(
                        |m: (String, serde_json::Value)| (m.0@, value_view(m.1)),
                    ),
                    value_view(v) == JsonView::Object(inner),
                    out.len() == it.index(),
                    forall|j: int|
                        0 <= j < out.len() ==> ((#[trigger] out@[j]).0@, out@[j].1@) == inner[j],
            {
                proof {
                    let k = it.index() as int;
                    assert(inner[k] == (member.0@, value_view(member.1)));
                    assert(decreases_to!(value_view(v) => value_view(v)->Object_0));
                    assert(decreases_to!(inner => inner[k]));
                    assert(decreases_to!(inner[k] => inner[k].1));
                }
                let (name, value) = member;
                let value = json_of(value);
                out.push((name, value));
            }
            proof {
                lemma_members_view(out@);
                assert(members_view(out@) =~= inner);
            }
            Json::Object(out)
        },
    }
}

/// What `serde_json::from_str` makes of a text: a value, or the words of its
/// error.
pub uninterp spec fn parsed_json(text: Seq<char>) -> Result<JsonView, Seq<char>>;

/// Whether no two members have the same name.
pub open spec fn names_differ(members: Seq<(Seq<char>, JsonView)>) -> bool {
    forall|i: int, j: int|
        0 <= i < j < members.len() ==> (#[trigger] members[i]).0 != (#[trigger] members[j]).0
}

/// Whether a value is nested at most `depth` deep, has no number with a fraction
/// or an exponent, and has no two members of one name in an object.
pub open spec fn is_plain(v: JsonView, depth: nat) -> bool
    decreases depth,
{
    match v {
        JsonView::Null => true,
        JsonView::Bool(_) => true,
        JsonView::Unsigned(_) => true,
        JsonView::Negative(n) => n < 0,
        JsonView::Float { .. } => false,
        JsonView::Text(_) => true,
        JsonView::Array(items) => depth > 0 && forall|i: int|
            0 <= i < items.len() ==> is_plain(#[trigger] items[i], (depth - 1) as nat),
        JsonView::Object(members) => depth > 0 && names_differ(members) && forall|i: int|
            0 <= i < members.len() ==> is_plain((#[trigger] members[i]).1, (depth - 1) as nat),
    }
}

/// `serde_json::from_str` into a `serde_json::Value` is a function of the text;
/// which texts are JSON and what they hold is left to the name, but that the
/// compact text of a plain value gives the value back. It is stated for values
/// that are nested well below the depth at which the crate gives up.
#[verifier::external_body]
fn read_value(text: &str) -> (r: Result<serde_json::Value, String>)
    ensures
        match r {
            Ok(v) => parsed_json(text@) == Ok::<JsonView, Seq<char>>(value_view(v)),
            Err(e) => parsed_json(text@) == Err::<JsonView, Seq<char>>(e@),
        },
        forall|t: JsonView|
            text@ == #[trigger] json_text(t) && is_plain(t, 100) ==> match r {
                Ok(v) => value_view(v) == t,
                Err(_) => false,
            },
{
    serde_json::from_str(text).map_err(|e| e.to_string())
}

/// Reads a JSON text. The compact text of a plain value gives the value back.
pub fn parse_json(text: &str) -> (r: Result<Json, String>)
    ensures
        match r {
            Ok(v) => parsed_json(text@) == Ok::<JsonView, Seq<char>>(v@),
            Err(e) => parsed_json(text@) == Err::<JsonView, Seq<char>>(e@),
        },
        forall|t: JsonView|
            text@ == #[trigger] json_text(t) && is_plain(t, 100) ==> match r {
                Ok(v) => v@ == t,
                Err(_) => false,
            },
{
    match read_value(text) {
        Ok(v) => Ok(json_of(v)),
        Err(e) => Err(e),
    }
}

/// The bits of the double nearest to an unsigned integer, as
/// `serde_json::Number::as_f64` gives it.
pub uninterp spec fn unsigned_double(n: u64) -> u64;

/// The bits of the double nearest to a negative integer, as
/// `serde_json::Number::as_f64` gives it.
pub uninterp spec fn negative_double(n: i64) -> u64;

/// `serde_json::Number::as_f64` on an unsigned integer, which always has a
/// double; which of two neighbours it rounds to is left to the name.
#[verifier::external_body]
fn double_of_unsigned(n: u64) -> (r: u64)
    ensures
        r == unsigned_double(n),
{
    serde_json::Number::from(n).as_f64().map_or(0, |x| x.to_bits())
}

/// `serde_json::Number::as_f64` on a signed integer, which always has a double;
/// which of two neighbours it rounds to is left to the name.
#[verifier::external_body]
fn double_of_negative(n: i64) -> (r: u64)
    ensures
        r == negative_double(n),
{
    serde_json::Number::from(n).as_f64().map_or(0, |x| x.to_bits())
}

impl JsonView {
    /// The bits of the double of a number.
    pub open spec fn as_double(self) -> Option<u64> {
        match self {
            JsonView::Unsigned(n) => Some(unsigned_double(n)),
            JsonView::Negative(n) => Some(negative_double(n)),
            JsonView::Float { bits, .. } => Some(bits),
            _ => None,
        }
    }
}

impl Json {
    /// The bits of the double of a number.
    pub fn as_double(&self) -> (r: Option<u64>)
        ensures
            r == self@.as_double(),
    {
        match self {
            Json::Unsigned(n) => Some(double_of_unsigned(*n)),
            Json::Negative(n) => Some(double_of_negative(*n)),
            Json::Float { bits, .. } => Some(*bits),
            _ => None,
        }
    }
}

/// The doubles in a value, by their bits, in the order of its text.
pub open spec fn doubles_in(v: JsonView) -> Seq<u64>
    decreases v,
{
    match v {
        JsonView::Float { bits, .. } => seq![bits],
        JsonView::Array(items) => item_doubles(items),
        JsonView::Object(members) => member_doubles(members),
        _ => seq![],
    }
}

/// The doubles in the items of an array.
pub open spec fn item_doubles(items: Seq<JsonView>) -> Seq<u64>
    decreases items,
{
    if items.len() == 0 {
        seq![]
    } else {
        item_doubles(items.drop_last()) + doubles_in(items[items.len() - 1])
    }
}

/// The doubles in the members of an object.
pub open spec fn member_doubles(members: Seq<(Seq<char>, JsonView)>) -> Seq<u64>
    decreases members,
{
    if members.len() == 0 {
        seq![]
    } else {
        member_doubles(members.drop_last()) + doubles_in(members[members.len() - 1].1)
    }
}

impl Json {
    /// The doubles in the value, by their bits, in the order of its text.
    pub fn float_bits(&self) -> (r: Vec<u64>)
        ensures
            r@ == doubles_in(self@),
        decreases self,
    {
        let mut r: Vec<u64> = Vec::new();
        match self {
            Json::Float { bits, .. } => {
                r.push(*bits);
                assert(r@ =~= seq![*bits]);
            },
            Json::Array(items) => {
                let ghost all = items_view(items@);
                let mut i: usize = 0;
                while i < items.len()
                    invariant
                        i <= items.len(),
                        all == items_view(items@),
                        r@ == item_doubles(all.take(i as int)),
                        decreases_to!(self => items@),
                    decreases items.len() - i,
                {
                    proof {
                        lemma_items_view(items@);
                        let next = all.take(i + 1);
                        assert(next.drop_last() == all.take(i as int));
                        assert(next[next.len() - 1] == items@[i as int]@);
                    }
                    let mut more = items[i].float_bits();
                    r.append(&mut more);
                    i += 1;
                }
                assert(all.take(i as int) == all);
            },
            Json::Object(members) => {
                let ghost all = members_view(members@);
                let mut i: usize = 0;
                while i < members.len()
                    invariant
                        i <= members.len(),
                        all == members_view(members@),
                        r@ == member_doubles(all.take(i as int)),
                        decreases_to!(self => members@),
                    decreases members.len() - i,
                {
                    proof {
                        lemma_members_view(members@);
                        let next = all.take(i + 1);
                        assert(next.drop_last() == all.take(i as int));
                        assert(next[next.len() - 1] == all[i as int]);
                        assert(decreases_to!(members@ => members@[i as int]));
                        assert(decreases_to!(members@[i as int] => members@[i as int].1));
                    }
                    let mut more = members[i].1.float_bits();
                    r.append(&mut more);
                    i += 1;
                }
                assert(all.take(i as int) == all);
            },
            _ => {},
        }
        r
    }
}

} // verus!
