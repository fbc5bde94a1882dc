//! What is stored as JSON: the members of objects that stand for the values of a
//! type, and lists of them.

use vstd::prelude::*;

use crate::json::{
    is_plain, items_view, json_text, lemma_items_view, lemma_members_view, members_view,
    parse_json, parsed_json, Json, JsonView,
};
use crate::model::opt_text;
use crate::text::str_views;

verus! {

/// What is said of a member that is not there.
pub open spec fn member_missing(key: Seq<char>) -> Seq<char> {
    "missing field `"@ + key + "`"@
}

/// What is said of a member that is of another type.
pub open spec fn member_unfit(key: Seq<char>, expected: Seq<char>) -> Seq<char> {
    "field `"@ + key + "` is not "@ + expected
}

/// The text of a member.
pub open spec fn text_member(v: JsonView, key: Seq<char>) -> Result<Seq<char>, Seq<char>> {
    match v.get(key) {
        Some(JsonView::Text(s)) => Ok(s),
        Some(_) => Err(member_unfit(key, "a string"@)),
        None => Err(member_missing(key)),
    }
}

/// The text of a member; the empty text where there is none.
pub open spec fn text_member_or_empty(v: JsonView, key: Seq<char>) -> Result<
    Seq<char>,
    Seq<char>,
> {
    match v.get(key) {
        Some(JsonView::Text(s)) => Ok(s),
        Some(_) => Err(member_unfit(key, "a string"@)),
        None => Ok(seq![]),
    }
}

/// The text of a member that may be missing or null.
pub open spec fn optional_text_member(v: JsonView, key: Seq<char>) -> Result<
    Option<Seq<char>>,
    Seq<char>,
> {
    match v.get(key) {
        Some(JsonView::Text(s)) => Ok(Some(s)),
        Some(JsonView::Null) => Ok(None),
        Some(_) => Err(member_unfit(key, "a string"@)),
        None => Ok(None),
    }
}

/// The number of a member.
pub open spec fn size_member(v: JsonView, key: Seq<char>) -> Result<usize, Seq<char>> {
    match v.get(key) {
        Some(JsonView::Unsigned(n)) => if n <= usize::MAX {
            Ok(n as usize)
        } else {
            Err(member_unfit(key, "a size"@))
        },
        Some(_) => Err(member_unfit(key, "a size"@)),
        None => Err(member_missing(key)),
    }
}

/// The number of a member; 0 where there is none.
pub open spec fn size_member_or_zero(v: JsonView, key: Seq<char>) -> Result<usize, Seq<char>> {
    match v.get(key) {
        None => Ok(0),
        Some(_) => size_member(v, key),
    }
}

/// A text that may be missing, as JSON.
pub open spec fn optional_tree(s: Option<Seq<char>>) -> JsonView {
    match s {
        Some(s) => JsonView::Text(s),
        None => JsonView::Null,
    }
}

fn say_member_missing(key: &str) -> (r: String)
    ensures
        r@ == member_missing(key@),
{
    let mut e = "missing field `".to_owned();
    e.append(key);
    e.append("`");
    e
}

fn say_member_unfit(key: &str, expected: &str) -> (r: String)
    ensures
        r@ == member_unfit(key@, expected@),
{
    let mut e = "field `".to_owned();
    e.append(key);
    e.append("` is not ");
    e.append(expected);
    e
}

/// The text of a member.
pub fn need_text_member(v: &Json, key: &str) -> (r: Result<String, String>)
    ensures
        match r {
            Ok(s) => text_member(v@, key@) == Ok::<Seq<char>, Seq<char>>(s@),
            Err(e) => text_member(v@, key@) == Err::<Seq<char>, Seq<char>>(e@),
        },
{
    match v.get(key) {
        Some(Json::Text(s)) => Ok(s.clone()),
        Some(_) => Err(say_member_unfit(key, "a string")),
        None => Err(say_member_missing(key)),
    }
}

/// The text of a member; the empty text where there is none.
pub fn text_member_else_empty(v: &Json, key: &str) -> (r: Result<String, String>)
    ensures
        match r {
            Ok(s) => text_member_or_empty(v@, key@) == Ok::<Seq<char>, Seq<char>>(s@),
            Err(e) => text_member_or_empty(v@, key@) == Err::<Seq<char>, Seq<char>>(e@),
        },
{
    match v.get(key) {
        Some(Json::Text(s)) => Ok(s.clone()),
        Some(_) => Err(say_member_unfit(key, "a string")),
        None => Ok(String::new()),
    }
}

/// The text of a member that may be missing or null.
pub fn may_text_member(v: &Json, key: &str) -> (r: Result<Option<String>, String>)
    ensures
        match r {
            Ok(s) => optional_text_member(v@, key@) == Ok::<Option<Seq<char>>, Seq<char>>(
                opt_text(s),
            ),
            Err(e) => optional_text_member(v@, key@) == Err::<Option<Seq<char>>, Seq<char>>(e@),
        },
{
    match v.get(key) {
        Some(Json::Text(s)) => Ok(Some(s.clone())),
        Some(Json::Null) => Ok(None),
        Some(_) => Err(say_member_unfit(key, "a string")),
        None => Ok(None),
    }
}

/// The number of a member.
pub fn need_size_member(v: &Json, key: &str) -> (r: Result<usize, String>)
    ensures
        match r {
            Ok(n) => size_member(v@, key@) == Ok::<usize, Seq<char>>(n),
            Err(e) => size_member(v@, key@) == Err::<usize, Seq<char>>(e@),
        },
{
    match v.get(key) {
        Some(Json::Unsigned(n)) => if *n <= usize::MAX as u64 {
            Ok(*n as usize)
        } else {
            Err(say_member_unfit(key, "a size"))
        },
        Some(_) => Err(say_member_unfit(key, "a size")),
        None => Err(say_member_missing(key)),
    }
}

/// The number of a member; 0 where there is none.
pub fn size_member_else_zero(v: &Json, key: &str) -> (r: Result<usize, String>)
    ensures
        match r {
            Ok(n) => size_member_or_zero(v@, key@) == Ok::<usize, Seq<char>>(n),
            Err(e) => size_member_or_zero(v@, key@) == Err::<usize, Seq<char>>(e@),
        },
{
    match v.get(key) {
        None => Ok(0),
        Some(_) => need_size_member(v, key),
    }
}

/// A text that may be missing, as JSON.
pub fn optional_json(s: &Option<String>) -> (r: Json)
    ensures
        r@ == optional_tree(opt_text(*s)),
{
    match s {
        Some(s) => Json::Text(s.clone()),
        None => Json::Null,
    }
}

/// A record as an object: one that is written as a list has its fields in their order,
/// and at least those that it cannot be without.
pub open spec fn as_object(v: JsonView, names: Seq<Seq<char>>, least: nat) -> JsonView {
    match v {
        JsonView::Array(items) => if least <= items.len() <= names.len() {
            JsonView::Object(Seq::new(items.len(), |i: int| (names[i], items[i])))
        } else {
            v
        },
        _ => v,
    }
}

/// The object of a record that is written as a list.
pub fn list_as_object(v: &Json, names: &[&'static str], least: usize) -> (r: Option<Json>)
    ensures
        match r {
            Some(o) => as_object(v@, str_views(names@), least as nat) == o@,
            None => as_object(v@, str_views(names@), least as nat) == v@,
        },
{
    let ghost want = as_object(v@, str_views(names@), least as nat);
    let items = match v {
        Json::Array(items) => items,
        _ => {
            return None;
        },
    };
    proof {
        lemma_items_view(items@);
    }
    if items.len() < least || items.len() > names.len() {
        return None;
    }
    let mut members: Vec<(String, Json)> = Vec::new();
    let mut i: usize = 0;
    while i < items.len()
        invariant
            i <= items.len() <= names.len(),
            members.len() == i,
            v@ == JsonView::Array(items_view(items@)),
            items_view(items@).len() == items.len(),
            forall|j: int| 0 <= j < items.len() ==> #[trigger] items_view(items@)[j] == items@[j]@,
            forall|j: int|
                0 <= j < i ==> (#[trigger] members@[j]).0@ == names@[j]@ && members@[j].1@
                    == items@[j]@,
        decreases items.len() - i,
    {
        members.push((names[i].to_owned(), items[i].clone()));
        i += 1;
    }
    proof {
        lemma_members_view(members@);
        assert(members_view(members@) =~= want->Object_0);
    }
    Some(Json::Object(members))
}

/// A type whose values are stored as JSON.
pub trait Stored: Sized {
    /// What a value says.
    type Said;

    /// What the value says.
    spec fn said(&self) -> Self::Said;

    /// The JSON that stands for a value.
    spec fn tree_of(v: Self::Said) -> JsonView;

    /// The value that JSON stands for, or why it stands for none.
    spec fn value_in(v: JsonView) -> Result<Self::Said, Seq<char>>;

    /// What is written can be read, and gives the value back.
    proof fn lemma_read_back(v: Self::Said)
        ensures
            Self::value_in(Self::tree_of(v)) == Ok::<Self::Said, Seq<char>>(v),
            is_plain(Self::tree_of(v), 10),
    ;

    /// The JSON that stands for the value.
    fn to_tree(&self) -> (r: Json)
        ensures
            r@ == Self::tree_of(self.said()),
    ;

    /// The value that JSON stands for, or why it stands for none.
    fn from_tree(v: &Json) -> (r: Result<Self, String>)
        ensures
            match r {
                Ok(t) => Self::value_in(v@) == Ok::<Self::Said, Seq<char>>(t.said()),
                Err(e) => Self::value_in(v@) == Err::<Self::Said, Seq<char>>(e@),
            },
    ;
}

/// What the values of a list say.
pub open spec fn all_said<T: Stored>(v: Seq<T>) -> Seq<T::Said> {
    v.map_values(|t: T| t.said())
}

/// The JSON that stands for a list.
pub open spec fn list_tree<T: Stored>(v: Seq<T::Said>) -> JsonView {
    JsonView::Array(v.map_values(|t: T::Said| T::tree_of(t)))
}

/// The values that the items of an array stand for, or why one stands for none.
pub open spec fn items_values<T: Stored>(items: Seq<JsonView>) -> Result<Seq<T::Said>, Seq<char>>
    decreases items.len(),
{
    if items.len() == 0 {
        Ok(seq![])
    } else {
        match items_values::<T>(items.drop_last()) {
            Err(e) => Err(e),
            Ok(before) => match T::value_in(items.last()) {
                Err(e) => Err(e),
                Ok(t) => Ok(before.push(t)),
            },
        }
    }
}

/// The list that JSON stands for, or why it stands for none.
pub open spec fn list_in<T: Stored>(v: JsonView) -> Result<Seq<T::Said>, Seq<char>> {
    match v {
        JsonView::Array(items) => items_values::<T>(items),
        _ => Err("not a list"@),
    }
}

/// The list that a text stands for, or why it stands for none.
pub open spec fn stored_list<T: Stored>(text: Seq<char>) -> Result<Seq<T::Said>, Seq<char>> {
    match parsed_json(text) {
        Err(e) => Err(e),
        Ok(v) => list_in::<T>(v),
    }
}

/// A list that is written can be read, and gives the list back.
pub proof fn lemma_list_read_back<T: Stored>(v: Seq<T::Said>)
    ensures
        list_in::<T>(list_tree::<T>(v)) == Ok::<Seq<T::Said>, Seq<char>>(v),
        is_plain(list_tree::<T>(v), 100),
    decreases v.len(),
{
    let items = v.map_values(|t: T::Said| T::tree_of(t));
    assert forall|i: int| 0 <= i < items.len() implies is_plain(#[trigger] items[i], 99) by {
        T::lemma_read_back(v[i]);
        lemma_plain_deeper(items[i], 10, 99);
    }
    lemma_items_read_back::<T>(v);
}

proof fn lemma_items_read_back<T: Stored>(v: Seq<T::Said>)
    ensures
        items_values::<T>(v.map_values(|t: T::Said| T::tree_of(t))) == Ok::<
            Seq<T::Said>,
            Seq<char>,
        >(v),
    decreases v.len(),
{
    let items = v.map_values(|t: T::Said| T::tree_of(t));
    if v.len() > 0 {
        assert(items.drop_last() =~= v.drop_last().map_values(|t: T::Said| T::tree_of(t)));
        lemma_items_read_back::<T>(v.drop_last());
        T::lemma_read_back(v.last());
        assert(v.drop_last().push(v.last()) =~= v);
    } else {
        assert(v =~= seq![]);
    }
}

/// What is nested less deep than a bound is nested less deep than a larger one.
pub proof fn lemma_plain_deeper(v: JsonView, a: nat, b: nat)
    requires
        is_plain(v, a),
        a <= b,
    ensures
        is_plain(v, b),
    decreases a,
{
    match v {
        JsonView::Array(items) => {
            assert forall|i: int| 0 <= i < items.len() implies is_plain(
                #[trigger] items[i],
                (b - 1) as nat,
            ) by {
                lemma_plain_deeper(items[i], (a - 1) as nat, (b - 1) as nat);
            }
        },
        JsonView::Object(members) => {
            assert forall|i: int| 0 <= i < members.len() implies is_plain(
                (#[trigger] members[i]).1,
                (b - 1) as nat,
            ) by {
                lemma_plain_deeper(members[i].1, (a - 1) as nat, (b - 1) as nat);
            }
        },
        _ => {},
    }
}

proof fn lemma_items_fail<T: Stored>(items: Seq<JsonView>, n: int)
    requires
        0 <= n <= items.len(),
        items_values::<T>(items.take(n)) is Err,
    ensures
        items_values::<T>(items) == items_values::<T>(items.take(n)),
    decreases items.len(),
{
    if n < items.len() {
        assert(items.drop_last().take(n) == items.take(n));
        lemma_items_fail::<T>(items.drop_last(), n);
    } else {
        assert(items.take(n) == items);
    }
}

/// The text that a list is stored as.
pub fn store_list<T: Stored>(v: &Vec<T>) -> (r: String)
    ensures
        r@ == json_text(list_tree::<T>(all_said(v@))),
{
    let ghost want = all_said(v@).map_values(|t: T::Said| T::tree_of(t));
    let mut items: Vec<Json> = Vec::new();
    let mut i: usize = 0;
    while i < v.len()
        invariant
            i <= v.len(),
            items.len() == i,
            want == all_said(v@).map_values(|t: T::Said| T::tree_of(t)),
            forall|j: int| 0 <= j < i ==> #[trigger] items@[j]@ == want[j],
        decreases v.len() - i,
    {
        let item = v[i].to_tree();
        items.push(item);
        i += 1;
    }
    proof {
        lemma_items_view(items@);
        assert(items_view(items@) =~= want);
    }
    let tree = Json::Array(items);
    assert(tree@ == list_tree::<T>(all_said(v@)));
    tree.to_text()
}

/// The list that a text stands for, or why it stands for none. A text that a list
/// was stored as gives the list back.
pub fn load_list<T: Stored>(text: &str) -> (r: Result<Vec<T>, String>)
    ensures
        match r {
            Ok(v) => stored_list::<T>(text@) == Ok::<Seq<T::Said>, Seq<char>>(all_said(v@)),
            Err(e) => stored_list::<T>(text@) == Err::<Seq<T::Said>, Seq<char>>(e@),
        },
        forall|l: Seq<T::Said>|
            text@ == json_text(#[trigger] list_tree::<T>(l)) ==> match r {
                Ok(v) => all_said(v@) == l,
                Err(_) => false,
            },
{
    let parsed = parse_json(text);
    proof {
        assert forall|l: Seq<T::Said>| text@ == json_text(#[trigger] list_tree::<T>(l)) implies
            stored_list::<T>(text@) == Ok::<Seq<T::Said>, Seq<char>>(l) by {
            lemma_list_read_back::<T>(l);
        }
    }
    let v = match parsed {
        Ok(v) => v,
        Err(e) => {
            return Err(e);
        },
    };
    let items = match &v {
        Json::Array(items) => items,
        _ => {
            return Err("not a list".to_owned());
        },
    };
    let ghost all = items_view(items@);
    let mut r: Vec<T> = Vec::new();
    let mut i: usize = 0;
    assert(all_said(r@) =~= seq![]);
    while i < items.len()
        invariant
            i <= items.len(),
            all == items_view(items@),
            stored_list::<T>(text@) == items_values::<T>(all),
            items_values::<T>(all.take(i as int)) == Ok::<Seq<T::Said>, Seq<char>>(all_said(r@)),
            forall|l: Seq<T::Said>|
                text@ == json_text(#[trigger] list_tree::<T>(l)) ==> stored_list::<T>(text@)
                    == Ok::<Seq<T::Said>, Seq<char>>(l),
        decreases items.len() - i,
    {
        let ghost before = r@;
        proof {
            lemma_items_view(items@);
            let next = all.take(i + 1);
            assert(next.drop_last() == all.take(i as int));
            assert(next.last() == items@[i as int]@);
        }
        match T::from_tree(&items[i]) {
            Ok(t) => {
                let ghost tv = t.said();
                r.push(t);
                assert(all_said(r@) =~= all_said(before).push(tv));
            },
            Err(e) => {
                proof {
                    lemma_items_fail::<T>(all, i + 1);
                }
                return Err(e);
            },
        }
        i += 1;
    }
    assert(all.take(i as int) == all);
    Ok(r)
}

} // verus!
