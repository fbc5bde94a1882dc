//! Regular expressions, by the text they were made from.

use vstd::prelude::*;

use crate::model::opt_text;
use crate::text::texts;

verus! {

/// `regex::Regex`, a compiled regular expression.
#[verifier::external_type_specification]
#[verifier::external_body]
pub struct ExRegex(regex::Regex);

/// The text that a regular expression was compiled from.
pub uninterp spec fn regex_text(r: regex::Regex) -> Seq<char>;

/// Why a text is no regular expression, if it is none.
pub uninterp spec fn regex_problem(pattern: Seq<char>) -> Option<Seq<char>>;

/// The groups of a regular expression in order, the whole of it first, by their names;
/// a group may have none.
pub uninterp spec fn regex_group_list(pattern: Seq<char>) -> Seq<Option<Seq<char>>>;

/// What the groups of a regular expression capture at its leftmost match in a text, in
/// the order of the groups; nothing where it does not match.
pub uninterp spec fn regex_capture_list(pattern: Seq<char>, text: Seq<char>) -> Option<
    Seq<Option<Seq<char>>>,
>;

/// The names among those of groups.
pub open spec fn names_among(groups: Seq<Option<Seq<char>>>) -> Seq<Seq<char>>
    decreases groups.len(),
{
    if groups.len() == 0 {
        seq![]
    } else {
        match groups.last() {
            Some(name) => names_among(groups.drop_last()).push(name),
            None => names_among(groups.drop_last()),
        }
    }
}

/// Of what groups captured, what those with a name did.
pub open spec fn named_among(
    groups: Seq<Option<Seq<char>>>,
    captures: Seq<Option<Seq<char>>>,
) -> Seq<Option<Seq<char>>>
    decreases groups.len(),
{
    if groups.len() == 0 || captures.len() != groups.len() {
        seq![]
    } else if groups.last() is Some {
        named_among(groups.drop_last(), captures.drop_last()).push(captures.last())
    } else {
        named_among(groups.drop_last(), captures.drop_last())
    }
}

/// The names of the named groups of a regular expression, in order.
pub open spec fn regex_groups(pattern: Seq<char>) -> Seq<Seq<char>> {
    names_among(regex_group_list(pattern))
}

/// What the named groups of a regular expression capture at its leftmost match
/// in a text, in the order of the groups; nothing where it does not match.
pub open spec fn regex_captures(pattern: Seq<char>, text: Seq<char>) -> Option<
    Seq<Option<Seq<char>>>,
> {
    match regex_capture_list(pattern, text) {
        Some(captures) => Some(named_among(regex_group_list(pattern), captures)),
        None => None,
    }
}

/// Whether a regular expression matches anywhere in a text.
pub uninterp spec fn regex_matches(pattern: Seq<char>, text: Seq<char>) -> bool;

/// `regex::Regex::new`: the regular expression of a text, which remembers the
/// text, or the words of the error.
#[verifier::external_body]
pub(crate) fn compile(pattern: &str) -> (r: Result<regex::Regex, String>)
    ensures
        match r {
            Ok(re) => regex_text(re) == pattern@ && regex_problem(pattern@) is None,
            Err(e) => regex_problem(pattern@) == Some(e@),
        },
{
    regex::Regex::new(pattern).map_err(|e| e.to_string())
}

/// The views of a list of captures.
pub open spec fn captures_view(v: Seq<Option<String>>) -> Seq<Option<Seq<char>>> {
    v.map_values(|c: Option<String>| opt_text(c))
}

/// `regex::Regex::capture_names`: the groups in order, by their names.
#[verifier::external_body]
fn list_groups(re: &regex::Regex) -> (r: Vec<Option<String>>)
    ensures
        captures_view(r@) == regex_group_list(regex_text(*re)),
{
    re.capture_names().map(|n| n.map(str::to_string)).collect()
}

/// `regex::Regex::captures`: for each group, in order, what it captured at the leftmost
/// match.
#[verifier::external_body]
fn list_captures(re: &regex::Regex, text: &str) -> (r: Option<Vec<Option<String>>>)
    ensures
        match r {
            Some(c) => {
                &&& regex_capture_list(regex_text(*re), text@) == Some(captures_view(c@))
                &&& c@.len() == regex_group_list(regex_text(*re)).len()
            },
            None => regex_capture_list(regex_text(*re), text@) is None,
        },
{
    let c = re.captures(text)?;
    Some(c.iter().map(|m| m.map(|m| m.as_str().to_string())).collect())
}

/// The names of the named groups of a regular expression.
pub(crate) fn group_names(re: &regex::Regex) -> (r: Vec<String>)
    ensures
        texts(r@) == regex_groups(regex_text(*re)),
{
    let groups = list_groups(re);
    let ghost all = captures_view(groups@);
    let mut names: Vec<String> = Vec::new();
    let mut i: usize = 0;
    while i < groups.len()
        invariant
            i <= groups.len(),
            all == captures_view(groups@),
            texts(names@) == names_among(all.take(i as int)),
        decreases groups.len() - i,
    {
        proof {
            assert(all.take(i + 1).drop_last() == all.take(i as int));
            assert(all.take(i + 1).last() == opt_text(groups@[i as int]));
        }
        if let Some(name) = &groups[i] {
            let ghost before = names@;
            names.push(name.clone());
            assert(texts(names@) =~= texts(before).push(name@));
        }
        i += 1;
    }
    assert(all.take(i as int) == all);
    names
}

/// What the named groups of a regular expression capture at its leftmost match in a
/// text.
pub(crate) fn capture(re: &regex::Regex, text: &str) -> (r: Option<Vec<Option<String>>>)
    ensures
        match r {
            Some(c) => {
                &&& regex_captures(regex_text(*re), text@) == Some(captures_view(c@))
                &&& c@.len() == regex_groups(regex_text(*re)).len()
            },
            None => regex_captures(regex_text(*re), text@) is None,
        },
{
    let found = match list_captures(re, text) {
        Some(found) => found,
        None => {
            return None;
        },
    };
    let groups = list_groups(re);
    let ghost all = captures_view(groups@);
    let ghost every = captures_view(found@);
    let mut named: Vec<Option<String>> = Vec::new();
    let mut i: usize = 0;
    while i < groups.len()
        invariant
            i <= groups.len(),
            groups.len() == found.len(),
            all == captures_view(groups@),
            every == captures_view(found@),
            captures_view(named@) == named_among(all.take(i as int), every.take(i as int)),
            named@.len() == names_among(all.take(i as int)).len(),
        decreases groups.len() - i,
    {
        proof {
            assert(all.take(i + 1).drop_last() == all.take(i as int));
            assert(all.take(i + 1).last() == opt_text(groups@[i as int]));
            assert(every.take(i + 1).drop_last() == every.take(i as int));
            assert(every.take(i + 1).last() == opt_text(found@[i as int]));
        }
        if groups[i].is_some() {
            let ghost before = named@;
            let value = found[i].clone();
            named.push(value);
            assert(captures_view(named@) =~= captures_view(before).push(opt_text(value)));
        }
        i += 1;
    }
    assert(all.take(i as int) == all);
    assert(every.take(i as int) == every);
    Some(named)
}

/// `regex::Regex::is_match`.
#[verifier::external_body]
pub(crate) fn is_match(re: &regex::Regex, text: &str) -> (r: bool)
    ensures
        r == regex_matches(regex_text(*re), text@),
{
    re.is_match(text)
}

} // verus!
