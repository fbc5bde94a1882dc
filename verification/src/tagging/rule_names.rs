//! How rules are named and where they lie: stems of files, lists of files, packs.

use vstd::prelude::*;

use crate::order::{lemma_sorted_texts, sorted_texts};
use crate::plain_toml::escaped;
use crate::selection::{is_selection, lemma_selection_grows};
use crate::tagging::builtin::{builtin_rules, pack_rules};
use crate::tagging::rule::{is_asked_for, rule_of_text, RuleView, Subject};
use crate::tagging::rule_file::{
    condition_value, is_alnum, plain_number, slug, slug_raw, toml_file_names, DirEntryInfo,
    RuleCondition,
};
use crate::text::{
    ascii_lower, ascii_lower_all, dec_int, extension_of, occurs_at, occurs_in, text_lt,
};
use crate::text_laws::lemma_numbers_are_read_back;
use crate::toml_doc::TomlView;

verus! {

/// Whether a text is of ASCII letters and digits.
pub open spec fn is_word(s: Seq<char>) -> bool {
    forall|i: int|
        0 <= i < s.len() ==> {
            let c = #[trigger] s[i];
            'a' <= c <= 'z' || 'A' <= c <= 'Z' || '0' <= c <= '9'
        }
}

/// Whether a text has no ASCII letter or digit.
pub open spec fn is_between_words(s: Seq<char>) -> bool {
    forall|i: int|
        0 <= i < s.len() ==> {
            let c = #[trigger] s[i];
            !('a' <= c <= 'z' || 'A' <= c <= 'Z' || '0' <= c <= '9')
        }
}

proof fn lemma_word_raw(word: Seq<char>)
    requires
        is_word(word),
    ensures
        slug_raw(word) == ascii_lower_all(word),
    decreases word.len(),
{
    if word.len() > 0 {
        let front = word.drop_last();
        assert forall|i: int| 0 <= i < front.len() implies ({
            let c = #[trigger] front[i];
            'a' <= c <= 'z' || 'A' <= c <= 'Z' || '0' <= c <= '9'
        }) by {
            assert(front[i] == word[i]);
        }
        lemma_word_raw(front);
        assert(word.last() == word[word.len() - 1]);
        assert(is_alnum(word.last()));
        assert(slug_raw(word) =~= ascii_lower_all(word));
    } else {
        assert(slug_raw(word) =~= ascii_lower_all(word));
    }
}

proof fn lemma_gap_raw(before: Seq<char>, gap: Seq<char>)
    requires
        is_between_words(gap),
    ensures
        slug_raw(before + gap) == if gap.len() == 0 || slug_raw(before).len() == 0 || slug_raw(
            before,
        ).last() == '_' {
            slug_raw(before)
        } else {
            slug_raw(before).push('_')
        },
    decreases gap.len(),
{
    let all = before + gap;
    if gap.len() == 0 {
        assert(all =~= before);
    } else {
        let front = gap.drop_last();
        assert forall|i: int| 0 <= i < front.len() implies ({
            let c = #[trigger] front[i];
            !('a' <= c <= 'z' || 'A' <= c <= 'Z' || '0' <= c <= '9')
        }) by {
            assert(front[i] == gap[i]);
        }
        lemma_gap_raw(before, front);
        assert(all.drop_last() =~= before + front);
        assert(all.last() == gap[gap.len() - 1]);
        assert(!is_alnum(all.last()));
    }
}

proof fn lemma_no_underscore(word: Seq<char>)
    requires
        is_word(word),
        word.len() > 0,
    ensures
        ascii_lower_all(word).last() != '_',
{
    assert(ascii_lower_all(word).last() == ascii_lower(word[word.len() - 1]));
}

proof fn lemma_rest_raw(head: Seq<char>, rest: Seq<char>)
    requires
        rest.len() > 0,
        is_alnum(rest[0]),
        slug_raw(head).len() > 0,
        slug_raw(head).last() == '_',
    ensures
        slug_raw(head + rest) == slug_raw(head) + slug_raw(rest),
        slug_raw(rest).len() > 0,
        slug_raw(rest)[0] != '_',
    decreases rest.len(),
{
    let all = head + rest;
    let front = rest.drop_last();
    assert(all.drop_last() =~= head + front);
    assert(all.last() == rest.last());
    if rest.len() == 1 {
        assert(front =~= Seq::<char>::empty());
        assert(head + front =~= head);
        assert(slug_raw(front) =~= Seq::<char>::empty());
        assert(rest.last() == rest[0]);
        assert(slug_raw(all) =~= slug_raw(head) + slug_raw(rest));
        assert(slug_raw(rest) =~= seq![ascii_lower(rest[0])]);
    } else {
        assert(front[0] == rest[0]);
        lemma_rest_raw(head, front);
        let whole = slug_raw(head) + slug_raw(front);
        assert(whole.last() == slug_raw(front).last());
        assert(slug_raw(all) =~= slug_raw(head) + slug_raw(rest));
    }
}

/// The stem of a name has the words of the name in lower case, with one underscore for
/// whatever stands between two of them and nothing for what stands around them; a name
/// without a word is `rule`.
pub proof fn lemma_words_of_stems(before: Seq<char>, word: Seq<char>, between: Seq<char>, rest: Seq<char>)
    requires
        is_between_words(before),
        is_word(word),
        word.len() > 0,
        is_between_words(between),
        between.len() > 0,
        rest.len() > 0,
        is_word(seq![rest[0]]),
    ensures
        slug(before) == "rule"@,
        slug(before + word) == ascii_lower_all(word),
        slug(before + word + between) == ascii_lower_all(word),
        slug(before + word + between + rest) == ascii_lower_all(word) + seq!['_'] + slug(rest),
{
    let none = Seq::<char>::empty();
    let low = ascii_lower_all(word);
    assert(none + before =~= before);
    assert(slug_raw(none) =~= none);
    lemma_gap_raw(none, before);
    assert(slug_raw(before) =~= none);
    lemma_word_raw(word);
    lemma_no_underscore(word);
    lemma_front_raw(before, word);
    lemma_gap_raw(before + word, between);
    let head = before + word + between;
    assert(slug_raw(head) == low.push('_'));
    assert(low.push('_').drop_last() =~= low);
    assert(is_alnum(rest[0])) by {
        let c = seq![rest[0]][0];
        assert(c == rest[0]);
    }
    lemma_rest_raw(head, rest);
    let all = slug_raw(head + rest);
    let tail = slug_raw(rest);
    assert(all == low.push('_') + tail);
    assert(all.last() == tail.last());
    if tail.last() == '_' {
        assert(tail.drop_last().len() > 0) by {
            if tail.len() == 1 {
                assert(tail[0] == tail.last());
            }
        }
        assert(all.drop_last() =~= low + seq!['_'] + tail.drop_last());
    } else {
        assert(all =~= low + seq!['_'] + tail);
    }
}

proof fn lemma_front_raw(before: Seq<char>, word: Seq<char>)
    requires
        slug_raw(before).len() == 0,
        is_word(word),
    ensures
        slug_raw(before + word) == slug_raw(word),
    decreases word.len(),
{
    let all = before + word;
    if word.len() == 0 {
        assert(all =~= before);
        assert(slug_raw(word) =~= slug_raw(before));
    } else {
        let front = word.drop_last();
        assert forall|i: int| 0 <= i < front.len() implies ({
            let c = #[trigger] front[i];
            'a' <= c <= 'z' || 'A' <= c <= 'Z' || '0' <= c <= '9'
        }) by {
            assert(front[i] == word[i]);
        }
        lemma_front_raw(before, front);
        assert(all.drop_last() =~= before + front);
        assert(all.last() == word.last());
    }
}

/// Whether an entry of a directory is a file whose name ends in `.toml`.
pub open spec fn is_toml_file(e: DirEntryInfo) -> bool {
    e.is_file && extension_of(e.name@) == Some("toml"@)
}

proof fn lemma_toml_files(entries: Seq<DirEntryInfo>) -> (from: Seq<int>)
    ensures
        is_selection(entries, |e: DirEntryInfo| is_toml_file(e), from),
        from.len() == toml_file_names(entries).len(),
        forall|k: int|
            0 <= k < from.len() ==> toml_file_names(entries)[k] == entries[#[trigger] from[k]].name@,
    decreases entries.len(),
{
    if entries.len() == 0 {
        Seq::empty()
    } else {
        let front = entries.drop_last();
        let before = lemma_toml_files(front);
        let from = lemma_selection_grows(entries, |e: DirEntryInfo| is_toml_file(e), before);
        assert forall|k: int| 0 <= k < from.len() implies toml_file_names(entries)[k]
            == entries[#[trigger] from[k]].name@ by {
            if k < before.len() {
                assert(from[k] == before[k]);
                assert(front[before[k]] == entries[before[k]]);
                assert(toml_file_names(entries)[k] == toml_file_names(front)[k]);
            }
        }
        from
    }
}

/// The rule files of a directory are its files with names that end in `.toml`, and nothing
/// else, in the order of their names.
pub proof fn lemma_rule_files_of_directory(entries: Seq<DirEntryInfo>)
    ensures
        ({
            let listed = sorted_texts(toml_file_names(entries));
            &&& forall|i: int|
                0 <= i < entries.len() && is_toml_file(#[trigger] entries[i]) ==> listed.contains(
                    entries[i].name@,
                )
            &&& forall|k: int|
                0 <= k < listed.len() ==> exists|i: int|
                    0 <= i < entries.len() && is_toml_file(entries[i]) && #[trigger] listed[k] == (
                    #[trigger] entries[i]).name@
            &&& forall|j: int, k: int|
                0 <= j < k < listed.len() ==> !text_lt(#[trigger] listed[k], #[trigger] listed[j])
        }),
{
    let names = toml_file_names(entries);
    let listed = sorted_texts(names);
    let from = lemma_toml_files(entries);
    lemma_sorted_texts(names);
    assert forall|i: int| 0 <= i < entries.len() && is_toml_file(#[trigger] entries[i]) implies
        listed.contains(entries[i].name@) by {
        assert(from.contains(i));
        let k = choose|k: int| 0 <= k < from.len() && from[k] == i;
        assert(names[k] == entries[from[k]].name@);
        assert(names.contains(names[k]));
    }
    assert forall|k: int| 0 <= k < listed.len() implies exists|i: int|
        0 <= i < entries.len() && is_toml_file(entries[i]) && #[trigger] listed[k] == (
        #[trigger] entries[i]).name@ by {
        assert(listed.contains(listed[k]));
        assert(names.contains(listed[k]));
        let j = choose|j: int| 0 <= j < names.len() && names[j] == listed[k];
        assert(names[j] == entries[from[j]].name@);
        assert(is_toml_file(entries[from[j]]));
    }
}

proof fn lemma_pack(all: Seq<Seq<char>>)
    ensures
        match pack_rules(all) {
            Ok(rules) => rules.len() == all.len() && forall|i: int|
                0 <= i < all.len() ==> rule_of_text(#[trigger] all[i]) == Ok::<_, Seq<char>>(
                    rules[i],
                ),
            Err(e) => exists|i: int|
                0 <= i < all.len() && rule_of_text(#[trigger] all[i]) == Err::<
                    RuleView,
                    Seq<char>,
                >(e) && forall|j: int| 0 <= j < i ==> rule_of_text(#[trigger] all[j]) is Ok,
        },
    decreases all.len(),
{
    if all.len() > 0 {
        let n = all.len() - 1;
        let front = all.drop_last();
        lemma_pack(front);
        assert(all[n] == all.last());
        match pack_rules(front) {
            Ok(before) => {
                assert forall|i: int| 0 <= i < n implies rule_of_text(#[trigger] all[i]) == Ok::<
                    _,
                    Seq<char>,
                >(before[i]) by {
                    assert(front[i] == all[i]);
                }
                if let Ok(rules) = pack_rules(all) {
                    assert forall|i: int| 0 <= i < all.len() implies rule_of_text(
                        #[trigger] all[i],
                    ) == Ok::<_, Seq<char>>(rules[i]) by {
                        if i < n {
                            assert(rules[i] == before[i]);
                        }
                    }
                }
            },
            Err(e) => {
                let i = choose|i: int|
                    0 <= i < front.len() && rule_of_text(#[trigger] front[i]) == Err::<
                        RuleView,
                        Seq<char>,
                    >(e) && forall|j: int| 0 <= j < i ==> rule_of_text(#[trigger] front[j]) is Ok;
                assert(all[i] == front[i]);
                assert forall|j: int| 0 <= j < i implies rule_of_text(#[trigger] all[j]) is Ok by {
                    assert(front[j] == all[j]);
                }
            },
        }
    }
}

/// The rules that come with the library are those of the texts of its packs, one for each
/// text: first those for unified logs, then those for event logs, then those for journals.
pub proof fn lemma_rules_of_packs(
    aul: Seq<Seq<char>>,
    evtx: Seq<Seq<char>>,
    journald: Seq<Seq<char>>,
)
    ensures
        ({
            let all = aul + evtx + journald;
            match builtin_rules(aul, evtx, journald) {
                Ok(rules) => rules.len() == all.len() && forall|i: int|
                    0 <= i < all.len() ==> rule_of_text(#[trigger] all[i]) == Ok::<_, Seq<char>>(
                        rules[i],
                    ),
                Err(e) => exists|i: int|
                    0 <= i < all.len() && rule_of_text(#[trigger] all[i]) == Err::<
                        RuleView,
                        Seq<char>,
                    >(e),
            }
        }),
{
    let all = aul + evtx + journald;
    lemma_pack(aul);
    lemma_pack(evtx);
    lemma_pack(journald);
    match builtin_rules(aul, evtx, journald) {
        Ok(rules) => {
            let (a, b, c) = (
                pack_rules(aul)->Ok_0,
                pack_rules(evtx)->Ok_0,
                pack_rules(journald)->Ok_0,
            );
            assert forall|i: int| 0 <= i < all.len() implies rule_of_text(#[trigger] all[i])
                == Ok::<_, Seq<char>>(rules[i]) by {
                if i < aul.len() {
                    assert(all[i] == aul[i]);
                    assert(rules[i] == a[i]);
                } else if i < aul.len() + evtx.len() {
                    assert(all[i] == evtx[i - aul.len()]);
                    assert(rules[i] == b[i - aul.len()]);
                } else {
                    assert(all[i] == journald[i - aul.len() - evtx.len()]);
                    assert(rules[i] == c[i - aul.len() - evtx.len()]);
                }
            }
        },
        Err(e) => {
            if pack_rules(aul) is Err {
                let i = choose|i: int|
                    0 <= i < aul.len() && rule_of_text(#[trigger] aul[i]) == Err::<
                        RuleView,
                        Seq<char>,
                    >(e);
                assert(all[i] == aul[i]);
            } else if pack_rules(evtx) is Err {
                let i = choose|i: int|
                    0 <= i < evtx.len() && rule_of_text(#[trigger] evtx[i]) == Err::<
                        RuleView,
                        Seq<char>,
                    >(e);
                assert(all[aul.len() + i] == evtx[i]);
            } else {
                let i = choose|i: int|
                    0 <= i < journald.len() && rule_of_text(#[trigger] journald[i]) == Err::<
                        RuleView,
                        Seq<char>,
                    >(e);
                assert(all[aul.len() + evtx.len() + i] == journald[i]);
            }
        },
    }
}

/// A value is a number where it is written as one is in decimal, and a text otherwise.
pub proof fn lemma_numbers_and_texts(value: Seq<char>, n: i64)
    ensures
        condition_value(dec_int(n as int)) == TomlView::Integer(n),
        (forall|m: i64| value != #[trigger] dec_int(m as int)) ==> condition_value(value)
            == TomlView::Text(value),
{
    lemma_numbers_are_read_back(n as int);
    if forall|m: i64| value != #[trigger] dec_int(m as int) {
        if let Some(m) = plain_number(value) {
            assert(dec_int(m as int) == value);
        }
    }
}

/// A new rule on a text in messages asks for every entry with the text in its message,
/// whatever its kind of source.
pub proof fn lemma_new_rule_on_messages(sourcetype: Seq<char>, condition: RuleCondition, s: Subject)
    requires
        condition is MessageContains,
    ensures
        is_asked_for(sourcetype, condition, s) <==> (s.message matches Some(m) && exists|
            before: Seq<char>,
            after: Seq<char>,
        |
            m == #[trigger] (before + condition->MessageContains_0@ + after)),
{
    let needle = condition->MessageContains_0@;
    if let Some(m) = s.message {
        if occurs_in(m, needle) {
            let at = choose|at: int| #[trigger] occurs_at(m, needle, at);
            let (before, after) = (m.take(at), m.skip(at + needle.len()));
            assert(m =~= before + needle + after);
        }
        if exists|before: Seq<char>, after: Seq<char>| m == #[trigger] (before + needle + after) {
            let (before, after) = choose|before: Seq<char>, after: Seq<char>|
                m == #[trigger] (before + needle + after);
            let at = before.len() as int;
            assert(m.subrange(at, at + needle.len()) =~= needle);
            assert(occurs_at(m, needle, at));
        }
    }
}

/// What is written between the quotes of a string: each backslash and each quote behind a
/// backslash, and any other character as it is.
pub proof fn lemma_escapes(a: Seq<char>, b: Seq<char>)
    ensures
        escaped(a + b) == escaped(a) + escaped(b),
        !a.contains('\\') && !a.contains('"') ==> escaped(a) == a,
        escaped(seq!['\\']) == seq!['\\', '\\'],
        escaped(seq!['"']) == seq!['\\', '"'],
{
    lemma_escaped_parts(a, b);
    lemma_escaped_plain(a);
    let none = Seq::<char>::empty();
    assert(escaped(none) =~= none);
    assert(seq!['\\'].drop_last() =~= none && seq!['\\'].last() == '\\');
    assert(seq!['"'].drop_last() =~= none && seq!['"'].last() == '"');
    assert(escaped(seq!['\\']) =~= seq!['\\', '\\']);
    assert(escaped(seq!['"']) =~= seq!['\\', '"']);
}

proof fn lemma_escaped_parts(a: Seq<char>, b: Seq<char>)
    ensures
        escaped(a + b) == escaped(a) + escaped(b),
    decreases b.len(),
{
    let all = a + b;
    if b.len() == 0 {
        assert(all =~= a);
        assert(escaped(b) =~= Seq::<char>::empty());
        assert(escaped(a) + escaped(b) =~= escaped(a));
    } else {
        assert(all.drop_last() =~= a + b.drop_last());
        assert(all.last() == b.last());
        lemma_escaped_parts(a, b.drop_last());
        assert(escaped(all) =~= escaped(a) + escaped(b));
    }
}

proof fn lemma_escaped_plain(a: Seq<char>)
    ensures
        !a.contains('\\') && !a.contains('"') ==> escaped(a) == a,
    decreases a.len(),
{
    if a.len() > 0 && !a.contains('\\') && !a.contains('"') {
        let front = a.drop_last();
        assert(a.last() == a[a.len() - 1]);
        assert(!front.contains('\\')) by {
            if front.contains('\\') {
                let i = choose|i: int| 0 <= i < front.len() && front[i] == '\\';
                assert(a[i] == '\\');
            }
        }
        assert(!front.contains('"')) by {
            if front.contains('"') {
                let i = choose|i: int| 0 <= i < front.len() && front[i] == '"';
                assert(a[i] == '"');
            }
        }
        lemma_escaped_plain(front);
        assert(escaped(a) =~= a);
    } else if a.len() == 0 {
        assert(escaped(a) =~= a);
    }
}

} // verus!
