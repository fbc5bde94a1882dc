//! What the configurations of text formats say, name by name, and which of them are listed.

use vstd::prelude::*;

use crate::order::{comes_before, lemma_stable_order, reordered, stable_order};
use crate::parsers::text_config::{fields_of, mapped_group, text_entries, FieldsView};
use crate::parsers::text_config_file::{
    draft_document, draft_of, mapping_entries, pattern_entries, saved_found, saved_in, saved_keys,
    with_optional, with_text, ConfigFile, DraftView, SavedView,
};
use crate::parsers::{config_of, config_of_text, extra_entries, ConfigView};
use crate::selection::{is_selection, lemma_selection_grows};
use crate::text::{extension_of, lemma_text_order, text_lt, trimmed};
use crate::toml_doc::{entry, TomlView};

verus! {

/// An entry more: it is found where none of its name stands before it.
pub proof fn lemma_entry_more(
    entries: Seq<(Seq<char>, TomlView)>,
    more: (Seq<char>, TomlView),
    key: Seq<char>,
)
    ensures
        entry(entries.push(more), key) == if entry(entries, key) is Some {
            entry(entries, key)
        } else if more.0 == key {
            Some(more.1)
        } else {
            None
        },
    decreases entries.len(),
{
    let all = entries.push(more);
    if entries.len() == 0 {
        assert(all.drop_first() =~= Seq::<(Seq<char>, TomlView)>::empty());
        assert(entry(all.drop_first(), key) is None);
        assert(all[0] == more);
    } else {
        assert(all[0] == entries[0]);
        assert(all.drop_first() =~= entries.drop_first().push(more));
        lemma_entry_more(entries.drop_first(), more, key);
    }
}

proof fn lemma_extra(entries: Seq<(Seq<char>, TomlView)>, key: Seq<char>)
    ensures
        entry(extra_entries(entries), key) == if key == "name"@ || key == "sourcetype"@ {
            None
        } else {
            entry(entries, key)
        },
    decreases entries.len(),
{
    if entries.len() > 0 {
        let front = entries.drop_last();
        lemma_extra(front, key);
        assert(entries =~= front.push(entries.last()));
        lemma_entry_more(front, entries.last(), key);
        lemma_entry_more(extra_entries(front), entries.last(), key);
    }
}

/// Whether a configuration says what the table of its document does: its name, its kind of
/// source, and under every other name the same.
pub open spec fn is_config_of(c: ConfigView, body: Seq<(Seq<char>, TomlView)>) -> bool {
    &&& entry(body, "name"@) == Some(TomlView::Text(c.name))
    &&& entry(body, "sourcetype"@) == Some(TomlView::Text(c.sourcetype))
    &&& entry(c.extra, "name"@) is None
    &&& entry(c.extra, "sourcetype"@) is None
    &&& forall|key: Seq<char>|
        key != "name"@ && key != "sourcetype"@ ==> #[trigger] entry(c.extra, key) == entry(body, key)
}

/// A configuration is what its document says.
pub proof fn lemma_config_is_its_document(doc: TomlView)
    ensures
        config_of(doc) matches Ok(c) ==> (doc.get("parser"@) matches Some(TomlView::Table(body))
            && is_config_of(c, body)),
{
    if let Ok(c) = config_of(doc) {
        let body = doc.get("parser"@)->0->Table_0;
        lemma_extra(body, "name"@);
        lemma_extra(body, "sourcetype"@);
        assert forall|key: Seq<char>| key != "name"@ && key != "sourcetype"@ implies
            #[trigger] entry(c.extra, key) == entry(body, key) by {
            lemma_extra(body, key);
        }
    }
}

proof fn lemma_text_entries(entries: Seq<(Seq<char>, TomlView)>)
    ensures
        text_entries(entries) matches Ok(all) ==> all.len() == entries.len() && forall|i: int|
            0 <= i < entries.len() ==> (#[trigger] entries[i]) == (all[i].0, TomlView::Text(all[i].1)),
    decreases entries.len(),
{
    if entries.len() > 0 {
        let front = entries.drop_last();
        lemma_text_entries(front);
        if let Ok(all) = text_entries(entries) {
            assert forall|i: int| 0 <= i < entries.len() implies (#[trigger] entries[i]) == (
                all[i].0,
                TomlView::Text(all[i].1),
            ) by {
                if i < entries.len() - 1 {
                    assert(front[i] == entries[i]);
                    assert(all[i] == text_entries(front)->Ok_0[i]);
                } else {
                    assert(entries[i] == entries.last());
                }
            }
        }
    }
}

proof fn lemma_mapped(
    entries: Seq<(Seq<char>, TomlView)>,
    mapping: Seq<(Seq<char>, Seq<char>)>,
    target: Seq<char>,
)
    requires
        mapping.len() == entries.len(),
        forall|i: int|
            0 <= i < entries.len() ==> (#[trigger] entries[i]) == (
                mapping[i].0,
                TomlView::Text(mapping[i].1),
            ),
    ensures
        entry(entries, target) == match mapped_group(mapping, target) {
            Some(group) => Some(TomlView::Text(group)),
            None => None,
        },
    decreases entries.len(),
{
    if entries.len() > 0 {
        assert(entries[0] == (mapping[0].0, TomlView::Text(mapping[0].1)));
        let (e, m) = (entries.drop_first(), mapping.drop_first());
        assert forall|i: int| 0 <= i < e.len() implies (#[trigger] e[i]) == (
            m[i].0,
            TomlView::Text(m[i].1),
        ) by {
            assert(e[i] == entries[i + 1]);
        }
        lemma_mapped(e, m, target);
    }
}

/// Whether an entry is a text, or missing where there is none.
pub open spec fn is_text_or_missing(found: Option<TomlView>, text: Option<Seq<char>>) -> bool {
    match text {
        Some(s) => found == Some(TomlView::Text(s)),
        None => found is None,
    }
}

/// What a text format says is what the tables of its configuration do.
pub proof fn lemma_format_is_its_tables(
    extra: Seq<(Seq<char>, TomlView)>,
    pattern: Seq<(Seq<char>, TomlView)>,
)
    requires
        entry(extra, "pattern"@) == Some(TomlView::Table(pattern)),
    ensures
        fields_of(extra) matches Ok(f) ==> {
            &&& entry(pattern, "regex"@) == Some(TomlView::Text(f.regex))
            &&& entry(pattern, "timestamp_format"@) == Some(TomlView::Text(f.timestamp_format))
            &&& is_text_or_missing(
                entry(pattern, "multiline_start_pattern"@),
                f.multiline_start_pattern,
            )
            &&& is_text_or_missing(entry(pattern, "assume_offset"@), f.assume_offset)
            &&& match f.assume_year {
                Some(y) => entry(pattern, "assume_year"@) == Some(TomlView::Integer(y as i64)),
                None => entry(pattern, "assume_year"@) is None,
            }
            &&& match entry(extra, "field_mapping"@) {
                Some(TomlView::Table(mapping)) => forall|target: Seq<char>|
                    is_text_or_missing(
                        entry(mapping, target),
                        #[trigger] mapped_group(f.field_mapping, target),
                    ),
                None => forall|target: Seq<char>|
                    (#[trigger] mapped_group(f.field_mapping, target)) is None,
                _ => false,
            }
        },
{
    if let Ok(f) = fields_of(extra) {
        if let Some(TomlView::Table(mapping)) = entry(extra, "field_mapping"@) {
            lemma_text_entries(mapping);
            assert forall|target: Seq<char>| is_text_or_missing(
                entry(mapping, target),
                #[trigger] mapped_group(f.field_mapping, target),
            ) by {
                lemma_mapped(mapping, f.field_mapping, target);
            }
        }
    }
}

/// Whether a text of a draft is one that may be missing, and empty where it is.
pub open spec fn is_or_empty(text: Seq<char>, source: Option<Seq<char>>) -> bool {
    match source {
        Some(s) => text == s,
        None => text.len() == 0,
    }
}

/// A draft says what its configuration does. Its groups are those that the level and the
/// message are mapped to.
pub proof fn lemma_draft_is_its_config(c: ConfigView, f: FieldsView)
    ensures
        ({
            let d = draft_of(c, f);
            &&& d.name == c.name
            &&& d.sourcetype == c.sourcetype
            &&& d.regex == f.regex
            &&& d.timestamp_format == f.timestamp_format
            &&& is_or_empty(d.multiline_start_pattern, f.multiline_start_pattern)
            &&& is_or_empty(d.assume_offset, f.assume_offset)
            &&& is_or_empty(d.level_group, mapped_group(f.field_mapping, "level"@))
            &&& is_or_empty(d.message_group, mapped_group(f.field_mapping, "message"@))
        }),
{
}

/// Whether an entry is a text without the blanks around it, or missing where it is blank.
pub open spec fn is_unless_blank(found: Option<TomlView>, text: Seq<char>) -> bool {
    found == if trimmed(text).len() == 0 {
        None
    } else {
        Some(TomlView::Text(trimmed(text)))
    }
}

proof fn lemma_names()
    ensures
        "name"@.len() == 4,
        "sourcetype"@.len() == 10,
        "regex"@.len() == 5 && "regex"@[0] == 'r',
        "timestamp_format"@.len() == 16,
        "multiline_start_pattern"@.len() == 23,
        "assume_offset"@.len() == 13 && "assume_offset"@[0] == 'a',
        "level"@.len() == 5 && "level"@[0] == 'l',
        "message"@.len() == 7 && "message"@[0] == 'm',
        "pattern"@.len() == 7 && "pattern"@[0] == 'p',
        "field_mapping"@.len() == 13 && "field_mapping"@[0] == 'f',
{
    reveal_strlit("name");
    reveal_strlit("sourcetype");
    reveal_strlit("regex");
    reveal_strlit("timestamp_format");
    reveal_strlit("multiline_start_pattern");
    reveal_strlit("assume_offset");
    reveal_strlit("level");
    reveal_strlit("message");
    reveal_strlit("pattern");
    reveal_strlit("field_mapping");
}

proof fn lemma_with_text(
    entries: Seq<(Seq<char>, TomlView)>,
    key: Seq<char>,
    value: Seq<char>,
    wanted: Seq<char>,
)
    ensures
        entry(with_text(entries, key, value), wanted) == if entry(entries, wanted) is Some {
            entry(entries, wanted)
        } else if key == wanted {
            Some(TomlView::Text(trimmed(value)))
        } else {
            None
        },
        entry(with_optional(entries, key, value), wanted) == if entry(entries, wanted) is Some {
            entry(entries, wanted)
        } else if key == wanted && trimmed(value).len() > 0 {
            Some(TomlView::Text(trimmed(value)))
        } else {
            None
        },
{
    lemma_entry_more(entries, (key, TomlView::Text(trimmed(value))), wanted);
}

proof fn lemma_pattern_written(d: DraftView, wanted: Seq<char>)
    ensures
        entry(pattern_entries(d), wanted) == if wanted == "regex"@ {
            Some(TomlView::Text(trimmed(d.regex)))
        } else if wanted == "timestamp_format"@ {
            Some(TomlView::Text(trimmed(d.timestamp_format)))
        } else if wanted == "multiline_start_pattern"@ && trimmed(d.multiline_start_pattern).len()
            > 0 {
            Some(TomlView::Text(trimmed(d.multiline_start_pattern)))
        } else if wanted == "assume_offset"@ && trimmed(d.assume_offset).len() > 0 {
            Some(TomlView::Text(trimmed(d.assume_offset)))
        } else {
            None
        },
{
    lemma_names();
    let none = Seq::<(Seq<char>, TomlView)>::empty();
    let a = with_text(none, "regex"@, d.regex);
    let b = with_text(a, "timestamp_format"@, d.timestamp_format);
    let c = with_optional(b, "multiline_start_pattern"@, d.multiline_start_pattern);
    assert(entry(none, wanted) is None);
    lemma_with_text(none, "regex"@, d.regex, wanted);
    lemma_with_text(a, "timestamp_format"@, d.timestamp_format, wanted);
    lemma_with_text(b, "multiline_start_pattern"@, d.multiline_start_pattern, wanted);
    lemma_with_text(c, "assume_offset"@, d.assume_offset, wanted);
}

/// The file of a draft says what the draft does, each text under its name and without the
/// blanks around it. What may be blank and is, is left out.
pub proof fn lemma_draft_is_written(d: DraftView)
    ensures
        ({
            let doc = draft_document(d);
            let pattern = pattern_entries(d);
            let mapping = mapping_entries(d);
            &&& doc.name == "parser"@
            &&& entry(doc.entries, "name"@) == Some(TomlView::Text(trimmed(d.name)))
            &&& entry(doc.entries, "sourcetype"@) == Some(TomlView::Text(trimmed(d.sourcetype)))
            &&& doc.tables.len() > 0
            &&& doc.tables[0] == ("pattern"@, pattern)
            &&& entry(pattern, "regex"@) == Some(TomlView::Text(trimmed(d.regex)))
            &&& entry(pattern, "timestamp_format"@) == Some(
                TomlView::Text(trimmed(d.timestamp_format)),
            )
            &&& is_unless_blank(
                entry(pattern, "multiline_start_pattern"@),
                d.multiline_start_pattern,
            )
            &&& is_unless_blank(entry(pattern, "assume_offset"@), d.assume_offset)
            &&& trimmed(d.level_group).len() == 0 && trimmed(d.message_group).len() == 0
                ==> doc.tables.len() == 1
            &&& trimmed(d.level_group).len() > 0 || trimmed(d.message_group).len() > 0
                ==> doc.tables.len() == 2 && doc.tables[1] == ("field_mapping"@, mapping)
            &&& is_unless_blank(entry(mapping, "level"@), d.level_group)
            &&& is_unless_blank(entry(mapping, "message"@), d.message_group)
        }),
{
    lemma_names();
    let none = Seq::<(Seq<char>, TomlView)>::empty();
    let a = with_text(none, "name"@, d.name);
    assert(entry(none, "name"@) is None && entry(none, "sourcetype"@) is None);
    lemma_with_text(none, "name"@, d.name, "name"@);
    lemma_with_text(none, "name"@, d.name, "sourcetype"@);
    lemma_with_text(a, "sourcetype"@, d.sourcetype, "name"@);
    lemma_with_text(a, "sourcetype"@, d.sourcetype, "sourcetype"@);
    lemma_pattern_written(d, "regex"@);
    lemma_pattern_written(d, "timestamp_format"@);
    lemma_pattern_written(d, "multiline_start_pattern"@);
    lemma_pattern_written(d, "assume_offset"@);
    let m = with_optional(none, "level"@, d.level_group);
    assert(entry(none, "level"@) is None && entry(none, "message"@) is None);
    lemma_with_text(none, "level"@, d.level_group, "level"@);
    lemma_with_text(none, "level"@, d.level_group, "message"@);
    lemma_with_text(m, "message"@, d.message_group, "level"@);
    lemma_with_text(m, "message"@, d.message_group, "message"@);
}

/// Whether a file holds a saved configuration: its name ends in `.toml`, it can be read, and
/// its text is a configuration.
pub open spec fn holds_config(file: ConfigFile) -> bool {
    &&& extension_of(file.file_name@) == Some("toml"@)
    &&& file.text matches Some(text) && config_of_text(text@) is Ok
}

/// Whether a saved configuration is the one of a file.
pub open spec fn is_config_in(s: SavedView, file: ConfigFile) -> bool {
    &&& s.path == file.file_name@
    &&& file.text matches Some(text) && config_of_text(text@) matches Ok(c) && s.name == c.name
        && s.sourcetype == c.sourcetype
}

proof fn lemma_saved(files: Seq<ConfigFile>) -> (from: Seq<int>)
    ensures
        is_selection(files, |f: ConfigFile| holds_config(f), from),
        from.len() == saved_found(files).len(),
        forall|k: int|
            0 <= k < from.len() ==> is_config_in(saved_found(files)[k], files[#[trigger] from[k]]),
    decreases files.len(),
{
    if files.len() == 0 {
        Seq::empty()
    } else {
        let front = files.drop_last();
        let before = lemma_saved(front);
        assert(holds_config(files.last()) == (saved_in(files.last()) is Some));
        let from = lemma_selection_grows(files, |f: ConfigFile| holds_config(f), before);
        assert forall|k: int| 0 <= k < from.len() implies is_config_in(
            saved_found(files)[k],
            files[#[trigger] from[k]],
        ) by {
            if k < before.len() {
                assert(from[k] == before[k]);
                assert(front[before[k]] == files[before[k]]);
                assert(saved_found(files)[k] == saved_found(front)[k]);
            }
        }
        from
    }
}

/// The saved configurations are those of the files that hold one, each once, in the order of
/// their names.
pub proof fn lemma_saved_configs_in_order(files: Seq<ConfigFile>) -> (order: Seq<int>)
    ensures
        ({
            let found = saved_found(files);
            let listed = reordered(found, stable_order(saved_keys(found)));
            &&& listed.len() == order.len()
            &&& forall|k: int|
                0 <= k < order.len() ==> 0 <= #[trigger] order[k] < files.len() && holds_config(
                    files[order[k]],
                ) && is_config_in(listed[k], files[order[k]])
            &&& forall|i: int|
                0 <= i < files.len() && holds_config(#[trigger] files[i]) ==> order.contains(i)
            &&& forall|j: int, k: int|
                0 <= j < k < order.len() ==> #[trigger] order[j] != #[trigger] order[k] && !text_lt(
                    listed[k].name,
                    listed[j].name,
                )
        }),
{
    let from = lemma_saved(files);
    let found = saved_found(files);
    let keys = saved_keys(found);
    let by = stable_order(keys);
    lemma_stable_order(keys);
    let listed = reordered(found, by);
    let order = by.map_values(|j: int| from[j]);
    assert forall|k: int| 0 <= k < order.len() implies 0 <= #[trigger] order[k] < files.len()
        && holds_config(files[order[k]]) && is_config_in(listed[k], files[order[k]]) by {
        assert(0 <= by[k] < keys.len());
        assert(order[k] == from[by[k]]);
        assert(listed[k] == found[by[k]]);
    }
    assert forall|i: int| 0 <= i < files.len() && holds_config(#[trigger] files[i]) implies
        order.contains(i) by {
        assert(from.contains(i));
        let j = choose|j: int| 0 <= j < from.len() && from[j] == i;
        assert(by.contains(j));
        let k = choose|k: int| 0 <= k < by.len() && by[k] == j;
        assert(order[k] == i);
    }
    assert forall|j: int, k: int| 0 <= j < k < order.len() implies #[trigger] order[j]
        != #[trigger] order[k] && !text_lt(listed[k].name, listed[j].name) by {
        let (x, y) = (by[j], by[k]);
        assert(0 <= x < keys.len() && 0 <= y < keys.len());
        assert(comes_before(keys, x, y));
        assert(x != y);
        assert(from[x] != from[y]);
        assert(keys[x].text == found[x].name && keys[y].text == found[y].name);
        lemma_text_order(found[x].name, found[y].name, found[x].name);
    }
    order
}

} // verus!
