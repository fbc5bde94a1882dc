//! Which documents hold rules, manifests and the like.

use vstd::prelude::*;

use crate::parsers::text_config::fields_of;
use crate::parsers::{config_of, ConfigView};
use crate::session::portable_case::{case_of, sources_in};
use crate::tagging::pack_bundle::manifest_of;
use crate::tagging::rule::rule_of;
use crate::time::iso_instant;
use crate::toml_doc::{entry, TomlView};

verus! {

/// Whether a table has a text of a name.
pub open spec fn has_text(body: Seq<(Seq<char>, TomlView)>, key: Seq<char>) -> bool {
    entry(body, key) matches Some(TomlView::Text(_))
}

/// Whether a table has a text of a name or nothing of it.
pub open spec fn may_have_text(body: Seq<(Seq<char>, TomlView)>, key: Seq<char>) -> bool {
    entry(body, key) is None || has_text(body, key)
}

/// A document with a table for a rule holds one if and only if the table has a name, a table
/// of conditions and a tag with a value; a description and a version are texts where they are
/// there.
pub proof fn lemma_documents_of_rules(
    doc: TomlView,
    body: Seq<(Seq<char>, TomlView)>,
    tag: Seq<(Seq<char>, TomlView)>,
)
    requires
        doc.get("rule"@) == Some(TomlView::Table(body)),
        entry(body, "tag"@) == Some(TomlView::Table(tag)),
    ensures
        rule_of(doc) is Ok <==> has_text(body, "name"@) && may_have_text(body, "description"@)
            && may_have_text(body, "version"@) && (entry(body, "match"@) matches Some(
            TomlView::Table(_),
        )) && has_text(tag, "value"@),
{
}

/// A document without a rule, or whose rule has no tag, holds none.
pub proof fn lemma_documents_without_rules(doc: TomlView)
    ensures
        doc.get("rule"@) is None ==> rule_of(doc) is Err,
        (doc.get("rule"@) matches Some(TomlView::Table(body)) && entry(body, "tag"@) is None)
            ==> rule_of(doc) is Err,
{
}

/// A document that lists no files holds a manifest if and only if its table for the pack has
/// a version, a date and a demand.
pub proof fn lemma_documents_of_manifests(doc: TomlView, pack: Seq<(Seq<char>, TomlView)>)
    requires
        doc.get("pack"@) == Some(TomlView::Table(pack)),
        doc.get("files"@) is None,
    ensures
        manifest_of(doc) is Ok <==> (entry(pack, "pack_version"@) matches Some(TomlView::Integer(n))
            && 0 <= n <= u32::MAX) && has_text(pack, "released_at"@) && has_text(
            pack,
            "min_peach_version"@,
        ),
{
}

/// A document holds a configuration if and only if its table for the parser has a name and a
/// kind of source.
pub proof fn lemma_documents_of_configs(doc: TomlView)
    ensures
        config_of(doc) is Ok <==> (doc.get("parser"@) matches Some(TomlView::Table(body))
            && has_text(body, "name"@) && has_text(body, "sourcetype"@)),
{
}

/// A configuration without a mapping is one of a text format if and only if its table for
/// the pattern has an expression and a format of times; what else it may have are texts, and
/// a year that is a number of 32 bits.
pub proof fn lemma_configs_of_formats(c: ConfigView, pattern: Seq<(Seq<char>, TomlView)>)
    requires
        entry(c.extra, "pattern"@) == Some(TomlView::Table(pattern)),
        entry(c.extra, "field_mapping"@) is None,
    ensures
        fields_of(c.extra) is Ok <==> has_text(pattern, "regex"@) && has_text(
            pattern,
            "timestamp_format"@,
        ) && may_have_text(pattern, "multiline_start_pattern"@) && may_have_text(
            pattern,
            "assume_offset"@,
        ) && match entry(pattern, "assume_year"@) {
            None => true,
            Some(TomlView::Integer(y)) => i32::MIN <= y <= i32::MAX,
            _ => false,
        },
{
}

/// A document without sources in its list holds a case if and only if it has all the rest.
pub proof fn lemma_documents_of_cases(
    body: Seq<(Seq<char>, TomlView)>,
    hashes: Seq<(Seq<char>, TomlView)>,
)
    requires
        entry(body, "hashes"@) == Some(TomlView::Table(hashes)),
        entry(body, "sources"@) == Some(TomlView::Array(Seq::empty())),
    ensures
        case_of(TomlView::Table(body)) is Ok <==> (entry(body, "format_version"@) matches Some(
            TomlView::Integer(n),
        ) && 0 <= n <= u32::MAX) && has_text(body, "peach_version"@) && (entry(
            body,
            "exported_at"@,
        ) matches Some(TomlView::Text(time)) && iso_instant(time) is Ok) && has_text(
            body,
            "original_session_id"@,
        ) && may_have_text(body, "display_name"@) && has_text(body, "filter_query"@) && has_text(
            hashes,
            "duckdb_sha256"@,
        ) && has_text(hashes, "sqlite_sha256"@),
{
    assert(sources_in(Seq::<TomlView>::empty()) is Ok);
}

} // verus!
