//! The parsers, one module for each kind of source, and their configuration.

pub mod aul;
pub mod biome;
pub mod builtin_text_formats;
pub mod evtx;
pub mod evtx_messages;
pub mod evtx_templates;
pub mod intrusion_events;
pub mod intrusion_log;
pub mod journald;
pub mod journald_failures;
pub mod journald_objects;
pub mod saved_formats;
pub mod text_config;
pub mod text_config_file;
pub mod text_failures;
pub mod text_records;

use vstd::prelude::*;

use crate::model::{
    assign_event_ids, log_entries_view, numbered_entries, records_view, LogEntry, ParsedRecord,
};
use crate::plain_toml::PlainDocument;
use crate::text::same;
use crate::toml_doc::{
    lemma_toml_entries, need_table, need_text, parse_toml, parsed_toml, required_table,
    required_text, toml_entries, Toml, TomlView,
};

verus! {

/// The configuration of one parser.
#[derive(Debug)]
pub struct ParserConfig {
    pub parser: ParserConfigBody,
}

/// What the configuration of a parser says: what all parsers need, and the rest
/// as it stands, which each parser reads for itself.
#[derive(Debug)]
pub struct ParserConfigBody {
    pub name: String,
    pub sourcetype: String,
    pub extra: Vec<(String, Toml)>,
}

/// The view of a [`ParserConfig`].
#[verifier::ext_equal]
pub struct ConfigView {
    pub name: Seq<char>,
    pub sourcetype: Seq<char>,
    pub extra: Seq<(Seq<char>, TomlView)>,
}

impl View for ParserConfig {
    type V = ConfigView;

    open spec fn view(&self) -> ConfigView {
        ConfigView {
            name: self.parser.name@,
            sourcetype: self.parser.sourcetype@,
            extra: toml_entries(self.parser.extra@),
        }
    }
}

/// Why a text is no configuration.
#[derive(Debug)]
pub struct ParserConfigError {
    pub reason: String,
}

impl ParserConfigError {
    /// The problem in words.
    pub fn message(&self) -> (r: String)
        ensures
            r@ == "invalid parser config: "@ + self.reason@,
    {
        let mut s = "invalid parser config: ".to_owned();
        s.append(self.reason.as_str());
        s
    }
}

/// The entries that are neither the name nor the kind of source.
pub open spec fn extra_entries(entries: Seq<(Seq<char>, TomlView)>) -> Seq<(Seq<char>, TomlView)>
    decreases entries.len(),
{
    if entries.len() == 0 {
        seq![]
    } else {
        let before = extra_entries(entries.drop_last());
        if entries.last().0 == "name"@ || entries.last().0 == "sourcetype"@ {
            before
        } else {
            before.push(entries.last())
        }
    }
}

/// The configuration that a document holds, or why it holds none.
pub open spec fn config_of(doc: TomlView) -> Result<ConfigView, Seq<char>> {
    match required_table(doc, "parser"@) {
        Err(e) => Err(e),
        Ok(entries) => {
            let body = TomlView::Table(entries);
            match (required_text(body, "name"@), required_text(body, "sourcetype"@)) {
                (Ok(name), Ok(sourcetype)) => Ok(
                    ConfigView { name, sourcetype, extra: extra_entries(entries) },
                ),
                (Err(e), _) => Err(e),
                (_, Err(e)) => Err(e),
            }
        },
    }
}

/// The configuration that a text holds, or why it holds none.
pub open spec fn config_of_text(text: Seq<char>) -> Result<ConfigView, Seq<char>> {
    match parsed_toml(text) {
        Ok(doc) => config_of(doc),
        Err(e) => Err(e),
    }
}

fn copy_extra(entries: &Vec<(String, Toml)>) -> (r: Vec<(String, Toml)>)
    ensures
        toml_entries(r@) == extra_entries(toml_entries(entries@)),
{
    let ghost all = toml_entries(entries@);
    let mut r: Vec<(String, Toml)> = Vec::new();
    let mut i: usize = 0;
    assert(toml_entries(r@) =~= seq![]);
    while i < entries.len()
        invariant
            i <= entries.len(),
            all == toml_entries(entries@),
            toml_entries(r@) == extra_entries(all.take(i as int)),
        decreases entries.len() - i,
    {
        let ghost before = r@;
        proof {
            lemma_toml_entries(entries@);
            let next = all.take(i + 1);
            assert(next.drop_last() == all.take(i as int));
            assert(next.last() == (entries@[i as int].0@, entries@[i as int].1@));
        }
        if !same(entries[i].0.as_str(), "name") && !same(entries[i].0.as_str(), "sourcetype") {
            let name = entries[i].0.clone();
            let value = entries[i].1.clone();
            r.push((name, value));
            proof {
                lemma_toml_entries(r@);
                lemma_toml_entries(before);
                assert(toml_entries(r@) =~= toml_entries(before).push((name@, value@)));
            }
        }
        i += 1;
    }
    assert(all.take(i as int) == all);
    r
}

/// The configuration that a document holds, or why it holds none.
pub fn config_from_document(doc: &Toml) -> (r: Result<ParserConfig, String>)
    ensures
        match r {
            Ok(c) => config_of(doc@) == Ok::<ConfigView, Seq<char>>(c@),
            Err(e) => config_of(doc@) == Err::<ConfigView, Seq<char>>(e@),
        },
{
    let body = match need_table(doc, "parser") {
        Ok(body) => body,
        Err(e) => {
            return Err(e);
        },
    };
    let name = match need_text(body, "name") {
        Ok(s) => s,
        Err(e) => {
            return Err(e);
        },
    };
    let sourcetype = match need_text(body, "sourcetype") {
        Ok(s) => s,
        Err(e) => {
            return Err(e);
        },
    };
    let extra = match body {
        Toml::Table(entries) => copy_extra(entries),
        _ => Vec::new(),
    };
    Ok(ParserConfig { parser: ParserConfigBody { name, sourcetype, extra } })
}

impl ParserConfig {
    /// The configuration that a text holds, or why it holds none. Of a plain document
    /// it is read from what was written.
    pub fn from_toml_str(s: &str) -> (r: Result<ParserConfig, ParserConfigError>)
        ensures
            match r {
                Ok(c) => config_of_text(s@) == Ok::<ConfigView, Seq<char>>(c@),
                Err(e) => config_of_text(s@) == Err::<ConfigView, Seq<char>>(e.reason@),
            },
            forall|doc: PlainDocument|
                s@ == #[trigger] doc.text() && doc.is_plain() ==> match r {
                    Ok(c) => exists|v: TomlView| #[trigger]
                        doc.is_held_by(v) && config_of(v) == Ok::<ConfigView, Seq<char>>(c@),
                    Err(e) => exists|v: TomlView| #[trigger]
                        doc.is_held_by(v) && config_of(v) == Err::<ConfigView, Seq<char>>(e.reason@),
                },
    {
        match parse_toml(s) {
            Ok(doc) => match config_from_document(&doc) {
                Ok(c) => Ok(c),
                Err(reason) => Err(ParserConfigError { reason }),
            },
            Err(reason) => Err(ParserConfigError { reason }),
        }
    }
}

/// The entries of a source that was parsed, each with its identity: that of the
/// source, and its place in the order of the records, counted from 0.
pub fn parse_source(parsed: Result<Vec<ParsedRecord>, String>, source_file_id: &str) -> (r: Result<
    Vec<LogEntry>,
    String,
>)
    ensures
        match (parsed, r) {
            (Ok(records), Ok(entries)) => log_entries_view(entries@) == numbered_entries(
                records_view(records@),
                source_file_id@,
            ),
            (Err(e), Err(got)) => got@ == e@,
            _ => false,
        },
{
    match parsed {
        Ok(records) => Ok(assign_event_ids(records, source_file_id)),
        Err(e) => Err(e),
    }
}

} // verus!
