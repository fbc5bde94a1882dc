//! Formats of common text logs, as starting points for drafts: each has the text
//! of a configuration file.

use vstd::prelude::*;

use crate::parsers::text_config_file::{
    draft_file, draft_of_text, is_writable_draft, trimmed_draft, DraftView, TextFormatDraft,
};
use crate::plain_toml::is_plain_text;
use crate::text::trimmed;

verus! {

/// The lines of [`apache_combined`].
pub const APACHE_COMBINED_REGEX: &'static str = r#"^(?P<ip>\S+) (?P<ident>\S+) (?P<user>\S+) \[(?P<timestamp>[^\]]+)\] "(?P<request>[^"]*)" (?P<status>\d{3}) (?P<bytes>\S+) "(?P<referer>[^"]*)" "(?P<agent>[^"]*)"$"#;

/// The lines of [`apache_common`].
pub const APACHE_COMMON_REGEX: &'static str = r#"^(?P<ip>\S+) (?P<ident>\S+) (?P<user>\S+) \[(?P<timestamp>[^\]]+)\] "(?P<request>[^"]*)" (?P<status>\d{3}) (?P<bytes>\S+)$"#;

/// The lines of [`generic_timestamp`].
pub const GENERIC_TIMESTAMP_REGEX: &'static str = r"(?s)^(?P<timestamp>\d{4}-\d{2}-\d{2} \d{2}:\d{2}:\d{2}(?:\.\d+)?) (?P<msg>.*)$";

/// The first lines of the records of [`generic_timestamp`].
pub const GENERIC_TIMESTAMP_START: &'static str = r"^\d{4}-\d{2}-\d{2} \d{2}:\d{2}:\d{2}";

/// The lines of [`logcat`].
pub const LOGCAT_REGEX: &'static str = r"^(?P<timestamp>\d{2}-\d{2} \d{2}:\d{2}:\d{2}\.\d+) +(?P<pid>\d+) +(?P<tid>\d+) (?P<priority>[VDIWEFS]) (?P<tag>.*?) *: (?P<msg>.*)$";

/// The lines of [`nginx_access`].
pub const NGINX_ACCESS_REGEX: &'static str = r#"^(?P<ip>\S+) - (?P<user>\S+) \[(?P<timestamp>[^\]]+)\] "(?P<request>[^"]*)" (?P<status>\d{3}) (?P<bytes>\d+) "(?P<referer>[^"]*)" "(?P<agent>[^"]*)"$"#;

/// The lines of [`pacman`].
pub const PACMAN_REGEX: &'static str = r"^\[(?P<timestamp>[^\]]+)\] \[(?P<category>[^\]]+)\] (?P<msg>.*)$";

/// The lines of [`syslog`].
pub const SYSLOG_REGEX: &'static str = r"^(?P<timestamp>\w{3} +\d{1,2} \d{2}:\d{2}:\d{2}) (?P<host>\S+) (?P<process>[^\s:\[]+)(?:\[(?P<pid>\d+)\])?: (?P<msg>.*)$";

/// The combined log format of the Apache web server.
pub open spec fn apache_combined() -> DraftView {
    DraftView {
        name: "Apache combined log"@,
        sourcetype: "apache_combined"@,
        regex: APACHE_COMBINED_REGEX@,
        timestamp_format: "%d/%b/%Y:%H:%M:%S %z"@,
        multiline_start_pattern: ""@,
        assume_offset: ""@,
        level_group: "status"@,
        message_group: "request"@,
    }
}

/// The common log format of the Apache web server.
pub open spec fn apache_common() -> DraftView {
    DraftView {
        name: "Apache common log"@,
        sourcetype: "apache_common"@,
        regex: APACHE_COMMON_REGEX@,
        timestamp_format: "%d/%b/%Y:%H:%M:%S %z"@,
        multiline_start_pattern: ""@,
        assume_offset: ""@,
        level_group: "status"@,
        message_group: "request"@,
    }
}

/// Any text with a date and a time in front. A line without one goes with the
/// record before it.
pub open spec fn generic_timestamp() -> DraftView {
    DraftView {
        name: "Generic timestamped text"@,
        sourcetype: "text_generic"@,
        regex: GENERIC_TIMESTAMP_REGEX@,
        timestamp_format: "%Y-%m-%d %H:%M:%S%.f"@,
        multiline_start_pattern: GENERIC_TIMESTAMP_START@,
        assume_offset: ""@,
        level_group: ""@,
        message_group: "msg"@,
    }
}

/// The log of an Android device, with thread and time. It names no year.
pub open spec fn logcat() -> DraftView {
    DraftView {
        name: "Android logcat"@,
        sourcetype: "logcat"@,
        regex: LOGCAT_REGEX@,
        timestamp_format: "%m-%d %H:%M:%S%.f"@,
        multiline_start_pattern: ""@,
        assume_offset: ""@,
        level_group: "priority"@,
        message_group: "msg"@,
    }
}

/// The access log of the nginx web server.
pub open spec fn nginx_access() -> DraftView {
    DraftView {
        name: "nginx access log"@,
        sourcetype: "nginx_access"@,
        regex: NGINX_ACCESS_REGEX@,
        timestamp_format: "%d/%b/%Y:%H:%M:%S %z"@,
        multiline_start_pattern: ""@,
        assume_offset: ""@,
        level_group: "status"@,
        message_group: "request"@,
    }
}

/// The log of the package manager of Arch Linux.
pub open spec fn pacman() -> DraftView {
    DraftView {
        name: "Arch Linux pacman log"@,
        sourcetype: "pacman"@,
        regex: PACMAN_REGEX@,
        timestamp_format: "%Y-%m-%dT%H:%M:%S%z"@,
        multiline_start_pattern: ""@,
        assume_offset: ""@,
        level_group: ""@,
        message_group: "msg"@,
    }
}

/// The traditional syslog format. It names no year.
pub open spec fn syslog() -> DraftView {
    DraftView {
        name: "Syslog (RFC 3164)"@,
        sourcetype: "syslog"@,
        regex: SYSLOG_REGEX@,
        timestamp_format: "%b %e %H:%M:%S"@,
        multiline_start_pattern: ""@,
        assume_offset: ""@,
        level_group: ""@,
        message_group: "msg"@,
    }
}

/// The formats, in the order in which they are offered.
pub open spec fn builtin_drafts() -> Seq<DraftView> {
    seq![
        apache_combined(),
        apache_common(),
        generic_timestamp(),
        logcat(),
        nginx_access(),
        pacman(),
        syslog(),
    ]
}

/// One of the formats that come with the library.
#[derive(Debug)]
pub struct BuiltinTextFormat {
    pub name: String,
    pub sourcetype: String,
    pub toml: String,
}

/// The view of a [`BuiltinTextFormat`].
#[verifier::ext_equal]
pub struct FormatView {
    pub name: Seq<char>,
    pub sourcetype: Seq<char>,
    pub toml: Seq<char>,
}

impl View for BuiltinTextFormat {
    type V = FormatView;

    open spec fn view(&self) -> FormatView {
        FormatView { name: self.name@, sourcetype: self.sourcetype@, toml: self.toml@ }
    }
}

/// Whether a text can stand in a draft as it is: it has no blanks around it and no
/// control characters in it.
pub open spec fn is_settled(s: Seq<char>) -> bool {
    is_plain_text(s) && trimmed(s) == s
}

/// Whether all texts of a draft can stand as they are.
pub open spec fn is_settled_draft(d: DraftView) -> bool {
    &&& is_settled(d.name)
    &&& is_settled(d.sourcetype)
    &&& is_settled(d.regex)
    &&& is_settled(d.timestamp_format)
    &&& is_settled(d.multiline_start_pattern)
    &&& is_settled(d.assume_offset)
    &&& is_settled(d.level_group)
    &&& is_settled(d.message_group)
}

/// The format of a draft.
pub open spec fn format_of_draft(d: DraftView) -> FormatView {
    FormatView { name: d.name, sourcetype: d.sourcetype, toml: draft_file(d) }
}

/// The format of a draft. Its text holds the draft.
fn builtin_format(draft: TextFormatDraft) -> (r: BuiltinTextFormat)
    requires
        is_settled_draft(draft@),
    ensures
        r@ == format_of_draft(draft@),
        draft_of_text(r@.toml) == Ok::<DraftView, Seq<char>>(draft@),
{
    let toml = draft.to_toml();
    proof {
        assert(trimmed_draft(draft@) == draft@);
        assert(is_writable_draft(draft@));
    }
    match TextFormatDraft::from_toml_str(toml.as_str()) {
        Ok(read) => BuiltinTextFormat { name: read.name, sourcetype: read.sourcetype, toml },
        Err(_) => {
            assert(false);
            BuiltinTextFormat { name: draft.name, sourcetype: draft.sourcetype, toml }
        },
    }
}

fn make_draft(
    name: &str,
    sourcetype: &str,
    regex: &str,
    timestamp_format: &str,
    multiline_start_pattern: &str,
    groups: (&str, &str),
) -> (r: TextFormatDraft)
    ensures
        r@ == (DraftView {
            name: name@,
            sourcetype: sourcetype@,
            regex: regex@,
            timestamp_format: timestamp_format@,
            multiline_start_pattern: multiline_start_pattern@,
            assume_offset: ""@,
            level_group: groups.0@,
            message_group: groups.1@,
        }),
{
    TextFormatDraft {
        name: name.to_owned(),
        sourcetype: sourcetype.to_owned(),
        regex: regex.to_owned(),
        timestamp_format: timestamp_format.to_owned(),
        multiline_start_pattern: multiline_start_pattern.to_owned(),
        assume_offset: "".to_owned(),
        level_group: groups.0.to_owned(),
        message_group: groups.1.to_owned(),
    }
}

proof fn lemma_apache_combined_regex()
    ensures
        is_settled(APACHE_COMBINED_REGEX@),
{
    reveal_strlit(r#"^(?P<ip>\S+) (?P<ident>\S+) (?P<user>\S+) \[(?P<timestamp>[^\]]+)\] "(?P<request>[^"]*)" (?P<status>\d{3}) (?P<bytes>\S+) "(?P<referer>[^"]*)" "(?P<agent>[^"]*)"$"#);
}

proof fn lemma_apache_common_regex()
    ensures
        is_settled(APACHE_COMMON_REGEX@),
{
    reveal_strlit(r#"^(?P<ip>\S+) (?P<ident>\S+) (?P<user>\S+) \[(?P<timestamp>[^\]]+)\] "(?P<request>[^"]*)" (?P<status>\d{3}) (?P<bytes>\S+)$"#);
}

proof fn lemma_generic_timestamp_regex()
    ensures
        is_settled(GENERIC_TIMESTAMP_REGEX@),
{
    reveal_strlit(r"(?s)^(?P<timestamp>\d{4}-\d{2}-\d{2} \d{2}:\d{2}:\d{2}(?:\.\d+)?) (?P<msg>.*)$");
}

proof fn lemma_generic_timestamp_start()
    ensures
        is_settled(GENERIC_TIMESTAMP_START@),
{
    reveal_strlit(r"^\d{4}-\d{2}-\d{2} \d{2}:\d{2}:\d{2}");
}

proof fn lemma_logcat_regex()
    ensures
        is_settled(LOGCAT_REGEX@),
{
    reveal_strlit(r"^(?P<timestamp>\d{2}-\d{2} \d{2}:\d{2}:\d{2}\.\d+) +(?P<pid>\d+) +(?P<tid>\d+) (?P<priority>[VDIWEFS]) (?P<tag>.*?) *: (?P<msg>.*)$");
}

proof fn lemma_nginx_access_regex()
    ensures
        is_settled(NGINX_ACCESS_REGEX@),
{
    reveal_strlit(r#"^(?P<ip>\S+) - (?P<user>\S+) \[(?P<timestamp>[^\]]+)\] "(?P<request>[^"]*)" (?P<status>\d{3}) (?P<bytes>\d+) "(?P<referer>[^"]*)" "(?P<agent>[^"]*)"$"#);
}

proof fn lemma_pacman_regex()
    ensures
        is_settled(PACMAN_REGEX@),
{
    reveal_strlit(r"^\[(?P<timestamp>[^\]]+)\] \[(?P<category>[^\]]+)\] (?P<msg>.*)$");
}

proof fn lemma_syslog_regex()
    ensures
        is_settled(SYSLOG_REGEX@),
{
    reveal_strlit(r"^(?P<timestamp>\w{3} +\d{1,2} \d{2}:\d{2}:\d{2}) (?P<host>\S+) (?P<process>[^\s:\[]+)(?:\[(?P<pid>\d+)\])?: (?P<msg>.*)$");
}

proof fn lemma_short_texts()
    ensures
        is_settled("Apache combined log"@),
        is_settled("apache_combined"@),
        is_settled("%d/%b/%Y:%H:%M:%S %z"@),
        is_settled("status"@),
        is_settled("request"@),
        is_settled("Apache common log"@),
        is_settled("apache_common"@),
        is_settled("Generic timestamped text"@),
        is_settled("text_generic"@),
        is_settled("%Y-%m-%d %H:%M:%S%.f"@),
        is_settled(""@),
        is_settled("msg"@),
        is_settled("Android logcat"@),
        is_settled("logcat"@),
        is_settled("%m-%d %H:%M:%S%.f"@),
        is_settled("priority"@),
        is_settled("nginx access log"@),
        is_settled("nginx_access"@),
        is_settled("Arch Linux pacman log"@),
        is_settled("pacman"@),
        is_settled("%Y-%m-%dT%H:%M:%S%z"@),
        is_settled("Syslog (RFC 3164)"@),
        is_settled("syslog"@),
        is_settled("%b %e %H:%M:%S"@),
{
    reveal_strlit("Apache combined log");
    reveal_strlit("apache_combined");
    reveal_strlit("%d/%b/%Y:%H:%M:%S %z");
    reveal_strlit("status");
    reveal_strlit("request");
    reveal_strlit("Apache common log");
    reveal_strlit("apache_common");
    reveal_strlit("Generic timestamped text");
    reveal_strlit("text_generic");
    reveal_strlit("%Y-%m-%d %H:%M:%S%.f");
    reveal_strlit("");
    reveal_strlit("msg");
    reveal_strlit("Android logcat");
    reveal_strlit("logcat");
    reveal_strlit("%m-%d %H:%M:%S%.f");
    reveal_strlit("priority");
    reveal_strlit("nginx access log");
    reveal_strlit("nginx_access");
    reveal_strlit("Arch Linux pacman log");
    reveal_strlit("pacman");
    reveal_strlit("%Y-%m-%dT%H:%M:%S%z");
    reveal_strlit("Syslog (RFC 3164)");
    reveal_strlit("syslog");
    reveal_strlit("%b %e %H:%M:%S");
}

/// The formats have different names.
pub proof fn lemma_builtin_names_differ()
    ensures
        forall|i: int, j: int|
            0 <= i < j < builtin_drafts().len() ==> (#[trigger] builtin_drafts()[i]).name != (
            #[trigger] builtin_drafts()[j]).name,
{
    reveal_strlit("Apache combined log");
    reveal_strlit("Apache common log");
    reveal_strlit("Generic timestamped text");
    reveal_strlit("Android logcat");
    reveal_strlit("nginx access log");
    reveal_strlit("Arch Linux pacman log");
    reveal_strlit("Syslog (RFC 3164)");
    assert("Apache combined log"@.len() == 19);
    assert("Apache common log"@.len() == 17);
    assert("Generic timestamped text"@.len() == 24);
    assert("Android logcat"@.len() == 14);
    assert("nginx access log"@.len() == 16);
    assert("Arch Linux pacman log"@.len() == 21);
    assert("Syslog (RFC 3164)"@.len() == 17);
    assert("Apache common log"@[0] == 'A' && "Syslog (RFC 3164)"@[0] == 'S');
}

/// The formats that come with the library. The text of each holds its draft, and no two
/// have one name.
pub fn builtin_text_formats() -> (r: Vec<BuiltinTextFormat>)
    ensures
        r@.len() == builtin_drafts().len(),
        forall|i: int|
            0 <= i < r@.len() ==> (#[trigger] r@[i])@ == format_of_draft(builtin_drafts()[i])
                && draft_of_text(r@[i]@.toml) == Ok::<DraftView, Seq<char>>(builtin_drafts()[i]),
        forall|i: int, j: int|
            0 <= i < j < r@.len() ==> (#[trigger] r@[i])@.name != (#[trigger] r@[j])@.name,
{
    proof {
        lemma_short_texts();
        lemma_apache_combined_regex();
        lemma_apache_common_regex();
        lemma_generic_timestamp_regex();
        lemma_generic_timestamp_start();
        lemma_logcat_regex();
        lemma_nginx_access_regex();
        lemma_pacman_regex();
        lemma_syslog_regex();
        lemma_builtin_names_differ();
    }
    let mut r: Vec<BuiltinTextFormat> = Vec::new();
    r.push(
        builtin_format(
            make_draft(
                "Apache combined log",
                "apache_combined",
                APACHE_COMBINED_REGEX,
                "%d/%b/%Y:%H:%M:%S %z",
                "",
                ("status", "request"),
            ),
        ),
    );
    r.push(
        builtin_format(
            make_draft(
                "Apache common log",
                "apache_common",
                APACHE_COMMON_REGEX,
                "%d/%b/%Y:%H:%M:%S %z",
                "",
                ("status", "request"),
            ),
        ),
    );
    r.push(
        builtin_format(
            make_draft(
                "Generic timestamped text",
                "text_generic",
                GENERIC_TIMESTAMP_REGEX,
                "%Y-%m-%d %H:%M:%S%.f",
                GENERIC_TIMESTAMP_START,
                ("", "msg"),
            ),
        ),
    );
    r.push(
        builtin_format(
            make_draft(
                "Android logcat",
                "logcat",
                LOGCAT_REGEX,
                "%m-%d %H:%M:%S%.f",
                "",
                ("priority", "msg"),
            ),
        ),
    );
    r.push(
        builtin_format(
            make_draft(
                "nginx access log",
                "nginx_access",
                NGINX_ACCESS_REGEX,
                "%d/%b/%Y:%H:%M:%S %z",
                "",
                ("status", "request"),
            ),
        ),
    );
    r.push(
        builtin_format(
            make_draft(
                "Arch Linux pacman log",
                "pacman",
                PACMAN_REGEX,
                "%Y-%m-%dT%H:%M:%S%z",
                "",
                ("", "msg"),
            ),
        ),
    );
    r.push(
        builtin_format(
            make_draft(
                "Syslog (RFC 3164)",
                "syslog",
                SYSLOG_REGEX,
                "%b %e %H:%M:%S",
                "",
                ("", "msg"),
            ),
        ),
    );
    r
}

} // verus!
