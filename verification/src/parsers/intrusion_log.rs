//! Logs of Android's Intrusion Logging: files of lines, each a JSON object with
//! one event under the name of its kind.

use vstd::prelude::*;

use crate::json::{
    insert, json_text, lemma_members_view, lemma_stored_member, members_view, parse_json, parsed_json, with_member, Json, JsonView,
};
use crate::model::{
    opt_text, records_view, skipped_view, ParsedRecord, RecordView, SkippedRecord, SkippedView,
};
use crate::order::{sort_texts, sorted_texts, stable_order, text_keys, text_positions};
use crate::text::{
    ascii_upper, ascii_word, chars_of, dec, dec_i64, dec_int, dec_u64, eq_ignore_ascii_case, extension_of,
    find_last, has_extension_ignoring_case, is_ascii_word, join, joined, last_index, lines, lines_of, same,
    same_ignoring_ascii_case, split, split_on, string_of, texts, trim, trimmed, upper_char,
};
use crate::time::{from_millis, from_nanos, instant_of, Timestamp};

verus! {

/// The members of an object.
pub type Members = Seq<(Seq<char>, JsonView)>;

/// A word with a capital letter in front.
pub open spec fn capitalized(word: Seq<char>) -> Seq<char> {
    if word.len() == 0 {
        word
    } else {
        word.update(0, ascii_upper(word[0]))
    }
}

/// A word of the name of an event as it is shown: an acronym in capitals, any
/// other word with a capital in front.
pub open spec fn shown_word(word: Seq<char>) -> Seq<char> {
    if same_ignoring_ascii_case("ADB"@, word) {
        "ADB"@
    } else if same_ignoring_ascii_case("OS"@, word) {
        "OS"@
    } else if same_ignoring_ascii_case("NFC"@, word) {
        "NFC"@
    } else if same_ignoring_ascii_case("DNS"@, word) {
        "DNS"@
    } else {
        capitalized(word)
    }
}

/// Those words that are not empty, as they are shown.
pub open spec fn shown_words(words: Seq<Seq<char>>) -> Seq<Seq<char>>
    decreases words.len(),
{
    if words.len() == 0 {
        seq![]
    } else if words.last().len() == 0 {
        shown_words(words.drop_last())
    } else {
        shown_words(words.drop_last()).push(shown_word(words.last()))
    }
}

/// The name of a security event as it is shown. A name with an unexpected
/// character stays as it is.
pub open spec fn display_name(tag: Seq<char>) -> Seq<char> {
    if forall|i: int| 0 <= i < tag.len() ==> is_ascii_word(#[trigger] tag[i]) {
        joined(shown_words(split_on(tag, '_')), " "@)
    } else {
        tag
    }
}

fn all_tag_chars(v: &Vec<char>) -> (r: bool)
    ensures
        r == (forall|i: int| 0 <= i < v.len() ==> is_ascii_word(#[trigger] v@[i])),
{
    let mut i: usize = 0;
    while i < v.len()
        invariant
            i <= v.len(),
            forall|j: int| 0 <= j < i ==> is_ascii_word(#[trigger] v@[j]),
        decreases v.len() - i,
    {
        if !ascii_word(v[i]) {
            return false;
        }
        i += 1;
    }
    true
}

fn show_word(word: &str) -> (r: String)
    requires
        word@.len() > 0,
    ensures
        r@ == shown_word(word@),
{
    if eq_ignore_ascii_case("ADB", word) {
        return "ADB".to_owned();
    }
    if eq_ignore_ascii_case("OS", word) {
        return "OS".to_owned();
    }
    if eq_ignore_ascii_case("NFC", word) {
        return "NFC".to_owned();
    }
    if eq_ignore_ascii_case("DNS", word) {
        return "DNS".to_owned();
    }
    let v = chars_of(word);
    let mut r = String::new();
    r.push(upper_char(v[0]));
    let rest = string_of(&v, 1, v.len());
    r.append(rest.as_str());
    assert(r@ =~= capitalized(word@));
    r
}

/// The name of a security event as it is shown.
pub fn security_event_display_name(tag_key: &str) -> (r: String)
    ensures
        r@ == display_name(tag_key@),
{
    let v = chars_of(tag_key);
    if !all_tag_chars(&v) {
        return tag_key.to_owned();
    }
    let words = split(tag_key, '_');
    let ghost wv = texts(words@);
    let mut shown: Vec<String> = Vec::new();
    let mut i: usize = 0;
    assert(texts(shown@) =~= seq![]);
    while i < words.len()
        invariant
            i <= words.len(),
            wv == texts(words@),
            texts(shown@) == shown_words(wv.take(i as int)),
        decreases words.len() - i,
    {
        let ghost before = shown@;
        proof {
            let next = wv.take(i + 1);
            assert(next.drop_last() == wv.take(i as int));
            assert(next.last() == words@[i as int]@);
        }
        if words[i].as_str().unicode_len() > 0 {
            let word = show_word(words[i].as_str());
            shown.push(word);
            assert(texts(shown@) =~= texts(before).push(word@));
        }
        i += 1;
    }
    assert(wv.take(i as int) == wv);
    join(&shown, " ")
}

/// The address in a text that may hold a host name and a slash before it.
pub open spec fn ip_in(raw: Seq<char>) -> Seq<char> {
    raw.skip(last_index(raw, '/') + 1)
}

/// The address in a text that may hold a host name and a slash before it.
pub fn clean_ip(raw: &str) -> (r: String)
    ensures
        r@ == ip_in(raw@),
{
    let v = chars_of(raw);
    let i: usize = find_last(&v, '/');
    let r = string_of(&v, i, v.len());
    assert(r@ =~= raw@.skip(i as int));
    r
}

/// The text of a member, or the empty text.
pub open spec fn text_of(event: Members, key: Seq<char>) -> Seq<char> {
    match JsonView::Object(event).get(key) {
        Some(JsonView::Text(s)) => s,
        _ => seq![],
    }
}

/// The addresses in a list that say something.
pub open spec fn known_ips(items: Seq<JsonView>) -> Seq<Seq<char>>
    decreases items.len(),
{
    if items.len() == 0 {
        seq![]
    } else {
        let before = known_ips(items.drop_last());
        match items.last() {
            JsonView::Text(s) => if ip_in(s).len() != 0 && ip_in(s) != "0.0.0.0"@ {
                before.push(ip_in(s))
            } else {
                before
            },
            _ => before,
        }
    }
}

/// The addresses that an event lists.
pub open spec fn event_ips(event: Members) -> Seq<Seq<char>> {
    match JsonView::Object(event).get("ip_addresses"@) {
        Some(JsonView::Array(items)) => known_ips(items),
        _ => seq![],
    }
}

/// A query for a name in words.
pub open spec fn dns_message(event: Members) -> Seq<char> {
    let head = "[Peach] DNS query for "@ + text_of(event, "hostname"@) + " by "@ + text_of(
        event,
        "package_name"@,
    );
    if event_ips(event).len() == 0 {
        head
    } else {
        head + " [IPs: "@ + joined(event_ips(event), ", "@) + "]"@
    }
}

/// The port of a connection; 0 where none is known.
pub open spec fn port_of(event: Members) -> int {
    match JsonView::Object(event).get("port"@) {
        Some(v) => match v.as_i64() {
            Some(n) => n as int,
            None => 0,
        },
        None => 0,
    }
}

/// A connection in words.
pub open spec fn connect_message(event: Members) -> Seq<char> {
    "[Peach] Connection to "@ + ip_in(text_of(event, "ip_address"@)) + ":"@ + dec_int(
        port_of(event),
    ) + " by "@ + text_of(event, "package_name"@)
}

/// Whether a member of a security event is not the event itself.
pub open spec fn is_metadata_key(key: Seq<char>) -> bool {
    key == "event_id"@ || key == "event_time"@ || key == "event_type"@ || key == "timestamp"@
}

/// The name of a security event: its first member that is the event itself.
pub open spec fn tag_of(event: Members) -> Option<Seq<char>>
    decreases event.len(),
{
    if event.len() == 0 {
        None
    } else if !is_metadata_key(event[0].0) {
        Some(event[0].0)
    } else {
        tag_of(event.drop_first())
    }
}

/// Members as `name=value`.
pub open spec fn pair_texts(members: Members) -> Seq<Seq<char>> {
    members.map_values(|m: (Seq<char>, JsonView)| m.0 + "="@ + json_text(m.1))
}

/// A security event in words, with its details in order.
pub open spec fn security_message(event: Members) -> Seq<char> {
    match tag_of(event) {
        None => "[Peach] Security event (no tag)"@,
        Some(tag) => {
            let head = "[Peach] "@ + display_name(tag);
            match JsonView::Object(event).get(tag) {
                Some(JsonView::Object(detail)) => if detail.len() == 0 {
                    head
                } else {
                    head + ": "@ + joined(sorted_texts(pair_texts(detail)), ", "@)
                },
                _ => head,
            }
        },
    }
}

/// When an event happened, where a second has `per_second` units, or why that is
/// not known.
pub open spec fn event_instant(event: Members, per_second: int) -> Result<Timestamp, Seq<char>> {
    let time = match JsonView::Object(event).get("event_time"@) {
        Some(v) => v.as_i64(),
        None => None,
    };
    match time {
        None => Err("missing or non-integer 'event_time'"@),
        Some(n) => match instant_of(n as int, per_second) {
            Some(t) => Ok(t),
            None => Err("event_time "@ + dec_int(n as int) + " out of range"@),
        },
    }
}

/// When an event of a kind happened and what it says in words, or why it cannot
/// be told. The kinds differ in the unit of time.
pub open spec fn told_event(kind: Seq<char>, event: Members) -> Result<
    (Timestamp, Seq<char>),
    Seq<char>,
> {
    if kind == "dns_event"@ {
        match event_instant(event, 1_000) {
            Ok(t) => Ok((t, dns_message(event))),
            Err(e) => Err(e),
        }
    } else if kind == "connect_event"@ {
        match event_instant(event, 1_000) {
            Ok(t) => Ok((t, connect_message(event))),
            Err(e) => Err(e),
        }
    } else if kind == "security_event"@ {
        match event_instant(event, 1_000_000_000) {
            Ok(t) => Ok((t, security_message(event))),
            Err(e) => Err(e),
        }
    } else {
        Err("unrecognized intrusion-log event type '"@ + kind + "'"@)
    }
}

/// The members of an event with its kind, and with its name where it is a
/// security event that has one.
pub open spec fn event_fields(kind: Seq<char>, event: Members) -> Members {
    let with_kind = with_member(event, "event_type"@, JsonView::Text(kind));
    match tag_of(event) {
        Some(tag) => if kind == "security_event"@ {
            with_member(with_kind, "security_event_tag"@, JsonView::Text(tag))
        } else {
            with_kind
        },
        None => with_kind,
    }
}

/// The record of a line that holds this value, or why it has none.
pub open spec fn value_record(line: Seq<char>, value: JsonView) -> Result<RecordView, Seq<char>> {
    match value {
        JsonView::Object(members) => if members.len() != 1 {
            Err("expected exactly one top-level event-type key, found "@ + dec(members.len()))
        } else {
            match members[0].1 {
                JsonView::Object(event) => match told_event(members[0].0, event) {
                    Err(e) => Err(e),
                    Ok((timestamp_utc, message)) => Ok(
                        RecordView {
                            timestamp_utc,
                            level: None,
                            message: Some(message),
                            raw: line,
                            fields: JsonView::Object(event_fields(members[0].0, event)),
                        },
                    ),
                },
                _ => Err("'"@ + members[0].0 + "' value is not a JSON object"@),
            }
        },
        _ => Err("expected a JSON object"@),
    }
}

/// The record of a line, or why it has none.
#[verifier::opaque]
pub open spec fn line_record(line: Seq<char>) -> Result<RecordView, Seq<char>> {
    match parsed_json(line) {
        Err(e) => Err("not valid JSON: "@ + e),
        Ok(value) => value_record(line, value),
    }
}

fn member_text(event: &Json, key: &str) -> (r: String)
    requires
        event@ is Object,
    ensures
        r@ == text_of(event@->Object_0, key@),
{
    match event.get(key) {
        Some(Json::Text(s)) => s.clone(),
        _ => String::new(),
    }
}

fn list_ips(event: &Json) -> (r: Vec<String>)
    requires
        event@ is Object,
    ensures
        texts(r@) == event_ips(event@->Object_0),
{
    let mut r: Vec<String> = Vec::new();
    assert(texts(r@) =~= seq![]);
    match event.get("ip_addresses") {
        Some(Json::Array(items)) => {
            let ghost all = crate::json::items_view(items@);
            let mut i: usize = 0;
            while i < items.len()
                invariant
                    i <= items.len(),
                    all == crate::json::items_view(items@),
                    texts(r@) == known_ips(all.take(i as int)),
                decreases items.len() - i,
            {
                let ghost before = r@;
                proof {
                    let next = all.take(i + 1);
                    assert(next.drop_last() == all.take(i as int));
                    assert(next.last() == items@[i as int]@);
                }
                if let Json::Text(s) = &items[i] {
                    let ip = clean_ip(s.as_str());
                    if ip.as_str().unicode_len() != 0 && !same(ip.as_str(), "0.0.0.0") {
                        let ghost iv = ip@;
                        r.push(ip);
                        assert(texts(r@) =~= texts(before).push(iv));
                    }
                }
                i += 1;
            }
            assert(all.take(i as int) == all);
            r
        },
        _ => r,
    }
}

/// A query for a name in words.
pub fn dns_event_message(event: &Json) -> (r: String)
    requires
        event@ is Object,
    ensures
        r@ == dns_message(event@->Object_0),
{
    let mut r = "[Peach] DNS query for ".to_owned();
    r.append(member_text(event, "hostname").as_str());
    r.append(" by ");
    r.append(member_text(event, "package_name").as_str());
    let ips = list_ips(event);
    assert(texts(ips@).len() == ips@.len());
    if ips.len() != 0 {
        r.append(" [IPs: ");
        r.append(join(&ips, ", ").as_str());
        r.append("]");
    }
    r
}

/// A connection in words.
pub fn connect_event_message(event: &Json) -> (r: String)
    requires
        event@ is Object,
    ensures
        r@ == connect_message(event@->Object_0),
{
    let mut r = "[Peach] Connection to ".to_owned();
    r.append(clean_ip(member_text(event, "ip_address").as_str()).as_str());
    r.append(":");
    let port: i64 = match event.get("port") {
        Some(v) => match v.as_i64() {
            Some(n) => n,
            None => 0,
        },
        None => 0,
    };
    r.append(dec_i64(port).as_str());
    r.append(" by ");
    r.append(member_text(event, "package_name").as_str());
    r
}

/// The name of a security event.
pub fn security_event_tag(members: &Vec<(String, Json)>) -> (r: Option<String>)
    ensures
        opt_text(r) == tag_of(members_view(members@)),
{
    let ghost all = members_view(members@);
    let mut i: usize = 0;
    assert(all.skip(0) == all);
    while i < members.len()
        invariant
            i <= members.len(),
            all == members_view(members@),
            tag_of(all) == tag_of(all.skip(i as int)),
        decreases members.len() - i,
    {
        proof {
            lemma_members_view(members@);
            assert(all.skip(i as int)[0] == all[i as int]);
            assert(all.skip(i as int).drop_first() == all.skip(i + 1));
        }
        let key = members[i].0.as_str();
        if !same(key, "event_id") && !same(key, "event_time") && !same(key, "event_type")
            && !same(key, "timestamp") {
            return Some(members[i].0.clone());
        }
        i += 1;
    }
    None
}

fn pairs_of(members: &Vec<(String, Json)>) -> (r: Vec<String>)
    ensures
        texts(r@) == pair_texts(members_view(members@)),
{
    let ghost all = members_view(members@);
    let mut r: Vec<String> = Vec::new();
    let mut i: usize = 0;
    while i < members.len()
        invariant
            i <= members.len(),
            r.len() == i,
            all == members_view(members@),
            forall|j: int| 0 <= j < i ==> #[trigger] r@[j]@ == pair_texts(all)[j],
        decreases members.len() - i,
    {
        proof {
            lemma_members_view(members@);
        }
        let mut s = members[i].0.clone();
        s.append("=");
        s.append(members[i].1.to_text().as_str());
        r.push(s);
        i += 1;
    }
    proof {
        lemma_members_view(members@);
        assert(texts(r@) =~= pair_texts(all));
    }
    r
}

/// A security event in words.
pub fn security_event_message(event: &Json) -> (r: String)
    requires
        event@ is Object,
    ensures
        r@ == security_message(event@->Object_0),
{
    let tag = match event {
        Json::Object(members) => security_event_tag(members),
        _ => None,
    };
    let tag = match tag {
        Some(tag) => tag,
        None => {
            return "[Peach] Security event (no tag)".to_owned();
        },
    };
    let mut r = "[Peach] ".to_owned();
    r.append(security_event_display_name(tag.as_str()).as_str());
    if let Some(Json::Object(detail)) = event.get(tag.as_str()) {
        proof {
            lemma_members_view(detail@);
        }
        if detail.len() != 0 {
            r.append(": ");
            let pairs = sort_texts(&pairs_of(detail));
            r.append(join(&pairs, ", ").as_str());
        }
    }
    r
}

fn event_time(event: &Json) -> (r: Option<i64>)
    ensures
        r == (match event@.get("event_time"@) {
            Some(v) => v.as_i64(),
            None => None,
        }),
{
    match event.get("event_time") {
        Some(v) => v.as_i64(),
        None => None,
    }
}

fn out_of_range(n: i64) -> (r: String)
    ensures
        r@ == "event_time "@ + dec_int(n as int) + " out of range"@,
{
    let mut e = "event_time ".to_owned();
    e.append(dec_i64(n).as_str());
    e.append(" out of range");
    e
}

/// When an event happened that counts milliseconds.
pub fn timestamp_from_millis(event: &Json) -> (r: Result<Timestamp, String>)
    requires
        event@ is Object,
    ensures
        match r {
            Ok(t) => event_instant(event@->Object_0, 1_000) == Ok::<Timestamp, Seq<char>>(t),
            Err(e) => event_instant(event@->Object_0, 1_000) == Err::<Timestamp, Seq<char>>(e@),
        },
{
    match event_time(event) {
        None => Err("missing or non-integer 'event_time'".to_owned()),
        Some(n) => match from_millis(n) {
            Some(t) => Ok(t),
            None => Err(out_of_range(n)),
        },
    }
}

/// When an event happened that counts nanoseconds.
pub fn timestamp_from_nanos(event: &Json) -> (r: Result<Timestamp, String>)
    requires
        event@ is Object,
    ensures
        match r {
            Ok(t) => event_instant(event@->Object_0, 1_000_000_000) == Ok::<Timestamp, Seq<char>>(
                t,
            ),
            Err(e) => event_instant(event@->Object_0, 1_000_000_000) == Err::<
                Timestamp,
                Seq<char>,
            >(e@),
        },
{
    match event_time(event) {
        None => Err("missing or non-integer 'event_time'".to_owned()),
        Some(n) => match from_nanos(n) {
            Some(t) => Ok(t),
            None => Err(out_of_range(n)),
        },
    }
}

fn tell_event(kind: &str, event: &Json) -> (r: Result<(Timestamp, String), String>)
    requires
        event@ is Object,
    ensures
        match r {
            Ok((t, message)) => told_event(kind@, event@->Object_0) == Ok::<
                (Timestamp, Seq<char>),
                Seq<char>,
            >((t, message@)),
            Err(e) => told_event(kind@, event@->Object_0) == Err::<
                (Timestamp, Seq<char>),
                Seq<char>,
            >(e@),
        },
{
    if same(kind, "dns_event") {
        match timestamp_from_millis(event) {
            Ok(t) => Ok((t, dns_event_message(event))),
            Err(e) => Err(e),
        }
    } else if same(kind, "connect_event") {
        match timestamp_from_millis(event) {
            Ok(t) => Ok((t, connect_event_message(event))),
            Err(e) => Err(e),
        }
    } else if same(kind, "security_event") {
        match timestamp_from_nanos(event) {
            Ok(t) => Ok((t, security_event_message(event))),
            Err(e) => Err(e),
        }
    } else {
        let mut e = "unrecognized intrusion-log event type '".to_owned();
        e.append(kind);
        e.append("'");
        Err(e)
    }
}

fn fields_of_event(kind: &str, event: &Vec<(String, Json)>) -> (r: Vec<(String, Json)>)
    ensures
        members_view(r@) == event_fields(kind@, members_view(event@)),
{
    let tag = security_event_tag(event);
    let mut r = crate::json::clone_members(event);
    insert(&mut r, "event_type", Json::Text(kind.to_owned()));
    if same(kind, "security_event") {
        if let Some(tag) = tag {
            insert(&mut r, "security_event_tag", Json::Text(tag));
        }
    }
    r
}

/// The record of a line that holds this value, or why it has none.
pub fn record_of_value(line: &str, value: &Json) -> (r: Result<ParsedRecord, String>)
    ensures
        match r {
            Ok(record) => value_record(line@, value@) == Ok::<RecordView, Seq<char>>(record@),
            Err(e) => value_record(line@, value@) == Err::<RecordView, Seq<char>>(e@),
        },
{
    let members = match value {
        Json::Object(members) => members,
        _ => {
            return Err("expected a JSON object".to_owned());
        },
    };
    proof {
        lemma_members_view(members@);
    }
    if members.len() != 1 {
        let mut e = "expected exactly one top-level event-type key, found ".to_owned();
        e.append(dec_u64(members.len() as u64).as_str());
        return Err(e);
    }
    let kind = members[0].0.as_str();
    let event = &members[0].1;
    match event {
        Json::Object(inner) => match tell_event(kind, event) {
            Err(e) => Err(e),
            Ok((timestamp_utc, message)) => Ok(
                ParsedRecord {
                    timestamp_utc,
                    level: None,
                    message: Some(message),
                    raw: line.to_owned(),
                    fields: Json::Object(fields_of_event(kind, inner)),
                },
            ),
        },
        _ => {
            let mut e = "'".to_owned();
            e.append(kind);
            e.append("' value is not a JSON object");
            Err(e)
        },
    }
}

/// The record of a line, or why it has none.
pub fn parse_line(line: &str) -> (r: Result<ParsedRecord, String>)
    ensures
        match r {
            Ok(record) => line_record(line@) == Ok::<RecordView, Seq<char>>(record@),
            Err(e) => line_record(line@) == Err::<RecordView, Seq<char>>(e@),
        },
{
    proof {
        reveal(line_record);
    }
    match parse_json(line) {
        Err(reason) => {
            let mut e = "not valid JSON: ".to_owned();
            e.append(reason.as_str());
            Err(e)
        },
        Ok(value) => record_of_value(line, &value),
    }
}

/// A file of logs: what it is called, and its text or why it cannot be read.
#[derive(Debug)]
pub struct LogFile {
    pub label: String,
    pub text: Result<String, String>,
}

/// What was read so far.
#[verifier::ext_equal]
pub struct Harvest {
    pub records: Seq<RecordView>,
    pub skipped: Seq<SkippedView>,
}

/// `label:n`, the place of a line.
pub open spec fn line_place(label: Seq<char>, n: nat) -> Seq<char> {
    label + ":"@ + dec(n)
}

/// What was read before and the lines of a file give, or why that fails: blank
/// lines count for nothing, and a line without a record fails all, or is skipped.
pub open spec fn lines_harvest(
    before: Harvest,
    label: Seq<char>,
    all: Seq<Seq<char>>,
    skip: bool,
) -> Result<Harvest, Seq<char>>
    decreases all.len(),
{
    if all.len() == 0 {
        Ok(before)
    } else {
        match lines_harvest(before, label, all.drop_last(), skip) {
            Err(e) => Err(e),
            Ok(h) => {
                let line = trimmed(all.last());
                if line.len() == 0 {
                    Ok(h)
                } else {
                    match line_record(line) {
                        Ok(record) => Ok(
                            Harvest { records: h.records.push(record), skipped: h.skipped },
                        ),
                        Err(e) => if skip {
                            Ok(
                                Harvest {
                                    records: h.records,
                                    skipped: h.skipped.push(
                                        SkippedView {
                                            location: line_place(label, all.len()),
                                            reason: e,
                                        },
                                    ),
                                },
                            )
                        } else {
                            Err(line_place(label, all.len()) + ": "@ + e)
                        },
                    }
                }
            },
        }
    }
}

/// What files give, one after the other, or why that fails.
pub open spec fn files_harvest(files: Seq<LogFile>, skip: bool) -> Result<Harvest, Seq<char>>
    decreases files.len(),
{
    if files.len() == 0 {
        Ok(Harvest { records: seq![], skipped: seq![] })
    } else {
        match files_harvest(files.drop_last(), skip) {
            Err(e) => Err(e),
            Ok(h) => match files.last().text {
                Err(reason) => Err(
                    "failed to read "@ + files.last().label@ + " as UTF-8 text: "@ + reason@,
                ),
                Ok(text) => lines_harvest(h, files.last().label@, lines_of(text@), skip),
            },
        }
    }
}

/// What a source gives: the files found under a directory, or why that fails.
pub open spec fn log_harvest(root: Seq<char>, files: Seq<LogFile>, skip: bool) -> Result<
    Harvest,
    Seq<char>,
> {
    if files.len() == 0 {
        Err("no intrusion-log .txt files found under "@ + root)
    } else {
        files_harvest(files, skip)
    }
}

proof fn lemma_lines_fail(
    before: Harvest,
    label: Seq<char>,
    all: Seq<Seq<char>>,
    skip: bool,
    n: int,
)
    requires
        0 <= n <= all.len(),
        lines_harvest(before, label, all.take(n), skip) is Err,
    ensures
        lines_harvest(before, label, all, skip) == lines_harvest(before, label, all.take(n), skip),
    decreases all.len(),
{
    if n < all.len() {
        assert(all.drop_last().take(n) == all.take(n));
        lemma_lines_fail(before, label, all.drop_last(), skip, n);
    } else {
        assert(all.take(n) == all);
    }
}

proof fn lemma_files_fail(files: Seq<LogFile>, skip: bool, n: int)
    requires
        0 <= n <= files.len(),
        files_harvest(files.take(n), skip) is Err,
    ensures
        files_harvest(files, skip) == files_harvest(files.take(n), skip),
    decreases files.len(),
{
    if n < files.len() {
        assert(files.drop_last().take(n) == files.take(n));
        lemma_files_fail(files.drop_last(), skip, n);
    } else {
        assert(files.take(n) == files);
    }
}

/// The view of what was read so far.
pub open spec fn harvest_view(records: Seq<ParsedRecord>, skipped: Seq<SkippedRecord>) -> Harvest {
    Harvest { records: records_view(records), skipped: skipped_view(skipped) }
}

fn place_of_line(label: &str, n: usize) -> (r: String)
    ensures
        r@ == line_place(label@, n as nat),
{
    let mut r = label.to_owned();
    r.append(":");
    r.append(dec_u64(n as u64).as_str());
    r
}

fn read_lines(
    label: &str,
    text: &str,
    skip_bad_records: bool,
    records: &mut Vec<ParsedRecord>,
    skipped: &mut Vec<SkippedRecord>,
) -> (r: Result<(), String>)
    ensures
        ({
            let want = lines_harvest(
                harvest_view(old(records)@, old(skipped)@),
                label@,
                lines_of(text@),
                skip_bad_records,
            );
            match r {
                Ok(_) => want == Ok::<Harvest, Seq<char>>(
                    harvest_view(final(records)@, final(skipped)@),
                ),
                Err(e) => want == Err::<Harvest, Seq<char>>(e@),
            }
        }),
{
    let all = lines(text);
    let ghost before = harvest_view(records@, skipped@);
    let ghost lv = texts(all@);
    let mut i: usize = 0;
    while i < all.len()
        invariant
            i <= all.len(),
            lv == texts(all@),
            lv == lines_of(text@),
            before == harvest_view(old(records)@, old(skipped)@),
            lines_harvest(before, label@, lv.take(i as int), skip_bad_records) == Ok::<
                Harvest,
                Seq<char>,
            >(harvest_view(records@, skipped@)),
        decreases all.len() - i,
    {
        let ghost records_before = records@;
        let ghost skipped_before = skipped@;
        proof {
            let next = lv.take(i + 1);
            assert(next.drop_last() == lv.take(i as int));
            assert(next.last() == all@[i as int]@);
        }
        let line = trim(all[i].as_str());
        i += 1;
        if line.as_str().unicode_len() != 0 {
            match parse_line(line.as_str()) {
                Ok(record) => {
                    let ghost rv = record@;
                    records.push(record);
                    assert(records_view(records@) =~= records_view(records_before).push(rv));
                },
                Err(reason) => {
                    let place = place_of_line(label, i);
                    if !skip_bad_records {
                        let mut e = place;
                        e.append(": ");
                        e.append(reason.as_str());
                        proof {
                            lemma_lines_fail(before, label@, lv, skip_bad_records, i as int);
                        }
                        return Err(e);
                    }
                    let skip = SkippedRecord { location: place, reason };
                    let ghost sv = skip@;
                    skipped.push(skip);
                    assert(skipped_view(skipped@) =~= skipped_view(skipped_before).push(sv));
                },
            }
        }
    }
    assert(lv.take(i as int) == lv);
    Ok(())
}

/// The parser for intrusion logs.
#[derive(Debug)]
pub struct IntrusionLogParser;

impl IntrusionLogParser {
    /// The kind of source that the parser is for.
    pub fn sourcetype(&self) -> (r: &'static str)
        ensures
            r@ == "intrusion_log"@,
    {
        "intrusion_log"
    }

    /// Parses the files found under `root`, in the order given.
    pub fn parse(&self, root: &str, files: &Vec<LogFile>, skip_bad_records: bool) -> (r: Result<
        (Vec<ParsedRecord>, Vec<SkippedRecord>),
        String,
    >)
        ensures
            match r {
                Ok((records, skipped)) => log_harvest(root@, files@, skip_bad_records) == Ok::<
                    Harvest,
                    Seq<char>,
                >(harvest_view(records@, skipped@)),
                Err(e) => log_harvest(root@, files@, skip_bad_records) == Err::<
                    Harvest,
                    Seq<char>,
                >(e@),
            },
    {
        if files.len() == 0 {
            let mut e = "no intrusion-log .txt files found under ".to_owned();
            e.append(root);
            return Err(e);
        }
        let mut records: Vec<ParsedRecord> = Vec::new();
        let mut skipped: Vec<SkippedRecord> = Vec::new();
        let mut i: usize = 0;
        assert(records_view(records@) =~= seq![]);
        assert(skipped_view(skipped@) =~= seq![]);
        while i < files.len()
            invariant
                i <= files.len(),
                files.len() != 0,
                files_harvest(files@.take(i as int), skip_bad_records) == Ok::<Harvest, Seq<char>>(
                    harvest_view(records@, skipped@),
                ),
            decreases files.len() - i,
        {
            proof {
                let next = files@.take(i + 1);
                assert(next.drop_last() == files@.take(i as int));
                assert(next.last() == files@[i as int]);
            }
            match &files[i].text {
                Err(reason) => {
                    let mut e = "failed to read ".to_owned();
                    e.append(files[i].label.as_str());
                    e.append(" as UTF-8 text: ");
                    e.append(reason.as_str());
                    proof {
                        lemma_files_fail(files@, skip_bad_records, i + 1);
                    }
                    return Err(e);
                },
                Ok(text) => {
                    let read = read_lines(
                        files[i].label.as_str(),
                        text.as_str(),
                        skip_bad_records,
                        &mut records,
                        &mut skipped,
                    );
                    if let Err(e) = read {
                        proof {
                            lemma_files_fail(files@, skip_bad_records, i + 1);
                        }
                        return Err(e);
                    }
                },
            }
            i += 1;
        }
        assert(files@.take(i as int) == files@);
        Ok((records, skipped))
    }
}

/// The views of a list of paths.
pub open spec fn paths_view(paths: Seq<Vec<String>>) -> Seq<Seq<Seq<char>>> {
    paths.map_values(|p: Vec<String>| texts(p@))
}

/// Whether a path is that of a file of logs: its name ends in `.txt`, in any
/// case.
pub open spec fn is_log_path(path: Seq<Seq<char>>) -> bool {
    path.len() > 0 && match extension_of(path.last()) {
        Some(ext) => same_ignoring_ascii_case(ext, "txt"@),
        None => false,
    }
}

/// The positions of the paths of files of logs.
pub open spec fn log_positions(paths: Seq<Seq<Seq<char>>>) -> Seq<int>
    decreases paths.len(),
{
    if paths.len() == 0 {
        seq![]
    } else if is_log_path(paths.last()) {
        log_positions(paths.drop_last()).push(paths.len() - 1)
    } else {
        log_positions(paths.drop_last())
    }
}

/// The steps of paths as texts that order as the paths do, step by step: no
/// character is smaller than the one between the steps.
pub open spec fn path_texts(paths: Seq<Seq<Seq<char>>>, positions: Seq<int>) -> Seq<Seq<char>> {
    positions.map_values(|i: int| joined(paths[i], "\0"@))
}

/// The positions of the files of logs among the files of a directory, each given
/// by the steps of its path, in the order of the paths.
pub fn log_files(paths: &Vec<Vec<String>>) -> (r: Vec<usize>)
    ensures
        ({
            let pv = paths_view(paths@);
            let found = log_positions(pv);
            r@.map_values(|i: usize| i as int) == crate::order::reordered(
                found,
                stable_order(text_keys(path_texts(pv, found))),
            )
        }),
{
    let ghost pv = paths_view(paths@);
    let mut found: Vec<usize> = Vec::new();
    let mut names: Vec<String> = Vec::new();
    let mut i: usize = 0;
    let ghost mut fv: Seq<int> = seq![];
    assert(texts(names@) =~= path_texts(pv, fv));
    assert(found@.map_values(|i: usize| i as int) =~= fv);
    while i < paths.len()
        invariant
            i <= paths.len(),
            pv == paths_view(paths@),
            fv == log_positions(pv.take(i as int)),
            found@.map_values(|i: usize| i as int) == fv,
            texts(names@) == path_texts(pv, fv),
        decreases paths.len() - i,
    {
        let ghost found_before = found@;
        let ghost names_before = names@;
        let ghost fv_before = fv;
        proof {
            let next = pv.take(i + 1);
            assert(next.drop_last() == pv.take(i as int));
            assert(next.last() == texts(paths@[i as int]@));
            assert(texts(paths@[i as int]@).len() == paths@[i as int]@.len());
        }
        let path = &paths[i];
        if path.len() > 0 && has_extension_ignoring_case(path[path.len() - 1].as_str(), "txt") {
            let name = join(path, "\0");
            let ghost nv = name@;
            found.push(i);
            names.push(name);
            proof {
                fv = fv.push(i as int);
                assert(found@.map_values(|i: usize| i as int) =~= fv);
                assert(texts(names@) =~= texts(names_before).push(nv));
                assert(path_texts(pv, fv) =~= path_texts(pv, fv_before).push(nv));
            }
        }
        i += 1;
    }
    assert(pv.take(i as int) == pv);
    assert(texts(names@).len() == names@.len());
    let order = text_positions(&names);
    let ghost o = order@.map_values(|i: usize| i as int);
    let ghost want = crate::order::reordered(fv, o);
    let mut r: Vec<usize> = Vec::new();
    let mut k: usize = 0;
    while k < order.len()
        invariant
            k <= order.len(),
            r.len() == k,
            o == order@.map_values(|i: usize| i as int),
            fv == found@.map_values(|i: usize| i as int),
            want == crate::order::reordered(fv, o),
            forall|j: int| 0 <= j < o.len() ==> 0 <= #[trigger] o[j] < found.len(),
            forall|j: int| 0 <= j < k ==> #[trigger] r@[j] == want[j],
        decreases order.len() - k,
    {
        assert(o[k as int] == order@[k as int]);
        r.push(found[order[k]]);
        k += 1;
    }
    assert(r@.map_values(|i: usize| i as int) =~= want);
    r
}

proof fn lemma_lines_skip(before: Harvest, label: Seq<char>, all: Seq<Seq<char>>)
    ensures
        lines_harvest(before, label, all, true) is Ok,
        lines_harvest(before, label, all, false) matches Ok(h) ==> {
            &&& lines_harvest(before, label, all, true) == Ok::<Harvest, Seq<char>>(h)
            &&& h.skipped == before.skipped
        },
    decreases all.len(),
{
    if all.len() > 0 {
        lemma_lines_skip(before, label, all.drop_last());
    }
}

/// Skipping bad lines never fails for the sake of a line: where all files can be
/// read, there is a result.
pub proof fn lemma_skipping_reads_on(files: Seq<LogFile>)
    requires
        forall|i: int| 0 <= i < files.len() ==> (#[trigger] files[i]).text is Ok,
    ensures
        files_harvest(files, true) is Ok,
    decreases files.len(),
{
    if files.len() > 0 {
        assert(files.last() == files[files.len() - 1]);
        assert forall|i: int| 0 <= i < files.drop_last().len() implies (
        #[trigger] files.drop_last()[i]).text is Ok by {
            assert(files.drop_last()[i] == files[i]);
        }
        lemma_skipping_reads_on(files.drop_last());
        let h = files_harvest(files.drop_last(), true)->Ok_0;
        lemma_lines_skip(h, files.last().label@, lines_of(files.last().text->Ok_0@));
    }
}

/// Where no line is bad, skipping bad lines changes nothing, and none is
/// skipped.
pub proof fn lemma_skipping_keeps_good_records(files: Seq<LogFile>)
    requires
        files_harvest(files, false) is Ok,
    ensures
        files_harvest(files, true) == files_harvest(files, false),
        files_harvest(files, true)->Ok_0.skipped.len() == 0,
    decreases files.len(),
{
    if files.len() > 0 {
        lemma_skipping_keeps_good_records(files.drop_last());
        let h = files_harvest(files.drop_last(), false)->Ok_0;
        lemma_lines_skip(h, files.last().label@, lines_of(files.last().text->Ok_0@));
    }
}

/// The lines of a file that are not blank, each with its place.
pub open spec fn placed_lines(label: Seq<char>, all: Seq<Seq<char>>) -> Seq<(Seq<char>, Seq<char>)>
    decreases all.len(),
{
    if all.len() == 0 {
        seq![]
    } else {
        let before = placed_lines(label, all.drop_last());
        if trimmed(all.last()).len() == 0 {
            before
        } else {
            before.push((line_place(label, all.len()), trimmed(all.last())))
        }
    }
}

/// The lines of files that are not blank, each with its place, one file after the
/// other.
pub open spec fn source_lines(files: Seq<LogFile>) -> Seq<(Seq<char>, Seq<char>)>
    decreases files.len(),
{
    if files.len() == 0 {
        seq![]
    } else {
        source_lines(files.drop_last()) + match files.last().text {
            Ok(text) => placed_lines(files.last().label@, lines_of(text@)),
            Err(_) => seq![],
        }
    }
}

/// The records of those lines that have one.
pub open spec fn records_among(lines: Seq<(Seq<char>, Seq<char>)>) -> Seq<RecordView>
    decreases lines.len(),
{
    if lines.len() == 0 {
        seq![]
    } else {
        match line_record(lines.last().1) {
            Ok(record) => records_among(lines.drop_last()).push(record),
            Err(_) => records_among(lines.drop_last()),
        }
    }
}

/// The places of those lines that have no record, and why they have none.
pub open spec fn skipped_among(lines: Seq<(Seq<char>, Seq<char>)>) -> Seq<SkippedView>
    decreases lines.len(),
{
    if lines.len() == 0 {
        seq![]
    } else {
        match line_record(lines.last().1) {
            Ok(_) => skipped_among(lines.drop_last()),
            Err(reason) => skipped_among(lines.drop_last()).push(
                SkippedView { location: lines.last().0, reason },
            ),
        }
    }
}

proof fn lemma_among_parts(a: Seq<(Seq<char>, Seq<char>)>, b: Seq<(Seq<char>, Seq<char>)>)
    ensures
        records_among(a + b) == records_among(a) + records_among(b),
        skipped_among(a + b) == skipped_among(a) + skipped_among(b),
    decreases b.len(),
{
    if b.len() == 0 {
        assert(a + b =~= a);
        assert(records_among(a) + records_among(b) =~= records_among(a));
        assert(skipped_among(a) + skipped_among(b) =~= skipped_among(a));
    } else {
        let rest = b.drop_last();
        lemma_among_parts(a, rest);
        assert((a + b).drop_last() =~= a + rest);
        assert((a + b).last() == b.last());
        match line_record(b.last().1) {
            Ok(record) => {
                assert((records_among(a) + records_among(rest)).push(record)
                    =~= records_among(a) + records_among(rest).push(record));
            },
            Err(reason) => {
                let one = SkippedView { location: b.last().0, reason };
                assert((skipped_among(a) + skipped_among(rest)).push(one)
                    =~= skipped_among(a) + skipped_among(rest).push(one));
            },
        }
    }
}

proof fn lemma_among_all(lines: Seq<(Seq<char>, Seq<char>)>)
    ensures
        records_among(lines).len() + skipped_among(lines).len() == lines.len(),
    decreases lines.len(),
{
    if lines.len() > 0 {
        lemma_among_all(lines.drop_last());
    }
}

/// What the first line without a record fails all with.
pub open spec fn first_failure(skipped: Seq<SkippedView>) -> Seq<char> {
    skipped[0].location + ": "@ + skipped[0].reason
}

proof fn lemma_lines_counted(before: Harvest, label: Seq<char>, all: Seq<Seq<char>>)
    ensures
        ({
            let lines = placed_lines(label, all);
            let more = Harvest {
                records: before.records + records_among(lines),
                skipped: before.skipped + skipped_among(lines),
            };
            &&& lines_harvest(before, label, all, true) == Ok::<Harvest, Seq<char>>(more)
            &&& lines_harvest(before, label, all, false) == (if skipped_among(lines).len() == 0 {
                Ok::<Harvest, Seq<char>>(more)
            } else {
                Err::<Harvest, Seq<char>>(first_failure(skipped_among(lines)))
            })
        }),
    decreases all.len(),
{
    let lines = placed_lines(label, all);
    if all.len() == 0 {
        assert(before.records + records_among(lines) =~= before.records);
        assert(before.skipped + skipped_among(lines) =~= before.skipped);
    } else {
        lemma_lines_counted(before, label, all.drop_last());
        let fewer = placed_lines(label, all.drop_last());
        let line = trimmed(all.last());
        if line.len() > 0 {
            assert(lines.drop_last() =~= fewer);
            assert(lines.last() == (line_place(label, all.len()), line));
            match line_record(line) {
                Ok(record) => {
                    assert((before.records + records_among(fewer)).push(record)
                        =~= before.records + records_among(lines));
                },
                Err(reason) => {
                    let one = SkippedView { location: line_place(label, all.len()), reason };
                    assert((before.skipped + skipped_among(fewer)).push(one)
                        =~= before.skipped + skipped_among(lines));
                    assert(skipped_among(lines) == skipped_among(fewer).push(one));
                    if skipped_among(fewer).len() == 0 {
                        assert(before.skipped + skipped_among(fewer) =~= before.skipped);
                        assert(skipped_among(lines)[0] == one);
                    } else {
                        assert(skipped_among(lines)[0] == skipped_among(fewer)[0]);
                    }
                },
            }
        }
    }
}

proof fn lemma_files_counted(files: Seq<LogFile>)
    requires
        forall|i: int| 0 <= i < files.len() ==> (#[trigger] files[i]).text is Ok,
    ensures
        ({
            let lines = source_lines(files);
            let all = Harvest { records: records_among(lines), skipped: skipped_among(lines) };
            &&& files_harvest(files, true) == Ok::<Harvest, Seq<char>>(all)
            &&& all.records.len() + all.skipped.len() == lines.len()
            &&& files_harvest(files, false) == (if all.skipped.len() == 0 {
                Ok::<Harvest, Seq<char>>(all)
            } else {
                Err::<Harvest, Seq<char>>(first_failure(all.skipped))
            })
        }),
    decreases files.len(),
{
    lemma_among_all(source_lines(files));
    if files.len() > 0 {
        let front = files.drop_last();
        assert(files.last() == files[files.len() - 1]);
        assert forall|i: int| 0 <= i < front.len() implies (#[trigger] front[i]).text is Ok by {
            assert(front[i] == files[i]);
        }
        lemma_files_counted(front);
        let a = source_lines(front);
        let b = placed_lines(files.last().label@, lines_of(files.last().text->Ok_0@));
        let before = Harvest { records: records_among(a), skipped: skipped_among(a) };
        lemma_among_parts(a, b);
        lemma_lines_counted(before, files.last().label@, lines_of(files.last().text->Ok_0@));
        if skipped_among(a).len() > 0 {
            assert(skipped_among(a + b)[0] == skipped_among(a)[0]);
        } else {
            assert(skipped_among(a + b) =~= skipped_among(b));
        }
    }
}

/// Every line counts once: where there are files and all of them can be read, each line
/// that is not blank is a record or is skipped, in the order of the lines, and what is
/// skipped bears the name of its file and the number of its line. If bad lines are not to
/// be skipped, the records are the same where there is no bad line, and else the first bad
/// line fails all.
pub proof fn lemma_every_line_counts(root: Seq<char>, files: Seq<LogFile>)
    requires
        files.len() > 0,
        forall|i: int| 0 <= i < files.len() ==> (#[trigger] files[i]).text is Ok,
    ensures
        ({
            let lines = source_lines(files);
            let all = Harvest { records: records_among(lines), skipped: skipped_among(lines) };
            &&& log_harvest(root, files, true) == Ok::<Harvest, Seq<char>>(all)
            &&& all.records.len() + all.skipped.len() == lines.len()
            &&& log_harvest(root, files, false) == (if all.skipped.len() == 0 {
                Ok::<Harvest, Seq<char>>(all)
            } else {
                Err::<Harvest, Seq<char>>(first_failure(all.skipped))
            })
        }),
{
    lemma_files_counted(files);
}

/// The message of every record is marked as one that was made here.
pub proof fn lemma_messages_are_marked(line: Seq<char>, value: JsonView)
    requires
        value_record(line, value) is Ok,
    ensures
        value_record(line, value)->Ok_0.message matches Some(m) && m.take(8) == "[Peach] "@,
{
    reveal_strlit("[Peach] ");
    reveal_strlit("[Peach] DNS query for ");
    reveal_strlit("[Peach] Connection to ");
    reveal_strlit("[Peach] Security event (no tag)");
    let event = value->Object_0[0].1->Object_0;
    assert(dns_message(event).take(8) =~= "[Peach] "@);
    assert(connect_message(event).take(8) =~= "[Peach] "@);
    assert(security_message(event).take(8) =~= "[Peach] "@);
}

/// A record keeps its line and every member of its event, but for the two that tell
/// of what kind the event is.
pub proof fn lemma_event_is_kept(line: Seq<char>, value: JsonView, name: Seq<char>)
    requires
        value_record(line, value) is Ok,
    ensures
        ({
            let record = value_record(line, value)->Ok_0;
            let (kind, event) = value->Object_0[0];
            &&& record.raw == line
            &&& record.fields.get("event_type"@) == Some(JsonView::Text(kind))
            &&& (name != "event_type"@ && name != "security_event_tag"@) ==> record.fields.get(name)
                == event.get(name)
        }),
{
    reveal_strlit("event_type");
    reveal_strlit("security_event_tag");
    assert("event_type"@.len() == 10);
    assert("security_event_tag"@.len() == 18);
    let kind = value->Object_0[0].0;
    let event = value->Object_0[0].1->Object_0;
    let with_kind = with_member(event, "event_type"@, JsonView::Text(kind));
    lemma_stored_member(event, "event_type"@, JsonView::Text(kind), name);
    lemma_stored_member(event, "event_type"@, JsonView::Text(kind), "event_type"@);
    if let Some(tag) = tag_of(event) {
        lemma_stored_member(with_kind, "security_event_tag"@, JsonView::Text(tag), name);
        lemma_stored_member(with_kind, "security_event_tag"@, JsonView::Text(tag), "event_type"@);
    }
}

} // verus!
