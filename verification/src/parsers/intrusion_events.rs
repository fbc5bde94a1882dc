//! What the records of intrusion logs say of their events.

use vstd::prelude::*;

use crate::json::{json_text, lemma_first_place, lemma_stored_member, with_member, JsonView};
use crate::model::RecordView;
use crate::order::{
    comes_before, lemma_sorted_texts, lemma_stable_order, reordered, sorted_texts, stable_order,
    text_keys,
};
use crate::parsers::intrusion_log::{
    display_name, event_ips, files_harvest, ip_in, known_ips, log_positions, pair_texts, path_texts,
    port_of, shown_word, shown_words, tag_of, text_of, value_record, LogFile, Members,
};
use crate::selection::{is_selection, lemma_selection_grows};
use crate::text::{
    dec, dec_int, extension_of, is_ascii_word, joined, last_index, lemma_text_order,
    same_ignoring_ascii_case, split_on, text_lt,
};
use crate::text_laws::{lemma_joined_front, lemma_parts_of_text};
use crate::time::{in_calendar, Timestamp};

verus! {

/// Whether an instant is so many milliseconds behind the beginning of 1970.
pub open spec fn is_at_millis(t: Timestamp, n: int) -> bool {
    &&& t.nanos < 1_000_000_000
    &&& t.seconds * 1_000_000_000 + t.nanos == n * 1_000_000
}

/// Whether an instant is so many nanoseconds behind the beginning of 1970.
pub open spec fn is_at_nanos(t: Timestamp, n: int) -> bool {
    &&& t.nanos < 1_000_000_000
    &&& t.seconds * 1_000_000_000 + t.nanos == n
}

/// Whether an event has a time that is a whole number.
pub open spec fn has_time(event: Members, n: int) -> bool {
    match JsonView::Object(event).get("event_time"@) {
        Some(JsonView::Unsigned(u)) => u == n && n <= i64::MAX,
        Some(JsonView::Negative(i)) => i == n,
        _ => false,
    }
}

/// The names of the three kinds of events.
proof fn lemma_kinds()
    ensures
        "dns_event"@ != "connect_event"@,
        "dns_event"@ != "security_event"@,
        "connect_event"@ != "security_event"@,
{
    reveal_strlit("dns_event");
    reveal_strlit("connect_event");
    reveal_strlit("security_event");
    assert("dns_event"@.len() == 9);
    assert("connect_event"@.len() == 13);
    assert("security_event"@.len() == 14);
}

/// The time of an event counts milliseconds, but that of a security event nanoseconds.
/// An event has a record if its kind is known and its time lies in the range of dates.
pub proof fn lemma_event_time(line: Seq<char>, kind: Seq<char>, event: Members)
    ensures
        ({
            let r = value_record(line, JsonView::Object(seq![(kind, JsonView::Object(event))]));
            &&& kind == "dns_event"@ || kind == "connect_event"@ ==> {
                &&& r is Ok <==> exists|n: int| #[trigger]
                    has_time(event, n) && in_calendar(n / 1000)
                &&& r is Ok ==> forall|n: int| #[trigger]
                    has_time(event, n) ==> is_at_millis(r->Ok_0.timestamp_utc, n)
            }
            &&& kind == "security_event"@ ==> {
                &&& r is Ok <==> exists|n: int| #[trigger] has_time(event, n)
                &&& r is Ok ==> forall|n: int| #[trigger]
                    has_time(event, n) ==> is_at_nanos(r->Ok_0.timestamp_utc, n)
            }
            &&& kind != "dns_event"@ && kind != "connect_event"@ && kind != "security_event"@
                ==> r is Err
        }),
{
    lemma_kinds();
    let value = JsonView::Object(seq![(kind, JsonView::Object(event))]);
    assert(value->Object_0[0] == (kind, JsonView::Object(event)));
    match JsonView::Object(event).get("event_time"@) {
        Some(JsonView::Unsigned(u)) => {
            if u <= i64::MAX {
                assert(has_time(event, u as int));
            }
        },
        Some(JsonView::Negative(i)) => {
            assert(has_time(event, i as int));
        },
        _ => {},
    }
}

/// Whether an address is the one in a text: all of it, or what stands behind its last
/// slash.
pub open spec fn is_address_in(raw: Seq<char>, ip: Seq<char>) -> bool {
    &&& !ip.contains('/')
    &&& raw == ip || exists|host: Seq<char>| raw == #[trigger] (host + seq!['/'] + ip)
}

/// The address in a text is what stands behind its last slash.
pub proof fn lemma_address_in_text(raw: Seq<char>)
    ensures
        is_address_in(raw, ip_in(raw)),
{
    let k = last_index(raw, '/');
    lemma_last_slash(raw);
    let ip = ip_in(raw);
    if ip.contains('/') {
        let i = choose|i: int| 0 <= i < ip.len() && ip[i] == '/';
        assert(raw[k + 1 + i] == '/');
        assert(false);
    }
    if k < 0 {
        assert(ip =~= raw);
    } else {
        let host = raw.take(k);
        assert(raw =~= host + seq!['/'] + ip);
    }
}

proof fn lemma_last_slash(s: Seq<char>)
    ensures
        -1 <= last_index(s, '/') < s.len(),
        last_index(s, '/') >= 0 ==> s[last_index(s, '/')] == '/',
        forall|i: int| last_index(s, '/') < i < s.len() ==> s[i] != '/',
    decreases s.len(),
{
    if s.len() > 0 && s.last() != '/' {
        lemma_last_slash(s.drop_last());
        assert forall|i: int| last_index(s, '/') < i < s.len() implies s[i] != '/' by {
            if i < s.len() - 1 {
                assert(s[i] == s.drop_last()[i]);
            }
        }
    }
}

/// Whether an item of a list names an address: a text with one in it that is neither empty
/// nor the unspecified one.
pub open spec fn names_address(item: JsonView) -> bool {
    item matches JsonView::Text(raw) && exists|ip: Seq<char>| #[trigger]
        is_address_in(raw, ip) && ip.len() > 0 && ip != "0.0.0.0"@
}

proof fn lemma_one_address(raw: Seq<char>, a: Seq<char>, b: Seq<char>)
    requires
        is_address_in(raw, a),
        is_address_in(raw, b),
    ensures
        a == b,
{
    if raw.len() == a.len() || raw.len() == b.len() {
        if raw != a {
            let host = choose|host: Seq<char>| raw == #[trigger] (host + seq!['/'] + a);
            assert(raw[host.len() as int] == '/');
            assert(raw.contains('/'));
        }
        if raw != b {
            let host = choose|host: Seq<char>| raw == #[trigger] (host + seq!['/'] + b);
            assert(raw[host.len() as int] == '/');
            assert(raw.contains('/'));
        }
    } else {
        let x = choose|host: Seq<char>| raw == #[trigger] (host + seq!['/'] + a);
        let y = choose|host: Seq<char>| raw == #[trigger] (host + seq!['/'] + b);
        assert(raw[x.len() as int] == '/');
        assert(raw[y.len() as int] == '/');
        if x.len() < y.len() {
            assert(a[y.len() - x.len() - 1] == raw[y.len() as int]);
        } else if y.len() < x.len() {
            assert(b[x.len() - y.len() - 1] == raw[x.len() as int]);
        }
        assert(a =~= raw.skip(x.len() as int + 1));
        assert(b =~= raw.skip(y.len() as int + 1));
    }
}

/// Whether addresses are those that a list names, in its order.
pub open spec fn are_addresses(items: Seq<JsonView>, ips: Seq<Seq<char>>, from: Seq<int>) -> bool {
    &&& is_selection(items, |item: JsonView| names_address(item), from)
    &&& ips.len() == from.len()
    &&& forall|k: int|
        0 <= k < ips.len() ==> items[from[k]] is Text && is_address_in(
            items[from[k]]->Text_0,
            #[trigger] ips[k],
        )
}

/// The addresses of a query are those that its list names.
pub proof fn lemma_addresses_listed(items: Seq<JsonView>) -> (from: Seq<int>)
    ensures
        are_addresses(items, known_ips(items), from),
    decreases items.len(),
{
    let keep = |item: JsonView| names_address(item);
    if items.len() == 0 {
        Seq::empty()
    } else {
        let front = items.drop_last();
        let before = lemma_addresses_listed(front);
        let from = lemma_selection_grows(items, keep, before);
        let ips = known_ips(items);
        if let JsonView::Text(raw) = items.last() {
            lemma_address_in_text(raw);
            if names_address(items.last()) {
                let ip = choose|ip: Seq<char>| #[trigger]
                    is_address_in(raw, ip) && ip.len() > 0 && ip != "0.0.0.0"@;
                lemma_one_address(raw, ip, ip_in(raw));
            }
        }
        assert forall|k: int| 0 <= k < ips.len() implies items[from[k]] is Text && is_address_in(
            items[from[k]]->Text_0,
            #[trigger] ips[k],
        ) by {
            if k < before.len() {
                assert(from[k] == before[k]);
                assert(front[before[k]] == items[before[k]]);
                assert(ips[k] == known_ips(front)[k]);
            }
        }
        from
    }
}

/// Whether a text is the one of a member, or empty where the member is no text.
pub open spec fn is_member_text(event: Members, key: Seq<char>, text: Seq<char>) -> bool {
    match JsonView::Object(event).get(key) {
        Some(JsonView::Text(s)) => text == s,
        _ => text.len() == 0,
    }
}

/// Whether a message tells of a query: which name was asked for by which package, and the
/// addresses in the answer, where it names any.
pub open spec fn tells_query(
    event: Members,
    m: Seq<char>,
    host: Seq<char>,
    package: Seq<char>,
    ips: Seq<Seq<char>>,
) -> bool {
    &&& is_member_text(event, "hostname"@, host)
    &&& is_member_text(event, "package_name"@, package)
    &&& match JsonView::Object(event).get("ip_addresses"@) {
        Some(JsonView::Array(items)) => exists|from: Seq<int>| #[trigger]
            are_addresses(items, ips, from),
        _ => ips.len() == 0,
    }
    &&& m == "[Peach] DNS query for "@ + host + " by "@ + package + if ips.len() == 0 {
        Seq::empty()
    } else {
        " [IPs: "@ + joined(ips, ", "@) + "]"@
    }
}

/// Whether a message tells of a connection: to which address and port, by which package.
pub open spec fn tells_connection(
    event: Members,
    m: Seq<char>,
    raw: Seq<char>,
    ip: Seq<char>,
    package: Seq<char>,
) -> bool {
    &&& is_member_text(event, "ip_address"@, raw)
    &&& is_address_in(raw, ip)
    &&& is_member_text(event, "package_name"@, package)
    &&& exists|port: int|
        m == "[Peach] Connection to "@ + ip + ":"@ + #[trigger] dec_int(port) + " by "@ + package
            && match JsonView::Object(event).get("port"@) {
            Some(JsonView::Unsigned(n)) => port == if n <= i64::MAX {
                n as int
            } else {
                0
            },
            Some(JsonView::Negative(n)) => port == n,
            _ => port == 0,
        }
}

/// The record of a query tells of the query.
pub proof fn lemma_query_is_told(line: Seq<char>, event: Members)
    ensures
        value_record(
            line,
            JsonView::Object(seq![("dns_event"@, JsonView::Object(event))]),
        ) matches Ok(r) ==> r.message is Some && exists|
            host: Seq<char>,
            package: Seq<char>,
            ips: Seq<Seq<char>>,
        | #[trigger]
            tells_query(event, r.message->0, host, package, ips),
{
    lemma_kinds();
    let value = JsonView::Object(seq![("dns_event"@, JsonView::Object(event))]);
    assert(value->Object_0[0] == ("dns_event"@, JsonView::Object(event)));
    if let Ok(r) = value_record(line, value) {
        let host = text_of(event, "hostname"@);
        let package = text_of(event, "package_name"@);
        let ips = event_ips(event);
        if let Some(JsonView::Array(items)) = JsonView::Object(event).get("ip_addresses"@) {
            let from = lemma_addresses_listed(items);
            assert(are_addresses(items, ips, from));
        }
        let head = "[Peach] DNS query for "@ + host + " by "@ + package;
        if ips.len() > 0 {
            assert(head + " [IPs: "@ + joined(ips, ", "@) + "]"@ =~= head + (" [IPs: "@ + joined(
                ips,
                ", "@,
            ) + "]"@));
        } else {
            assert(head =~= head + Seq::<char>::empty());
        }
        assert(tells_query(event, r.message->0, host, package, ips));
    }
}

/// The record of a connection tells of the connection.
pub proof fn lemma_connection_is_told(line: Seq<char>, event: Members)
    ensures
        value_record(
            line,
            JsonView::Object(seq![("connect_event"@, JsonView::Object(event))]),
        ) matches Ok(r) ==> r.message is Some && exists|
            raw: Seq<char>,
            ip: Seq<char>,
            package: Seq<char>,
        | #[trigger]
            tells_connection(event, r.message->0, raw, ip, package),
{
    lemma_kinds();
    let value = JsonView::Object(seq![("connect_event"@, JsonView::Object(event))]);
    assert(value->Object_0[0] == ("connect_event"@, JsonView::Object(event)));
    if let Ok(r) = value_record(line, value) {
        let raw = text_of(event, "ip_address"@);
        let package = text_of(event, "package_name"@);
        lemma_address_in_text(raw);
        let port = port_of(event);
        assert(r.message->0 == "[Peach] Connection to "@ + ip_in(raw) + ":"@ + dec_int(port)
            + " by "@ + package);
        assert(tells_connection(event, r.message->0, raw, ip_in(raw), package));
    }
}

/// Whether a name is that of a member beside the event itself.
pub open spec fn is_beside_event(key: Seq<char>) -> bool {
    key == "event_id"@ || key == "event_time"@ || key == "event_type"@ || key == "timestamp"@
}

proof fn lemma_tag(event: Members) -> (at: int)
    ensures
        match tag_of(event) {
            Some(tag) => 0 <= at < event.len() && event[at].0 == tag && !is_beside_event(tag)
                && forall|i: int| 0 <= i < at ==> is_beside_event((#[trigger] event[i]).0),
            None => forall|i: int|
                0 <= i < event.len() ==> is_beside_event((#[trigger] event[i]).0),
        },
    decreases event.len(),
{
    if event.len() == 0 {
        0
    } else if !is_beside_event(event[0].0) {
        0
    } else {
        let rest = event.drop_first();
        let at = lemma_tag(rest);
        assert forall|i: int|
            0 <= i < event.len() && (tag_of(event) is Some ==> i < at + 1) implies is_beside_event(
            (#[trigger] event[i]).0,
        ) by {
            if i > 0 {
                assert(rest[i - 1] == event[i]);
            }
        }
        at + 1
    }
}

/// Whether texts are the details of an event as `name=value`, in the order of the texts.
pub open spec fn are_details(detail: Members, texts: Seq<Seq<char>>) -> bool {
    &&& texts.len() == detail.len()
    &&& forall|i: int|
        0 <= i < detail.len() ==> texts.contains(
            (#[trigger] detail[i]).0 + "="@ + json_text(detail[i].1),
        )
    &&& forall|k: int|
        0 <= k < texts.len() ==> exists|i: int|
            0 <= i < detail.len() && #[trigger] texts[k] == (#[trigger] detail[i]).0 + "="@
                + json_text(detail[i].1)
    &&& forall|i: int, j: int|
        0 <= i < j < texts.len() ==> !text_lt(#[trigger] texts[j], #[trigger] texts[i])
}

/// The record of a security event tells of the event: the name of its first member that is
/// the event itself, and behind it the details that the member holds.
pub proof fn lemma_security_event_is_told(line: Seq<char>, event: Members)
    ensures
        value_record(
            line,
            JsonView::Object(seq![("security_event"@, JsonView::Object(event))]),
        ) matches Ok(r) ==> r.message is Some && {
            ||| (forall|i: int| 0 <= i < event.len() ==> is_beside_event((#[trigger] event[i]).0))
                && r.message->0 == "[Peach] Security event (no tag)"@
            ||| exists|at: int|
                0 <= at < event.len() && !is_beside_event((#[trigger] event[at]).0) && (forall|
                    i: int,
                |
                    0 <= i < at ==> is_beside_event((#[trigger] event[i]).0))
                    && r.fields.get("security_event_tag"@) == Some(JsonView::Text(event[at].0))
                    && match event[at].1 {
                    JsonView::Object(detail) => if detail.len() == 0 {
                        r.message->0 == "[Peach] "@ + display_name(event[at].0)
                    } else {
                        exists|texts: Seq<Seq<char>>| #[trigger]
                            are_details(detail, texts) && r.message->0 == "[Peach] "@
                                + display_name(event[at].0) + ": "@ + joined(texts, ", "@)
                    },
                    _ => r.message->0 == "[Peach] "@ + display_name(event[at].0),
                }
        },
{
    lemma_kinds();
    let value = JsonView::Object(seq![("security_event"@, JsonView::Object(event))]);
    assert(value->Object_0[0] == ("security_event"@, JsonView::Object(event)));
    if let Ok(r) = value_record(line, value) {
        let at = lemma_tag(event);
        if let Some(tag) = tag_of(event) {
            assert forall|i: int| 0 <= i < at implies (#[trigger] event[i]).0 != tag by {
                assert(is_beside_event(event[i].0));
            }
            lemma_first_place(event, tag, at);
            assert(JsonView::Object(event).get(tag) == Some(event[at].1));
            let with_kind = with_member(
                event,
                "event_type"@,
                JsonView::Text("security_event"@),
            );
            lemma_stored_member(
                with_kind,
                "security_event_tag"@,
                JsonView::Text(tag),
                "security_event_tag"@,
            );
            if let JsonView::Object(detail) = event[at].1 {
                if detail.len() > 0 {
                    let pairs = pair_texts(detail);
                    let texts = sorted_texts(pairs);
                    lemma_sorted_texts(pairs);
                    assert forall|i: int| 0 <= i < detail.len() implies texts.contains(
                        (#[trigger] detail[i]).0 + "="@ + json_text(detail[i].1),
                    ) by {
                        assert(pairs[i] == detail[i].0 + "="@ + json_text(detail[i].1));
                        assert(pairs.contains(pairs[i]));
                    }
                    assert forall|k: int| 0 <= k < texts.len() implies exists|i: int|
                        0 <= i < detail.len() && #[trigger] texts[k] == (#[trigger] detail[i]).0
                            + "="@ + json_text(detail[i].1) by {
                        assert(texts.contains(texts[k]));
                        assert(pairs.contains(texts[k]));
                        let i = choose|i: int| 0 <= i < pairs.len() && pairs[i] == texts[k];
                        assert(texts[k] == detail[i].0 + "="@ + json_text(detail[i].1));
                    }
                    assert(are_details(detail, texts));
                }
            }
        }
    }
}

/// Whether a word is shown as a text: one of four acronyms in capitals, and any other word
/// with a capital letter in front.
pub open spec fn is_shown_as(word: Seq<char>, shown: Seq<char>) -> bool {
    if same_ignoring_ascii_case(word, "ADB"@) {
        shown == "ADB"@
    } else if same_ignoring_ascii_case(word, "OS"@) {
        shown == "OS"@
    } else if same_ignoring_ascii_case(word, "NFC"@) {
        shown == "NFC"@
    } else if same_ignoring_ascii_case(word, "DNS"@) {
        shown == "DNS"@
    } else {
        &&& shown.len() == word.len()
        &&& shown.skip(1) == word.skip(1)
        &&& shown[0] as int == if 'a' <= word[0] <= 'z' {
            word[0] as int - 32
        } else {
            word[0] as int
        }
    }
}

/// Whether all characters of a text may stand in the name of a security event.
pub open spec fn is_tag_text(s: Seq<char>) -> bool {
    forall|i: int| 0 <= i < s.len() ==> is_ascii_word(#[trigger] s[i])
}

proof fn lemma_shown_front(word: Seq<char>, others: Seq<Seq<char>>)
    ensures
        shown_words(seq![word] + others) == if word.len() == 0 {
            shown_words(others)
        } else {
            seq![shown_word(word)] + shown_words(others)
        },
    decreases others.len(),
{
    let all = seq![word] + others;
    if others.len() == 0 {
        assert(all.drop_last() =~= Seq::<Seq<char>>::empty());
        assert(all.last() == word);
        assert(shown_words(all.drop_last()) =~= Seq::<Seq<char>>::empty());
        assert(shown_words(others) =~= Seq::<Seq<char>>::empty());
        assert(shown_words(all) =~= if word.len() == 0 {
            Seq::<Seq<char>>::empty()
        } else {
            seq![shown_word(word)]
        });
    } else {
        assert(all.drop_last() =~= seq![word] + others.drop_last());
        assert(all.last() == others.last());
        lemma_shown_front(word, others.drop_last());
        assert(shown_words(all) =~= if word.len() == 0 {
            shown_words(others)
        } else {
            seq![shown_word(word)] + shown_words(others)
        });
    }
}

/// The words of a name stand between underscores and are shown with spaces between them: a
/// word, an underscore and a rest are shown as the word and then the rest.
pub proof fn lemma_words_of_names(word: Seq<char>, rest: Seq<char>)
    requires
        is_tag_text(word),
        is_tag_text(rest),
        !word.contains('_'),
        word.len() > 0,
    ensures
        is_shown_as(word, display_name(word)),
        display_name(word + seq!['_'] + rest) == if display_name(rest).len() == 0 {
            display_name(word)
        } else {
            display_name(word) + " "@ + display_name(rest)
        },
        display_name(seq!['_'] + rest) == display_name(rest),
{
    let none = Seq::<char>::empty();
    let all = word + seq!['_'] + rest;
    assert(is_tag_text(all)) by {
        assert forall|i: int| 0 <= i < all.len() implies is_ascii_word(#[trigger] all[i]) by {
            if i < word.len() {
                assert(all[i] == word[i]);
            } else if i > word.len() {
                assert(all[i] == rest[i - word.len() - 1]);
            }
        }
    }
    let tail = seq!['_'] + rest;
    assert(is_tag_text(tail)) by {
        assert forall|i: int| 0 <= i < tail.len() implies is_ascii_word(#[trigger] tail[i]) by {
            if i > 0 {
                assert(tail[i] == rest[i - 1]);
            }
        }
    }
    lemma_parts_of_text(word, '_', rest);
    lemma_parts_of_text(none, '_', rest);
    assert(none + seq!['_'] + rest =~= tail);
    let parts = split_on(rest, '_');
    lemma_shown_front(word, parts);
    lemma_shown_front(none, parts);
    let one = seq![word];
    assert(one =~= seq![word] + Seq::<Seq<char>>::empty());
    lemma_shown_front(word, Seq::empty());
    assert(shown_words(Seq::<Seq<char>>::empty()) =~= Seq::<Seq<char>>::empty());
    assert(shown_words(one) =~= seq![shown_word(word)]);
    lemma_joined_front(shown_word(word), Seq::empty(), " "@);
    assert(seq![shown_word(word)] + Seq::<Seq<char>>::empty() =~= seq![shown_word(word)]);
    lemma_joined_front(shown_word(word), shown_words(parts), " "@);
    lemma_shown_is_some(parts);
    lemma_joined_empty(shown_words(parts), " "@);
    assert(display_name(word) == shown_word(word));
    assert(shown_word(word).skip(1) =~= word.skip(1) || shown_word(word).len() != word.len()
        || same_ignoring_ascii_case("ADB"@, word) || same_ignoring_ascii_case("OS"@, word)
        || same_ignoring_ascii_case("NFC"@, word) || same_ignoring_ascii_case("DNS"@, word));
}

/// No word is shown as nothing.
proof fn lemma_shown_is_some(words: Seq<Seq<char>>)
    ensures
        forall|i: int| 0 <= i < shown_words(words).len() ==> (#[trigger] shown_words(words)[i]).len()
            > 0,
    decreases words.len(),
{
    if words.len() > 0 {
        lemma_shown_is_some(words.drop_last());
        reveal_strlit("ADB");
        reveal_strlit("OS");
        reveal_strlit("NFC");
        reveal_strlit("DNS");
        assert("ADB"@.len() == 3 && "OS"@.len() == 2 && "NFC"@.len() == 3 && "DNS"@.len() == 3);
        assert(words.last().len() > 0 ==> shown_word(words.last()).len() > 0);
        let front = shown_words(words.drop_last());
        let all = shown_words(words);
        assert forall|i: int| 0 <= i < all.len() implies (#[trigger] all[i]).len() > 0 by {
            if i < front.len() {
                assert(all[i] == front[i]);
            }
        }
    }
}

proof fn lemma_joined_empty(parts: Seq<Seq<char>>, sep: Seq<char>)
    requires
        forall|i: int| 0 <= i < parts.len() ==> (#[trigger] parts[i]).len() > 0,
    ensures
        joined(parts, sep).len() == 0 <==> parts.len() == 0,
{
    if parts.len() > 0 {
        assert(parts[parts.len() - 1].len() > 0);
    }
}

/// Whether a path leads to a file whose name ends in `.txt`, in any case.
pub open spec fn ends_in_txt(path: Seq<Seq<char>>) -> bool {
    path.len() > 0 && match extension_of(path.last()) {
        Some(ext) => same_ignoring_ascii_case(ext, "txt"@),
        None => false,
    }
}

proof fn lemma_log_positions(paths: Seq<Seq<Seq<char>>>)
    ensures
        is_selection(paths, |p: Seq<Seq<char>>| ends_in_txt(p), log_positions(paths)),
    decreases paths.len(),
{
    if paths.len() > 0 {
        lemma_log_positions(paths.drop_last());
        let from = lemma_selection_grows(
            paths,
            |p: Seq<Seq<char>>| ends_in_txt(p),
            log_positions(paths.drop_last()),
        );
        assert(from == log_positions(paths));
    }
}

/// The files of logs are those whose names end in `.txt`, each once, in the order of their
/// paths.
pub proof fn lemma_log_files_in_order(paths: Seq<Seq<Seq<char>>>)
    ensures
        ({
            let found = log_positions(paths);
            let texts = path_texts(paths, found);
            let files = reordered(found, stable_order(text_keys(texts)));
            &&& forall|k: int|
                0 <= k < files.len() ==> 0 <= #[trigger] files[k] < paths.len() && ends_in_txt(
                    paths[files[k]],
                )
            &&& forall|i: int|
                0 <= i < paths.len() && ends_in_txt(#[trigger] paths[i]) ==> files.contains(i)
            &&& forall|j: int, k: int|
                0 <= j < k < files.len() ==> #[trigger] files[j] != #[trigger] files[k] && !text_lt(
                    joined(paths[files[k]], "\0"@),
                    joined(paths[files[j]], "\0"@),
                )
        }),
{
    lemma_log_positions(paths);
    let found = log_positions(paths);
    let texts = path_texts(paths, found);
    let keys = text_keys(texts);
    let order = stable_order(keys);
    let files = reordered(found, order);
    lemma_stable_order(keys);
    assert forall|k: int| 0 <= k < files.len() implies 0 <= #[trigger] files[k] < paths.len()
        && ends_in_txt(paths[files[k]]) by {
        assert(0 <= order[k] < keys.len());
        assert(files[k] == found[order[k]]);
    }
    assert forall|i: int| 0 <= i < paths.len() && ends_in_txt(#[trigger] paths[i]) implies
        files.contains(i) by {
        assert(found.contains(i));
        let j = choose|j: int| 0 <= j < found.len() && found[j] == i;
        assert(order.contains(j));
        let k = choose|k: int| 0 <= k < order.len() && order[k] == j;
        assert(files[k] == i);
    }
    assert forall|j: int, k: int| 0 <= j < k < files.len() implies #[trigger] files[j]
        != #[trigger] files[k] && !text_lt(
        joined(paths[files[k]], "\0"@),
        joined(paths[files[j]], "\0"@),
    ) by {
        let (a, b) = (order[j], order[k]);
        assert(comes_before(keys, a, b));
        assert(a != b);
        assert(found[a] != found[b]);
        assert(keys[a].text == joined(paths[found[a]], "\0"@));
        assert(keys[b].text == joined(paths[found[b]], "\0"@));
        lemma_text_order(keys[a].text, keys[b].text, keys[a].text);
    }
}

/// A file that cannot be read fails the source, if the files before it do not.
pub proof fn lemma_unreadable_file_fails(files: Seq<LogFile>, skip: bool)
    requires
        files.len() > 0,
        files.last().text is Err,
    ensures
        files_harvest(files, skip) is Err,
{
}

/// A line has a record only where it is an object with one member, whose name is a kind of
/// event and whose value is an object with a time; what is missing is the reason.
pub proof fn lemma_lines_without_events(
    line: Seq<char>,
    value: JsonView,
    kind: Seq<char>,
    inner: JsonView,
)
    ensures
        !(value is Object) ==> value_record(line, value) == Err::<RecordView, Seq<char>>(
            "expected a JSON object"@,
        ),
        (value matches JsonView::Object(members) && members.len() != 1) ==> value_record(line, value)
            == Err::<RecordView, Seq<char>>(
            "expected exactly one top-level event-type key, found "@ + dec(
                value->Object_0.len(),
            ),
        ),
        !(inner is Object) ==> value_record(line, JsonView::Object(seq![(kind, inner)])) == Err::<
            RecordView,
            Seq<char>,
        >("'"@ + kind + "' value is not a JSON object"@),
        inner is Object && kind != "dns_event"@ && kind != "connect_event"@ && kind
            != "security_event"@ ==> value_record(line, JsonView::Object(seq![(kind, inner)]))
            == Err::<RecordView, Seq<char>>(
            "unrecognized intrusion-log event type '"@ + kind + "'"@,
        ),
        (inner matches JsonView::Object(event) && (forall|n: int| !#[trigger] has_time(event, n))
            && (kind == "dns_event"@ || kind == "connect_event"@ || kind == "security_event"@))
            ==> value_record(line, JsonView::Object(seq![(kind, inner)])) == Err::<
            RecordView,
            Seq<char>,
        >("missing or non-integer 'event_time'"@),
{
    let members = seq![(kind, inner)];
    assert(members[0] == (kind, inner));
    lemma_kinds();
    if let JsonView::Object(event) = inner {
        match JsonView::Object(event).get("event_time"@) {
            Some(JsonView::Unsigned(u)) => {
                if u <= i64::MAX {
                    assert(has_time(event, u as int));
                }
            },
            Some(JsonView::Negative(i)) => {
                assert(has_time(event, i as int));
            },
            _ => {},
        }
    }
}

} // verus!
