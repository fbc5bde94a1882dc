//! How the message of a Windows event comes from a template and the fields of the event.

use vstd::prelude::*;

use crate::json::{json_text, JsonView};
use crate::model::RecordView;
use crate::parsers::evtx::{
    at_record, contents_records, evtx_record, rfc3339_instant, EvtxRecordView,
};
use crate::parsers::evtx_templates::{
    elements_of, message_for, name_len, payload_of, placeholder_len, rendered, template_for,
    template_of, templates_in, TemplateView,
};
use crate::text::ends_with;
use crate::toml_doc::{entry, TomlView};

verus! {

/// Whether a template is for the events of a provider with a number.
pub open spec fn is_for(t: TemplateView, provider: Seq<char>, event_id: u32) -> bool {
    &&& t.provider == provider
    &&& t.event_id == event_id
}

/// The index of the first template for an event, if there is one.
proof fn lemma_first_template(all: Seq<TemplateView>, provider: Seq<char>, event_id: u32) -> (at:
    int)
    ensures
        match template_for(all, provider, event_id) {
            Some(message) => {
                &&& 0 <= at < all.len()
                &&& is_for(all[at], provider, event_id)
                &&& message == all[at].message
                &&& forall|j: int| 0 <= j < at ==> !is_for(#[trigger] all[j], provider, event_id)
            },
            None => forall|j: int|
                0 <= j < all.len() ==> !is_for(#[trigger] all[j], provider, event_id),
        },
    decreases all.len(),
{
    if all.len() == 0 {
        0
    } else if is_for(all[0], provider, event_id) {
        0
    } else {
        let rest = all.drop_first();
        let at = lemma_first_template(rest, provider, event_id);
        assert forall|j: int|
            0 <= j < all.len() && (template_for(all, provider, event_id) is Some ==> j < at
                + 1) implies !is_for(#[trigger] all[j], provider, event_id) by {
            if j > 0 {
                assert(rest[j - 1] == all[j]);
            }
        }
        at + 1
    }
}

/// A message is made for an event from the first template with its provider and its
/// number, both the same, and from no other. Without such a template there is none.
pub proof fn lemma_message_is_of_its_template(
    all: Seq<TemplateView>,
    provider: Seq<char>,
    event_id: u32,
    payload: Option<JsonView>,
)
    ensures
        match message_for(all, provider, event_id, payload) {
            Some(m) => exists|i: int|
                0 <= i < all.len() && (#[trigger] all[i]).provider == provider && all[i].event_id
                    == event_id && m == "[Peach] "@ + rendered(all[i].message, payload) && (
                forall|j: int|
                    0 <= j < i ==> (#[trigger] all[j]).provider != provider || all[j].event_id
                        != event_id),
            None => forall|i: int|
                0 <= i < all.len() ==> (#[trigger] all[i]).provider != provider || all[i].event_id
                    != event_id,
        },
{
    let at = lemma_first_template(all, provider, event_id);
    if template_for(all, provider, event_id) is Some {
        assert(is_for(all[at], provider, event_id));
        assert forall|j: int| 0 <= j < at implies (#[trigger] all[j]).provider != provider
            || all[j].event_id != event_id by {
            assert(!is_for(all[j], provider, event_id));
        }
    } else {
        assert forall|j: int| 0 <= j < all.len() implies (#[trigger] all[j]).provider != provider
            || all[j].event_id != event_id by {
            assert(!is_for(all[j], provider, event_id));
        }
    }
}

/// Whether a text may be the name of a field in a template: letters, digits and
/// underscores of ASCII, at least one.
pub open spec fn is_field_name(name: Seq<char>) -> bool {
    &&& name.len() > 0
    &&& forall|i: int|
        0 <= i < name.len() ==> {
            let c = #[trigger] name[i];
            'a' <= c <= 'z' || 'A' <= c <= 'Z' || '0' <= c <= '9' || c == '_'
        }
}

/// Whether a text stands for a value in a message: a text for itself, a number or a truth
/// value for how it is written.
pub open spec fn is_text_of(value: JsonView, text: Seq<char>) -> bool {
    ||| value == JsonView::Text(text)
    ||| text == json_text(value) && (value is Bool || value is Unsigned || value is Negative
        || value is Float)
}

/// Whether a value has a text that can stand in a message.
pub open spec fn has_text(value: JsonView) -> bool {
    value is Text || value is Bool || value is Unsigned || value is Negative || value is Float
}

proof fn lemma_name_len(name: Seq<char>, after: Seq<char>)
    requires
        name.len() > 0 ==> is_field_name(name),
        after.len() > 0,
        after[0] == '}',
    ensures
        name_len(name + after) == name.len(),
    decreases name.len(),
{
    let s = name + after;
    if name.len() > 0 {
        assert(s[0] == name[0]);
        assert(s.drop_first() =~= name.drop_first() + after);
        assert forall|i: int| 0 <= i < name.len() - 1 implies ({
            let c = #[trigger] name.drop_first()[i];
            'a' <= c <= 'z' || 'A' <= c <= 'Z' || '0' <= c <= '9' || c == '_'
        }) by {
            assert(name.drop_first()[i] == name[i + 1]);
        }
        lemma_name_len(name.drop_first(), after);
    } else {
        assert(s =~= after);
    }
}

proof fn lemma_name_at_front(s: Seq<char>)
    ensures
        name_len(s) <= s.len(),
        name_len(s) > 0 ==> is_field_name(s.take(name_len(s) as int)),
    decreases s.len(),
{
    if name_len(s) > 0 {
        lemma_name_at_front(s.drop_first());
        let n = name_len(s);
        let name = s.take(n as int);
        assert forall|i: int| 0 <= i < name.len() implies ({
            let c = #[trigger] name[i];
            'a' <= c <= 'z' || 'A' <= c <= 'Z' || '0' <= c <= '9' || c == '_'
        }) by {
            if i > 0 {
                let rest = s.drop_first().take(n - 1);
                assert(rest[i - 1] == name[i]);
            }
        }
    }
}

/// A name in braces is filled in with the field of that name; where the event has no such
/// field, or the field has no text, it stays. What stands behind it is filled in by
/// itself.
pub proof fn lemma_field_is_filled_in(name: Seq<char>, after: Seq<char>, payload: JsonView)
    requires
        is_field_name(name),
    ensures
        match payload.get(name) {
            Some(value) => if has_text(value) {
                exists|text: Seq<char>| #[trigger]
                    is_text_of(value, text) && rendered(
                        seq!['{'] + name + seq!['}'] + after,
                        Some(payload),
                    ) == text + rendered(after, Some(payload))
            } else {
                rendered(seq!['{'] + name + seq!['}'] + after, Some(payload)) == seq!['{'] + name
                    + seq!['}'] + rendered(after, Some(payload))
            },
            None => rendered(seq!['{'] + name + seq!['}'] + after, Some(payload)) == seq!['{']
                + name + seq!['}'] + rendered(after, Some(payload)),
        },
{
    let template = seq!['{'] + name + seq!['}'] + after;
    let n = name.len() as int;
    assert(template.drop_first() =~= name + (seq!['}'] + after));
    lemma_name_len(name, seq!['}'] + after);
    assert(template[1 + n] == '}');
    assert(placeholder_len(template) == name.len());
    assert(template.subrange(1, 1 + n) =~= name);
    assert(template.take(n + 2) =~= seq!['{'] + name + seq!['}']);
    assert(template.skip(n + 2) =~= after);
    if let Some(value) = payload.get(name) {
        if has_text(value) {
            let text = match value {
                JsonView::Text(s) => s,
                _ => json_text(value),
            };
            assert(is_text_of(value, text));
        }
    }
}

/// A character that begins no name in braces stays, and what stands behind it is filled in
/// by itself.
pub proof fn lemma_other_text_stays(c: char, after: Seq<char>, payload: Option<JsonView>)
    requires
        c == '{' ==> forall|name: Seq<char>, rest: Seq<char>|
            is_field_name(name) ==> after != #[trigger] (name + seq!['}'] + rest),
    ensures
        rendered(seq![c] + after, payload) == seq![c] + rendered(after, payload),
{
    let template = seq![c] + after;
    assert(template.drop_first() =~= after);
    if placeholder_len(template) > 0 {
        let n = name_len(after) as int;
        lemma_name_at_front(after);
        let name = after.take(n);
        let rest = after.skip(n + 1);
        assert(template[1 + n] == after[n]);
        assert(after =~= name + seq!['}'] + rest);
        assert(false);
    }
}

/// Whether a member of `UserData` is an element: an object under a name that does not end
/// in `_attributes`.
pub open spec fn is_element(member: (Seq<char>, JsonView)) -> bool {
    &&& member.1 is Object
    &&& forall|before: Seq<char>| member.0 != #[trigger] (before + "_attributes"@)
}

proof fn lemma_element(member: (Seq<char>, JsonView))
    ensures
        is_element(member) <==> member.1 is Object && !ends_with(member.0, "_attributes"@),
{
    let tail = "_attributes"@;
    if ends_with(member.0, tail) {
        let before = member.0.take(member.0.len() - tail.len());
        assert(member.0 =~= before + tail);
    }
    assert forall|before: Seq<char>| member.0 == #[trigger] (before + tail) implies ends_with(
        member.0,
        tail,
    ) by {
        assert(member.0.subrange(before.len() as int, member.0.len() as int) =~= tail);
    }
}

/// The places of the elements.
proof fn lemma_elements(members: Seq<(Seq<char>, JsonView)>) -> (from: Seq<int>)
    ensures
        from.len() == elements_of(members).len(),
        forall|k: int|
            0 <= k < from.len() ==> 0 <= #[trigger] from[k] < members.len() && is_element(
                members[from[k]],
            ) && elements_of(members)[k] == members[from[k]].1,
        forall|j: int, k: int| 0 <= j < k < from.len() ==> #[trigger] from[j] < #[trigger] from[k],
        forall|i: int|
            0 <= i < members.len() && is_element(#[trigger] members[i]) ==> from.contains(i),
    decreases members.len(),
{
    if members.len() == 0 {
        Seq::empty()
    } else {
        let n = members.len() - 1;
        let front = members.drop_last();
        let before = lemma_elements(front);
        lemma_element(members.last());
        let from = if is_element(members.last()) {
            before.push(n)
        } else {
            before
        };
        assert forall|k: int| 0 <= k < from.len() implies 0 <= #[trigger] from[k] < members.len()
            && is_element(members[from[k]]) && elements_of(members)[k] == members[from[k]].1 by {
            if k < before.len() {
                assert(from[k] == before[k]);
                assert(front[before[k]] == members[before[k]]);
            }
        }
        assert forall|j: int, k: int| 0 <= j < k < from.len() implies #[trigger] from[j]
            < #[trigger] from[k] by {
            assert(from[j] == before[j]);
            if k < before.len() {
                assert(from[k] == before[k]);
            }
        }
        assert forall|i: int|
            0 <= i < members.len() && is_element(#[trigger] members[i]) implies from.contains(
            i,
        ) by {
            if i < n {
                assert(front[i] == members[i]);
                let k = choose|k: int| 0 <= k < before.len() && before[k] == i;
                assert(from[k] == i);
            } else {
                assert(from[from.len() - 1] == i);
            }
        }
        from
    }
}

/// The fields of an event are those of `EventData` where that is an object, and otherwise
/// those of the one element of `UserData`. With no element there, or more than one, there
/// are none.
pub proof fn lemma_payload_is_data_or_the_one_element(event: JsonView)
    ensures
        event.get("EventData"@) matches Some(JsonView::Object(members)) ==> payload_of(event)
            == Some(JsonView::Object(members)),
        !(event.get("EventData"@) matches Some(JsonView::Object(_))) ==> match event.get(
            "UserData"@,
        ) {
            Some(JsonView::Object(members)) => {
                &&& forall|i: int|
                    0 <= i < members.len() && is_element(#[trigger] members[i]) && (forall|j: int|
                        0 <= j < members.len() && is_element(#[trigger] members[j]) ==> j == i)
                        ==> payload_of(event) == Some(members[i].1)
                &&& (forall|i: int| 0 <= i < members.len() ==> !is_element(#[trigger] members[i]))
                    ==> payload_of(event) is None
                &&& forall|i: int, j: int|
                    0 <= i < j < members.len() && is_element(#[trigger] members[i]) && is_element(
                        #[trigger] members[j],
                    ) ==> payload_of(event) is None
            },
            _ => payload_of(event) is None,
        },
{
    if let Some(JsonView::Object(members)) = event.get("UserData"@) {
        let from = lemma_elements(members);
        assert forall|i: int|
            0 <= i < members.len() && is_element(#[trigger] members[i]) && (forall|j: int|
                0 <= j < members.len() && is_element(#[trigger] members[j]) ==> j
                    == i) implies from.len() == 1 && from[0] == i by {
            let k = choose|k: int| 0 <= k < from.len() && from[k] == i;
            assert(is_element(members[from[0]]));
            if from.len() > 1 {
                assert(is_element(members[from[1]]));
                assert(from[0] < from[1]);
            }
        }
        if from.len() > 0 {
            assert(is_element(members[from[0]]));
        }
        assert forall|i: int, j: int|
            0 <= i < j < members.len() && is_element(#[trigger] members[i]) && is_element(
                #[trigger] members[j],
            ) implies from.len() > 1 by {
            let a = choose|k: int| 0 <= k < from.len() && from[k] == i;
            let b = choose|k: int| 0 <= k < from.len() && from[k] == j;
            assert(a != b);
        }
    }
}

/// Whether a template is what an entry of a file says.
pub open spec fn is_template_of(t: TemplateView, body: Seq<(Seq<char>, TomlView)>) -> bool {
    &&& entry(body, "provider"@) == Some(TomlView::Text(t.provider))
    &&& entry(body, "event_id"@) matches Some(TomlView::Integer(n)) && n == t.event_id
    &&& entry(body, "message"@) == Some(TomlView::Text(t.message))
}

/// Whether an entry of a file says a template.
pub open spec fn says_template(body: Seq<(Seq<char>, TomlView)>) -> bool {
    exists|t: TemplateView| #[trigger] is_template_of(t, body)
}

/// A file of templates is read as it stands: one template for each entry, in the order of
/// the file.
pub proof fn lemma_templates_are_read(items: Seq<TomlView>, bodies: Seq<Seq<(Seq<char>, TomlView)>>)
    requires
        bodies.len() == items.len(),
        forall|i: int|
            0 <= i < items.len() ==> #[trigger] items[i] == TomlView::Table(bodies[i]),
    ensures
        templates_in(items) matches Ok(all) ==> all.len() == items.len() && forall|i: int|
            0 <= i < all.len() ==> is_template_of(#[trigger] all[i], bodies[i]),
        templates_in(items) is Ok <==> forall|i: int|
            0 <= i < items.len() ==> says_template(#[trigger] bodies[i]),
    decreases items.len(),
{
    if items.len() > 0 {
        let n = items.len() - 1;
        lemma_templates_are_read(items.drop_last(), bodies.drop_last());
        assert(items[n] == TomlView::Table(bodies[n]));
        if let Ok(all) = templates_in(items) {
            assert forall|i: int| 0 <= i < all.len() implies is_template_of(
                #[trigger] all[i],
                bodies[i],
            ) by {
                if i < n {
                    let before = templates_in(items.drop_last())->Ok_0;
                    assert(all[i] == before[i]);
                    assert(bodies.drop_last()[i] == bodies[i]);
                }
            }
        }
        assert forall|i: int| 0 <= i < n implies bodies.drop_last()[i] == #[trigger] bodies[i] by {
        }
        if forall|i: int| 0 <= i < items.len() ==> says_template(#[trigger] bodies[i]) {
            assert forall|i: int| 0 <= i < n implies says_template(
                #[trigger] bodies.drop_last()[i],
            ) by {
                assert(says_template(bodies[i]));
            }
            assert(says_template(bodies[n]));
            let t = choose|t: TemplateView| is_template_of(t, bodies[n]);
            assert(is_template_of(t, bodies[n]));
            assert(template_of(items.last()) is Ok);
        }
        if let Ok(all) = templates_in(items) {
            assert forall|i: int| 0 <= i < items.len() implies says_template(
                #[trigger] bodies[i],
            ) by {
                assert(is_template_of(all[i], bodies[i]));
            }
        }
    }
}

/// Whether a record says what an event does: when it was written, its level, the message
/// that it carries, and all of its data.
pub open spec fn is_record_of_event(r: RecordView, e: EvtxRecordView) -> bool {
    &&& rfc3339_instant(e.timestamp) == Ok::<_, Seq<char>>(r.timestamp_utc)
    &&& match e.data.at(seq!["Event"@, "System"@, "Level"@]) {
        Some(level) => if has_text(level) {
            r.level matches Some(text) && is_text_of(level, text)
        } else {
            r.level is None
        },
        None => r.level is None,
    }
    &&& match e.data.at(seq!["Event"@, "RenderingInfo"@, "Message"@]) {
        Some(m) => has_text(m) ==> (r.message matches Some(text) && is_text_of(m, text)),
        None => true,
    }
    &&& r.fields.get("event_record_id"@) == Some(JsonView::Unsigned(e.event_record_id))
    &&& r.fields.get("Event"@) == Some(
        match e.data.get("Event"@) {
            Some(event) => event,
            None => JsonView::Null,
        },
    )
    &&& r.raw == json_text(r.fields)
}

/// Whether a message is made for an event that carries none: from a template for its
/// provider and its number, filled in with its fields.
pub open spec fn is_made_for(all: Seq<TemplateView>, data: JsonView, m: Seq<char>) -> bool {
    &&& data.at(seq!["Event"@, "System"@, "Provider_attributes"@, "Name"@]) matches Some(
        JsonView::Text(provider),
    )
    &&& data.at(seq!["Event"@, "System"@, "EventID"@]) matches Some(JsonView::Unsigned(id))
    &&& exists|i: int|
        0 <= i < all.len() && (#[trigger] all[i]).provider == provider && all[i].event_id
            == id as u32 && m == "[Peach] "@ + rendered(
            all[i].message,
            match data.get("Event"@) {
                Some(event) => payload_of(event),
                None => None,
            },
        )
}

/// Whether there is no template for an event.
pub open spec fn has_no_template(all: Seq<TemplateView>, data: JsonView) -> bool {
    match (
        data.at(seq!["Event"@, "System"@, "Provider_attributes"@, "Name"@]),
        data.at(seq!["Event"@, "System"@, "EventID"@]),
    ) {
        (Some(JsonView::Text(provider)), Some(JsonView::Unsigned(id))) => forall|i: int|
            0 <= i < all.len() ==> (#[trigger] all[i]).provider != provider || all[i].event_id
                != id as u32,
        _ => true,
    }
}

proof fn lemma_event_name()
    ensures
        "event_record_id"@ != "Event"@,
{
    reveal_strlit("event_record_id");
    reveal_strlit("Event");
    assert("event_record_id"@.len() == 15);
    assert("Event"@.len() == 5);
}

/// The record of an event says what the event does. Where the event carries no message,
/// it has one made from a template for the event, or none.
pub proof fn lemma_record_is_its_event(all: Seq<TemplateView>, e: EvtxRecordView)
    ensures
        match evtx_record(all, e) {
            Ok(r) => {
                &&& is_record_of_event(r, e)
                &&& !(e.data.at(seq!["Event"@, "RenderingInfo"@, "Message"@]) matches Some(m)
                    && has_text(m)) ==> match r.message {
                    Some(m) => is_made_for(all, e.data, m),
                    None => has_no_template(all, e.data),
                }
            },
            Err(reason) => rfc3339_instant(e.timestamp) matches Err(why) && reason == at_record(
                e.event_record_id as nat,
                "invalid timestamp: "@ + ("'"@ + e.timestamp + "' is not valid RFC3339: "@ + why),
            ),
        },
{
    lemma_event_name();
    if let Ok(r) = evtx_record(all, e) {
        let members = r.fields->Object_0;
        crate::json::lemma_first_place(members, "event_record_id"@, 0);
        crate::json::lemma_first_place(members, "Event"@, 1);
        let path = seq!["Event"@, "System"@, "Provider_attributes"@, "Name"@];
        if let Some(JsonView::Text(provider)) = e.data.at(path) {
            if let Some(JsonView::Unsigned(id)) = e.data.at(seq!["Event"@, "System"@, "EventID"@]) {
                let payload = match e.data.get("Event"@) {
                    Some(event) => payload_of(event),
                    None => None,
                };
                lemma_message_is_of_its_template(all, provider, id as u32, payload);
            }
        }
    }
}

/// The records of a file are those of its events, one for each, in order. Where an event
/// has none, the file has none.
pub proof fn lemma_events_are_read(
    all: Seq<TemplateView>,
    contents: Seq<Result<EvtxRecordView, Seq<char>>>,
)
    ensures
        match contents_records(all, contents) {
            Ok(records) => records.len() == contents.len() && forall|i: int|
                0 <= i < contents.len() ==> (#[trigger] contents[i]) is Ok && is_record_of_event(
                    records[i],
                    contents[i]->Ok_0,
                ),
            Err(reason) => exists|i: int|
                0 <= i < contents.len() && match #[trigger] contents[i] {
                    Err(why) => reason == at_record(i as nat, "failed to parse: "@ + why),
                    Ok(e) => rfc3339_instant(e.timestamp) is Err,
                },
        },
    decreases contents.len(),
{
    if contents.len() > 0 {
        let front = contents.drop_last();
        let n = contents.len() - 1;
        lemma_events_are_read(all, front);
        match contents_records(all, front) {
            Err(reason) => {
                let i = choose|i: int|
                    0 <= i < front.len() && match #[trigger] front[i] {
                        Err(why) => reason == at_record(i as nat, "failed to parse: "@ + why),
                        Ok(e) => rfc3339_instant(e.timestamp) is Err,
                    };
                assert(front[i] == contents[i]);
            },
            Ok(before) => {
                assert(contents[n] == contents.last());
                if let Ok(e) = contents.last() {
                    lemma_record_is_its_event(all, e);
                }
                if let Ok(records) = contents_records(all, contents) {
                    assert forall|i: int| 0 <= i < contents.len() implies (
                    #[trigger] contents[i]) is Ok && is_record_of_event(
                        records[i],
                        contents[i]->Ok_0,
                    ) by {
                        if i < n {
                            assert(front[i] == contents[i]);
                            assert(records[i] == before[i]);
                        }
                    }
                }
            },
        }
    }
}

} // verus!
