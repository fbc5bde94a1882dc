//! Messages for Windows events that carry none: templates by provider and event,
//! filled in with the fields of the event.

use vstd::prelude::*;

use crate::json::{json_text, lemma_members_view, members_view, Json, JsonView};
use crate::model::opt_text;
use crate::text::{
    ascii_word, chars_of, ends_with, has_suffix, is_ascii_word, same, str_views, string_of,
};
use crate::toml_doc::{
    as_table, list_as_table, missing_field, need_text, parse_toml, parsed_toml, required_text,
    say_missing, say_wrong_type, toml_items, wrong_type, Toml, TomlView,
};

verus! {

/// What every message made from a template begins with, so that it cannot be
/// mistaken for one that the event carried.
pub const RENDERED_PREFIX: &'static str = "[Peach] ";

/// A message for the events of one provider with one number.
#[derive(Debug)]
pub struct EvtxTemplate {
    pub provider: String,
    pub event_id: u32,
    pub message: String,
}

/// The view of an [`EvtxTemplate`].
#[verifier::ext_equal]
pub struct TemplateView {
    pub provider: Seq<char>,
    pub event_id: u32,
    pub message: Seq<char>,
}

impl View for EvtxTemplate {
    type V = TemplateView;

    open spec fn view(&self) -> TemplateView {
        TemplateView {
            provider: self.provider@,
            event_id: self.event_id,
            message: self.message@,
        }
    }
}

/// The views of a list of templates.
pub open spec fn templates_view(v: Seq<EvtxTemplate>) -> Seq<TemplateView> {
    v.map_values(|t: EvtxTemplate| t@)
}

/// The number of an event in a table.
pub open spec fn event_id_in(v: TomlView) -> Result<u32, Seq<char>> {
    match v.get("event_id"@) {
        Some(TomlView::Integer(n)) => if 0 <= n <= u32::MAX {
            Ok(n as u32)
        } else {
            Err(wrong_type("event_id"@, "an unsigned 32-bit integer"@))
        },
        Some(_) => Err(wrong_type("event_id"@, "an unsigned 32-bit integer"@)),
        None => Err(missing_field("event_id"@)),
    }
}

/// The fields of a template, in their order.
pub open spec fn template_fields() -> Seq<Seq<char>> {
    seq!["provider"@, "event_id"@, "message"@]
}

/// The template that a record holds, or why it holds none.
pub open spec fn template_of(item: TomlView) -> Result<TemplateView, Seq<char>> {
    let v = as_table(item, template_fields(), 3, true);
    match (required_text(v, "provider"@), event_id_in(v), required_text(v, "message"@)) {
        (Ok(provider), Ok(event_id), Ok(message)) => Ok(
            TemplateView { provider, event_id, message },
        ),
        (Err(e), _, _) => Err(e),
        (_, Err(e), _) => Err(e),
        (_, _, Err(e)) => Err(e),
    }
}

/// The templates of a list, or why one of them is none.
pub open spec fn templates_in(items: Seq<TomlView>) -> Result<Seq<TemplateView>, Seq<char>>
    decreases items.len(),
{
    if items.len() == 0 {
        Ok(seq![])
    } else {
        match templates_in(items.drop_last()) {
            Err(e) => Err(e),
            Ok(before) => match template_of(items.last()) {
                Err(e) => Err(e),
                Ok(t) => Ok(before.push(t)),
            },
        }
    }
}

/// The templates of a document, or why it holds none.
pub open spec fn templates_of(doc: TomlView) -> Result<Seq<TemplateView>, Seq<char>> {
    match doc.get("template"@) {
        Some(TomlView::Array(items)) => templates_in(items),
        Some(_) => Err(wrong_type("template"@, "an array"@)),
        None => Err(missing_field("template"@)),
    }
}

/// The templates of a text, or why it holds none.
pub open spec fn templates_of_text(text: Seq<char>) -> Result<Seq<TemplateView>, Seq<char>> {
    match parsed_toml(text) {
        Err(e) => Err(e),
        Ok(doc) => templates_of(doc),
    }
}

fn need_event_id(v: &Toml) -> (r: Result<u32, String>)
    ensures
        match r {
            Ok(n) => event_id_in(v@) == Ok::<u32, Seq<char>>(n),
            Err(e) => event_id_in(v@) == Err::<u32, Seq<char>>(e@),
        },
{
    match v.get("event_id") {
        Some(Toml::Integer(n)) => if 0 <= *n && *n <= u32::MAX as i64 {
            Ok(*n as u32)
        } else {
            Err(say_wrong_type("event_id", "an unsigned 32-bit integer"))
        },
        Some(_) => Err(say_wrong_type("event_id", "an unsigned 32-bit integer")),
        None => Err(say_missing("event_id")),
    }
}

fn read_template(v: &Toml) -> (r: Result<EvtxTemplate, String>)
    ensures
        match r {
            Ok(t) => template_of(v@) == Ok::<TemplateView, Seq<char>>(t@),
            Err(e) => template_of(v@) == Err::<TemplateView, Seq<char>>(e@),
        },
{
    let fields: [&'static str; 3] = ["provider", "event_id", "message"];
    assert(str_views(fields@) =~= template_fields());
    let listed = list_as_table(v, &fields, 3, true);
    let v = match &listed {
        Some(table) => table,
        None => v,
    };
    let provider = match need_text(v, "provider") {
        Ok(s) => s,
        Err(e) => {
            return Err(e);
        },
    };
    let event_id: u32 = match need_event_id(v) {
        Ok(n) => n,
        Err(e) => {
            return Err(e);
        },
    };
    match need_text(v, "message") {
        Ok(message) => Ok(EvtxTemplate { provider, event_id, message }),
        Err(e) => Err(e),
    }
}

proof fn lemma_templates_fail(items: Seq<TomlView>, n: int)
    requires
        0 <= n <= items.len(),
        templates_in(items.take(n)) is Err,
    ensures
        templates_in(items) == templates_in(items.take(n)),
    decreases items.len(),
{
    if n < items.len() {
        assert(items.drop_last().take(n) == items.take(n));
        lemma_templates_fail(items.drop_last(), n);
    } else {
        assert(items.take(n) == items);
    }
}

/// The templates of a document, or why it holds none.
pub fn templates_from_document(doc: &Toml) -> (r: Result<Vec<EvtxTemplate>, String>)
    ensures
        match r {
            Ok(v) => templates_of(doc@) == Ok::<Seq<TemplateView>, Seq<char>>(templates_view(v@)),
            Err(e) => templates_of(doc@) == Err::<Seq<TemplateView>, Seq<char>>(e@),
        },
{
    let items = match doc.get("template") {
        Some(Toml::Array(items)) => items,
        Some(_) => {
            return Err(say_wrong_type("template", "an array"));
        },
        None => {
            return Err(say_missing("template"));
        },
    };
    let ghost all = toml_items(items@);
    let mut r: Vec<EvtxTemplate> = Vec::new();
    let mut i: usize = 0;
    assert(templates_view(r@) =~= seq![]);
    while i < items.len()
        invariant
            i <= items.len(),
            all == toml_items(items@),
            templates_of(doc@) == templates_in(all),
            templates_in(all.take(i as int)) == Ok::<Seq<TemplateView>, Seq<char>>(
                templates_view(r@),
            ),
        decreases items.len() - i,
    {
        let ghost before = r@;
        proof {
            let next = all.take(i + 1);
            assert(next.drop_last() == all.take(i as int));
            assert(next.last() == items@[i as int]@);
        }
        match read_template(&items[i]) {
            Ok(t) => {
                let ghost tv = t@;
                r.push(t);
                assert(templates_view(r@) =~= templates_view(before).push(tv));
            },
            Err(e) => {
                proof {
                    lemma_templates_fail(all, i + 1);
                }
                return Err(e);
            },
        }
        i += 1;
    }
    assert(all.take(i as int) == all);
    Ok(r)
}

/// The templates of a text, or why it holds none.
pub fn parse_templates(text: &str) -> (r: Result<Vec<EvtxTemplate>, String>)
    ensures
        match r {
            Ok(v) => templates_of_text(text@) == Ok::<Seq<TemplateView>, Seq<char>>(
                templates_view(v@),
            ),
            Err(e) => templates_of_text(text@) == Err::<Seq<TemplateView>, Seq<char>>(e@),
        },
{
    match parse_toml(text) {
        Err(e) => Err(e),
        Ok(doc) => templates_from_document(&doc),
    }
}

/// The object that holds the fields of an event: its `EventData`, or else the
/// only element of its `UserData`. Attributes are no elements.
pub open spec fn payload_of(event: JsonView) -> Option<JsonView> {
    match event.get("EventData"@) {
        Some(JsonView::Object(members)) => Some(JsonView::Object(members)),
        _ => match event.get("UserData"@) {
            Some(JsonView::Object(members)) => if elements_of(members).len() == 1 {
                Some(elements_of(members)[0])
            } else {
                None
            },
            _ => None,
        },
    }
}

/// The elements among members: objects that are no attributes of others.
pub open spec fn elements_of(members: Seq<(Seq<char>, JsonView)>) -> Seq<JsonView>
    decreases members.len(),
{
    if members.len() == 0 {
        seq![]
    } else {
        let before = elements_of(members.drop_last());
        if !ends_with(members.last().0, "_attributes"@) && members.last().1 is Object {
            before.push(members.last().1)
        } else {
            before
        }
    }
}

/// The object that holds the fields of an event.
pub fn event_payload(event: &Json) -> (r: Option<&Json>)
    ensures
        match r {
            Some(v) => payload_of(event@) == Some(v@),
            None => payload_of(event@) is None,
        },
{
    if let Some(data) = event.get("EventData") {
        if let Json::Object(_) = data {
            return Some(data);
        }
    }
    let members = match event.get("UserData") {
        Some(Json::Object(members)) => members,
        _ => {
            return None;
        },
    };
    let ghost all = members_view(members@);
    let mut found: Vec<usize> = Vec::new();
    let mut i: usize = 0;
    let ghost mut fv: Seq<JsonView> = seq![];
    while i < members.len()
        invariant
            i <= members.len(),
            all == members_view(members@),
            fv == elements_of(all.take(i as int)),
            found.len() == fv.len(),
            forall|j: int|
                0 <= j < found.len() ==> #[trigger] found@[j] < members.len() && fv[j]
                    == members@[found@[j] as int].1@,
        decreases members.len() - i,
    {
        proof {
            lemma_members_view(members@);
            let next = all.take(i + 1);
            assert(next.drop_last() == all.take(i as int));
            assert(next.last() == all[i as int]);
        }
        let is_object = match &members[i].1 {
            Json::Object(_) => true,
            _ => false,
        };
        if !has_suffix(members[i].0.as_str(), "_attributes") && is_object {
            found.push(i);
            proof {
                fv = fv.push(members@[i as int].1@);
            }
        }
        i += 1;
    }
    assert(all.take(i as int) == all);
    if found.len() == 1 {
        assert(found@[0] < members.len());
        Some(&members[found[0]].1)
    } else {
        None
    }
}

/// The text that stands for a value in a message; none for what has no text of
/// one line.
pub open spec fn scalar_of(v: JsonView) -> Option<Seq<char>> {
    match v {
        JsonView::Text(s) => Some(s),
        JsonView::Bool(_) | JsonView::Unsigned(_) | JsonView::Negative(_) | JsonView::Float { .. } =>
            Some(json_text(v)),
        _ => None,
    }
}

/// The text that stands for a value in a message.
pub fn scalar_text(v: &Json) -> (r: Option<String>)
    ensures
        opt_text(r) == scalar_of(v@),
{
    match v {
        Json::Text(s) => Some(s.clone()),
        Json::Bool(_) => Some(v.to_text()),
        Json::Unsigned(_) => Some(v.to_text()),
        Json::Negative(_) => Some(v.to_text()),
        Json::Float { .. } => Some(v.to_text()),
        _ => None,
    }
}

/// How many characters at the front may stand in the name of a field.
pub open spec fn name_len(s: Seq<char>) -> nat
    decreases s.len(),
{
    if s.len() == 0 || !is_ascii_word(s[0]) {
        0
    } else {
        1 + name_len(s.drop_first())
    }
}

/// The length of the name of the placeholder `{name}` at the front of a text; 0
/// where there is none.
pub open spec fn placeholder_len(s: Seq<char>) -> nat {
    if s.len() == 0 || s[0] != '{' {
        0
    } else {
        let n = name_len(s.drop_first());
        if n > 0 && 1 + n < s.len() && s[1 + n as int] == '}' {
            n
        } else {
            0
        }
    }
}

/// The text of a field of a payload, if the payload has it and it has a text.
pub open spec fn field_text(payload: Option<JsonView>, name: Seq<char>) -> Option<Seq<char>> {
    match payload {
        Some(v) => match v.get(name) {
            Some(field) => scalar_of(field),
            None => None,
        },
        None => None,
    }
}

/// A template with its placeholders filled in. One that has no field stays as it
/// is.
pub open spec fn rendered(template: Seq<char>, payload: Option<JsonView>) -> Seq<char>
    decreases template.len(),
{
    if template.len() == 0 {
        seq![]
    } else {
        let n = placeholder_len(template);
        if n == 0 {
            seq![template[0]] + rendered(template.drop_first(), payload)
        } else if n + 2 <= template.len() {
            (match field_text(payload, template.subrange(1, 1 + n as int)) {
                Some(s) => s,
                None => template.take(n as int + 2),
            }) + rendered(template.skip(n as int + 2), payload)
        } else {
            template
        }
    }
}

/// The view of an optional value.
pub open spec fn opt_json(v: Option<&Json>) -> Option<JsonView> {
    match v {
        Some(v) => Some(v@),
        None => None,
    }
}

fn find_placeholder(v: &Vec<char>, at: usize) -> (n: usize)
    requires
        at < v.len(),
    ensures
        n == placeholder_len(v@.skip(at as int)),
        n > 0 ==> at + n + 2 <= v.len(),
{
    let ghost rest = v@.skip(at as int);
    assert(rest[0] == v@[at as int]);
    if v[at] != '{' {
        return 0;
    }
    let ghost names = rest.drop_first();
    let mut i: usize = at + 1;
    assert(names =~= v@.skip(i as int));
    while i < v.len() && ascii_word(v[i])
        invariant
            at + 1 <= i <= v.len(),
            name_len(names) == (i - at - 1) + name_len(v@.skip(i as int)),
        decreases v.len() - i,
    {
        proof {
            assert(v@.skip(i as int)[0] == v@[i as int]);
            assert(v@.skip(i as int).drop_first() =~= v@.skip(i + 1));
        }
        i += 1;
    }
    proof {
        if i < v.len() {
            assert(v@.skip(i as int)[0] == v@[i as int]);
        }
        assert(name_len(v@.skip(i as int)) == 0);
        if i < v.len() {
            assert(rest[i - at] == v@[i as int]);
        }
    }
    if i > at + 1 && i < v.len() && v[i] == '}' {
        i - at - 1
    } else {
        0
    }
}

/// A template with its placeholders filled in.
pub fn render(template: &str, payload: Option<&Json>) -> (r: String)
    ensures
        r@ == rendered(template@, opt_json(payload)),
{
    let v = chars_of(template);
    let ghost pv = opt_json(payload);
    let mut r = String::new();
    let mut i: usize = 0;
    assert(v@.skip(0) == v@);
    while i < v.len()
        invariant
            i <= v.len(),
            v@ == template@,
            pv == opt_json(payload),
            r@ + rendered(v@.skip(i as int), pv) == rendered(template@, pv),
        decreases v.len() - i,
    {
        let ghost rest = v@.skip(i as int);
        let ghost before = r@;
        assert(rest[0] == v@[i as int]);
        let n: usize = find_placeholder(&v, i);
        if n == 0 {
            r.push(v[i]);
            proof {
                assert(rest.drop_first() =~= v@.skip(i + 1));
                assert(before.push(v@[i as int]) + rendered(v@.skip(i + 1), pv) =~= before + (seq![
                    rest[0],
                ] + rendered(rest.drop_first(), pv)));
            }
            i += 1;
        } else {
            let name = string_of(&v, i + 1, i + 1 + n);
            assert(name@ =~= rest.subrange(1, 1 + n as int));
            let value = match payload {
                Some(data) => match data.get(name.as_str()) {
                    Some(field) => scalar_text(field),
                    None => None,
                },
                None => None,
            };
            let text = match value {
                Some(s) => s,
                None => {
                    let s = string_of(&v, i, i + n + 2);
                    assert(s@ =~= rest.take(n as int + 2));
                    s
                },
            };
            r.append(text.as_str());
            proof {
                assert(rest.skip(n as int + 2) =~= v@.skip(i + n + 2));
                assert(before + text@ + rendered(v@.skip(i + n + 2), pv) =~= before + (text@
                    + rendered(rest.skip(n as int + 2), pv)));
            }
            i += n + 2;
        }
    }
    assert(v@.skip(i as int) =~= seq![]);
    r
}

/// The message of the first template for an event.
pub open spec fn template_for(all: Seq<TemplateView>, provider: Seq<char>, event_id: u32) -> Option<
    Seq<char>,
>
    decreases all.len(),
{
    if all.len() == 0 {
        None
    } else if all[0].event_id == event_id && all[0].provider == provider {
        Some(all[0].message)
    } else {
        template_for(all.drop_first(), provider, event_id)
    }
}

/// The message made for an event, if there is a template for it.
pub open spec fn message_for(
    all: Seq<TemplateView>,
    provider: Seq<char>,
    event_id: u32,
    payload: Option<JsonView>,
) -> Option<Seq<char>> {
    match template_for(all, provider, event_id) {
        Some(template) => Some(RENDERED_PREFIX@ + rendered(template, payload)),
        None => None,
    }
}

/// The message made for an event, if there is a template for it.
pub fn render_for_event(
    templates: &Vec<EvtxTemplate>,
    provider: &str,
    event_id: u32,
    payload: Option<&Json>,
) -> (r: Option<String>)
    ensures
        opt_text(r) == message_for(
            templates_view(templates@),
            provider@,
            event_id,
            opt_json(payload),
        ),
{
    let ghost all = templates_view(templates@);
    let mut i: usize = 0;
    assert(all.skip(0) == all);
    while i < templates.len()
        invariant
            i <= templates.len(),
            all == templates_view(templates@),
            template_for(all, provider@, event_id) == template_for(
                all.skip(i as int),
                provider@,
                event_id,
            ),
        decreases templates.len() - i,
    {
        proof {
            assert(all.skip(i as int)[0] == templates@[i as int]@);
            assert(all.skip(i as int).drop_first() == all.skip(i + 1));
        }
        if templates[i].event_id == event_id && same(templates[i].provider.as_str(), provider) {
            let mut r = RENDERED_PREFIX.to_owned();
            r.append(render(templates[i].message.as_str(), payload).as_str());
            return Some(r);
        }
        i += 1;
    }
    None
}

/// Templates for events of the security log.
pub const SECURITY_AUDITING: &'static str = r#"[[template]]
provider = "Microsoft-Windows-Security-Auditing"
event_id = 4624
message = "Logon of {TargetDomainName}\\{TargetUserName}, type {LogonType}, from {WorkstationName} ({IpAddress}:{IpPort}) by {LogonProcessName}/{AuthenticationPackageName}"

[[template]]
provider = "Microsoft-Windows-Security-Auditing"
event_id = 4625
message = "Failed logon of {TargetDomainName}\\{TargetUserName}, type {LogonType}, from {WorkstationName} ({IpAddress}:{IpPort}), status {Status}/{SubStatus}"

[[template]]
provider = "Microsoft-Windows-Security-Auditing"
event_id = 4634
message = "Logoff of {TargetDomainName}\\{TargetUserName}, type {LogonType}"

[[template]]
provider = "Microsoft-Windows-Security-Auditing"
event_id = 4647
message = "Logoff started by {TargetDomainName}\\{TargetUserName}"

[[template]]
provider = "Microsoft-Windows-Security-Auditing"
event_id = 4648
message = "Logon with explicit credentials of {TargetDomainName}\\{TargetUserName} by {SubjectDomainName}\\{SubjectUserName} to {TargetServerName} by {ProcessName}"

[[template]]
provider = "Microsoft-Windows-Security-Auditing"
event_id = 4672
message = "Special privileges for {SubjectDomainName}\\{SubjectUserName}: {PrivilegeList}"

[[template]]
provider = "Microsoft-Windows-Security-Auditing"
event_id = 4688
message = "Process {NewProcessName} ({NewProcessId}) started by {SubjectDomainName}\\{SubjectUserName}: {CommandLine}"

[[template]]
provider = "Microsoft-Windows-Security-Auditing"
event_id = 4697
message = "Service {ServiceName} installed by {SubjectDomainName}\\{SubjectUserName}: {ServiceFileName}"

[[template]]
provider = "Microsoft-Windows-Security-Auditing"
event_id = 4698
message = "Scheduled task {TaskName} created by {SubjectDomainName}\\{SubjectUserName}"

[[template]]
provider = "Microsoft-Windows-Security-Auditing"
event_id = 4720
message = "User {TargetDomainName}\\{TargetUserName} created by {SubjectDomainName}\\{SubjectUserName}"

[[template]]
provider = "Microsoft-Windows-Security-Auditing"
event_id = 4722
message = "User {TargetDomainName}\\{TargetUserName} enabled by {SubjectDomainName}\\{SubjectUserName}"

[[template]]
provider = "Microsoft-Windows-Security-Auditing"
event_id = 4724
message = "Password of {TargetDomainName}\\{TargetUserName} reset by {SubjectDomainName}\\{SubjectUserName}"

[[template]]
provider = "Microsoft-Windows-Security-Auditing"
event_id = 4725
message = "User {TargetDomainName}\\{TargetUserName} disabled by {SubjectDomainName}\\{SubjectUserName}"

[[template]]
provider = "Microsoft-Windows-Security-Auditing"
event_id = 4726
message = "User {TargetDomainName}\\{TargetUserName} deleted by {SubjectDomainName}\\{SubjectUserName}"

[[template]]
provider = "Microsoft-Windows-Security-Auditing"
event_id = 4728
message = "{MemberName} added to global group {TargetDomainName}\\{TargetUserName} by {SubjectDomainName}\\{SubjectUserName}"

[[template]]
provider = "Microsoft-Windows-Security-Auditing"
event_id = 4732
message = "{MemberSid} added to local group {TargetDomainName}\\{TargetUserName} by {SubjectDomainName}\\{SubjectUserName}"

[[template]]
provider = "Microsoft-Windows-Security-Auditing"
event_id = 4740
message = "User {TargetUserName} locked out, called from {TargetDomainName}"

[[template]]
provider = "Microsoft-Windows-Security-Auditing"
event_id = 4768
message = "Kerberos ticket for {TargetDomainName}\\{TargetUserName} requested from {IpAddress}, status {Status}"

[[template]]
provider = "Microsoft-Windows-Security-Auditing"
event_id = 4769
message = "Kerberos service ticket for {ServiceName} requested by {TargetUserName} from {IpAddress}, status {Status}"

[[template]]
provider = "Microsoft-Windows-Security-Auditing"
event_id = 4776
message = "Credentials of {TargetUserName} checked for {Workstation}, status {Status}"
"#;

/// Templates for events of remote desktop sessions.
pub const TERMINAL_SERVICES: &'static str = r#"[[template]]
provider = "Microsoft-Windows-TerminalServices-LocalSessionManager"
event_id = 21
message = "Session {SessionID} of {User} opened from {Address}"

[[template]]
provider = "Microsoft-Windows-TerminalServices-LocalSessionManager"
event_id = 23
message = "Session {SessionID} of {User} closed"

[[template]]
provider = "Microsoft-Windows-TerminalServices-LocalSessionManager"
event_id = 24
message = "Session {SessionID} of {User} disconnected from {Address}"

[[template]]
provider = "Microsoft-Windows-TerminalServices-LocalSessionManager"
event_id = 25
message = "Session {SessionID} of {User} connected again from {Address}"
"#;

/// The templates that come with the library, or why they cannot be read.
pub open spec fn embedded_templates() -> Result<Seq<TemplateView>, Seq<char>> {
    match templates_of_text(SECURITY_AUDITING@) {
        Err(e) => Err("embedded EVTX template TOML failed to parse: "@ + e),
        Ok(first) => match templates_of_text(TERMINAL_SERVICES@) {
            Err(e) => Err("embedded EVTX template TOML failed to parse: "@ + e),
            Ok(second) => Ok(first + second),
        },
    }
}

fn embedded_problem(reason: &str) -> (r: String)
    ensures
        r@ == "embedded EVTX template TOML failed to parse: "@ + reason@,
{
    let mut e = "embedded EVTX template TOML failed to parse: ".to_owned();
    e.append(reason);
    e
}

/// The templates that come with the library, or why they cannot be read.
pub fn built_in_templates() -> (r: Result<Vec<EvtxTemplate>, String>)
    ensures
        match r {
            Ok(all) => embedded_templates() == Ok::<Seq<TemplateView>, Seq<char>>(
                templates_view(all@),
            ),
            Err(e) => embedded_templates() == Err::<Seq<TemplateView>, Seq<char>>(e@),
        },
{
    let mut r: Vec<EvtxTemplate> = match parse_templates(SECURITY_AUDITING) {
        Ok(all) => all,
        Err(e) => {
            return Err(embedded_problem(e.as_str()));
        },
    };
    let mut rest: Vec<EvtxTemplate> = match parse_templates(TERMINAL_SERVICES) {
        Ok(all) => all,
        Err(e) => {
            return Err(embedded_problem(e.as_str()));
        },
    };
    let ghost first = r@;
    let ghost second = rest@;
    r.append(&mut rest);
    assert(templates_view(r@) =~= templates_view(first) + templates_view(second));
    Ok(r)
}

/// A message made from a template is always marked as such.
pub proof fn lemma_made_messages_are_marked(
    all: Seq<TemplateView>,
    provider: Seq<char>,
    event_id: u32,
    payload: Option<JsonView>,
)
    ensures
        message_for(all, provider, event_id, payload) matches Some(m) ==> m.take(
            RENDERED_PREFIX@.len() as int,
        ) == RENDERED_PREFIX@,
{
    if let Some(m) = message_for(all, provider, event_id, payload) {
        assert(m.take(RENDERED_PREFIX@.len() as int) =~= RENDERED_PREFIX@);
    }
}

/// Without fields a template stays as it is.
pub proof fn lemma_nothing_to_fill_in(template: Seq<char>)
    ensures
        rendered(template, None) == template,
    decreases template.len(),
{
    if template.len() > 0 {
        let n = placeholder_len(template);
        if n == 0 {
            lemma_nothing_to_fill_in(template.drop_first());
            assert(rendered(template, None) =~= template);
        } else if n + 2 <= template.len() {
            lemma_nothing_to_fill_in(template.skip(n as int + 2));
            assert(rendered(template, None) =~= template);
        }
    }
}

} // verus!
