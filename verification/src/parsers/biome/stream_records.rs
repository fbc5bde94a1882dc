//! What the records of Biome streams say of their entries.

use vstd::prelude::*;

use crate::double::found_text;
use crate::json::{json_text, lemma_first_place, JsonView};
use crate::model::{file_name_text, part_texts, PathPartView, RecordView, SkippedView};
use crate::parsers::biome::protobuf::{message, message_object, payload_summary, MAX_DECODE_WORK};
use crate::parsers::biome::segb::{state_of, EntryOutcome, EntryState, SegbRecordView};
use crate::parsers::biome::{
    bad_records, good_records, label_of, named_summary, parsed_view, segb_candidate, stream_name,
    text_at,
};
use crate::selection::{is_selection, lemma_selection_grows};
use crate::text::{dec, dec_int, hex, same_ignoring_ascii_case};

verus! {

proof fn lemma_streams_differ()
    ensures
        "Device.ScreenLocked"@ != "Device.KeybagLocked"@,
        "Device.ScreenLocked"@ != "CarPlay.Connected"@,
        "Device.KeybagLocked"@ != "CarPlay.Connected"@,
        "Device.ScreenLocked"@ != "Device.Wireless.AirplaneMode"@,
        "Device.KeybagLocked"@ != "Device.Wireless.AirplaneMode"@,
        "CarPlay.Connected"@ != "Device.Wireless.AirplaneMode"@,
        "Device.ScreenLocked"@ != "Device.Power.LowPowerMode"@,
        "Device.KeybagLocked"@ != "Device.Power.LowPowerMode"@,
        "CarPlay.Connected"@ != "Device.Power.LowPowerMode"@,
        "Device.Wireless.AirplaneMode"@ != "Device.Power.LowPowerMode"@,
        "Device.ScreenLocked"@ != "Device.Wireless.CellularDataEnabled"@,
        "Device.KeybagLocked"@ != "Device.Wireless.CellularDataEnabled"@,
        "CarPlay.Connected"@ != "Device.Wireless.CellularDataEnabled"@,
        "Device.Wireless.AirplaneMode"@ != "Device.Wireless.CellularDataEnabled"@,
        "Device.Power.LowPowerMode"@ != "Device.Wireless.CellularDataEnabled"@,
        "Device.ScreenLocked"@ != "Device.Power.PluggedIn"@,
        "Device.KeybagLocked"@ != "Device.Power.PluggedIn"@,
        "CarPlay.Connected"@ != "Device.Power.PluggedIn"@,
        "Device.Wireless.AirplaneMode"@ != "Device.Power.PluggedIn"@,
        "Device.Power.LowPowerMode"@ != "Device.Power.PluggedIn"@,
        "Device.Wireless.CellularDataEnabled"@ != "Device.Power.PluggedIn"@,
        "Device.ScreenLocked"@ != "Device.Wireless.WiFi"@,
        "Device.KeybagLocked"@ != "Device.Wireless.WiFi"@,
        "CarPlay.Connected"@ != "Device.Wireless.WiFi"@,
        "Device.Wireless.AirplaneMode"@ != "Device.Wireless.WiFi"@,
        "Device.Power.LowPowerMode"@ != "Device.Wireless.WiFi"@,
        "Device.Wireless.CellularDataEnabled"@ != "Device.Wireless.WiFi"@,
        "Device.Power.PluggedIn"@ != "Device.Wireless.WiFi"@,
        "Device.ScreenLocked"@ != "Device.TimeZone"@,
        "Device.KeybagLocked"@ != "Device.TimeZone"@,
        "CarPlay.Connected"@ != "Device.TimeZone"@,
        "Device.Wireless.AirplaneMode"@ != "Device.TimeZone"@,
        "Device.Power.LowPowerMode"@ != "Device.TimeZone"@,
        "Device.Wireless.CellularDataEnabled"@ != "Device.TimeZone"@,
        "Device.Power.PluggedIn"@ != "Device.TimeZone"@,
        "Device.Wireless.WiFi"@ != "Device.TimeZone"@,
        "Device.ScreenLocked"@ != "Safari.Navigations"@,
        "Device.KeybagLocked"@ != "Safari.Navigations"@,
        "CarPlay.Connected"@ != "Safari.Navigations"@,
        "Device.Wireless.AirplaneMode"@ != "Safari.Navigations"@,
        "Device.Power.LowPowerMode"@ != "Safari.Navigations"@,
        "Device.Wireless.CellularDataEnabled"@ != "Safari.Navigations"@,
        "Device.Power.PluggedIn"@ != "Safari.Navigations"@,
        "Device.Wireless.WiFi"@ != "Safari.Navigations"@,
        "Device.TimeZone"@ != "Safari.Navigations"@,
        "Device.ScreenLocked"@ != "ProactiveHarvesting.Messages"@,
        "Device.KeybagLocked"@ != "ProactiveHarvesting.Messages"@,
        "CarPlay.Connected"@ != "ProactiveHarvesting.Messages"@,
        "Device.Wireless.AirplaneMode"@ != "ProactiveHarvesting.Messages"@,
        "Device.Power.LowPowerMode"@ != "ProactiveHarvesting.Messages"@,
        "Device.Wireless.CellularDataEnabled"@ != "ProactiveHarvesting.Messages"@,
        "Device.Power.PluggedIn"@ != "ProactiveHarvesting.Messages"@,
        "Device.Wireless.WiFi"@ != "ProactiveHarvesting.Messages"@,
        "Device.TimeZone"@ != "ProactiveHarvesting.Messages"@,
        "Safari.Navigations"@ != "ProactiveHarvesting.Messages"@,
        "Device.ScreenLocked"@ != "ProactiveHarvesting.Mail"@,
        "Device.KeybagLocked"@ != "ProactiveHarvesting.Mail"@,
        "CarPlay.Connected"@ != "ProactiveHarvesting.Mail"@,
        "Device.Wireless.AirplaneMode"@ != "ProactiveHarvesting.Mail"@,
        "Device.Power.LowPowerMode"@ != "ProactiveHarvesting.Mail"@,
        "Device.Wireless.CellularDataEnabled"@ != "ProactiveHarvesting.Mail"@,
        "Device.Power.PluggedIn"@ != "ProactiveHarvesting.Mail"@,
        "Device.Wireless.WiFi"@ != "ProactiveHarvesting.Mail"@,
        "Device.TimeZone"@ != "ProactiveHarvesting.Mail"@,
        "Safari.Navigations"@ != "ProactiveHarvesting.Mail"@,
        "ProactiveHarvesting.Messages"@ != "ProactiveHarvesting.Mail"@,
        "Device.ScreenLocked"@ != "Messages.Read"@,
        "Device.KeybagLocked"@ != "Messages.Read"@,
        "CarPlay.Connected"@ != "Messages.Read"@,
        "Device.Wireless.AirplaneMode"@ != "Messages.Read"@,
        "Device.Power.LowPowerMode"@ != "Messages.Read"@,
        "Device.Wireless.CellularDataEnabled"@ != "Messages.Read"@,
        "Device.Power.PluggedIn"@ != "Messages.Read"@,
        "Device.Wireless.WiFi"@ != "Messages.Read"@,
        "Device.TimeZone"@ != "Messages.Read"@,
        "Safari.Navigations"@ != "Messages.Read"@,
        "ProactiveHarvesting.Messages"@ != "Messages.Read"@,
        "ProactiveHarvesting.Mail"@ != "Messages.Read"@,
        "Device.ScreenLocked"@ != "Device.Wireless.Bluetooth"@,
        "Device.KeybagLocked"@ != "Device.Wireless.Bluetooth"@,
        "CarPlay.Connected"@ != "Device.Wireless.Bluetooth"@,
        "Device.Wireless.AirplaneMode"@ != "Device.Wireless.Bluetooth"@,
        "Device.Power.LowPowerMode"@ != "Device.Wireless.Bluetooth"@,
        "Device.Wireless.CellularDataEnabled"@ != "Device.Wireless.Bluetooth"@,
        "Device.Power.PluggedIn"@ != "Device.Wireless.Bluetooth"@,
        "Device.Wireless.WiFi"@ != "Device.Wireless.Bluetooth"@,
        "Device.TimeZone"@ != "Device.Wireless.Bluetooth"@,
        "Safari.Navigations"@ != "Device.Wireless.Bluetooth"@,
        "ProactiveHarvesting.Messages"@ != "Device.Wireless.Bluetooth"@,
        "ProactiveHarvesting.Mail"@ != "Device.Wireless.Bluetooth"@,
        "Messages.Read"@ != "Device.Wireless.Bluetooth"@,
        "Device.ScreenLocked"@ != "ScreenTime.AppUsage"@,
        "Device.KeybagLocked"@ != "ScreenTime.AppUsage"@,
        "CarPlay.Connected"@ != "ScreenTime.AppUsage"@,
        "Device.Wireless.AirplaneMode"@ != "ScreenTime.AppUsage"@,
        "Device.Power.LowPowerMode"@ != "ScreenTime.AppUsage"@,
        "Device.Wireless.CellularDataEnabled"@ != "ScreenTime.AppUsage"@,
        "Device.Power.PluggedIn"@ != "ScreenTime.AppUsage"@,
        "Device.Wireless.WiFi"@ != "ScreenTime.AppUsage"@,
        "Device.TimeZone"@ != "ScreenTime.AppUsage"@,
        "Safari.Navigations"@ != "ScreenTime.AppUsage"@,
        "ProactiveHarvesting.Messages"@ != "ScreenTime.AppUsage"@,
        "ProactiveHarvesting.Mail"@ != "ScreenTime.AppUsage"@,
        "Messages.Read"@ != "ScreenTime.AppUsage"@,
        "Device.Wireless.Bluetooth"@ != "ScreenTime.AppUsage"@,
        "Device.ScreenLocked"@ != "Keyboard.TokenFrequency"@,
        "Device.KeybagLocked"@ != "Keyboard.TokenFrequency"@,
        "CarPlay.Connected"@ != "Keyboard.TokenFrequency"@,
        "Device.Wireless.AirplaneMode"@ != "Keyboard.TokenFrequency"@,
        "Device.Power.LowPowerMode"@ != "Keyboard.TokenFrequency"@,
        "Device.Wireless.CellularDataEnabled"@ != "Keyboard.TokenFrequency"@,
        "Device.Power.PluggedIn"@ != "Keyboard.TokenFrequency"@,
        "Device.Wireless.WiFi"@ != "Keyboard.TokenFrequency"@,
        "Device.TimeZone"@ != "Keyboard.TokenFrequency"@,
        "Safari.Navigations"@ != "Keyboard.TokenFrequency"@,
        "ProactiveHarvesting.Messages"@ != "Keyboard.TokenFrequency"@,
        "ProactiveHarvesting.Mail"@ != "Keyboard.TokenFrequency"@,
        "Messages.Read"@ != "Keyboard.TokenFrequency"@,
        "Device.Wireless.Bluetooth"@ != "Keyboard.TokenFrequency"@,
        "ScreenTime.AppUsage"@ != "Keyboard.TokenFrequency"@,
        "Device.ScreenLocked"@ != "App.Intent"@,
        "Device.KeybagLocked"@ != "App.Intent"@,
        "CarPlay.Connected"@ != "App.Intent"@,
        "Device.Wireless.AirplaneMode"@ != "App.Intent"@,
        "Device.Power.LowPowerMode"@ != "App.Intent"@,
        "Device.Wireless.CellularDataEnabled"@ != "App.Intent"@,
        "Device.Power.PluggedIn"@ != "App.Intent"@,
        "Device.Wireless.WiFi"@ != "App.Intent"@,
        "Device.TimeZone"@ != "App.Intent"@,
        "Safari.Navigations"@ != "App.Intent"@,
        "ProactiveHarvesting.Messages"@ != "App.Intent"@,
        "ProactiveHarvesting.Mail"@ != "App.Intent"@,
        "Messages.Read"@ != "App.Intent"@,
        "Device.Wireless.Bluetooth"@ != "App.Intent"@,
        "ScreenTime.AppUsage"@ != "App.Intent"@,
        "Keyboard.TokenFrequency"@ != "App.Intent"@,
{
    reveal_strlit("Device.ScreenLocked");
    reveal_strlit("Device.KeybagLocked");
    reveal_strlit("CarPlay.Connected");
    reveal_strlit("Device.Wireless.AirplaneMode");
    reveal_strlit("Device.Power.LowPowerMode");
    reveal_strlit("Device.Wireless.CellularDataEnabled");
    reveal_strlit("Device.Power.PluggedIn");
    reveal_strlit("Device.Wireless.WiFi");
    reveal_strlit("Device.TimeZone");
    reveal_strlit("Safari.Navigations");
    reveal_strlit("ProactiveHarvesting.Messages");
    reveal_strlit("ProactiveHarvesting.Mail");
    reveal_strlit("Messages.Read");
    reveal_strlit("Device.Wireless.Bluetooth");
    reveal_strlit("ScreenTime.AppUsage");
    reveal_strlit("Keyboard.TokenFrequency");
    reveal_strlit("App.Intent");
    assert("App.Intent"@.len() == 10);
    assert("CarPlay.Connected"@.len() == 17);
    assert("Device.KeybagLocked"@.len() == 19);
    assert("Device.KeybagLocked"@[0] == 'D');
    assert("Device.KeybagLocked"@[7] == 'K');
    assert("Device.Power.LowPowerMode"@.len() == 25);
    assert("Device.Power.LowPowerMode"@[7] == 'P');
    assert("Device.Power.PluggedIn"@.len() == 22);
    assert("Device.ScreenLocked"@.len() == 19);
    assert("Device.ScreenLocked"@[0] == 'D');
    assert("Device.ScreenLocked"@[7] == 'S');
    assert("Device.TimeZone"@.len() == 15);
    assert("Device.Wireless.AirplaneMode"@.len() == 28);
    assert("Device.Wireless.AirplaneMode"@[0] == 'D');
    assert("Device.Wireless.Bluetooth"@.len() == 25);
    assert("Device.Wireless.Bluetooth"@[7] == 'W');
    assert("Device.Wireless.CellularDataEnabled"@.len() == 35);
    assert("Device.Wireless.WiFi"@.len() == 20);
    assert("Keyboard.TokenFrequency"@.len() == 23);
    assert("Messages.Read"@.len() == 13);
    assert("ProactiveHarvesting.Mail"@.len() == 24);
    assert("ProactiveHarvesting.Messages"@.len() == 28);
    assert("ProactiveHarvesting.Messages"@[0] == 'P');
    assert("Safari.Navigations"@.len() == 18);
    assert("ScreenTime.AppUsage"@.len() == 19);
    assert("ScreenTime.AppUsage"@[0] == 'S');
}

/// The streams of states, with the words for on and off.
pub open spec fn is_state_stream(stream: Seq<char>, on: Seq<char>, off: Seq<char>) -> bool {
    ||| stream == "Device.ScreenLocked"@ && on == "Locked"@ && off == "Unlocked"@
    ||| stream == "Device.KeybagLocked"@ && on == "Locked"@ && off == "Unlocked"@
    ||| stream == "CarPlay.Connected"@ && on == "Connected"@ && off == "Disconnected"@
    ||| stream == "Device.Wireless.AirplaneMode"@ && on == "On"@ && off == "Off"@
    ||| stream == "Device.Power.LowPowerMode"@ && on == "On"@ && off == "Off"@
    ||| stream == "Device.Wireless.CellularDataEnabled"@ && on == "Enabled"@ && off == "Disabled"@
    ||| stream == "Device.Power.PluggedIn"@ && on == "Plugged In"@ && off == "Not Plugged In"@
}

/// The streams that are shown by one text, and where it stands.
pub open spec fn is_text_stream(stream: Seq<char>, path: Seq<Seq<char>>) -> bool {
    ||| stream == "Device.TimeZone"@ && path == seq!["2"@, "utf8"@]
    ||| stream == "Safari.Navigations"@ && path == seq!["1"@, "utf8"@]
    ||| stream == "ProactiveHarvesting.Messages"@ && path == seq!["10"@, "utf8"@]
    ||| stream == "ProactiveHarvesting.Mail"@ && path == seq!["11"@, "utf8"@]
    ||| stream == "ScreenTime.AppUsage"@ && path == seq!["3"@, "utf8"@]
    ||| stream == "Keyboard.TokenFrequency"@ && path == seq!["1"@, "nested"@, "1"@, "utf8"@]
}

/// Whether a label is the one of a state: the word for on where the number is 1, the word for
/// off where it is 0, and the number otherwise.
pub open spec fn is_label(
    state: Option<JsonView>,
    on: Seq<char>,
    off: Seq<char>,
    label: Option<Seq<char>>,
) -> bool {
    match state {
        Some(JsonView::Unsigned(n)) => if n == 1 {
            label == Some(on)
        } else if n == 0 {
            label == Some(off)
        } else if n <= i64::MAX {
            label == Some("state "@ + dec(n as nat))
        } else {
            label is None
        },
        Some(JsonView::Negative(n)) => n < 0 ==> label == Some("state -"@ + dec((-n) as nat)),
        _ => label is None,
    }
}

/// Whether a text is the one that a value is.
pub open spec fn is_own_text(value: Option<JsonView>, text: Option<Seq<char>>) -> bool {
    match value {
        Some(JsonView::Text(s)) => text == Some(s),
        _ => text is None,
    }
}

proof fn lemma_label(payload: JsonView, field: u64, on: Seq<char>, off: Seq<char>)
    ensures
        is_label(payload.at(seq![dec(field as nat)]), on, off, label_of(payload, field, on, off)),
{
    reveal_strlit("state ");
    reveal_strlit("state -");
    if let Some(JsonView::Negative(n)) = payload.at(seq![dec(field as nat)]) {
        if n < 0 {
            assert("state "@ + dec_int(n as int) =~= "state -"@ + dec((-n) as nat));
        }
    }
}

proof fn lemma_small_numbers()
    ensures
        dec(1) == "1"@,
        dec(2) == "2"@,
{
    reveal_strlit("1");
    reveal_strlit("2");
    assert(dec(1) =~= "1"@);
    assert(dec(2) =~= "2"@);
}

/// The record of a stream of states is shown by the word for its state.
pub proof fn lemma_states_are_shown(
    stream: Seq<char>,
    on: Seq<char>,
    off: Seq<char>,
    payload: JsonView,
)
    requires
        is_state_stream(stream, on, off),
    ensures
        is_label(payload.at(seq!["1"@]), on, off, named_summary(stream, payload)),
{
    lemma_streams_differ();
    lemma_small_numbers();
    lemma_label(payload, 1, on, off);
}

/// The record of a stream of texts is shown by its text.
pub proof fn lemma_texts_are_shown(stream: Seq<char>, path: Seq<Seq<char>>, payload: JsonView)
    requires
        is_text_stream(stream, path),
    ensures
        is_own_text(payload.at(path), named_summary(stream, payload)),
{
    lemma_streams_differ();
}

/// A network is shown by its name and its state, a device by its name and its address, an
/// intent by its application and its action, and a message that was read by its number.
/// Where one of two is missing, the other is shown alone.
pub proof fn lemma_pairs_are_shown(payload: JsonView) -> (found: (
    Option<Seq<char>>,
    Option<Seq<char>>,
    Option<Seq<char>>,
    Option<Seq<char>>,
))
    ensures
        ({
            let (first, second, fifth, state) = found;
            &&& is_own_text(payload.at(seq!["1"@, "utf8"@]), first)
            &&& is_own_text(payload.at(seq!["2"@, "utf8"@]), second)
            &&& is_own_text(payload.at(seq!["5"@, "utf8"@]), fifth)
            &&& is_label(payload.at(seq!["2"@]), "Connected"@, "Disconnected"@, state)
            &&& named_summary("Device.Wireless.WiFi"@, payload) == match (first, state) {
                (Some(ssid), Some(label)) => Some(ssid + " ("@ + label + ")"@),
                (Some(ssid), None) => Some(ssid),
                (None, label) => label,
            }
            &&& named_summary("Device.Wireless.Bluetooth"@, payload) == match (second, first) {
                (Some(name), Some(mac)) => Some(name + " ("@ + mac + ")"@),
                (Some(name), None) => Some(name),
                (None, mac) => mac,
            }
            &&& named_summary("App.Intent"@, payload) == match (second, fifth) {
                (Some(app), Some(action)) => Some(app + ": "@ + action),
                (Some(app), None) => Some(app),
                (None, action) => action,
            }
        }),
        named_summary("Messages.Read"@, payload) == match payload.at(seq!["1"@]) {
            Some(id) => Some("message id "@ + json_text(id)),
            None => None,
        },
{
    lemma_streams_differ();
    lemma_small_numbers();
    lemma_label(payload, 2, "Connected"@, "Disconnected"@);
    reveal_strlit("");
    let first = text_at(payload, seq!["1"@, "utf8"@]);
    let second = text_at(payload, seq!["2"@, "utf8"@]);
    let fifth = text_at(payload, seq!["5"@, "utf8"@]);
    if let (Some(a), Some(b)) = (second, fifth) {
        assert(a + ": "@ + b + ""@ =~= a + ": "@ + b);
    }
    (first, second, fifth, label_of(payload, 2, "Connected"@, "Disconnected"@))
}

/// Whether a message tells of an entry: of its stream, and behind it what is known of its
/// payload; of a payload of zeros only that it is one, and in which state the entry is.
pub open spec fn tells_entry(record: SegbRecordView, stream: Seq<char>, payload: JsonView, m: Seq<char>) -> bool {
    if record.payload.len() > 0 && forall|i: int|
        0 <= i < record.payload.len() ==> record.payload[i] == 0 {
        m == "[Peach] "@ + stream + ": (no data — "@ + (match record.state {
            EntryState::Written => "written"@,
            EntryState::Deleted => "deleted"@,
            EntryState::Unknown => "unknown"@,
        }) + " record, payload is "@ + dec(record.payload.len()) + " zero bytes)"@
    } else {
        match (named_summary(stream, payload), payload_summary(payload)) {
            (Some(text), _) => m == "[Peach] "@ + stream + ": "@ + text,
            (None, Some(text)) => m == "[Peach] "@ + stream + ": "@ + text,
            (None, None) => m == "[Peach] Biome stream: "@ + stream,
        }
    }
}

/// Whether a record is that of an entry: its time, its state, whether its checksum is right,
/// its place, and its payload in hexadecimal and decoded, each under its name.
pub open spec fn is_record_of_entry(
    r: RecordView,
    record: SegbRecordView,
    stream: Option<Seq<char>>,
    payload: JsonView,
) -> bool {
    &&& r.timestamp_utc == record.timestamp_utc
    &&& r.level is None
    &&& r.raw == json_text(r.fields)
    &&& r.fields.get("stream"@) == match stream {
        Some(s) => Some(JsonView::Text(s)),
        None => None,
    }
    &&& r.fields.get("entry_state"@) == Some(
        JsonView::Text(
            match record.state {
                EntryState::Written => "written"@,
                EntryState::Deleted => "deleted"@,
                EntryState::Unknown => "unknown"@,
            },
        ),
    )
    &&& r.fields.get("crc_valid"@) == Some(JsonView::Bool(record.crc_valid))
    &&& record.record_offset >= 0 ==> r.fields.get("record_offset"@) == Some(
        JsonView::Unsigned(record.record_offset as u64),
    )
    &&& r.fields.get("payload_hex"@) == Some(JsonView::Text(hex(record.payload)))
    &&& r.fields.get("payload"@) == Some(payload)
    &&& r.message is Some
    &&& match stream {
        Some(s) => tells_entry(record, s, payload, r.message->0),
        None => r.message->0 == "[Peach] Biome record (stream undetermined from path)"@,
    }
}

proof fn lemma_names_of_fields()
    ensures
        "stream"@.len() == 6,
        "entry_state"@.len() == 11 && "entry_state"@[0] == 'e',
        "crc_valid"@.len() == 9,
        "record_offset"@.len() == 13,
        "payload_hex"@.len() == 11 && "payload_hex"@[0] == 'p',
        "payload"@.len() == 7,
        "mail_message_date_utc"@.len() == 21,
{
    reveal_strlit("stream");
    reveal_strlit("entry_state");
    reveal_strlit("crc_valid");
    reveal_strlit("record_offset");
    reveal_strlit("payload_hex");
    reveal_strlit("payload");
    reveal_strlit("mail_message_date_utc");
}

/// Whether the date of a message of the mail stream is added: field 3 holds its bits, and
/// there is a text for them.
pub open spec fn has_mail_date(
    stream: Option<Seq<char>>,
    payload: JsonView,
    dates: Seq<(u64, Seq<char>)>,
    date: Seq<char>,
) -> bool {
    &&& stream == Some("ProactiveHarvesting.Mail"@)
    &&& match payload.get("3"@) {
        Some(JsonView::Unsigned(n)) => n <= i64::MAX && found_text(dates, n) == Some(date),
        Some(JsonView::Negative(n)) => n < 0 && found_text(
            dates,
            (n + 0x1_0000_0000_0000_0000) as u64,
        ) == Some(date),
        _ => false,
    }
}

proof fn lemma_fields_of_entry(
    record: SegbRecordView,
    stream: Option<Seq<char>>,
    floats: Seq<(u64, Seq<char>)>,
    dates: Seq<(u64, Seq<char>)>,
)
    ensures
        ({
            let r = parsed_view(record, stream, floats, dates);
            let payload = message_object(
                message(record.payload, 0, MAX_DECODE_WORK as nat, floats),
            );
            let members = r.fields->Object_0;
            let n: int = if stream is Some {
                1
            } else {
                0
            };
            &&& r.fields.get("stream"@) == match stream {
                Some(s) => Some(JsonView::Text(s)),
                None => None,
            }
            &&& r.fields.get("entry_state"@) == Some(members[n].1)
            &&& r.fields.get("crc_valid"@) == Some(members[n + 1].1)
            &&& r.fields.get("record_offset"@) == Some(members[n + 2].1)
            &&& r.fields.get("payload_hex"@) == Some(members[n + 3].1)
            &&& r.fields.get("payload"@) == Some(members[n + 4].1)
            &&& r.fields.get("mail_message_date_utc"@) == if members.len() > n + 5 {
                Some(members[n + 5].1)
            } else {
                None
            }
        }),
{
    lemma_names_of_fields();
    let r = parsed_view(record, stream, floats, dates);
    let members = r.fields->Object_0;
    let n: int = if stream is Some {
        1
    } else {
        0
    };
    if stream is Some {
        assert(members[0].0 == "stream"@);
        lemma_first_place(members, "stream"@, 0);
    } else {
        lemma_first_place(members, "stream"@, members.len() as int);
    }
    assert(members[n].0 == "entry_state"@);
    assert(members[n + 1].0 == "crc_valid"@);
    assert(members[n + 2].0 == "record_offset"@);
    assert(members[n + 3].0 == "payload_hex"@);
    assert(members[n + 4].0 == "payload"@);
    lemma_first_place(members, "entry_state"@, n);
    lemma_first_place(members, "crc_valid"@, n + 1);
    lemma_first_place(members, "record_offset"@, n + 2);
    lemma_first_place(members, "payload_hex"@, n + 3);
    lemma_first_place(members, "payload"@, n + 4);
    lemma_first_place(members, "mail_message_date_utc"@, n + 5);
}

/// The record of an entry says what the entry does.
pub proof fn lemma_record_is_its_entry(
    record: SegbRecordView,
    stream: Option<Seq<char>>,
    floats: Seq<(u64, Seq<char>)>,
    dates: Seq<(u64, Seq<char>)>,
)
    ensures
        ({
            let r = parsed_view(record, stream, floats, dates);
            let payload = message_object(
                message(record.payload, 0, MAX_DECODE_WORK as nat, floats),
            );
            &&& is_record_of_entry(r, record, stream, payload)
            &&& forall|date: Seq<char>| #[trigger]
                has_mail_date(stream, payload, dates, date) ==> r.fields.get(
                    "mail_message_date_utc"@,
                ) == Some(JsonView::Text(date))
            &&& stream != Some("ProactiveHarvesting.Mail"@) ==> r.fields.get(
                "mail_message_date_utc"@,
            ) is None
        }),
{
    lemma_fields_of_entry(record, stream, floats, dates);
}

/// Whether records are those of the readable entries, in order.
pub open spec fn are_readable(
    outcomes: Seq<EntryOutcome>,
    stream: Option<Seq<char>>,
    floats: Seq<(u64, Seq<char>)>,
    records: Seq<RecordView>,
    from: Seq<int>,
) -> bool {
    &&& is_selection(outcomes, |o: EntryOutcome| o is Record, from)
    &&& records.len() == from.len()
    &&& forall|k: int|
        0 <= k < from.len() ==> {
            let record = outcomes[#[trigger] from[k]]->Record_0;
            is_record_of_entry(
                records[k],
                record,
                stream,
                message_object(message(record.payload, 0, MAX_DECODE_WORK as nat, floats)),
            )
        }
}

/// Whether what is listed as left out is the entries that cannot be read, each with its
/// number.
pub open spec fn are_left_out(
    outcomes: Seq<EntryOutcome>,
    skipped: Seq<SkippedView>,
    from: Seq<int>,
) -> bool {
    &&& is_selection(outcomes, |o: EntryOutcome| !(o is Record), from)
    &&& skipped.len() == from.len()
    &&& forall|k: int|
        0 <= k < from.len() ==> {
            let o = outcomes[#[trigger] from[k]];
            &&& skipped[k].location == "record "@ + dec(from[k] as nat)
            &&& o matches EntryOutcome::BadTimestamp(why) ==> skipped[k].reason == why
            &&& o matches EntryOutcome::PastEnd { end_offset } ==> skipped[k].reason
                == "record ending at data-area offset "@ + dec_int(end_offset)
                + " would read past the end of the file"@
        }
}

/// The readable entries of a file become its records.
pub proof fn lemma_readable_entries(
    outcomes: Seq<EntryOutcome>,
    stream: Option<Seq<char>>,
    floats: Seq<(u64, Seq<char>)>,
    dates: Seq<(u64, Seq<char>)>,
) -> (from: Seq<int>)
    ensures
        are_readable(outcomes, stream, floats, good_records(outcomes, stream, floats, dates), from),
    decreases outcomes.len(),
{
    if outcomes.len() == 0 {
        Seq::empty()
    } else {
        let front = outcomes.drop_last();
        let before = lemma_readable_entries(front, stream, floats, dates);
        let from = lemma_selection_grows(outcomes, |o: EntryOutcome| o is Record, before);
        let records = good_records(outcomes, stream, floats, dates);
        assert forall|k: int| 0 <= k < from.len() implies ({
            let record = outcomes[#[trigger] from[k]]->Record_0;
            is_record_of_entry(
                records[k],
                record,
                stream,
                message_object(message(record.payload, 0, MAX_DECODE_WORK as nat, floats)),
            )
        }) by {
            if k < before.len() {
                assert(from[k] == before[k]);
                assert(front[before[k]] == outcomes[before[k]]);
                assert(records[k] == good_records(front, stream, floats, dates)[k]);
            } else {
                lemma_record_is_its_entry(outcomes.last()->Record_0, stream, floats, dates);
            }
        }
        from
    }
}

/// The entries that cannot be read are listed as left out.
pub proof fn lemma_unreadable_entries(outcomes: Seq<EntryOutcome>) -> (from: Seq<int>)
    ensures
        are_left_out(outcomes, bad_records(outcomes), from),
    decreases outcomes.len(),
{
    if outcomes.len() == 0 {
        Seq::empty()
    } else {
        let front = outcomes.drop_last();
        let before = lemma_unreadable_entries(front);
        let from = lemma_selection_grows(outcomes, |o: EntryOutcome| !(o is Record), before);
        let skipped = bad_records(outcomes);
        assert forall|k: int| 0 <= k < from.len() implies ({
            let o = outcomes[#[trigger] from[k]];
            &&& skipped[k].location == "record "@ + dec(from[k] as nat)
            &&& o matches EntryOutcome::BadTimestamp(why) ==> skipped[k].reason == why
            &&& o matches EntryOutcome::PastEnd { end_offset } ==> skipped[k].reason
                == "record ending at data-area offset "@ + dec_int(end_offset)
                + " would read past the end of the file"@
        }) by {
            if k < before.len() {
                assert(from[k] == before[k]);
                assert(front[before[k]] == outcomes[before[k]]);
                assert(skipped[k] == bad_records(front)[k]);
            }
        }
        from
    }
}

/// The state of an entry by its number.
pub proof fn lemma_states_by_number(raw: int)
    ensures
        raw == 1 <==> state_of(raw) == Some(EntryState::Written),
        raw == 3 <==> state_of(raw) == Some(EntryState::Deleted),
        raw == 4 <==> state_of(raw) == Some(EntryState::Unknown),
        state_of(raw) is None <==> raw != 1 && raw != 3 && raw != 4,
{
}

/// Whether a directory is one that the data of streams lies in.
pub open spec fn is_local_or_remote(name: Seq<char>) -> bool {
    same_ignoring_ascii_case(name, "local"@) || same_ignoring_ascii_case(name, "remote"@)
}

/// The stream of a file is the directory that it lies in, or the one above that where it
/// lies in `local` or `remote`.
pub proof fn lemma_stream_of_path(parts: Seq<PathPartView>, before: Seq<Seq<char>>, dir: Seq<char>, file: Seq<char>)
    requires
        part_texts(parts) == before.push(dir).push(file),
    ensures
        !is_local_or_remote(dir) ==> stream_name(parts) == Some(dir),
        is_local_or_remote(dir) && before.len() > 0 ==> stream_name(parts) == Some(before.last()),
        is_local_or_remote(dir) && before.len() == 0 ==> stream_name(parts) is None,
{
    let names = part_texts(parts);
    let n = names.len() as int;
    assert(names[n - 2] == dir);
    if before.len() > 0 {
        assert(names[n - 3] == before.last());
    }
}

/// A file is opened if it lies in `local` or `remote`, is not hidden, and lies under no
/// tombstone.
pub proof fn lemma_files_that_are_opened(
    parts: Seq<PathPartView>,
    before: Seq<Seq<char>>,
    dir: Seq<char>,
    file: Seq<char>,
)
    requires
        part_texts(parts) == before.push(dir).push(file),
        file_name_text(parts) == Some(file),
    ensures
        segb_candidate(parts) <==> is_local_or_remote(dir) && !(file.len() > 0 && file[0] == '.')
            && !same_ignoring_ascii_case(dir, "tombstone"@) && !same_ignoring_ascii_case(
            file,
            "tombstone"@,
        ) && forall|i: int|
            0 <= i < before.len() ==> !same_ignoring_ascii_case(
                #[trigger] before[i],
                "tombstone"@,
            ),
{
    let names = part_texts(parts);
    let n = names.len() as int;
    assert(names[n - 2] == dir);
    assert(names[n - 1] == file);
    assert forall|i: int| 0 <= i < before.len() implies #[trigger] before[i] == names[i] by {}
    if segb_candidate(parts) {
        assert forall|i: int| 0 <= i < before.len() implies !same_ignoring_ascii_case(
            #[trigger] before[i],
            "tombstone"@,
        ) by {
            assert(names[i] == before[i]);
        }
    }
}

} // verus!
