//! Unified logs as a stream: what is read and handed over, and in which order.

use vstd::prelude::*;

use crate::model::{ParsedRecord, RecordView};
use crate::order::stable_order;
use crate::parsers::aul::{
    aul_entries_view, aul_record, entry_keys, lemma_entries_in_order, order_entries,
    ordered_records, to_parsed_record, AulEntry, AulEntryView, AulParser,
};

verus! {

/// What happens to a stream.
#[derive(Debug)]
pub enum StreamEvent {
    /// A file was read: its entries, and its size in bytes.
    File { entries: Vec<AulEntry>, bytes: u64 },
    /// There is no other file.
    AllRead,
    /// What was handed over was taken.
    Ready,
    /// A file could not be read, or what was handed over was not taken.
    Refused(String),
}

/// What is to be done about it.
#[derive(Debug)]
pub enum StreamAction {
    /// Say that so many more bytes were read.
    ReportBytes(u64),
    /// Say how many records there will be.
    ReportTotal(usize),
    /// Hand a record over.
    HandOver(ParsedRecord),
    /// There is no other record.
    Finish,
    /// Give up.
    Fail(String),
}

/// The view of a [`StreamEvent`].
pub enum EventView {
    File { entries: Seq<AulEntryView>, bytes: u64 },
    AllRead,
    Ready,
    Refused(Seq<char>),
}

impl View for StreamEvent {
    type V = EventView;

    open spec fn view(&self) -> EventView {
        match self {
            StreamEvent::File { entries, bytes } => EventView::File {
                entries: aul_entries_view(entries@),
                bytes: *bytes,
            },
            StreamEvent::AllRead => EventView::AllRead,
            StreamEvent::Ready => EventView::Ready,
            StreamEvent::Refused(e) => EventView::Refused(e@),
        }
    }
}

/// The view of a [`StreamAction`].
pub enum ActionView {
    ReportBytes(u64),
    ReportTotal(nat),
    HandOver(RecordView),
    Finish,
    Fail(Seq<char>),
}

impl View for StreamAction {
    type V = ActionView;

    open spec fn view(&self) -> ActionView {
        match self {
            StreamAction::ReportBytes(n) => ActionView::ReportBytes(*n),
            StreamAction::ReportTotal(n) => ActionView::ReportTotal(*n as nat),
            StreamAction::HandOver(record) => ActionView::HandOver(record@),
            StreamAction::Finish => ActionView::Finish,
            StreamAction::Fail(e) => ActionView::Fail(e@),
        }
    }
}

/// How far a stream has come.
pub enum StreamView {
    /// The files are being read: the entries so far, and whether there was a file.
    Reading { entries: Seq<AulEntryView>, any_file: bool },
    /// The records are being handed over, from the next one on.
    Giving { records: Seq<RecordView>, next: nat },
    Over,
}

/// Whether an event can happen to a stream that has come so far.
pub open spec fn can_happen(state: StreamView, event: EventView) -> bool {
    match state {
        StreamView::Reading { .. } => !(event is Ready),
        StreamView::Giving { .. } => event is Ready || event is Refused,
        StreamView::Over => false,
    }
}

/// How far a stream comes by an event, and what is to be done.
pub open spec fn stream_step(path: Seq<char>, state: StreamView, event: EventView) -> (
    StreamView,
    ActionView,
) {
    match (state, event) {
        (StreamView::Reading { entries, .. }, EventView::File { entries: more, bytes }) => (
            StreamView::Reading { entries: entries + more, any_file: true },
            ActionView::ReportBytes(bytes),
        ),
        (StreamView::Reading { entries, any_file }, EventView::AllRead) => if any_file {
            (
                StreamView::Giving { records: ordered_records(entries), next: 0 },
                ActionView::ReportTotal(entries.len()),
            )
        } else {
            (StreamView::Over, ActionView::Fail("no .tracev3 files found under "@ + path))
        },
        (StreamView::Giving { records, next }, EventView::Ready) => if next < records.len() {
            (
                StreamView::Giving { records, next: next + 1 },
                ActionView::HandOver(records[next as int]),
            )
        } else {
            (StreamView::Over, ActionView::Finish)
        },
        (_, EventView::Refused(e)) => (StreamView::Over, ActionView::Fail(e)),
        _ => (StreamView::Over, ActionView::Finish),
    }
}

#[derive(Debug)]
enum StreamState {
    Reading { entries: Vec<AulEntry>, any_file: bool },
    Giving { entries: Vec<AulEntry>, order: Vec<usize>, next: usize },
    Over,
}

/// The reading of a source of unified logs.
#[derive(Debug)]
pub struct AulStream {
    state: StreamState,
}

impl View for AulStream {
    type V = StreamView;

    closed spec fn view(&self) -> StreamView {
        match self.state {
            StreamState::Reading { entries, any_file } => StreamView::Reading {
                entries: aul_entries_view(entries@),
                any_file,
            },
            StreamState::Giving { entries, next, .. } => StreamView::Giving {
                records: ordered_records(aul_entries_view(entries@)),
                next: next as nat,
            },
            StreamState::Over => StreamView::Over,
        }
    }
}

impl AulStream {
    #[verifier::type_invariant]
    spec fn inv(self) -> bool {
        match self.state {
            StreamState::Giving { entries, order, next } => {
                &&& order@.map_values(|i: usize| i as int) == stable_order(
                    entry_keys(aul_entries_view(entries@)),
                )
                &&& order@.len() == entries@.len()
                &&& forall|i: int| 0 <= i < order@.len() ==> #[trigger] order@[i] < entries@.len()
                &&& next <= order@.len()
            },
            _ => true,
        }
    }

    /// A stream of which nothing has been read.
    pub fn new() -> (r: Self)
        ensures
            r@ == (StreamView::Reading { entries: seq![], any_file: false }),
    {
        let entries: Vec<AulEntry> = Vec::new();
        assert(aul_entries_view(entries@) =~= seq![]);
        AulStream { state: StreamState::Reading { entries, any_file: false } }
    }
}

impl AulParser {
    /// Takes a stream on by an event, and says what is to be done: the bytes of each
    /// file are reported as it is read, then once how many records there are, and then
    /// the records are handed over in the order of time until one is not taken.
    pub fn parse_streaming(&self, path: &str, stream: AulStream, event: StreamEvent) -> (r: (
        AulStream,
        StreamAction,
    ))
        requires
            can_happen(stream@, event@),
        ensures
            (r.0@, r.1@) == stream_step(path@, stream@, event@),
    {
        proof {
            use_type_invariant(&stream);
        }
        match (stream.state, event) {
            (StreamState::Reading { entries, .. }, StreamEvent::File { entries: more, bytes }) => {
                let mut entries = entries;
                let mut more = more;
                let ghost before = entries@;
                let ghost added = more@;
                entries.append(&mut more);
                assert(aul_entries_view(entries@) =~= aul_entries_view(before) + aul_entries_view(
                    added,
                ));
                (
                    AulStream { state: StreamState::Reading { entries, any_file: true } },
                    StreamAction::ReportBytes(bytes),
                )
            },
            (StreamState::Reading { entries, any_file }, StreamEvent::AllRead) => if any_file {
                let total: usize = entries.len();
                let order = order_entries(&entries);
                proof {
                    let ev = aul_entries_view(entries@);
                    let o = order@.map_values(|i: usize| i as int);
                    assert(o.len() == entry_keys(ev).len());
                    assert forall|i: int| 0 <= i < order@.len() implies #[trigger] order@[i]
                        < entries@.len() by {
                        assert(o[i] == order@[i]);
                    }
                }
                (
                    AulStream { state: StreamState::Giving { entries, order, next: 0 } },
                    StreamAction::ReportTotal(total),
                )
            } else {
                let mut e = "no .tracev3 files found under ".to_owned();
                e.append(path);
                (AulStream { state: StreamState::Over }, StreamAction::Fail(e))
            },
            (StreamState::Giving { entries, order, next }, StreamEvent::Ready) => {
                proof {
                    lemma_entries_in_order(aul_entries_view(entries@));
                }
                if next < order.len() {
                    let record = to_parsed_record(&entries[order[next]]);
                    proof {
                        let ev = aul_entries_view(entries@);
                        assert(order@.map_values(|i: usize| i as int)[next as int]
                            == order@[next as int]);
                        assert(ordered_records(ev)[next as int] == aul_record(
                            ev[stable_order(entry_keys(ev))[next as int]],
                        ));
                    }
                    (
                        AulStream { state: StreamState::Giving { entries, order, next: next + 1 } },
                        StreamAction::HandOver(record),
                    )
                } else {
                    (AulStream { state: StreamState::Over }, StreamAction::Finish)
                }
            },
            (_, StreamEvent::Refused(e)) => (
                AulStream { state: StreamState::Over },
                StreamAction::Fail(e),
            ),
            _ => (AulStream { state: StreamState::Over }, StreamAction::Finish),
        }
    }
}

/// How far a stream comes by events, and what is done.
pub open spec fn stream_run(path: Seq<char>, events: Seq<EventView>) -> (
    StreamView,
    Seq<ActionView>,
)
    decreases events.len(),
{
    if events.len() == 0 {
        (StreamView::Reading { entries: seq![], any_file: false }, seq![])
    } else {
        let (state, done) = stream_run(path, events.drop_last());
        let (next, action) = stream_step(path, state, events.last());
        (next, done.push(action))
    }
}

/// The entries of files, one file after the other.
pub open spec fn all_entries(files: Seq<(Seq<AulEntryView>, u64)>) -> Seq<AulEntryView>
    decreases files.len(),
{
    if files.len() == 0 {
        seq![]
    } else {
        all_entries(files.drop_last()) + files.last().0
    }
}

/// The events of a source: its files, the end of them, and so many records taken.
pub open spec fn source_events(files: Seq<(Seq<AulEntryView>, u64)>, taken: nat) -> Seq<EventView> {
    files.map_values(
        |f: (Seq<AulEntryView>, u64)| EventView::File { entries: f.0, bytes: f.1 },
    ).push(EventView::AllRead) + Seq::new(taken, |i: int| EventView::Ready)
}

/// What is done for a source of which so many records were taken.
pub open spec fn source_actions(files: Seq<(Seq<AulEntryView>, u64)>, taken: nat) -> Seq<
    ActionView,
> {
    files.map_values(|f: (Seq<AulEntryView>, u64)| ActionView::ReportBytes(f.1)).push(
        ActionView::ReportTotal(all_entries(files).len()),
    ) + Seq::new(taken, |i: int| ActionView::HandOver(ordered_records(all_entries(files))[i]))
}

proof fn lemma_files_are_read(path: Seq<char>, files: Seq<(Seq<AulEntryView>, u64)>)
    ensures
        stream_run(
            path,
            files.map_values(
                |f: (Seq<AulEntryView>, u64)| EventView::File { entries: f.0, bytes: f.1 },
            ),
        ) == (
            StreamView::Reading { entries: all_entries(files), any_file: files.len() > 0 },
            files.map_values(|f: (Seq<AulEntryView>, u64)| ActionView::ReportBytes(f.1)),
        ),
    decreases files.len(),
{
    let as_event = |f: (Seq<AulEntryView>, u64)| EventView::File { entries: f.0, bytes: f.1 };
    let as_action = |f: (Seq<AulEntryView>, u64)| ActionView::ReportBytes(f.1);
    let events = files.map_values(as_event);
    if files.len() == 0 {
        assert(files.map_values(as_action) =~= seq![]);
    } else {
        let front = files.drop_last();
        lemma_files_are_read(path, front);
        assert(events.drop_last() =~= front.map_values(as_event));
        assert(files.map_values(as_action) =~= front.map_values(as_action).push(
            as_action(files.last()),
        ));
        assert(events.last() == as_event(files.last()));
    }
}

proof fn lemma_records_are_given(
    path: Seq<char>,
    files: Seq<(Seq<AulEntryView>, u64)>,
    taken: nat,
)
    requires
        files.len() > 0,
        taken <= all_entries(files).len(),
    ensures
        stream_run(path, source_events(files, taken)) == (
            StreamView::Giving { records: ordered_records(all_entries(files)), next: taken },
            source_actions(files, taken),
        ),
    decreases taken,
{
    let all = all_entries(files);
    lemma_entries_in_order(all);
    let events = source_events(files, taken);
    let read = files.map_values(
        |f: (Seq<AulEntryView>, u64)| EventView::File { entries: f.0, bytes: f.1 },
    );
    if taken == 0 {
        lemma_files_are_read(path, files);
        assert(events =~= read.push(EventView::AllRead));
        assert(events.drop_last() =~= read);
        assert(source_actions(files, 0) =~= files.map_values(
            |f: (Seq<AulEntryView>, u64)| ActionView::ReportBytes(f.1),
        ).push(ActionView::ReportTotal(all.len())));
    } else {
        let fewer = (taken - 1) as nat;
        lemma_records_are_given(path, files, fewer);
        assert(events.drop_last() =~= source_events(files, fewer));
        assert(events.last() == EventView::Ready);
        assert(source_actions(files, taken) =~= source_actions(files, fewer).push(
            ActionView::HandOver(ordered_records(all)[taken - 1]),
        ));
    }
}

/// The stream of a source: for each file its bytes are reported, then once how many
/// records there are, and only then come the records, in the order of time. After the
/// last of them the stream ends, and after one that is not taken it fails for that
/// reason and comes to nothing more.
pub proof fn lemma_stream_of_source(
    path: Seq<char>,
    files: Seq<(Seq<AulEntryView>, u64)>,
    taken: nat,
    reason: Seq<char>,
)
    requires
        files.len() > 0,
        taken <= all_entries(files).len(),
    ensures
        stream_run(path, source_events(files, taken)) == (
            StreamView::Giving { records: ordered_records(all_entries(files)), next: taken },
            source_actions(files, taken),
        ),
        taken == all_entries(files).len() ==> stream_run(
            path,
            source_events(files, taken).push(EventView::Ready),
        ) == (StreamView::Over, source_actions(files, taken).push(ActionView::Finish)),
        stream_run(path, source_events(files, taken).push(EventView::Refused(reason))) == (
            StreamView::Over,
            source_actions(files, taken).push(ActionView::Fail(reason)),
        ),
{
    let events = source_events(files, taken);
    lemma_entries_in_order(all_entries(files));
    lemma_records_are_given(path, files, taken);
    let ended = events.push(EventView::Ready);
    let refused = events.push(EventView::Refused(reason));
    assert(ended.drop_last() =~= events);
    assert(ended.last() == EventView::Ready);
    assert(refused.drop_last() =~= events);
    assert(refused.last() == EventView::Refused(reason));
}

} // verus!
