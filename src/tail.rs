//! The tail pipeline: the decisions that turn change events and delta reads
//! into an ordered sequence of lines. Whoever drives it performs each read it
//! asks for and hands back what the read returned.
use vstd::prelude::*;
use vstd::utf8::{decode_utf8, valid_utf8};
use crate::event::FileEvent;
use crate::framer::{
    complete_lines, copy_range, frame_chunks, lemma_chunk_invariance, line_views, no_newline,
    remainder, LineFramer,
};

verus! {

/// Where the pipeline stands.
#[derive(Clone, Copy, Debug, PartialEq, Eq, Structural)]
pub enum Phase {
    /// Waiting for the next change event.
    Idle,
    /// A delta read was asked for and its outcome is awaited.
    Reading,
    /// The file was deleted: the sequence has ended.
    Closed,
    /// An error ended the sequence.
    Failed,
}

impl Phase {
    pub open spec fn spec_is_terminal(self) -> bool {
        self == Phase::Closed || self == Phase::Failed
    }

    pub fn is_terminal(&self) -> (r: bool)
        ensures
            r == self.spec_is_terminal(),
    {
        matches!(self, Phase::Closed | Phase::Failed)
    }
}

/// Why the sequence of lines ended abnormally, or why it never started.
#[derive(Debug, PartialEq, Eq)]
pub enum TailError {
    /// The watch on the path could not be installed.
    WatchInit(String),
    /// A read failed for a reason other than the file being gone.
    ReadFatal(String),
    /// A completed line is not valid UTF-8; it holds the line's bytes.
    Decode(Vec<u8>),
    /// The watch subsystem failed while the file was being tailed.
    Watch,
}

pub enum TailErrorView {
    WatchInit(Seq<char>),
    ReadFatal(Seq<char>),
    Decode(Seq<u8>),
    Watch,
}

impl View for TailError {
    type V = TailErrorView;

    open spec fn view(&self) -> TailErrorView {
        match self {
            TailError::WatchInit(m) => TailErrorView::WatchInit(m@),
            TailError::ReadFatal(m) => TailErrorView::ReadFatal(m@),
            TailError::Decode(b) => TailErrorView::Decode(b@),
            TailError::Watch => TailErrorView::Watch,
        }
    }
}

/// An item of the sequence: a line, or the error that ends the sequence.
pub open spec fn item_view(r: Result<String, TailError>) -> Result<Seq<char>, TailErrorView> {
    match r {
        Ok(s) => Ok(s@),
        Err(e) => Err(e@),
    }
}

pub open spec fn items_view(rs: Seq<Result<String, TailError>>) -> Seq<
    Result<Seq<char>, TailErrorView>,
> {
    rs.map_values(|r: Result<String, TailError>| item_view(r))
}

/// What the bytes of one line become: its text, or a decode error that
/// carries the bytes.
pub open spec fn decode_item(line: Seq<u8>) -> Result<Seq<char>, TailErrorView> {
    if valid_utf8(line) {
        Ok(decode_utf8(line))
    } else {
        Err(TailErrorView::Decode(line))
    }
}

/// Whether every line is valid UTF-8.
pub open spec fn all_valid(lines: Seq<Seq<u8>>) -> bool {
    forall|i: int| 0 <= i < lines.len() ==> valid_utf8(#[trigger] lines[i])
}

/// The items that a batch of lines yields: each line decoded, in order, up
/// to and including the first line that is not valid UTF-8, which ends the
/// sequence.
pub open spec fn decode_lines(lines: Seq<Seq<u8>>) -> Seq<Result<Seq<char>, TailErrorView>>
    decreases lines.len(),
{
    if lines.len() == 0 {
        Seq::empty()
    } else if all_valid(lines.drop_last()) {
        decode_lines(lines.drop_last()).push(decode_item(lines.last()))
    } else {
        decode_lines(lines.drop_last())
    }
}

/// What a delta read returned.
#[derive(Debug, PartialEq, Eq)]
pub enum ReadOutcome {
    /// The bytes from the asked offset to the end of the file (maybe none).
    Data(Vec<u8>),
    /// The file could not be opened because it is gone: a race with its
    /// deletion, not a failure.
    Missing,
    /// The read failed otherwise.
    Failed(String),
}

pub enum ReadOutcomeView {
    Data(Seq<u8>),
    Missing,
    Failed(Seq<char>),
}

impl View for ReadOutcome {
    type V = ReadOutcomeView;

    open spec fn view(&self) -> ReadOutcomeView {
        match self {
            ReadOutcome::Data(b) => ReadOutcomeView::Data(b@),
            ReadOutcome::Missing => ReadOutcomeView::Missing,
            ReadOutcome::Failed(m) => ReadOutcomeView::Failed(m@),
        }
    }
}

/// What the pipeline asks of its driver after a change event.
#[derive(Debug, PartialEq, Eq)]
pub enum Action {
    /// Read the bytes from this offset to the end of the file and hand the
    /// outcome to `on_read`.
    Read(u64),
    /// Emit these items, in order; the sequence then ends.
    Finish(Vec<Result<String, TailError>>),
}

pub enum ActionView {
    Read(nat),
    Finish(Seq<Result<Seq<char>, TailErrorView>>),
}

impl View for Action {
    type V = ActionView;

    open spec fn view(&self) -> ActionView {
        match self {
            Action::Read(o) => ActionView::Read(*o as nat),
            Action::Finish(items) => ActionView::Finish(items_view(items@)),
        }
    }
}

/// The state of a pipeline: the byte offset up to which the file has been
/// read, the bytes of the line not yet completed, and the phase.
pub struct TailView {
    pub offset: nat,
    pub pending: Seq<u8>,
    pub phase: Phase,
}

/// The pipeline's answer to a change event.
pub open spec fn event_step(s: TailView, ev: FileEvent) -> (TailView, ActionView) {
    if s.phase.spec_is_terminal() {
        (s, ActionView::Finish(Seq::empty()))
    } else {
        match ev {
            FileEvent::Modify => (
                TailView { offset: s.offset, pending: s.pending, phase: Phase::Reading },
                ActionView::Read(s.offset),
            ),
            FileEvent::Delete => (
                TailView { offset: s.offset, pending: Seq::empty(), phase: Phase::Closed },
                ActionView::Finish(
                    if s.pending.len() == 0 {
                        Seq::empty()
                    } else {
                        seq![decode_item(s.pending)]
                    },
                ),
            ),
            FileEvent::Error => (
                TailView { offset: s.offset, pending: s.pending, phase: Phase::Failed },
                ActionView::Finish(seq![Err(TailErrorView::Watch)]),
            ),
        }
    }
}

/// The pipeline's answer to the outcome of a delta read: the new state and
/// the items to emit, in order.
pub open spec fn read_step(s: TailView, r: ReadOutcomeView) -> (
    TailView,
    Seq<Result<Seq<char>, TailErrorView>>,
) {
    match r {
        ReadOutcomeView::Data(bytes) => {
            let fed = s.pending + bytes;
            let lines = complete_lines(fed);
            (
                TailView {
                    offset: s.offset + bytes.len(),
                    pending: remainder(fed),
                    phase: if all_valid(lines) {
                        Phase::Idle
                    } else {
                        Phase::Failed
                    },
                },
                decode_lines(lines),
            )
        },
        ReadOutcomeView::Missing => (
            TailView { offset: s.offset, pending: s.pending, phase: Phase::Idle },
            Seq::empty(),
        ),
        ReadOutcomeView::Failed(m) => (
            TailView { offset: s.offset, pending: s.pending, phase: Phase::Failed },
            seq![Err(TailErrorView::ReadFatal(m))],
        ),
    }
}

/// Relies on `String::from_utf8`: it succeeds exactly when the bytes are
/// valid UTF-8, and the string then holds the characters they encode.
#[verifier::external_body]
fn string_from_utf8(bytes: Vec<u8>) -> (r: Option<String>)
    ensures
        match r {
            Some(s) => valid_utf8(bytes@) && s@ == decode_utf8(bytes@),
            None => !valid_utf8(bytes@),
        },
{
    String::from_utf8(bytes).ok()
}

/// Decodes the bytes of one line.
pub fn decode_line(line: &Vec<u8>) -> (r: Result<String, TailError>)
    ensures
        item_view(r) == decode_item(line@),
{
    let bytes = copy_range(line, 0, line.len());
    assert(line@.subrange(0, line@.len() as int) =~= line@);
    match string_from_utf8(bytes) {
        Some(s) => Ok(s),
        None => Err(TailError::Decode(copy_range(line, 0, line.len()))),
    }
}

/// Once a line fails to decode, later lines change nothing.
proof fn lemma_decode_stops(lines: Seq<Seq<u8>>, k: int)
    requires
        0 <= k <= lines.len(),
        !all_valid(lines.take(k)),
    ensures
        decode_lines(lines) == decode_lines(lines.take(k)),
    decreases lines.len(),
{
    if lines.len() == k {
        assert(lines.take(k) =~= lines);
    } else {
        let init = lines.drop_last();
        assert(init.take(k) =~= lines.take(k));
        let i = choose|i: int| 0 <= i < k && !valid_utf8(#[trigger] lines.take(k)[i]);
        assert(init[i] == lines.take(k)[i]);
        lemma_decode_stops(init, k);
    }
}

/// Decodes a batch of lines in order, stopping after the first that is not
/// valid UTF-8. The flag tells whether every line decoded.
pub fn decode_all(lines: &Vec<Vec<u8>>) -> (r: (Vec<Result<String, TailError>>, bool))
    ensures
        items_view(r.0@) == decode_lines(line_views(lines@)),
        r.1 == all_valid(line_views(lines@)),
{
    let ghost ls = line_views(lines@);
    let mut items: Vec<Result<String, TailError>> = Vec::new();
    let mut j: usize = 0;
    assert(items_view(items@) =~= decode_lines(ls.take(0)));
    while j < lines.len()
        invariant
            ls == line_views(lines@),
            j <= lines@.len(),
            all_valid(ls.take(j as int)),
            items_view(items@) == decode_lines(ls.take(j as int)),
        decreases lines@.len() - j,
    {
        let item = decode_line(&lines[j]);
        let ok = item.is_ok();
        let ghost before = items@;
        items.push(item);
        proof {
            assert(ls.take(j + 1).drop_last() =~= ls.take(j as int));
            assert(ls.take(j + 1).last() == ls[j as int]);
            assert(items@ =~= before.push(item));
            assert(items_view(items@) =~= items_view(before).push(item_view(item)));
        }
        if !ok {
            proof {
                assert(!valid_utf8(ls.take(j + 1)[j as int]));
                lemma_decode_stops(ls, j + 1);
                assert(!all_valid(ls));
            }
            return (items, false);
        }
        j = j + 1;
        proof {
            assert forall|i: int| 0 <= i < ls.take(j as int).len() implies valid_utf8(
                #[trigger] ls.take(j as int)[i],
            ) by {
                if i < j - 1 {
                    assert(ls.take(j as int)[i] == ls.take(j - 1)[i]);
                }
            }
        }
    }
    assert(ls.take(j as int) =~= ls);
    (items, true)
}

/// A tail pipeline over one file.
pub struct Tail {
    offset: u64,
    framer: LineFramer,
    phase: Phase,
}

impl View for Tail {
    type V = TailView;

    closed spec fn view(&self) -> TailView {
        TailView { offset: self.offset as nat, pending: self.framer@, phase: self.phase }
    }
}

impl Tail {
    /// The buffered bytes never hold a complete line.
    pub open spec fn wf(&self) -> bool {
        no_newline(self@.pending)
    }

    closed spec fn inner_wf(&self) -> bool {
        self.framer.wf()
    }

    /// Starts a pipeline once the watch on the file has been installed (or
    /// has failed to be). Reading starts at the file's size at this point,
    /// or at 0 if it has none.
    pub fn new(watch: Result<(), String>, file_size: Option<u64>) -> (r: Result<Tail, TailError>)
        ensures
            match watch {
                Err(m) => r matches Err(e) && e@ == TailErrorView::WatchInit(m@),
                Ok(_) => r matches Ok(t) && t.wf() && t@ == (TailView {
                    offset: match file_size {
                        Some(n) => n as nat,
                        None => 0,
                    },
                    pending: Seq::empty(),
                    phase: Phase::Idle,
                }),
            },
    {
        match watch {
            Err(m) => Err(TailError::WatchInit(m)),
            Ok(_) => {
                let offset: u64 = match file_size {
                    Some(n) => n,
                    None => 0,
                };
                Ok(Tail { offset, framer: LineFramer::new(), phase: Phase::Idle })
            },
        }
    }

    /// The offset up to which the file has been read.
    pub fn offset(&self) -> (r: u64)
        ensures
            r as nat == self@.offset,
    {
        self.offset
    }

    pub fn phase(&self) -> (r: Phase)
        ensures
            r == self@.phase,
    {
        self.phase
    }

    /// Number of bytes of the line not yet completed.
    pub fn pending_len(&self) -> (r: usize)
        ensures
            r == self@.pending.len(),
    {
        self.framer.buffered_len()
    }

    /// Acts on a change event: asks for a delta read on a modification;
    /// ends the sequence on deletion, with the buffered bytes as a last line
    /// if there are any; ends it with an error when the watch fails. Once
    /// ended, it stays ended and emits nothing more.
    pub fn on_event(&mut self, ev: FileEvent) -> (a: Action)
        requires
            old(self).wf(),
            old(self)@.phase != Phase::Reading,
        ensures
            final(self).wf(),
            (final(self)@, a@) == event_step(old(self)@, ev),
    {
        if self.phase.is_terminal() {
            let items: Vec<Result<String, TailError>> = Vec::new();
            assert(items_view(items@) =~= Seq::empty());
            return Action::Finish(items);
        }
        match ev {
            FileEvent::Modify => {
                self.phase = Phase::Reading;
                Action::Read(self.offset)
            },
            FileEvent::Delete => {
                self.phase = Phase::Closed;
                let mut items: Vec<Result<String, TailError>> = Vec::new();
                match self.framer.flush_eof() {
                    Some(line) => {
                        items.push(decode_line(&line));
                    },
                    None => {},
                }
                proof {
                    if old(self)@.pending.len() == 0 {
                        assert(items_view(items@) =~= Seq::empty());
                    } else {
                        assert(items_view(items@) =~= seq![decode_item(old(self)@.pending)]);
                    }
                }
                Action::Finish(items)
            },
            FileEvent::Error => {
                self.phase = Phase::Failed;
                let items = vec![Err(TailError::Watch)];
                assert(items_view(items@) =~= seq![Err(TailErrorView::Watch)]);
                Action::Finish(items)
            },
        }
    }

    /// Acts on the outcome of the delta read that `on_event` asked for: new
    /// bytes advance the offset by their number and are framed into lines,
    /// which are emitted in order (a line that is not valid UTF-8 ends the
    /// sequence with a decode error); a file found missing is a race with
    /// its deletion and is let pass; any other failure ends the sequence.
    pub fn on_read(&mut self, outcome: ReadOutcome) -> (items: Vec<Result<String, TailError>>)
        requires
            old(self).wf(),
            old(self)@.phase == Phase::Reading,
            outcome matches ReadOutcome::Data(b) ==> old(self)@.offset + b@.len() <= u64::MAX,
        ensures
            final(self).wf(),
            (final(self)@, items_view(items@)) == read_step(old(self)@, outcome@),
    {
        match outcome {
            ReadOutcome::Data(bytes) => {
                let lines = self.framer.push(bytes.as_slice());
                self.offset = self.offset + bytes.len() as u64;
                let (items, ok) = decode_all(&lines);
                self.phase = if ok {
                    Phase::Idle
                } else {
                    Phase::Failed
                };
                items
            },
            ReadOutcome::Missing => {
                self.phase = Phase::Idle;
                let items: Vec<Result<String, TailError>> = Vec::new();
                assert(items_view(items@) =~= Seq::empty());
                items
            },
            ReadOutcome::Failed(m) => {
                self.phase = Phase::Failed;
                let ghost mv = m@;
                let items = vec![Err(TailError::ReadFatal(m))];
                assert(items_view(items@) =~= seq![Err(TailErrorView::ReadFatal(mv))]);
                items
            },
        }
    }
}

/// The items of lines that all decode: their text, in order.
pub open spec fn text_items(lines: Seq<Seq<u8>>) -> Seq<Result<Seq<char>, TailErrorView>> {
    lines.map_values(|l: Seq<u8>| Ok::<Seq<char>, TailErrorView>(decode_utf8(l)))
}

/// The state and the items emitted when each chunk in turn is appended to
/// the file and reported by one modification, whose delta read returns it.
pub open spec fn tail_run(s: TailView, chunks: Seq<Seq<u8>>) -> (
    TailView,
    Seq<Result<Seq<char>, TailErrorView>>,
)
    decreases chunks.len(),
{
    if chunks.len() == 0 {
        (s, Seq::empty())
    } else {
        let (s1, out) = tail_run(s, chunks.drop_last());
        let s2 = event_step(s1, FileEvent::Modify).0;
        let (s3, more) = read_step(s2, ReadOutcomeView::Data(chunks.last()));
        (s3, out + more)
    }
}

/// The state and the actions after each event in turn.
pub open spec fn event_run(s: TailView, events: Seq<FileEvent>) -> (TailView, Seq<ActionView>)
    decreases events.len(),
{
    if events.len() == 0 {
        (s, Seq::empty())
    } else {
        let (s1, acts) = event_run(s, events.drop_last());
        let (s2, a) = event_step(s1, events.last());
        (s2, acts.push(a))
    }
}

proof fn lemma_decode_all_valid(lines: Seq<Seq<u8>>)
    requires
        all_valid(lines),
    ensures
        decode_lines(lines) == text_items(lines),
    decreases lines.len(),
{
    if lines.len() == 0 {
        assert(text_items(lines) =~= Seq::empty());
    } else {
        let init = lines.drop_last();
        assert(all_valid(init)) by {
            assert forall|i: int| 0 <= i < init.len() implies valid_utf8(#[trigger] init[i]) by {
                assert(init[i] == lines[i]);
            }
        }
        lemma_decode_all_valid(init);
        assert(valid_utf8(lines[lines.len() - 1]));
        assert(text_items(lines) =~= text_items(init).push(Ok(decode_utf8(lines.last()))));
    }
}

proof fn lemma_tail_run_frames(s: TailView, chunks: Seq<Seq<u8>>)
    requires
        s.phase == Phase::Idle,
        s.pending == Seq::<u8>::empty(),
        all_valid(frame_chunks(chunks).0),
    ensures
        tail_run(s, chunks).0 == (TailView {
            offset: s.offset + chunks.flatten_alt().len(),
            pending: frame_chunks(chunks).1,
            phase: Phase::Idle,
        }),
        tail_run(s, chunks).1 == text_items(frame_chunks(chunks).0),
    decreases chunks.len(),
{
    if chunks.len() == 0 {
        assert(text_items(Seq::empty()) =~= Seq::empty());
        assert(chunks.flatten_alt().len() == 0);
    } else {
        let init = chunks.drop_last();
        let c = chunks.last();
        let (lines0, rest) = frame_chunks(init);
        let fed = rest + c;
        let new_lines = complete_lines(fed);
        assert(frame_chunks(chunks).0 == lines0 + new_lines);
        assert(all_valid(lines0)) by {
            assert forall|i: int| 0 <= i < lines0.len() implies valid_utf8(#[trigger] lines0[i]) by {
                assert((lines0 + new_lines)[i] == lines0[i]);
            }
        }
        assert(all_valid(new_lines)) by {
            assert forall|i: int| 0 <= i < new_lines.len() implies valid_utf8(
                #[trigger] new_lines[i],
            ) by {
                assert((lines0 + new_lines)[lines0.len() + i] == new_lines[i]);
            }
        }
        lemma_tail_run_frames(s, init);
        lemma_decode_all_valid(new_lines);
        assert(text_items(lines0 + new_lines) =~= text_items(lines0) + text_items(new_lines));
        assert(chunks.flatten_alt() == init.flatten_alt() + c);
    }
}

/// However the appended bytes are cut into modifications, a pipeline that
/// starts with nothing buffered emits exactly the complete lines of all the
/// appended bytes, in order, each once, and keeps the unfinished last line
/// buffered; its offset advances by the number of bytes appended. (A line
/// that is not valid UTF-8 ends the sequence instead: such input is left out.)
pub proof fn lemma_tail_chunk_invariance(s: TailView, chunks: Seq<Seq<u8>>)
    requires
        s.phase == Phase::Idle,
        s.pending == Seq::<u8>::empty(),
        all_valid(complete_lines(chunks.flatten())),
    ensures
        tail_run(s, chunks).1 == text_items(complete_lines(chunks.flatten())),
        tail_run(s, chunks).0 == (TailView {
            offset: s.offset + chunks.flatten().len(),
            pending: remainder(chunks.flatten()),
            phase: Phase::Idle,
        }),
{
    lemma_chunk_invariance(chunks);
    chunks.lemma_flatten_and_flatten_alt_are_equivalent();
    lemma_tail_run_frames(s, chunks);
}

/// Deleting the file ends the sequence: the buffered bytes of an unfinished
/// line come out as exactly one last item, and nothing comes out when none
/// are buffered.
pub proof fn lemma_delete_flushes(s: TailView)
    requires
        !s.phase.spec_is_terminal(),
    ensures
        event_step(s, FileEvent::Delete).0.phase == Phase::Closed,
        event_step(s, FileEvent::Delete).0.pending == Seq::<u8>::empty(),
        s.pending.len() == 0 ==> event_step(s, FileEvent::Delete).1 == ActionView::Finish(
            Seq::empty(),
        ),
        s.pending.len() > 0 ==> event_step(s, FileEvent::Delete).1 == ActionView::Finish(
            seq![decode_item(s.pending)],
        ),
{
}

/// An ended pipeline stays ended: whatever events follow, including those
/// of a file re-created at the same path, it reads nothing, emits nothing
/// and keeps its state.
pub proof fn lemma_ended_stays_ended(s: TailView, events: Seq<FileEvent>)
    requires
        s.phase.spec_is_terminal(),
    ensures
        event_run(s, events).0 == s,
        forall|i: int|
            0 <= i < events.len() ==> #[trigger] event_run(s, events).1[i] == ActionView::Finish(
                Seq::empty(),
            ),
        event_run(s, events).1.len() == events.len(),
    decreases events.len(),
{
    if events.len() > 0 {
        lemma_ended_stays_ended(s, events.drop_last());
        let acts = event_run(s, events.drop_last()).1;
        assert forall|i: int| 0 <= i < events.len() implies #[trigger] event_run(s, events).1[i]
            == ActionView::Finish(Seq::empty()) by {
            if i < events.len() - 1 {
                assert(event_run(s, events).1[i] == acts[i]);
            }
        }
    }
}

} // verus!
