//! The walk through the directories, one question to the file system at a
//! time.
//!
//! A [`Walker`] holds where the listing stands. It says what it needs to
//! know next ([`Walker::request`]); the caller asks the file system and hands
//! the answer back ([`Walker::step`]), and gets the row to print, if the
//! answer brought one. Directories are visited depth first, each entry in
//! the order in which its directory was read.

use crate::entry::{any_listed, entries_view, found_view, select, Entry, Metadata};
use crate::fault::{Fault, WalkError};
use crate::model::credit;
use crate::row::{Position, Row, RowView};
use crate::state::{
    advanced, lemma_step_keeps_wf, settle, settle_rows, settles_within, CallView, EventView,
    FrameView, PhaseView, RequestView, WalkerView,
};
use vstd::prelude::*;

verus! {


/// What the walker needs to know next.
#[derive(Debug)]
pub enum Request {
    /// Does this path lead to a directory?
    IsDir(String),
    /// Which entries does the directory at this path hold?
    ReadDir(String),
    /// What are size and kind of what this path leads to?
    Metadata(String),
}

impl View for Request {
    type V = RequestView;

    open spec fn view(&self) -> RequestView {
        match *self {
            Request::IsDir(path) => RequestView::IsDir(path@),
            Request::ReadDir(path) => RequestView::ReadDir(path@),
            Request::Metadata(path) => RequestView::Metadata(path@),
        }
    }
}

/// What the file system answered. A failure carries the file system's words.
#[derive(Debug)]
pub enum Event {
    /// Whether the path leads to a directory.
    IsDir(bool),
    /// What reading the directory yielded, entry by entry, or why it could
    /// not be read at all.
    Entries(Result<Vec<Result<Entry, String>>, String>),
    /// Size and kind, or why they could not be had.
    Metadata(Result<Metadata, String>),
}

impl View for Event {
    type V = EventView;

    open spec fn view(&self) -> EventView {
        match *self {
            Event::IsDir(yes) => EventView::IsDir(yes),
            Event::Entries(Ok(found)) => EventView::Entries(Ok(found_view(found@))),
            Event::Entries(Err(cause)) => EventView::Entries(Err(cause@)),
            Event::Metadata(Ok(meta)) => EventView::Metadata(Ok(meta)),
            Event::Metadata(Err(cause)) => EventView::Metadata(Err(cause@)),
        }
    }
}

/// A directory about to be visited.
struct Call {
    path: String,
    depth: i8,
    indent: usize,
}

/// A directory whose entries are being gone through.
struct Frame {
    depth: i8,
    indent: usize,
    entries: Vec<Entry>,
    cursor: usize,
    total: u64,
}

/// What the walker is waiting for.
enum Phase {
    Probing(Call),
    Reading(Call),
    Sizing,
    Finished(Result<u64, WalkError>),
}

/// The walk through a directory and the directories below it.
pub struct Walker {
    all: bool,
    stack: Vec<Frame>,
    phase: Phase,
}

impl Call {
    spec fn view(&self) -> CallView {
        CallView { path: self.path@, depth: self.depth as int, indent: self.indent as nat }
    }
}

impl Frame {
    spec fn view(&self) -> FrameView {
        FrameView {
            depth: self.depth as int,
            indent: self.indent as nat,
            entries: entries_view(self.entries@),
            cursor: self.cursor as nat,
            total: self.total as nat,
        }
    }
}

spec fn frames_view(frames: Seq<Frame>) -> Seq<FrameView> {
    frames.map_values(|frame: Frame| frame.view())
}

/// The view of a walk's result.
pub open spec fn result_view(result: Result<u64, WalkError>) -> Result<nat, Fault> {
    match result {
        Ok(total) => Ok(total as nat),
        Err(error) => Err(error@),
    }
}

/// The view of the row that a step handed back, as a run of rows.
pub open spec fn rows_view(row: Option<Row>) -> Seq<RowView> {
    match row {
        Some(row) => seq![row@],
        None => Seq::empty(),
    }
}

impl Phase {
    spec fn view(&self) -> PhaseView {
        match *self {
            Phase::Probing(call) => PhaseView::Probing(call.view()),
            Phase::Reading(call) => PhaseView::Reading(call.view()),
            Phase::Sizing => PhaseView::Sizing,
            Phase::Finished(result) => PhaseView::Finished(result_view(result)),
        }
    }
}

impl View for Walker {
    type V = WalkerView;

    closed spec fn view(&self) -> WalkerView {
        WalkerView {
            all: self.all,
            stack: frames_view(self.stack@),
            phase: self.phase.view(),
        }
    }
}

impl Walker {
    /// A walker at the start of the walk from `root`, `depth` directories
    /// deep; a negative `depth` asks for no limit. Hidden entries are listed
    /// if `all` is set.
    pub fn new(root: String, depth: i8, all: bool) -> (walker: Walker)
        ensures
            walker@ == WalkerView::start(root@, depth as int, all),
            walker@.wf(),
    {
        let depth = if depth < 0 {
            i8::MAX
        } else {
            depth
        };
        let walker = Walker {
            all,
            stack: Vec::new(),
            phase: Phase::Probing(Call { path: root, depth, indent: 0 }),
        };
        assert(walker@.stack =~= Seq::empty());
        walker
    }

    /// What the walker needs to know next, or nothing when the walk is over.
    pub fn request(&self) -> (request: Option<Request>)
        requires
            self@.wf(),
        ensures
            match request {
                Some(request) => self@.request() == Some(request@),
                None => self@.request() is None,
            },
    {
        match &self.phase {
            Phase::Probing(call) => Some(Request::IsDir(call.path.clone())),
            Phase::Reading(call) => Some(Request::ReadDir(call.path.clone())),
            Phase::Sizing => {
                let frame = &self.stack[self.stack.len() - 1];
                Some(Request::Metadata(frame.entries[frame.cursor].path.clone()))
            },
            Phase::Finished(_) => None,
        }
    }

    /// The result of the walk once it is over: the bytes counted, or why the
    /// directory at the root could not be listed.
    pub fn outcome(&self) -> (outcome: Option<&Result<u64, WalkError>>)
        ensures
            match outcome {
                Some(result) => self@.outcome() == Some(result_view(*result)),
                None => self@.outcome() is None,
            },
    {
        match &self.phase {
            Phase::Finished(result) => Some(result),
            _ => None,
        }
    }

    /// Tells whether no total outgrows 64 bits when `bytes` are counted for
    /// an entry of the innermost of the first `height` directories.
    fn settles(&self, height: usize, bytes: u64) -> (yes: bool)
        requires
            height <= self.stack.len(),
            self@.wf(),
        ensures
            yes == settles_within(self@.stack.take(height as int), bytes as nat, u64::MAX as nat),
    {
        let ghost stack = self@.stack;
        let mut at = height;
        let mut carried = bytes;
        while at > 0
            invariant
                at <= height <= self.stack.len(),
                stack == frames_view(self.stack@),
                forall|i: int| 0 <= i < stack.len() ==> (#[trigger] stack[i]).wf(),
                settles_within(stack.take(height as int), bytes as nat, u64::MAX as nat)
                    == settles_within(stack.take(at as int), carried as nat, u64::MAX as nat),
            decreases at,
        {
            proof {
                assert(stack.take(at as int).drop_last() =~= stack.take(at - 1));
            }
            at = at - 1;
            let frame = &self.stack[at];
            assert(frame.view().entries.len() == frame.entries.len());
            match frame.total.checked_add(carried) {
                None => {
                    return false;
                },
                Some(total) => {
                    if frame.cursor + 1 < frame.entries.len() {
                        return true;
                    }
                    carried = total;
                },
            }
        }
        true
    }

    /// Tells whether the walker takes the event: whether it answers what was
    /// asked and leaves every total within 64 bits.
    pub fn accepts(&self, event: &Event) -> (yes: bool)
        requires
            self@.wf(),
        ensures
            yes == self@.accepts(event@),
    {
        let height = self.stack.len();
        proof {
            assert(self@.stack.take(height as int) =~= self@.stack);
        }
        match (&self.phase, event) {
            (Phase::Probing(call), Event::IsDir(yes)) => {
                if !*yes || call.depth < 0 {
                    self.settles(height, 0)
                } else {
                    true
                }
            },
            (Phase::Reading(_), Event::Entries(Err(_))) => self.settles(height, 0),
            (Phase::Reading(_), Event::Entries(Ok(found))) => {
                if any_listed(found, self.all) {
                    true
                } else {
                    self.settles(height, 0)
                }
            },
            (Phase::Sizing, Event::Metadata(Err(_))) => self.settles(height - 1, 0),
            (Phase::Sizing, Event::Metadata(Ok(meta))) => {
                if meta.is_dir {
                    true
                } else {
                    self.settles(height, meta.len)
                }
            },
            _ => false,
        }
    }

    /// Hands `result` to the directories that wait for it.
    #[verifier::loop_isolation(false)]
    fn settle(&mut self, result: Result<u64, WalkError>) -> (row: Option<Row>)
        requires
            forall|i: int|
                0 <= i < old(self)@.stack.len() ==> (#[trigger] old(self)@.stack[i]).wf(),
            settles_within(old(self)@.stack, credit(result_view(result)), u64::MAX as nat),
        ensures
            final(self)@ == settle(old(self)@.all, old(self)@.stack, result_view(result)),
            rows_view(row) == settle_rows(old(self)@.stack, result_view(result)),
    {
        let ghost all = self.all;
        let ghost goal = settle(all, self@.stack, result_view(result));
        let mut row: Option<Row> = None;
        if self.stack.len() > 0 {
            match &result {
                Ok(_) => {},
                Err(error) => {
                    let frame = &self.stack[self.stack.len() - 1];
                    row = Some(
                        Row::Failure { indent: frame.indent + 1, message: error.message() },
                    );
                },
            }
        }
        let mut current = result;
        loop
            invariant
                self.all == all,
                goal == settle(all, frames_view(self.stack@), result_view(current)),
                forall|i: int|
                    0 <= i < self.stack.len() ==> (#[trigger] frames_view(self.stack@)[i]).wf(),
                settles_within(
                    frames_view(self.stack@),
                    credit(result_view(current)),
                    u64::MAX as nat,
                ),
            decreases self.stack.len(),
        {
            let ghost before = frames_view(self.stack@);
            match self.stack.pop() {
                None => {
                    self.phase = Phase::Finished(current);
                    return row;
                },
                Some(mut frame) => {
                    assert(frame.view().entries.len() == frame.entries.len());
                    assert(frames_view(self.stack@) =~= before.drop_last());
                    let bytes = match &current {
                        Ok(total) => *total,
                        Err(_) => 0,
                    };
                    frame.total = frame.total + bytes;
                    frame.cursor = frame.cursor + 1;
                    if frame.cursor < frame.entries.len() {
                        self.stack.push(frame);
                        self.phase = Phase::Sizing;
                        assert(self@.stack =~= before.drop_last().push(
                            advanced(before.last(), bytes as nat),
                        ));
                        return row;
                    }
                    current = Ok(frame.total);
                },
            }
        }
    }

    /// Takes the file system's answer to what the walker asked and goes on
    /// to the next question. Hands back the row to print, if the answer
    /// brought one.
    pub fn step(&mut self, event: Event) -> (row: Option<Row>)
        requires
            old(self)@.wf(),
            old(self)@.accepts(event@),
        ensures
            final(self)@ == old(self)@.step(event@),
            rows_view(row) == old(self)@.shows(event@),
            final(self)@.wf(),
    {
        proof {
            lemma_step_keeps_wf(self@, event@);
        }
        let mut phase = Phase::Sizing;
        core::mem::swap(&mut self.phase, &mut phase);
        match phase {
            Phase::Probing(call) => match event {
                Event::IsDir(yes) => {
                    if !yes {
                        self.settle(Err(WalkError::NotADirectory { path: call.path }))
                    } else if call.depth < 0 {
                        self.settle(Ok(0))
                    } else {
                        self.phase = Phase::Reading(call);
                        None
                    }
                },
                _ => {
                    self.phase = Phase::Probing(call);
                    None
                },
            },
            Phase::Reading(call) => match event {
                Event::Entries(Err(cause)) => self.settle(
                    Err(WalkError::Unreadable { path: call.path, cause }),
                ),
                Event::Entries(Ok(found)) => {
                    let entries = select(found, self.all);
                    if entries.len() == 0 {
                        self.settle(Ok(0))
                    } else {
                        let ghost before = self@.stack;
                        self.stack.push(
                            Frame {
                                depth: call.depth,
                                indent: call.indent,
                                entries,
                                cursor: 0,
                                total: 0,
                            },
                        );
                        self.phase = Phase::Sizing;
                        assert(self@.stack =~= before.push(
                            FrameView {
                                depth: call.depth as int,
                                indent: call.indent as nat,
                                entries: entries_view(entries@),
                                cursor: 0,
                                total: 0,
                            },
                        ));
                        None
                    }
                },
                _ => {
                    self.phase = Phase::Reading(call);
                    None
                },
            },
            Phase::Sizing => match event {
                Event::Metadata(Err(cause)) => {
                    let ghost before = self@.stack;
                    let frame = self.stack.pop().unwrap();
                    assert(self@.stack =~= before.drop_last());
                    let path = frame.entries[frame.cursor].path.clone();
                    self.settle(Err(WalkError::MetadataUnavailable { path, cause }))
                },
                Event::Metadata(Ok(meta)) => {
                    let frame = &self.stack[self.stack.len() - 1];
                    let entry = &frame.entries[frame.cursor];
                    let at = Position {
                        index: frame.cursor,
                        count: frame.entries.len(),
                        indent: frame.indent,
                    };
                    if meta.is_dir {
                        let row = Row::Directory {
                            at,
                            name: entry.name.clone(),
                            expanded: frame.depth != 0,
                        };
                        self.phase = Phase::Probing(
                            Call {
                                path: entry.path.clone(),
                                depth: frame.depth - 1,
                                indent: frame.indent + 1,
                            },
                        );
                        Some(row)
                    } else {
                        let row = Row::File { at, name: entry.name.clone(), bytes: meta.len };
                        self.settle(Ok(meta.len));
                        Some(row)
                    }
                },
                _ => {
                    None
                },
            },
            Phase::Finished(result) => {
                self.phase = Phase::Finished(result);
                None
            },
        }
    }
}

} // verus!
