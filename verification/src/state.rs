//! Where a walk stands, as a mathematical value, and what each answer of the
//! file system makes of it.
//!
//! The walker of [`crate::walk`] is this state held in memory. What it does
//! with an answer is what [`WalkerView::step`] and [`WalkerView::shows`] say.

use crate::entry::{listed, EntryView, Found, Metadata};
use crate::fault::Fault;
use crate::model::{credit, marker};
use crate::row::RowView;
use vstd::prelude::*;

verus! {

/// A request as a mathematical value.
pub enum RequestView {
    IsDir(Seq<char>),
    ReadDir(Seq<char>),
    Metadata(Seq<char>),
}

/// An answer as a mathematical value.
pub enum EventView {
    IsDir(bool),
    Entries(Result<Found, Seq<char>>),
    Metadata(Result<Metadata, Seq<char>>),
}

/// A directory about to be visited.
pub struct CallView {
    pub path: Seq<char>,
    /// The levels left to descend; -1 when none is left for this directory.
    pub depth: int,
    /// The levels between this directory's entries and the top.
    pub indent: nat,
}

/// A directory whose entries are being gone through.
pub struct FrameView {
    pub depth: int,
    pub indent: nat,
    /// The listed entries.
    pub entries: Seq<EntryView>,
    /// The position of the entry that is being looked at.
    pub cursor: nat,
    /// The bytes counted in the entries before the cursor.
    pub total: nat,
}

/// What the walker is waiting for.
pub enum PhaseView {
    /// To learn whether a path leads to a directory.
    Probing(CallView),
    /// To learn what a directory holds.
    Reading(CallView),
    /// To learn size and kind of the entry under the cursor of the innermost
    /// directory.
    Sizing,
    /// For nothing: the walk is over, with this result.
    Finished(Result<nat, Fault>),
}

/// A walker as a mathematical value: the directories entered and not yet
/// left, outermost first, and what the walker is waiting for.
pub struct WalkerView {
    /// Whether hidden entries are listed.
    pub all: bool,
    pub stack: Seq<FrameView>,
    pub phase: PhaseView,
}

/// The depth that a walk starts with: the one asked for, or the greatest
/// there is where a negative one asks for no limit.
pub open spec fn depth_allowed(depth: int) -> int {
    if depth < 0 {
        i8::MAX as int
    } else {
        depth
    }
}

/// The frame after the entry under its cursor is done with, `bytes` counted
/// for it.
pub open spec fn advanced(frame: FrameView, bytes: nat) -> FrameView {
    FrameView { cursor: frame.cursor + 1, total: frame.total + bytes, ..frame }
}

/// Where the walk stands once an entry of the innermost of `stack` is done
/// with and has come to `result`. The directory goes on with its next entry.
/// If it has none, it is done with itself, and its total goes to the
/// directory above it. When no directory is left the walk is over.
pub open spec fn settle(all: bool, stack: Seq<FrameView>, result: Result<nat, Fault>) -> WalkerView
    decreases stack.len(),
{
    if stack.len() == 0 {
        WalkerView { all, stack, phase: PhaseView::Finished(result) }
    } else {
        let frame = advanced(stack.last(), credit(result));
        if frame.cursor < frame.entries.len() {
            WalkerView { all, stack: stack.drop_last().push(frame), phase: PhaseView::Sizing }
        } else {
            settle(all, stack.drop_last(), Ok(frame.total))
        }
    }
}

/// The row that is shown when an entry of the innermost of `stack` has come
/// to `result`: its failure, if it failed; nothing else.
pub open spec fn settle_rows(stack: Seq<FrameView>, result: Result<nat, Fault>) -> Seq<RowView> {
    if stack.len() == 0 {
        Seq::empty()
    } else {
        marker(result, stack.last().indent)
    }
}

/// No total outgrows `limit` when `bytes` are counted for an entry of the
/// innermost of `stack`.
pub open spec fn settles_within(stack: Seq<FrameView>, bytes: nat, limit: nat) -> bool
    decreases stack.len(),
{
    stack.len() > 0 ==> {
        let frame = advanced(stack.last(), bytes);
        &&& frame.total <= limit
        &&& frame.cursor < frame.entries.len() || settles_within(
            stack.drop_last(),
            frame.total,
            limit,
        )
    }
}

impl CallView {
    /// The depth is -1 at least, and depth and indent together stay within
    /// the greatest depth there is.
    pub open spec fn wf(self) -> bool {
        -1 <= self.depth && self.indent + self.depth <= i8::MAX
    }
}

impl FrameView {
    /// There was depth left to enter the directory, and the cursor is on one
    /// of its entries.
    pub open spec fn wf(self) -> bool {
        &&& 0 <= self.depth
        &&& self.indent + self.depth <= i8::MAX
        &&& self.cursor < self.entries.len()
    }

    /// The entry under the cursor.
    pub open spec fn entry(self) -> EntryView {
        self.entries[self.cursor as int]
    }
}

impl WalkerView {
    /// The walker at the start of a walk from `root`.
    pub open spec fn start(root: Seq<char>, depth: int, all: bool) -> WalkerView {
        WalkerView {
            all,
            stack: Seq::empty(),
            phase: PhaseView::Probing(
                CallView { path: root, depth: depth_allowed(depth), indent: 0 },
            ),
        }
    }

    /// Every directory entered has an entry under its cursor; a walker that
    /// waits for an entry's size has entered a directory, and one that is
    /// done has left them all.
    pub open spec fn wf(self) -> bool {
        &&& forall|i: int| 0 <= i < self.stack.len() ==> (#[trigger] self.stack[i]).wf()
        &&& match self.phase {
            PhaseView::Probing(call) => call.wf(),
            PhaseView::Reading(call) => call.wf() && 0 <= call.depth,
            PhaseView::Sizing => self.stack.len() > 0,
            PhaseView::Finished(_) => self.stack.len() == 0,
        }
    }

    /// The result of the walk, once it is over.
    pub open spec fn outcome(self) -> Option<Result<nat, Fault>> {
        match self.phase {
            PhaseView::Finished(result) => Some(result),
            _ => None,
        }
    }

    /// What the walker needs to know next; nothing when the walk is over.
    pub open spec fn request(self) -> Option<RequestView> {
        match self.phase {
            PhaseView::Probing(call) => Some(RequestView::IsDir(call.path)),
            PhaseView::Reading(call) => Some(RequestView::ReadDir(call.path)),
            PhaseView::Sizing => Some(RequestView::Metadata(self.stack.last().entry().path)),
            PhaseView::Finished(_) => None,
        }
    }

    /// The event is an answer to what the walker asked.
    pub open spec fn answers(self, event: EventView) -> bool {
        match (self.phase, event) {
            (PhaseView::Probing(_), EventView::IsDir(_)) => true,
            (PhaseView::Reading(_), EventView::Entries(_)) => true,
            (PhaseView::Sizing, EventView::Metadata(_)) => true,
            _ => false,
        }
    }

    /// What the event brings to an end, if anything: the directories that
    /// wait for it, and what it comes to.
    ///
    /// A path that is no directory ends its visit with that failure, a
    /// directory without depth left or without listed entries ends it with
    /// nothing counted, and one that cannot be read with that failure. An
    /// entry whose size cannot be had ends the visit of its directory. A
    /// file is done with as soon as its size is known.
    pub open spec fn ends(self, event: EventView) -> Option<(Seq<FrameView>, Result<nat, Fault>)> {
        match (self.phase, event) {
            (PhaseView::Probing(call), EventView::IsDir(yes)) => {
                if !yes {
                    Some((self.stack, Err(Fault::NotADirectory { path: call.path })))
                } else if call.depth < 0 {
                    Some((self.stack, Ok(0)))
                } else {
                    None
                }
            },
            (PhaseView::Reading(call), EventView::Entries(Err(cause))) => Some(
                (self.stack, Err(Fault::Unreadable { path: call.path, cause })),
            ),
            (PhaseView::Reading(call), EventView::Entries(Ok(found))) => {
                if listed(found, self.all).len() == 0 {
                    Some((self.stack, Ok(0)))
                } else {
                    None
                }
            },
            (PhaseView::Sizing, EventView::Metadata(Err(cause))) => Some(
                (
                    self.stack.drop_last(),
                    Err(
                        Fault::MetadataUnavailable {
                            path: self.stack.last().entry().path,
                            cause,
                        },
                    ),
                ),
            ),
            (PhaseView::Sizing, EventView::Metadata(Ok(meta))) => {
                if meta.is_dir {
                    None
                } else {
                    Some((self.stack, Ok(meta.len as nat)))
                }
            },
            _ => None,
        }
    }

    /// The walker takes the event: it answers what was asked, and no total
    /// outgrows 64 bits by it.
    pub open spec fn accepts(self, event: EventView) -> bool {
        &&& self.answers(event)
        &&& match self.ends(event) {
            Some((waiting, result)) => settles_within(waiting, credit(result), u64::MAX as nat),
            None => true,
        }
    }

    /// The walker after the event.
    ///
    /// Where the event ends something, the directories that wait for it go
    /// on. Else the walk goes one step further in: a path found to be a
    /// directory is read, a directory that was read is entered with the
    /// cursor on its first listed entry, and an entry found to be a
    /// directory is probed, with one level less to descend and one level
    /// further in. An event that answers nothing asked changes nothing.
    pub open spec fn step(self, event: EventView) -> WalkerView {
        match self.ends(event) {
            Some((waiting, result)) => settle(self.all, waiting, result),
            None => match (self.phase, event) {
                (PhaseView::Probing(call), EventView::IsDir(_)) => WalkerView {
                    phase: PhaseView::Reading(call),
                    ..self
                },
                (PhaseView::Reading(call), EventView::Entries(Ok(found))) => WalkerView {
                    stack: self.stack.push(
                        FrameView {
                            depth: call.depth,
                            indent: call.indent,
                            entries: listed(found, self.all),
                            cursor: 0,
                            total: 0,
                        },
                    ),
                    phase: PhaseView::Sizing,
                    ..self
                },
                (PhaseView::Sizing, EventView::Metadata(Ok(_))) => {
                    let frame = self.stack.last();
                    WalkerView {
                        phase: PhaseView::Probing(
                            CallView {
                                path: frame.entry().path,
                                depth: frame.depth - 1,
                                indent: frame.indent + 1,
                            },
                        ),
                        ..self
                    }
                },
                _ => self,
            },
        }
    }

    /// The row of the entry whose size and kind the event tells.
    pub open spec fn entry_row(self, meta: Metadata) -> RowView {
        let frame = self.stack.last();
        if meta.is_dir {
            RowView::Directory {
                index: frame.cursor,
                count: frame.entries.len(),
                indent: frame.indent,
                name: frame.entry().name,
                expanded: frame.depth != 0,
            }
        } else {
            RowView::File {
                index: frame.cursor,
                count: frame.entries.len(),
                indent: frame.indent,
                name: frame.entry().name,
                bytes: meta.len as nat,
            }
        }
    }

    /// The rows that the event brings: the row of an entry whose size and
    /// kind are now known, and the failure of a visit that it ended. At most
    /// one of the two is there.
    pub open spec fn shows(self, event: EventView) -> Seq<RowView> {
        let entry = match (self.phase, event) {
            (PhaseView::Sizing, EventView::Metadata(Ok(meta))) => seq![self.entry_row(meta)],
            _ => Seq::empty(),
        };
        let failure = match self.ends(event) {
            Some((waiting, result)) => settle_rows(waiting, result),
            None => Seq::empty(),
        };
        entry + failure
    }
}

/// Directories in order are in order after one of them is done with an
/// entry.
pub proof fn lemma_settle_keeps_wf(all: bool, stack: Seq<FrameView>, result: Result<nat, Fault>)
    requires
        forall|i: int| 0 <= i < stack.len() ==> (#[trigger] stack[i]).wf(),
    ensures
        settle(all, stack, result).wf(),
        settle(all, stack, result).all == all,
    decreases stack.len(),
{
    if stack.len() > 0 {
        let frame = advanced(stack.last(), credit(result));
        if frame.cursor >= frame.entries.len() {
            lemma_settle_keeps_wf(all, stack.drop_last(), Ok(frame.total));
        }
    }
}

/// A walker in order is in order after every event.
pub proof fn lemma_step_keeps_wf(walker: WalkerView, event: EventView)
    requires
        walker.wf(),
    ensures
        walker.step(event).wf(),
        walker.step(event).all == walker.all,
{
    match walker.ends(event) {
        Some((waiting, result)) => {
            lemma_settle_keeps_wf(walker.all, waiting, result);
        },
        None => {},
    }
}

} // verus!
