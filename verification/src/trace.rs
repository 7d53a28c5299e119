//! A walk shows what the listing says.
//!
//! The walker of [`crate::walk`] goes through the directories one answer at
//! a time; [`crate::model::listing`] says in one piece what a visit shows.
//! Here the two are held together: against a file system that holds still,
//! the rows that the walker hands back, one after the other, are the rows of
//! the listing, its result is the listing's result, and it is over after as
//! many answers as the listing says.

use crate::fault::Fault;
use crate::laws::{
    all_expanded, lemma_depth_beyond_the_tree, lemma_listing_hides, lemma_listing_within_depth,
    lemma_total_counts_shown_files, none_hidden, rows_within,
};
use crate::model::{
    credit, forfeited, level, listing, marker, opened, shown_bytes, Listing, World,
};
use crate::row::RowView;
use crate::state::{
    advanced, depth_allowed, lemma_step_keeps_wf, settle, settle_rows, CallView, EventView,
    FrameView, PhaseView, RequestView, WalkerView,
};
use vstd::prelude::*;

verus! {

impl World {
    /// What the file system answers.
    pub open spec fn answer(self, request: RequestView) -> EventView {
        match request {
            RequestView::IsDir(path) => EventView::IsDir((self.is_dir)(path)),
            RequestView::ReadDir(path) => EventView::Entries((self.read_dir)(path)),
            RequestView::Metadata(path) => EventView::Metadata((self.metadata)(path)),
        }
    }
}

/// What is still to come once a visit has come to `call`, seen from the
/// directories that wait for it: what the visit showed, the failure under it
/// if it failed, and then the rest of each waiting directory, innermost first.
pub open spec fn resume(world: World, stack: Seq<FrameView>, call: Listing, all: bool) -> Listing
    decreases stack.len(),
{
    if stack.len() == 0 {
        call
    } else {
        let frame = stack.last();
        let rest = level(world, frame.entries, frame.cursor + 1, frame.depth, frame.indent, all);
        resume(
            world,
            stack.drop_last(),
            rest.plus(frame.total + credit(call.result)).after(
                call.rows + marker(call.result, frame.indent),
            ).asking(call.asked),
            all,
        )
    }
}

/// What a walker has still to show, what it will come to, and how many
/// questions it has still to ask, if the file system answers as `world` does.
pub open spec fn outlook(world: World, walker: WalkerView) -> Listing {
    match walker.phase {
        PhaseView::Probing(call) => resume(
            world,
            walker.stack,
            listing(world, call.path, call.depth, call.indent, walker.all),
            walker.all,
        ),
        PhaseView::Reading(call) => resume(
            world,
            walker.stack,
            opened(world, call.path, call.depth, call.indent, walker.all),
            walker.all,
        ),
        PhaseView::Sizing => {
            let frame = walker.stack.last();
            resume(
                world,
                walker.stack.drop_last(),
                level(world, frame.entries, frame.cursor, frame.depth, frame.indent, walker.all).plus(
                    frame.total,
                ),
                walker.all,
            )
        },
        PhaseView::Finished(result) => Listing::silent(result),
    }
}

/// The walker after the file system has answered `steps` of its questions.
pub open spec fn walked(world: World, walker: WalkerView, steps: nat) -> WalkerView
    decreases steps,
{
    match walker.request() {
        Some(request) if steps > 0 => walked(
            world,
            walker.step(world.answer(request)),
            (steps - 1) as nat,
        ),
        _ => walker,
    }
}

/// The rows that the walker hands back while the file system answers `steps`
/// of its questions.
pub open spec fn shown_while(world: World, walker: WalkerView, steps: nat) -> Seq<RowView>
    decreases steps,
{
    match walker.request() {
        Some(request) if steps > 0 => walker.shows(world.answer(request)) + shown_while(
            world,
            walker.step(world.answer(request)),
            (steps - 1) as nat,
        ),
        _ => Seq::empty(),
    }
}

/// Listings that show the same rows, come to the same result and ask as many
/// questions are the same.
proof fn lemma_same(a: Listing, b: Listing)
    requires
        a.rows =~= b.rows,
        a.result == b.result,
        a.asked == b.asked,
    ensures
        a == b,
{
}

/// Rows shown and questions asked before a visit ends stand in front of
/// whatever the waiting directories add.
proof fn lemma_resume_after(
    world: World,
    stack: Seq<FrameView>,
    call: Listing,
    all: bool,
    rows: Seq<RowView>,
    questions: nat,
)
    ensures
        resume(world, stack, call.after(rows).asking(questions), all) == resume(
            world,
            stack,
            call,
            all,
        ).after(rows).asking(questions),
    decreases stack.len(),
{
    if stack.len() == 0 {
    } else {
        let frame = stack.last();
        let rest = level(world, frame.entries, frame.cursor + 1, frame.depth, frame.indent, all);
        let earlier = call.after(rows).asking(questions);
        let joined = rest.plus(frame.total + credit(call.result)).after(
            call.rows + marker(call.result, frame.indent),
        ).asking(call.asked);
        let joined_earlier = rest.plus(frame.total + credit(earlier.result)).after(
            earlier.rows + marker(earlier.result, frame.indent),
        ).asking(earlier.asked);
        lemma_same(joined_earlier, joined.after(rows).asking(questions));
        lemma_resume_after(world, stack.drop_last(), joined, all, rows, questions);
    }
}

/// Handing a result to the waiting directories changes nothing in what is to
/// come.
proof fn lemma_settle_outlook(
    world: World,
    all: bool,
    stack: Seq<FrameView>,
    result: Result<nat, Fault>,
)
    requires
        forall|i: int| 0 <= i < stack.len() ==> (#[trigger] stack[i]).wf(),
    ensures
        outlook(world, settle(all, stack, result)).after(settle_rows(stack, result)) == resume(
            world,
            stack,
            Listing::silent(result),
            all,
        ),
    decreases stack.len(),
{
    let silent = Listing::silent(result);
    if stack.len() == 0 {
        lemma_same(outlook(world, settle(all, stack, result)).after(settle_rows(stack, result)), silent);
    } else {
        let frame = stack.last();
        let below = stack.drop_last();
        let next = advanced(frame, credit(result));
        let failure = marker(result, frame.indent);
        let rest = level(world, frame.entries, frame.cursor + 1, frame.depth, frame.indent, all);
        let joined = rest.plus(frame.total + credit(result)).after(silent.rows + failure).asking(
            silent.asked,
        );
        assert(resume(world, stack, silent, all) == resume(world, below, joined, all));
        if next.cursor < next.entries.len() {
            let settled = settle(all, stack, result);
            assert(settled.stack.last() == next);
            assert(settled.stack.drop_last() =~= below);
            let ahead = rest.plus(next.total);
            assert(outlook(world, settled) == resume(world, below, ahead, all));
            lemma_same(joined, ahead.after(failure).asking(0));
            lemma_resume_after(world, below, ahead, all, failure, 0);
            lemma_same(
                resume(world, below, ahead, all).after(failure).asking(0),
                resume(world, below, ahead, all).after(failure),
            );
        } else {
            let up = Listing::silent(Ok(next.total));
            assert(rest == Listing::silent(Ok(0)));
            lemma_settle_outlook(world, all, below, Ok(next.total));
            assert(settle_rows(below, Ok(next.total)) =~= Seq::<RowView>::empty());
            lemma_same(
                outlook(world, settle(all, below, Ok(next.total))).after(
                    settle_rows(below, Ok(next.total)),
                ),
                outlook(world, settle(all, below, Ok(next.total))),
            );
            lemma_same(joined, up.after(failure).asking(0));
            lemma_resume_after(world, below, up, all, failure, 0);
            lemma_same(
                resume(world, below, up, all).after(failure).asking(0),
                resume(world, below, up, all).after(failure),
            );
        }
    }
}

/// What is to come before and after an answer: the rows that the answer
/// brings, then what is to come after it, with one question more asked.
pub open spec fn follows(world: World, walker: WalkerView, event: EventView) -> bool {
    outlook(world, walker) == outlook(world, walker.step(event)).after(
        walker.shows(event),
    ).asking(1)
}

/// What is to come once `result` ends a visit that showed nothing more and
/// asked one question, as the waiting directories of `walker` see it.
proof fn lemma_ended(
    world: World,
    walker: WalkerView,
    event: EventView,
    waiting: Seq<FrameView>,
    result: Result<nat, Fault>,
    rows: Seq<RowView>,
)
    requires
        walker.wf(),
        walker.ends(event) == Some((waiting, result)),
        walker.shows(event) =~= rows + settle_rows(waiting, result),
    ensures
        outlook(world, walker.step(event)).after(walker.shows(event)).asking(1) == resume(
            world,
            waiting,
            Listing::silent(result).after(rows).asking(1),
            walker.all,
        ),
{
    let all = walker.all;
    assert forall|i: int| 0 <= i < waiting.len() implies (#[trigger] waiting[i]).wf() by {
        assert(waiting[i] == walker.stack[i]);
    }
    lemma_settle_outlook(world, all, waiting, result);
    let silent = Listing::silent(result);
    let failure = settle_rows(waiting, result);
    let next = outlook(world, walker.step(event));
    lemma_resume_after(world, waiting, silent, all, rows, 1);
    lemma_same(
        next.after(walker.shows(event)).asking(1),
        next.after(failure).after(rows).asking(1),
    );
}

/// The answer to whether a path leads to a directory.
proof fn lemma_probing_step(world: World, walker: WalkerView, call: CallView)
    requires
        walker.wf(),
        walker.phase == PhaseView::Probing(call),
    ensures
        follows(world, walker, world.answer(RequestView::IsDir(call.path))),
{
    let event = world.answer(RequestView::IsDir(call.path));
    let all = walker.all;
    let visit = listing(world, call.path, call.depth, call.indent, all);
    match walker.ends(event) {
        Some((waiting, result)) => {
            assert(walker.shows(event) =~= Seq::empty() + settle_rows(waiting, result));
            lemma_ended(world, walker, event, waiting, result, Seq::empty());
            lemma_same(Listing::silent(result).after(Seq::empty()).asking(1), visit);
        },
        None => {
            let inside = opened(world, call.path, call.depth, call.indent, all);
            assert(walker.shows(event) =~= Seq::empty());
            lemma_same(visit, inside.after(Seq::empty()).asking(1));
            lemma_resume_after(world, walker.stack, inside, all, Seq::empty(), 1);
        },
    }
}

/// The answer to what a directory holds.
proof fn lemma_reading_step(world: World, walker: WalkerView, call: CallView)
    requires
        walker.wf(),
        walker.phase == PhaseView::Reading(call),
    ensures
        follows(world, walker, world.answer(RequestView::ReadDir(call.path))),
{
    let event = world.answer(RequestView::ReadDir(call.path));
    let all = walker.all;
    let visit = opened(world, call.path, call.depth, call.indent, all);
    match walker.ends(event) {
        Some((waiting, result)) => {
            assert(walker.shows(event) =~= Seq::empty() + settle_rows(waiting, result));
            lemma_ended(world, walker, event, waiting, result, Seq::empty());
            lemma_same(Listing::silent(result).after(Seq::empty()).asking(1), visit);
        },
        None => {
            let next = walker.step(event);
            let frame = next.stack.last();
            assert(next.stack.drop_last() =~= walker.stack);
            let inside = level(world, frame.entries, 0, frame.depth, frame.indent, all);
            assert(walker.shows(event) =~= Seq::empty());
            lemma_same(inside.plus(0), inside);
            lemma_same(visit, inside.after(Seq::empty()).asking(1));
            lemma_resume_after(world, walker.stack, inside, all, Seq::empty(), 1);
        },
    }
}

/// The answer to size and kind of an entry.
proof fn lemma_sizing_step(world: World, walker: WalkerView)
    requires
        walker.wf(),
        walker.phase == PhaseView::Sizing,
    ensures
        follows(
            world,
            walker,
            world.answer(RequestView::Metadata(walker.stack.last().entry().path)),
        ),
{
    let frame = walker.stack.last();
    assert(frame.wf());
    let below = walker.stack.drop_last();
    let event = world.answer(RequestView::Metadata(frame.entry().path));
    let all = walker.all;
    let here = level(world, frame.entries, frame.cursor, frame.depth, frame.indent, all).plus(
        frame.total,
    );
    let rest = level(world, frame.entries, frame.cursor + 1, frame.depth, frame.indent, all);
    match event {
        EventView::Metadata(Err(cause)) => {
            let (waiting, result) = walker.ends(event)->Some_0;
            assert(walker.shows(event) =~= Seq::empty() + settle_rows(waiting, result));
            lemma_ended(world, walker, event, waiting, result, Seq::empty());
            lemma_same(Listing::silent(result).after(Seq::empty()).asking(1), here);
        },
        EventView::Metadata(Ok(meta)) => {
            let row = seq![walker.entry_row(meta)];
            if meta.is_dir {
                let inner = listing(
                    world,
                    frame.entry().path,
                    frame.depth - 1,
                    frame.indent + 1,
                    all,
                );
                let joined = rest.plus(frame.total + credit(inner.result)).after(
                    inner.rows + marker(inner.result, frame.indent),
                ).asking(inner.asked);
                assert(walker.shows(event) =~= row);
                assert(walker.stack =~= below.push(frame));
                assert(outlook(world, walker.step(event)) == resume(world, below, joined, all));
                lemma_same(here, joined.after(row).asking(1));
                lemma_resume_after(world, below, joined, all, row, 1);
            } else {
                let (waiting, result) = walker.ends(event)->Some_0;
                assert(settle_rows(waiting, result) =~= Seq::<RowView>::empty());
                assert(walker.shows(event) =~= row + settle_rows(waiting, result));
                lemma_ended(world, walker, event, waiting, result, row);
                let counted = Listing::silent(result).after(row).asking(1);
                let joined = rest.plus(frame.total + meta.len as nat).after(
                    counted.rows + Seq::empty(),
                ).asking(counted.asked);
                assert(walker.stack =~= below.push(frame));
                assert(resume(world, walker.stack, counted, all) == resume(
                    world,
                    below,
                    joined,
                    all,
                ));
                lemma_same(joined, here);
            }
        },
        _ => {},
    }
}

/// One answer of the file system takes the walker one question further and
/// leaves what is to come as it was: the rows that the answer brings are the
/// next rows of what was to come, the rest is still to come, and the result to
/// come is the same.
pub proof fn lemma_step_outlook(world: World, walker: WalkerView)
    requires
        walker.wf(),
        walker.request() is Some,
    ensures
        follows(world, walker, world.answer(walker.request()->Some_0)),
{
    match walker.phase {
        PhaseView::Probing(call) => lemma_probing_step(world, walker, call),
        PhaseView::Reading(call) => lemma_reading_step(world, walker, call),
        PhaseView::Sizing => lemma_sizing_step(world, walker),
        PhaseView::Finished(_) => {},
    }
}

/// A walker that has a question to ask has at least one question to ask.
pub proof fn lemma_asks_while_unfinished(world: World, walker: WalkerView)
    requires
        walker.wf(),
    ensures
        walker.request() is Some <==> outlook(world, walker).asked > 0,
        walker.request() is None <==> walker.outcome() is Some,
{
    if walker.request() is Some {
        lemma_step_outlook(world, walker);
    }
}

/// While the file system answers `steps` of the walker's questions, the walker
/// shows the first rows of what was to come, and what is to come after them is
/// the rest.
pub proof fn lemma_walk_outlook(world: World, walker: WalkerView, steps: nat)
    requires
        walker.wf(),
        steps <= outlook(world, walker).asked,
    ensures
        walked(world, walker, steps).wf(),
        outlook(world, walker) == outlook(world, walked(world, walker, steps)).after(
            shown_while(world, walker, steps),
        ).asking(steps),
    decreases steps,
{
    if steps == 0 {
        lemma_same(outlook(world, walker), outlook(world, walker).after(Seq::empty()).asking(0));
    } else {
        lemma_asks_while_unfinished(world, walker);
        let event = world.answer(walker.request()->Some_0);
        let next = walker.step(event);
        lemma_step_outlook(world, walker);
        lemma_step_keeps_wf(walker, event);
        lemma_walk_outlook(world, next, (steps - 1) as nat);
        let end = outlook(world, walked(world, next, (steps - 1) as nat));
        let tail = shown_while(world, next, (steps - 1) as nat);
        assert(walked(world, walker, steps) == walked(world, next, (steps - 1) as nat));
        assert(shown_while(world, walker, steps) == walker.shows(event) + tail);
        assert(outlook(world, next) == end.after(tail).asking((steps - 1) as nat));
        assert(outlook(world, walker) == outlook(world, next).after(walker.shows(event)).asking(1));
        lemma_same(
            end.after(tail).asking((steps - 1) as nat).after(walker.shows(event)).asking(1),
            end.after(walker.shows(event) + tail).asking(steps),
        );
    }
}

/// The walk from `root` shows the listing of `root`.
///
/// Against a file system that holds still, the walker that starts at `root` is
/// over after as many answers as the listing of `root` asks questions, and not
/// before. The rows that it has handed back by then are the rows of the
/// listing, in their order, and its result is the listing's result.
pub proof fn theorem_walk_shows_listing(world: World, root: Seq<char>, depth: int, all: bool)
    requires
        depth <= i8::MAX,
    ensures
        ({
            let start = WalkerView::start(root, depth, all);
            let whole = listing(world, root, depth_allowed(depth), 0, all);
            &&& walked(world, start, whole.asked).outcome() == Some(whole.result)
            &&& shown_while(world, start, whole.asked) == whole.rows
            &&& forall|steps: nat|
                steps < whole.asked ==> (#[trigger] walked(world, start, steps)).outcome() is None
        }),
{
    let start = WalkerView::start(root, depth, all);
    let whole = listing(world, root, depth_allowed(depth), 0, all);
    assert(outlook(world, start) == whole);
    lemma_walk_outlook(world, start, whole.asked);
    let end = walked(world, start, whole.asked);
    lemma_asks_while_unfinished(world, end);
    assert(shown_while(world, start, whole.asked) =~= whole.rows);
    assert forall|steps: nat| steps < whole.asked implies (#[trigger] walked(
        world,
        start,
        steps,
    )).outcome() is None by {
        lemma_walk_outlook(world, start, steps);
        lemma_asks_while_unfinished(world, walked(world, start, steps));
    }
}

/// The walk from `root` hands back no entry that lies more directories below
/// the root than the depth that the walk started with, and no failure more
/// than one level further down.
pub proof fn theorem_walk_within_depth(world: World, root: Seq<char>, depth: int, all: bool)
    requires
        depth <= i8::MAX,
    ensures
        ({
            let start = WalkerView::start(root, depth, all);
            let whole = listing(world, root, depth_allowed(depth), 0, all);
            rows_within(shown_while(world, start, whole.asked), 0, depth_allowed(depth))
        }),
{
    theorem_walk_shows_listing(world, root, depth, all);
    lemma_listing_within_depth(world, root, depth_allowed(depth), 0, all);
}

/// Unless hidden entries were asked for, the walk from `root` hands back no
/// entry whose name begins with a dot.
pub proof fn theorem_walk_hides(world: World, root: Seq<char>, depth: int)
    requires
        depth <= i8::MAX,
    ensures
        ({
            let start = WalkerView::start(root, depth, false);
            let whole = listing(world, root, depth_allowed(depth), 0, false);
            none_hidden(shown_while(world, start, whole.asked))
        }),
{
    theorem_walk_shows_listing(world, root, depth, false);
    lemma_listing_hides(world, root, depth_allowed(depth), 0, false);
}

/// Where the walk from `root` ends well, its total and the bytes forfeited in
/// visits that failed make up the sizes of the files in the rows that it
/// handed back.
pub proof fn theorem_walk_total(world: World, root: Seq<char>, depth: int, all: bool)
    requires
        depth <= i8::MAX,
    ensures
        ({
            let start = WalkerView::start(root, depth, all);
            let whole = listing(world, root, depth_allowed(depth), 0, all);
            walked(world, start, whole.asked).outcome() matches Some(Ok(total)) ==> total
                + forfeited(world, root, depth_allowed(depth), 0, all) == shown_bytes(
                shown_while(world, start, whole.asked),
            )
        }),
{
    theorem_walk_shows_listing(world, root, depth, all);
    lemma_total_counts_shown_files(world, root, depth_allowed(depth), 0, all);
}

/// Where the walk from `root` expands every directory that it shows, it has
/// reached everything below `root`: it hands back the rows of the listing of
/// `root` at every greater depth, and comes to its result. A walk without
/// limit stops short of this only below the greatest depth there is.
pub proof fn theorem_walk_reaches_all(
    world: World,
    root: Seq<char>,
    depth: int,
    all: bool,
    more: int,
)
    requires
        depth <= i8::MAX,
        depth_allowed(depth) <= more,
        all_expanded(listing(world, root, depth_allowed(depth), 0, all).rows),
    ensures
        ({
            let start = WalkerView::start(root, depth, all);
            let whole = listing(world, root, more, 0, all);
            &&& walked(world, start, whole.asked).outcome() == Some(whole.result)
            &&& shown_while(world, start, whole.asked) == whole.rows
        }),
{
    theorem_walk_shows_listing(world, root, depth, all);
    lemma_depth_beyond_the_tree(world, root, depth_allowed(depth), more, 0, all);
}

} // verus!
