//! What a listing is, stated over a file system that holds still.
//!
//! [`listing`] says which rows the visit of a directory shows, what it adds
//! up to and how many questions it asks of the file system, by recursion over
//! the directories below it.

use crate::entry::{listed, EntryView, Found, Metadata};
use crate::fault::Fault;
use crate::row::RowView;
use vstd::prelude::*;

verus! {

/// The answers of a file system that does not change while it is listed.
pub struct World {
    /// Whether a path leads to a directory.
    pub is_dir: spec_fn(Seq<char>) -> bool,
    /// What reading the directory at a path yields, or why it cannot be read.
    pub read_dir: spec_fn(Seq<char>) -> Result<Found, Seq<char>>,
    /// Size and kind of what a path leads to, or why they cannot be had.
    pub metadata: spec_fn(Seq<char>) -> Result<Metadata, Seq<char>>,
}

/// What a visit shows and what it comes to: the rows in the order in which
/// they are shown, the bytes counted or the failure that ended the visit, and
/// how many questions the visit asks of the file system.
pub struct Listing {
    pub rows: Seq<RowView>,
    pub result: Result<nat, Fault>,
    pub asked: nat,
}

impl Listing {
    /// Nothing shown and nothing asked, with the given result.
    pub open spec fn silent(result: Result<nat, Fault>) -> Listing {
        Listing { rows: Seq::empty(), result, asked: 0 }
    }

    /// The same listing after `rows`.
    pub open spec fn after(self, rows: Seq<RowView>) -> Listing {
        Listing { rows: rows + self.rows, ..self }
    }

    /// The same listing with `bytes` more counted, where it counted at all.
    pub open spec fn plus(self, bytes: nat) -> Listing {
        Listing {
            result: match self.result {
                Ok(total) => Ok(bytes + total),
                Err(fault) => Err(fault),
            },
            ..self
        }
    }

    /// The same listing after `questions` more were asked.
    pub open spec fn asking(self, questions: nat) -> Listing {
        Listing { asked: questions + self.asked, ..self }
    }
}

/// The bytes that a visit adds to the total of the directory above it: its
/// own total, or nothing where it failed.
pub open spec fn credit(result: Result<nat, Fault>) -> nat {
    match result {
        Ok(total) => total,
        Err(_) => 0,
    }
}

/// The row under a directory whose visit failed: the failure in words, one
/// level below the directory. A visit that ended well leaves no such row.
pub open spec fn marker(result: Result<nat, Fault>, indent: nat) -> Seq<RowView> {
    match result {
        Ok(_) => Seq::empty(),
        Err(fault) => seq![RowView::Failure { indent: indent + 1, message: fault.message() }],
    }
}

/// The visit of the directory at `path` with `depth` levels left to descend,
/// shown `indent` levels below the top.
///
/// The file system is asked whether the path leads to a directory. One that
/// does not fails. With no depth left (`depth` is -1) the visit shows nothing
/// and counts nothing. Else the directory is opened.
pub open spec fn listing(world: World, path: Seq<char>, depth: int, indent: nat, all: bool) -> Listing
    decreases depth + 1, 2nat, 0nat,
{
    if !(world.is_dir)(path) {
        Listing::silent(Err(Fault::NotADirectory { path })).asking(1)
    } else if depth < 0 {
        Listing::silent(Ok(0)).asking(1)
    } else {
        opened(world, path, depth, indent, all).asking(1)
    }
}

/// The visit of a directory once it is known to be one and there is depth
/// left: the file system is asked for its entries. A directory that cannot
/// be read fails. Else the listed entries are gone through in order.
pub open spec fn opened(world: World, path: Seq<char>, depth: int, indent: nat, all: bool) -> Listing
    decreases depth + 1, 1nat, 0nat,
{
    if depth < 0 {
        Listing::silent(Ok(0))
    } else {
        match (world.read_dir)(path) {
            Err(cause) => Listing::silent(Err(Fault::Unreadable { path, cause })).asking(1),
            Ok(found) => level(world, listed(found, all), 0, depth, indent, all).asking(1),
        }
    }
}

/// The entries of one directory from position `from` on.
///
/// The file system is asked for size and kind of each. An entry of which it
/// cannot tell them ends the visit with that failure; what was shown before
/// it stays shown. A file is shown with its size, which is
/// counted. A directory is shown and visited with one level less to descend
/// and one level further in: its rows follow, then a row for its failure if
/// it failed, and its total is counted if it did not.
pub open spec fn level(
    world: World,
    entries: Seq<EntryView>,
    from: nat,
    depth: int,
    indent: nat,
    all: bool,
) -> Listing
    decreases depth + 1, 0nat, entries.len() - from,
{
    if depth < 0 || from >= entries.len() {
        Listing::silent(Ok(0))
    } else {
        let entry = entries[from as int];
        match (world.metadata)(entry.path) {
            Err(cause) => Listing::silent(
                Err(Fault::MetadataUnavailable { path: entry.path, cause }),
            ).asking(1),
            Ok(meta) => {
                let rest = level(world, entries, from + 1, depth, indent, all);
                if meta.is_dir {
                    let inner = listing(world, entry.path, depth - 1, indent + 1, all);
                    let row = RowView::Directory {
                        index: from,
                        count: entries.len(),
                        indent,
                        name: entry.name,
                        expanded: depth != 0,
                    };
                    rest.plus(credit(inner.result)).after(
                        seq![row] + inner.rows + marker(inner.result, indent),
                    ).asking(1 + inner.asked)
                } else {
                    let row = RowView::File {
                        index: from,
                        count: entries.len(),
                        indent,
                        name: entry.name,
                        bytes: meta.len as nat,
                    };
                    rest.plus(meta.len as nat).after(seq![row]).asking(1)
                }
            },
        }
    }
}

/// The sizes of the files among the rows, added up.
pub open spec fn shown_bytes(rows: Seq<RowView>) -> nat
    decreases rows.len(),
{
    if rows.len() == 0 {
        0
    } else {
        shown_bytes(rows.drop_last()) + rows.last().bytes()
    }
}

/// The bytes that the visit of a directory shows and does not count: the
/// sizes of the files shown in visits below it that failed. A visit that
/// fails hands no total to the directory above it, so what it had counted
/// is lost to every total.
pub open spec fn forfeited(world: World, path: Seq<char>, depth: int, indent: nat, all: bool) -> nat
    decreases depth + 1, 1nat, 0nat,
{
    if !(world.is_dir)(path) || depth < 0 {
        0
    } else {
        match (world.read_dir)(path) {
            Err(_) => 0,
            Ok(found) => level_forfeited(world, listed(found, all), 0, depth, indent, all),
        }
    }
}

/// The bytes shown and not counted in the entries of one directory from
/// position `from` on.
pub open spec fn level_forfeited(
    world: World,
    entries: Seq<EntryView>,
    from: nat,
    depth: int,
    indent: nat,
    all: bool,
) -> nat
    decreases depth + 1, 0nat, entries.len() - from,
{
    if depth < 0 || from >= entries.len() {
        0
    } else {
        let entry = entries[from as int];
        match (world.metadata)(entry.path) {
            Err(_) => 0,
            Ok(meta) => {
                let rest = level_forfeited(world, entries, from + 1, depth, indent, all);
                if meta.is_dir {
                    let inner = listing(world, entry.path, depth - 1, indent + 1, all);
                    rest + match inner.result {
                        Ok(_) => forfeited(world, entry.path, depth - 1, indent + 1, all),
                        Err(_) => shown_bytes(inner.rows),
                    }
                } else {
                    rest
                }
            },
        }
    }
}

} // verus!
