//! The laws of the listing: how deep it goes, which entries it shows and in
//! what order, what its total counts, and which failures end it.
//!
//! Each is proved of [`crate::model::listing`] by going down the
//! directories as the listing does. Held against a walk by
//! [`crate::trace`], they are laws of the rows that a walk hands back.

use crate::entry::{is_hidden, lemma_listed_is_chosen, listed, EntryView, Found, Metadata};
use crate::fault::Fault;
use crate::model::{
    forfeited, level, level_forfeited, listing, marker, shown_bytes, World,
};
use crate::row::RowView;
use vstd::prelude::*;

verus! {

/// A row lies within the levels `low` to `high`: an entry on one of them, the
/// failure of a directory one level below the directory.
pub open spec fn row_within(row: RowView, low: nat, high: int) -> bool {
    if row.is_entry() {
        low <= row.indent() <= high
    } else {
        low < row.indent() <= high + 1
    }
}

/// Every row lies within the levels `low` to `high`.
pub open spec fn rows_within(rows: Seq<RowView>, low: nat, high: int) -> bool {
    forall|k: int| 0 <= k < rows.len() ==> row_within(#[trigger] rows[k], low, high)
}

/// No row stands for a hidden entry.
pub open spec fn none_hidden(rows: Seq<RowView>) -> bool {
    forall|k: int| 0 <= k < rows.len() && (#[trigger] rows[k]).is_entry() ==> !is_hidden(rows[k].name())
}

/// No entry is hidden.
pub open spec fn no_hidden_entry(entries: Seq<EntryView>) -> bool {
    forall|j: int| 0 <= j < entries.len() ==> !is_hidden((#[trigger] entries[j]).name)
}

/// The row is that of the entry called `name` at position `index` among
/// `count`, `indent` levels down.
pub open spec fn is_row_of(row: RowView, index: nat, count: nat, indent: nat, name: Seq<char>) -> bool {
    match row {
        RowView::Directory { index: i, count: c, indent: d, name: n, .. } => i == index && c
            == count && d == indent && n == name,
        RowView::File { index: i, count: c, indent: d, name: n, .. } => i == index && c == count
            && d == indent && n == name,
        RowView::Failure { .. } => false,
    }
}

/// The bytes of two runs of rows add up.
pub proof fn lemma_shown_bytes_add(first: Seq<RowView>, second: Seq<RowView>)
    ensures
        shown_bytes(first + second) == shown_bytes(first) + shown_bytes(second),
    decreases second.len(),
{
    if second.len() > 0 {
        lemma_shown_bytes_add(first, second.drop_last());
        assert((first + second).drop_last() =~= first + second.drop_last());
    }
}

/// A single row shows its own bytes.
proof fn lemma_shown_bytes_one(row: RowView)
    ensures
        shown_bytes(seq![row]) == row.bytes(),
{
    reveal_with_fuel(shown_bytes, 2);
}

/// The visit of a directory with `depth` levels left shows entries on the
/// level of the directory's own entries and on `depth` levels below it, and on
/// no other; a failure stands one level below the directory that failed.
pub proof fn lemma_listing_within_depth(
    world: World,
    path: Seq<char>,
    depth: int,
    indent: nat,
    all: bool,
)
    ensures
        rows_within(listing(world, path, depth, indent, all).rows, indent, indent + depth),
        depth < 0 ==> listing(world, path, depth, indent, all).rows.len() == 0,
    decreases depth + 1, 1nat, 0nat,
{
    if (world.is_dir)(path) && depth >= 0 {
        match (world.read_dir)(path) {
            Err(_) => {},
            Ok(found) => {
                lemma_level_within_depth(world, listed(found, all), 0, depth, indent, all);
            },
        }
    }
}

/// The entries of one directory from `from` on are shown on their own level
/// and on `depth` levels below it.
pub proof fn lemma_level_within_depth(
    world: World,
    entries: Seq<EntryView>,
    from: nat,
    depth: int,
    indent: nat,
    all: bool,
)
    ensures
        rows_within(level(world, entries, from, depth, indent, all).rows, indent, indent + depth),
    decreases depth + 1, 0nat, entries.len() - from,
{
    if depth >= 0 && from < entries.len() {
        let entry = entries[from as int];
        match (world.metadata)(entry.path) {
            Err(_) => {},
            Ok(meta) => {
                lemma_level_within_depth(world, entries, from + 1, depth, indent, all);
                if meta.is_dir {
                    lemma_listing_within_depth(world, entry.path, depth - 1, indent + 1, all);
                }
            },
        }
    }
}

/// Unless hidden entries were asked for, the visit of a directory shows no
/// entry whose name begins with a dot, on any level.
pub proof fn lemma_listing_hides(world: World, path: Seq<char>, depth: int, indent: nat, all: bool)
    requires
        !all,
    ensures
        none_hidden(listing(world, path, depth, indent, all).rows),
    decreases depth + 1, 1nat, 0nat,
{
    if (world.is_dir)(path) && depth >= 0 {
        match (world.read_dir)(path) {
            Err(_) => {},
            Ok(found) => {
                lemma_listed_is_chosen(found, all);
                lemma_level_hides(world, listed(found, all), 0, depth, indent, all);
            },
        }
    }
}

/// Where no entry of a directory is hidden, none is shown from `from` on, on
/// any level.
pub proof fn lemma_level_hides(
    world: World,
    entries: Seq<EntryView>,
    from: nat,
    depth: int,
    indent: nat,
    all: bool,
)
    requires
        !all,
        no_hidden_entry(entries),
    ensures
        none_hidden(level(world, entries, from, depth, indent, all).rows),
    decreases depth + 1, 0nat, entries.len() - from,
{
    if depth >= 0 && from < entries.len() {
        let entry = entries[from as int];
        match (world.metadata)(entry.path) {
            Err(_) => {},
            Ok(meta) => {
                lemma_level_hides(world, entries, from + 1, depth, indent, all);
                if meta.is_dir {
                    lemma_listing_hides(world, entry.path, depth - 1, indent + 1, all);
                }
            },
        }
    }
}

/// Where the visit of a directory ends well, its total and the bytes that it
/// forfeited make up the sizes of the files that it showed. So a visit that
/// forfeited nothing counts exactly the files that it showed: neither a file
/// beyond the depth nor a hidden one that is left out.
pub proof fn lemma_total_counts_shown_files(
    world: World,
    path: Seq<char>,
    depth: int,
    indent: nat,
    all: bool,
)
    ensures
        ({
            let visit = listing(world, path, depth, indent, all);
            visit.result is Ok ==> visit.result->Ok_0 + forfeited(world, path, depth, indent, all)
                == shown_bytes(visit.rows)
        }),
    decreases depth + 1, 1nat, 0nat,
{
    if (world.is_dir)(path) && depth >= 0 {
        match (world.read_dir)(path) {
            Err(_) => {},
            Ok(found) => {
                lemma_level_counts_shown_files(world, listed(found, all), 0, depth, indent, all);
            },
        }
    }
}

/// The total of the entries of one directory from `from` on and the bytes
/// forfeited in them make up the sizes of the files shown.
pub proof fn lemma_level_counts_shown_files(
    world: World,
    entries: Seq<EntryView>,
    from: nat,
    depth: int,
    indent: nat,
    all: bool,
)
    ensures
        ({
            let visit = level(world, entries, from, depth, indent, all);
            visit.result is Ok ==> visit.result->Ok_0 + level_forfeited(
                world,
                entries,
                from,
                depth,
                indent,
                all,
            ) == shown_bytes(visit.rows)
        }),
    decreases depth + 1, 0nat, entries.len() - from,
{
    if depth >= 0 && from < entries.len() {
        let entry = entries[from as int];
        match (world.metadata)(entry.path) {
            Err(_) => {},
            Ok(meta) => {
                let rest = level(world, entries, from + 1, depth, indent, all);
                lemma_level_counts_shown_files(world, entries, from + 1, depth, indent, all);
                let visit = level(world, entries, from, depth, indent, all);
                if meta.is_dir {
                    let inner = listing(world, entry.path, depth - 1, indent + 1, all);
                    lemma_total_counts_shown_files(world, entry.path, depth - 1, indent + 1, all);
                    let failure = marker(inner.result, indent);
                    let row = visit.rows[0];
                    lemma_shown_bytes_add((seq![row] + inner.rows) + failure, rest.rows);
                    lemma_shown_bytes_add(seq![row] + inner.rows, failure);
                    lemma_shown_bytes_add(seq![row], inner.rows);
                    lemma_shown_bytes_one(row);
                    if inner.result is Err {
                        lemma_shown_bytes_one(failure[0]);
                    }
                } else {
                    let row = visit.rows[0];
                    lemma_shown_bytes_add(seq![row], rest.rows);
                    lemma_shown_bytes_one(row);
                }
            },
        }
    }
}

/// Every directory among the rows is expanded: the listing went on inside it.
pub open spec fn all_expanded(rows: Seq<RowView>) -> bool {
    forall|k: int|
        0 <= k < rows.len() ==> ((#[trigger] rows[k]) matches RowView::Directory {
            expanded,
            ..
        } ==> expanded)
}

/// Every entry from position `from` on can be sized.
pub open spec fn all_sized(world: World, entries: Seq<EntryView>, from: nat) -> bool {
    forall|i: int| from <= i < entries.len() ==> (world.metadata)((#[trigger] entries[i]).path) is Ok
}

/// Whatever happens in the directories below it, the visit of a directory ends
/// well exactly when the path leads to a directory and, if there is depth
/// left, the directory can be read and every listed entry of it can be sized.
/// When it fails, the failure is its own: the path that is no directory or
/// cannot be read is the visit's path, and the entry that cannot be sized is
/// an entry of this directory.
pub proof fn lemma_failure_is_contained(
    world: World,
    path: Seq<char>,
    depth: int,
    indent: nat,
    all: bool,
)
    ensures
        ({
            let visit = listing(world, path, depth, indent, all);
            let read = (world.read_dir)(path);
            let entries = listed(read->Ok_0, all);
            &&& visit.result is Ok <==> (world.is_dir)(path) && (depth < 0 || (read is Ok
                && all_sized(world, entries, 0)))
            &&& match visit.result {
                Ok(_) => true,
                Err(Fault::NotADirectory { path: at }) => at == path,
                Err(Fault::Unreadable { path: at, cause }) => at == path && read == Err::<
                    Found,
                    Seq<char>,
                >(cause),
                Err(Fault::MetadataUnavailable { path: at, cause }) => read is Ok && exists|i: int|
                    0 <= i < entries.len() && (#[trigger] entries[i]).path == at && (
                    world.metadata)(at) == Err::<Metadata, Seq<char>>(cause),
            }
        }),
{
    if (world.is_dir)(path) && depth >= 0 {
        match (world.read_dir)(path) {
            Err(_) => {},
            Ok(found) => {
                lemma_level_fails_at_first(world, listed(found, all), 0, depth, indent, all);
            },
        }
    }
}

/// The entries of a directory from `from` on end well exactly when each of
/// them can be sized; else the failure is that of the first that cannot.
pub proof fn lemma_level_fails_at_first(
    world: World,
    entries: Seq<EntryView>,
    from: nat,
    depth: int,
    indent: nat,
    all: bool,
)
    requires
        0 <= depth,
    ensures
        ({
            let visit = level(world, entries, from, depth, indent, all);
            &&& visit.result is Ok <==> all_sized(world, entries, from)
            &&& visit.result matches Err(fault) ==> exists|i: int|
                from <= i < entries.len() && fault == (Fault::MetadataUnavailable {
                    path: (#[trigger] entries[i]).path,
                    cause: (world.metadata)(entries[i].path)->Err_0,
                }) && (world.metadata)(entries[i].path) is Err && all_sized(
                    world,
                    entries.take(i),
                    from,
                )
        }),
    decreases entries.len() - from,
{
    if from < entries.len() {
        let entry = entries[from as int];
        if (world.metadata)(entry.path) is Ok {
            lemma_level_fails_at_first(world, entries, from + 1, depth, indent, all);
            let rest = level(world, entries, from + 1, depth, indent, all);
            if rest.result is Err {
                let i = choose|i: int|
                    from + 1 <= i < entries.len() && rest.result->Err_0 == (
                    Fault::MetadataUnavailable {
                        path: (#[trigger] entries[i]).path,
                        cause: (world.metadata)(entries[i].path)->Err_0,
                    }) && (world.metadata)(entries[i].path) is Err && all_sized(
                        world,
                        entries.take(i),
                        from + 1,
                    );
                assert(all_sized(world, entries.take(i), from));
            }
        }
    }
}

/// Where every directory of a run of rows is expanded, so is every one of each
/// part of the run.
proof fn lemma_all_expanded_parts(first: Seq<RowView>, second: Seq<RowView>)
    requires
        all_expanded(first + second),
    ensures
        all_expanded(first),
        all_expanded(second),
{
    let whole = first + second;
    assert forall|k: int| 0 <= k < first.len() implies ((#[trigger] first[k]) matches RowView::Directory {
        expanded,
        ..
    } ==> expanded) by {
        assert(whole[k] == first[k]);
    }
    assert forall|k: int| 0 <= k < second.len() implies ((
    #[trigger] second[k]) matches RowView::Directory { expanded, .. } ==> expanded) by {
        assert(whole[first.len() + k] == second[k]);
    }
}

/// Where the visit of a directory shows no directory that it does not expand,
/// it has reached every directory below, and more depth changes nothing: the
/// visit shows the same rows, comes to the same result and asks the same
/// questions with every greater depth.
pub proof fn lemma_depth_beyond_the_tree(
    world: World,
    path: Seq<char>,
    depth: int,
    more: int,
    indent: nat,
    all: bool,
)
    requires
        0 <= depth <= more,
        all_expanded(listing(world, path, depth, indent, all).rows),
    ensures
        listing(world, path, more, indent, all) == listing(world, path, depth, indent, all),
    decreases depth + 1, 1nat, 0nat,
{
    if (world.is_dir)(path) {
        match (world.read_dir)(path) {
            Err(_) => {},
            Ok(found) => {
                lemma_level_beyond_the_tree(world, listed(found, all), 0, depth, more, indent, all);
            },
        }
    }
}

/// More depth changes nothing in the entries of one directory from `from` on,
/// where every directory shown among them is expanded.
pub proof fn lemma_level_beyond_the_tree(
    world: World,
    entries: Seq<EntryView>,
    from: nat,
    depth: int,
    more: int,
    indent: nat,
    all: bool,
)
    requires
        0 <= depth <= more,
        all_expanded(level(world, entries, from, depth, indent, all).rows),
    ensures
        level(world, entries, from, more, indent, all) == level(
            world,
            entries,
            from,
            depth,
            indent,
            all,
        ),
    decreases depth + 1, 0nat, entries.len() - from,
{
    if from < entries.len() {
        let entry = entries[from as int];
        match (world.metadata)(entry.path) {
            Err(_) => {},
            Ok(meta) => {
                let visit = level(world, entries, from, depth, indent, all);
                let rest = level(world, entries, from + 1, depth, indent, all);
                if meta.is_dir {
                    let inner = listing(world, entry.path, depth - 1, indent + 1, all);
                    let failure = marker(inner.result, indent);
                    let row = visit.rows[0];
                    lemma_all_expanded_parts((seq![row] + inner.rows) + failure, rest.rows);
                    lemma_all_expanded_parts(seq![row] + inner.rows, failure);
                    lemma_all_expanded_parts(seq![row], inner.rows);
                    lemma_depth_beyond_the_tree(
                        world,
                        entry.path,
                        depth - 1,
                        more - 1,
                        indent + 1,
                        all,
                    );
                } else {
                    let row = visit.rows[0];
                    lemma_all_expanded_parts(seq![row], rest.rows);
                }
                lemma_level_beyond_the_tree(world, entries, from + 1, depth, more, indent, all);
            },
        }
    }
}

/// The visit of a directory with depth left shows each listed entry of the
/// directory, unless an entry before it could not be sized: the row gives the
/// entry's name, its position among the listed entries and their number, on
/// the level of the visit.
pub proof fn lemma_listing_shows_each_entry(
    world: World,
    path: Seq<char>,
    depth: int,
    indent: nat,
    all: bool,
    at: nat,
)
    requires
        (world.is_dir)(path),
        0 <= depth,
        (world.read_dir)(path) is Ok,
        at < listed((world.read_dir)(path)->Ok_0, all).len(),
        all_sized(world, listed((world.read_dir)(path)->Ok_0, all).take(at + 1 as int), 0),
    ensures
        ({
            let rows = listing(world, path, depth, indent, all).rows;
            let entries = listed((world.read_dir)(path)->Ok_0, all);
            exists|k: int|
                0 <= k < rows.len() && is_row_of(
                    #[trigger] rows[k],
                    at,
                    entries.len(),
                    indent,
                    entries[at as int].name,
                )
        }),
{
    let entries = listed((world.read_dir)(path)->Ok_0, all);
    lemma_level_shows_each_entry(world, entries, 0, depth, indent, all, at);
    let below = level(world, entries, 0, depth, indent, all).rows;
    let rows = listing(world, path, depth, indent, all).rows;
    let there = choose|k: int|
        0 <= k < below.len() && is_row_of(
            #[trigger] below[k],
            at,
            entries.len(),
            indent,
            entries[at as int].name,
        );
    assert(rows[there] == below[there]);
}

/// Every entry of a directory from `from` on has its row, unless an entry from
/// `from` on and before it could not be sized.
pub proof fn lemma_level_shows_each_entry(
    world: World,
    entries: Seq<EntryView>,
    from: nat,
    depth: int,
    indent: nat,
    all: bool,
    at: nat,
)
    requires
        0 <= depth,
        from <= at < entries.len(),
        all_sized(world, entries.take(at + 1 as int), from),
    ensures
        ({
            let rows = level(world, entries, from, depth, indent, all).rows;
            exists|k: int|
                0 <= k < rows.len() && is_row_of(
                    #[trigger] rows[k],
                    at,
                    entries.len(),
                    indent,
                    entries[at as int].name,
                )
        }),
    decreases at - from,
{
    let rows = level(world, entries, from, depth, indent, all).rows;
    let entry = entries[from as int];
    assert(entries.take(at + 1 as int)[from as int] == entry);
    if at == from {
        assert(is_row_of(rows[0], at, entries.len(), indent, entries[at as int].name));
    } else {
        assert(all_sized(world, entries.take(at + 1 as int), from + 1));
        lemma_level_shows_each_entry(world, entries, from + 1, depth, indent, all, at);
        let rest = level(world, entries, from + 1, depth, indent, all).rows;
        let there = choose|k: int|
            0 <= k < rest.len() && is_row_of(
                #[trigger] rest[k],
                at,
                entries.len(),
                indent,
                entries[at as int].name,
            );
        let before = rows.len() - rest.len();
        assert(rows[before + there] == rest[there]);
    }
}

/// The visit of a directory shows the listed entries of the directory in the
/// order in which they were read: of two entries, the row of the one read
/// first comes first.
pub proof fn lemma_listing_keeps_order(
    world: World,
    path: Seq<char>,
    depth: int,
    indent: nat,
    all: bool,
    first: nat,
    second: nat,
)
    requires
        (world.is_dir)(path),
        0 <= depth,
        (world.read_dir)(path) is Ok,
        first < second < listed((world.read_dir)(path)->Ok_0, all).len(),
        all_sized(world, listed((world.read_dir)(path)->Ok_0, all).take(second + 1 as int), 0),
    ensures
        ({
            let rows = listing(world, path, depth, indent, all).rows;
            let entries = listed((world.read_dir)(path)->Ok_0, all);
            exists|k: int, l: int|
                0 <= k < l < rows.len() && is_row_of(
                    #[trigger] rows[k],
                    first,
                    entries.len(),
                    indent,
                    entries[first as int].name,
                ) && is_row_of(
                    #[trigger] rows[l],
                    second,
                    entries.len(),
                    indent,
                    entries[second as int].name,
                )
        }),
{
    let entries = listed((world.read_dir)(path)->Ok_0, all);
    lemma_level_keeps_order(world, entries, 0, depth, indent, all, first, second);
    let below = level(world, entries, 0, depth, indent, all).rows;
    let rows = listing(world, path, depth, indent, all).rows;
    let (k, l) = choose|k: int, l: int|
        0 <= k < l < below.len() && is_row_of(
            #[trigger] below[k],
            first,
            entries.len(),
            indent,
            entries[first as int].name,
        ) && is_row_of(
            #[trigger] below[l],
            second,
            entries.len(),
            indent,
            entries[second as int].name,
        );
    assert(rows[k] == below[k] && rows[l] == below[l]);
}

/// The entries of one directory from `from` on are shown in their order.
pub proof fn lemma_level_keeps_order(
    world: World,
    entries: Seq<EntryView>,
    from: nat,
    depth: int,
    indent: nat,
    all: bool,
    first: nat,
    second: nat,
)
    requires
        0 <= depth,
        from <= first < second < entries.len(),
        all_sized(world, entries.take(second + 1 as int), from),
    ensures
        ({
            let rows = level(world, entries, from, depth, indent, all).rows;
            exists|k: int, l: int|
                0 <= k < l < rows.len() && is_row_of(
                    #[trigger] rows[k],
                    first,
                    entries.len(),
                    indent,
                    entries[first as int].name,
                ) && is_row_of(
                    #[trigger] rows[l],
                    second,
                    entries.len(),
                    indent,
                    entries[second as int].name,
                )
        }),
    decreases first - from,
{
    let rows = level(world, entries, from, depth, indent, all).rows;
    let rest = level(world, entries, from + 1, depth, indent, all).rows;
    let before = rows.len() - rest.len();
    let entry = entries[from as int];
    assert(entries.take(second + 1 as int)[from as int] == entry);
    assert(all_sized(world, entries.take(second + 1 as int), from + 1));
    if first == from {
        lemma_level_shows_each_entry(world, entries, from + 1, depth, indent, all, second);
        let there = choose|l: int|
            0 <= l < rest.len() && is_row_of(
                #[trigger] rest[l],
                second,
                entries.len(),
                indent,
                entries[second as int].name,
            );
        assert(before >= 1);
        assert(rows[before + there] == rest[there]);
        assert(is_row_of(rows[0], first, entries.len(), indent, entries[first as int].name));
    } else {
        lemma_level_keeps_order(world, entries, from + 1, depth, indent, all, first, second);
        let (k, l) = choose|k: int, l: int|
            0 <= k < l < rest.len() && is_row_of(
                #[trigger] rest[k],
                first,
                entries.len(),
                indent,
                entries[first as int].name,
            ) && is_row_of(
                #[trigger] rest[l],
                second,
                entries.len(),
                indent,
                entries[second as int].name,
            );
        assert(rows[before + k] == rest[k]);
        assert(rows[before + l] == rest[l]);
    }
}

} // verus!
