//! The entries of a directory, and which of them are listed.

use vstd::prelude::*;

verus! {

/// An entry of a directory as the file system names it.
#[derive(Debug)]
pub struct Entry {
    /// The name within its directory.
    pub name: String,
    /// The path by which the file system finds it again.
    pub path: String,
}

/// An entry as a mathematical value.
pub struct EntryView {
    pub name: Seq<char>,
    pub path: Seq<char>,
}

impl View for Entry {
    type V = EntryView;

    open spec fn view(&self) -> EntryView {
        EntryView { name: self.name@, path: self.path@ }
    }
}

/// What the file system knows of a path that it could look up.
#[derive(Clone, Copy, Debug, PartialEq, Eq)]
pub struct Metadata {
    /// The size in bytes.
    pub len: u64,
    /// Whether the path leads to a directory.
    pub is_dir: bool,
}

/// The views of a run of entries.
pub open spec fn entries_view(entries: Seq<Entry>) -> Seq<EntryView> {
    entries.map_values(|entry: Entry| entry@)
}

/// What reading a directory yields, entry by entry: an entry, or why that
/// one could not be read.
pub type Found = Seq<Result<EntryView, Seq<char>>>;

/// The views of what reading a directory yielded.
pub open spec fn found_view(found: Seq<Result<Entry, String>>) -> Found {
    found.map_values(
        |one: Result<Entry, String>|
            match one {
                Ok(entry) => Ok(entry@),
                Err(cause) => Err(cause@),
            },
    )
}

/// A name is hidden when it begins with a dot.
pub open spec fn is_hidden(name: Seq<char>) -> bool {
    name.len() > 0 && name[0] == '.'
}

/// Whether what was read at one place of a directory is listed: it is an
/// entry, and it is not hidden unless hidden entries were asked for.
pub open spec fn is_listed(one: Result<EntryView, Seq<char>>, all: bool) -> bool {
    match one {
        Ok(entry) => all || !is_hidden(entry.name),
        Err(_) => false,
    }
}

/// The entries that are listed, in the order in which they were read.
pub open spec fn listed(found: Found, all: bool) -> Seq<EntryView>
    decreases found.len(),
{
    if found.len() == 0 {
        Seq::empty()
    } else if is_listed(found.last(), all) {
        listed(found.drop_last(), all).push(found.last()->Ok_0)
    } else {
        listed(found.drop_last(), all)
    }
}

/// Tells whether a name is hidden.
pub fn hidden(name: &str) -> (yes: bool)
    ensures
        yes == is_hidden(name@),
{
    !name.is_empty() && name.get_char(0) == '.'
}

/// Keeps of what was read from a directory the entries that are listed:
/// what could not be read is left out without a word, and so is a hidden
/// entry unless `all` is set. The order stays.
pub fn select(found: Vec<Result<Entry, String>>, all: bool) -> (entries: Vec<Entry>)
    ensures
        entries_view(entries@) == listed(found_view(found@), all),
{
    let ghost whole = found_view(found@);
    let mut entries: Vec<Entry> = Vec::new();
    let mut at: usize = 0;
    while at < found.len()
        invariant
            at <= found.len(),
            whole == found_view(found@),
            entries_view(entries@) == listed(whole.take(at as int), all),
        decreases found.len() - at,
    {
        proof {
            assert(whole.take(at + 1).drop_last() =~= whole.take(at as int));
        }
        match &found[at] {
            Ok(entry) => {
                if all || !hidden(entry.name.as_str()) {
                    entries.push(Entry { name: entry.name.clone(), path: entry.path.clone() });
                }
            },
            Err(_) => {},
        }
        at = at + 1;
    }
    assert(whole.take(at as int) =~= whole);
    entries
}

/// Tells whether anything of what was read from a directory is listed.
pub fn any_listed(found: &Vec<Result<Entry, String>>, all: bool) -> (yes: bool)
    ensures
        yes == (listed(found_view(found@), all).len() > 0),
{
    let ghost whole = found_view(found@);
    let mut at: usize = 0;
    while at < found.len()
        invariant
            at <= found.len(),
            whole == found_view(found@),
            listed(whole.take(at as int), all).len() == 0,
        decreases found.len() - at,
    {
        proof {
            assert(whole.take(at + 1).drop_last() =~= whole.take(at as int));
        }
        match &found[at] {
            Ok(entry) => {
                if all || !hidden(entry.name.as_str()) {
                    proof {
                        lemma_listed_grows(whole, at + 1, all);
                    }
                    return true;
                }
            },
            Err(_) => {},
        }
        at = at + 1;
    }
    assert(whole.take(at as int) =~= whole);
    false
}

/// Reading on never takes an entry off the list.
pub proof fn lemma_listed_grows(found: Found, upto: int, all: bool)
    requires
        0 <= upto <= found.len(),
    ensures
        listed(found.take(upto), all).len() <= listed(found, all).len(),
    decreases found.len() - upto,
{
    if upto < found.len() {
        lemma_listed_grows(found, upto + 1, all);
        assert(found.take(upto + 1).drop_last() =~= found.take(upto));
    } else {
        assert(found.take(upto) =~= found);
    }
}

/// The listed entries are what a filter keeps of what was read: the places
/// that hold an entry which is not left out, in their order.
pub proof fn lemma_listed_is_filter(found: Found, all: bool)
    ensures
        listed(found, all) == found.filter(
            |one: Result<EntryView, Seq<char>>| is_listed(one, all),
        ).map_values(|one: Result<EntryView, Seq<char>>| one->Ok_0),
    decreases found.len(),
{
    reveal(Seq::filter);
    if found.len() > 0 {
        lemma_listed_is_filter(found.drop_last(), all);
    }
}

/// With hidden entries asked for, every entry that could be read is listed.
pub proof fn lemma_all_shows_every_entry(found: Found)
    requires
        forall|i: int| 0 <= i < found.len() ==> (#[trigger] found[i]) is Ok,
    ensures
        listed(found, true) == found.map_values(|one: Result<EntryView, Seq<char>>| one->Ok_0),
    decreases found.len(),
{
    if found.len() > 0 {
        lemma_all_shows_every_entry(found.drop_last());
    }
}

/// What is listed was read: every listed entry stands at some place of what
/// was read, no earlier than its place in the list, and is not left out
/// there. Without `all`, no listed entry is hidden.
pub proof fn lemma_listed_is_chosen(found: Found, all: bool)
    ensures
        listed(found, all).len() <= found.len(),
        forall|j: int|
            0 <= j < listed(found, all).len() ==> exists|i: int|
                j <= i < found.len() && is_listed(found[i], all) && found[i] == Ok::<
                    EntryView,
                    Seq<char>,
                >(#[trigger] listed(found, all)[j]),
        !all ==> forall|j: int|
            0 <= j < listed(found, all).len() ==> !is_hidden(
                (#[trigger] listed(found, all)[j]).name,
            ),
    decreases found.len(),
{
    if found.len() > 0 {
        let head = found.drop_last();
        lemma_listed_is_chosen(head, all);
        assert forall|j: int| 0 <= j < listed(found, all).len() implies exists|i: int|
            j <= i < found.len() && is_listed(found[i], all) && found[i] == Ok::<
                EntryView,
                Seq<char>,
            >(#[trigger] listed(found, all)[j]) by {
            if j < listed(head, all).len() {
                let i = choose|i: int|
                    j <= i < head.len() && is_listed(head[i], all) && head[i] == Ok::<
                        EntryView,
                        Seq<char>,
                    >(listed(head, all)[j]);
                assert(found[i] == head[i]);
            } else {
                let i = found.len() - 1;
                assert(found[i] == found.last());
            }
        }
    }
}

/// Every entry that was read and is not left out is listed.
pub proof fn lemma_listed_is_complete(found: Found, all: bool, i: int)
    requires
        0 <= i < found.len(),
        is_listed(found[i], all),
    ensures
        listed(found, all).contains(found[i]->Ok_0),
    decreases found.len(),
{
    if i == found.len() - 1 {
        assert(listed(found, all).last() == found[i]->Ok_0);
    } else {
        lemma_listed_is_complete(found.drop_last(), all, i);
        let head = listed(found.drop_last(), all);
        let j = choose|j: int| 0 <= j < head.len() && head[j] == found[i]->Ok_0;
        assert(listed(found, all)[j] == found[i]->Ok_0);
    }
}

} // verus!
