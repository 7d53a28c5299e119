//! The glyph that joins an entry to the tree.

use vstd::prelude::*;

verus! {

/// A lone entry at the top level: a plain horizontal connector.
pub open spec fn flat() -> Seq<char> {
    seq!['─']
}

/// The first of several entries at the top level: an opening corner.
pub open spec fn opening() -> Seq<char> {
    seq!['╭']
}

/// An entry with siblings after it: a T-junction.
pub open spec fn junction() -> Seq<char> {
    seq!['├']
}

/// The last entry of a directory: a closing corner.
pub open spec fn closing() -> Seq<char> {
    seq!['╰']
}

/// The glyph of the entry at position `index` among `count` siblings, listed
/// `indent` levels below the top. The first of these that applies decides: an
/// only sibling is flat at the top and closes below it; the first of several
/// opens at the top and is a junction below it; the last of several closes;
/// any other is a junction.
pub open spec fn symbol(index: nat, count: nat, indent: nat) -> Seq<char> {
    if count == 1 {
        if indent == 0 {
            flat()
        } else {
            closing()
        }
    } else if index == 0 {
        if indent == 0 {
            opening()
        } else {
            junction()
        }
    } else if index + 1 == count {
        closing()
    } else {
        junction()
    }
}

/// Picks the glyph for the entry at position `i` of `length` siblings.
pub fn get_symbol(i: usize, length: usize, indent: usize) -> (glyph: &'static str)
    ensures
        glyph@ == symbol(i as nat, length as nat, indent as nat),
{
    proof {
        reveal_strlit("─");
        reveal_strlit("╭");
        reveal_strlit("├");
        reveal_strlit("╰");
    }
    if length == 1 {
        if indent != 0 {
            "╰"
        } else {
            "─"
        }
    } else if i == 0 {
        if indent != 0 {
            "├"
        } else {
            "╭"
        }
    } else if length > 0 && i == length - 1 {
        "╰"
    } else {
        "├"
    }
}

/// Every position gets one of the four glyphs.
pub proof fn lemma_symbol_is_one_of_four(index: nat, count: nat, indent: nat)
    ensures
        symbol(index, count, indent) == flat() || symbol(index, count, indent) == opening()
            || symbol(index, count, indent) == junction() || symbol(index, count, indent)
            == closing(),
{
}

/// The last of several siblings gets the closing corner at every depth.
pub proof fn lemma_last_sibling_closes(index: nat, count: nat, indent: nat)
    requires
        count > 1,
        index + 1 == count,
    ensures
        symbol(index, count, indent) == closing(),
{
}

/// The four glyphs differ from one another, so a glyph tells which rule chose it.
pub proof fn lemma_glyphs_differ()
    ensures
        flat() != opening(),
        flat() != junction(),
        flat() != closing(),
        opening() != junction(),
        opening() != closing(),
        junction() != closing(),
{
    assert(flat()[0] == '─');
    assert(opening()[0] == '╭');
    assert(junction()[0] == '├');
    assert(closing()[0] == '╰');
}

} // verus!
