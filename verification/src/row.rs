//! The rows of a listing and the text of each.

use crate::glyph::{closing, get_symbol, symbol};
use crate::size::{beautified, beautify_bytes};
use crate::style::{dimmed, shown};
use vstd::prelude::*;

verus! {

/// Where an entry stands: its place among the entries listed with it, and
/// how many directories lie between it and the top.
#[derive(Clone, Copy, Debug, PartialEq, Eq)]
pub struct Position {
    pub index: usize,
    pub count: usize,
    pub indent: usize,
}

/// One row of the listing.
#[derive(Debug)]
pub enum Row {
    /// A directory. It is `expanded` when the listing goes on inside it.
    Directory { at: Position, name: String, expanded: bool },
    /// A file with its size in bytes.
    File { at: Position, name: String, bytes: u64 },
    /// A directory could not be listed: the message stands one level below it.
    Failure { indent: usize, message: String },
}

/// A row as a mathematical value.
pub enum RowView {
    Directory { index: nat, count: nat, indent: nat, name: Seq<char>, expanded: bool },
    File { index: nat, count: nat, indent: nat, name: Seq<char>, bytes: nat },
    Failure { indent: nat, message: Seq<char> },
}

impl View for Row {
    type V = RowView;

    open spec fn view(&self) -> RowView {
        match *self {
            Row::Directory { at, name, expanded } => RowView::Directory {
                index: at.index as nat,
                count: at.count as nat,
                indent: at.indent as nat,
                name: name@,
                expanded,
            },
            Row::File { at, name, bytes } => RowView::File {
                index: at.index as nat,
                count: at.count as nat,
                indent: at.indent as nat,
                name: name@,
                bytes: bytes as nat,
            },
            Row::Failure { indent, message } => RowView::Failure {
                indent: indent as nat,
                message: message@,
            },
        }
    }
}

impl RowView {
    /// The row stands for an entry of a directory, not for a failure.
    pub open spec fn is_entry(self) -> bool {
        !(self is Failure)
    }

    /// The name of the entry that the row stands for.
    pub open spec fn name(self) -> Seq<char>
        recommends
            self.is_entry(),
    {
        match self {
            RowView::Directory { name, .. } => name,
            RowView::File { name, .. } => name,
            RowView::Failure { message, .. } => message,
        }
    }

    /// The bytes that the row shows: the size of a file, and nothing else.
    pub open spec fn bytes(self) -> nat {
        match self {
            RowView::File { bytes, .. } => bytes,
            _ => 0,
        }
    }

    /// How many directories lie between the row and the top.
    pub open spec fn indent(self) -> nat {
        match self {
            RowView::Directory { indent, .. } => indent,
            RowView::File { indent, .. } => indent,
            RowView::Failure { indent, .. } => indent,
        }
    }

    /// The glyph that joins the row to the tree: that of the entry's place,
    /// and the closing corner for a failure.
    pub open spec fn glyph(self) -> Seq<char> {
        match self {
            RowView::Directory { index, count, indent, .. } => symbol(index, count, indent),
            RowView::File { index, count, indent, .. } => symbol(index, count, indent),
            RowView::Failure { .. } => closing(),
        }
    }

    /// The words of the row behind `glyph`, which stands for the row's glyph
    /// as it is shown: the name of a directory, the name of a file and its
    /// size two spaces on, the message of a failure.
    pub open spec fn text_with(self, glyph: Seq<char>) -> Seq<char> {
        match self {
            RowView::Directory { indent, name, .. } => entry_text(indent, glyph, name),
            RowView::File { indent, name, bytes, .. } => entry_text(indent, glyph, name) + seq![
                ' ',
                ' ',
            ] + beautified(bytes),
            RowView::Failure { indent, message } => entry_text(indent, glyph, message),
        }
    }
}

/// Two spaces for each level.
pub open spec fn padding(indent: nat) -> Seq<char> {
    Seq::new(2 * indent, |i: int| ' ')
}

/// Padding, glyph, a space and the name: the start of every entry's row.
pub open spec fn entry_text(indent: nat, glyph: Seq<char>, name: Seq<char>) -> Seq<char> {
    padding(indent) + glyph + seq![' '] + name
}

/// The text of a row. `dim_glyph` says whether the glyph came out dimmed,
/// `dim_line` whether the line of an expanded directory did. A directory
/// ends in a slash, which is never dimmed.
pub open spec fn row_text(row: RowView, dim_glyph: bool, dim_line: bool) -> Seq<char> {
    let line = row.text_with(shown(row.glyph(), dim_glyph));
    match row {
        RowView::Directory { expanded, .. } => shown(line, expanded && dim_line) + seq!['/'],
        _ => line,
    }
}

/// `text` is the row as it may be shown: the glyph dimmed or not, and the
/// line of an expanded directory dimmed or not.
pub open spec fn renders(row: RowView, text: Seq<char>) -> bool {
    exists|dim_glyph: bool, dim_line: bool| text == #[trigger] row_text(row, dim_glyph, dim_line)
}

fn pad(indent: usize) -> (text: String)
    ensures
        text@ == padding(indent as nat),
{
    let mut text = String::new();
    let mut level: usize = 0;
    while level < indent
        invariant
            level <= indent,
            text@ == padding(level as nat),
        decreases indent - level,
    {
        text.append("  ");
        level = level + 1;
        proof {
            reveal_strlit("  ");
        }
    }
    text
}

fn entry_line(indent: usize, glyph: &str, name: &str) -> (text: String)
    ensures
        text@ == entry_text(indent as nat, glyph@, name@),
{
    let mut text = pad(indent);
    text.append(glyph);
    text.append(" ");
    text.append(name);
    proof {
        reveal_strlit(" ");
    }
    text
}

impl Row {
    /// The glyph that joins the row to the tree, as plain text.
    pub fn glyph(&self) -> (glyph: &'static str)
        ensures
            glyph@ == self@.glyph(),
    {
        match self {
            Row::Directory { at, .. } => get_symbol(at.index, at.count, at.indent),
            Row::File { at, .. } => get_symbol(at.index, at.count, at.indent),
            Row::Failure { .. } => {
                proof {
                    reveal_strlit("╰");
                }
                "╰"
            },
        }
    }

    /// The words of the row behind `glyph`, which is the row's glyph as it is
    /// to be shown, styled or plain. The slash of a directory is not among
    /// them.
    pub fn text_with(&self, glyph: &str) -> (text: String)
        ensures
            text@ == self@.text_with(glyph@),
    {
        match self {
            Row::Directory { at, name, .. } => entry_line(at.indent, glyph, name.as_str()),
            Row::File { at, name, bytes } => {
                let mut text = entry_line(at.indent, glyph, name.as_str());
                text.append("  ");
                let size = beautify_bytes(*bytes);
                text.append(size.as_str());
                proof {
                    reveal_strlit("  ");
                }
                text
            },
            Row::Failure { indent, message } => entry_line(*indent, glyph, message.as_str()),
        }
    }

    /// The text of the row, as it goes to the terminal: the glyph dimmed, the
    /// line of an expanded directory dimmed, a slash behind a directory.
    pub fn render(&self) -> (text: String)
        ensures
            renders(self@, text@),
    {
        let glyph = dimmed(self.glyph());
        let line = self.text_with(glyph.as_str());
        let ghost dim_glyph = glyph@ != self@.glyph();
        let ghost plain = line@;
        match self {
            Row::Directory { expanded, .. } => {
                let mut text = if *expanded {
                    dimmed(line.as_str())
                } else {
                    line
                };
                let ghost styled = text@;
                text.append("/");
                proof {
                    reveal_strlit("/");
                    let dim_line = styled != plain;
                    assert(text@ =~= row_text(self@, dim_glyph, dim_line));
                }
                text
            },
            _ => {
                assert(line@ == row_text(self@, dim_glyph, false));
                line
            },
        }
    }
}

} // verus!
