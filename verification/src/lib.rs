//! Recursive directory listing drawn as a tree.
//!
//! The crate holds the decisions of the listing and none of its input or
//! output: which glyph joins an entry to its siblings ([`glyph`]), how a byte
//! count is shown ([`size`]), which entries of a directory are listed
//! ([`entry`]), what a row reads ([`row`]), in what order the directories are
//! visited and what each visit adds up to ([`walk`]). The caller asks the
//! file system what the [`walk::Walker`] wants to know and prints the rows
//! that it hands back.
//!
//! What a listing is, is said in one piece by [`model::listing`]. Its laws
//! are proved in [`laws`], and [`trace`] proves that a walk shows what the
//! listing says.

pub mod entry;
pub mod fault;
pub mod glyph;
pub mod laws;
pub mod model;
pub mod row;
pub mod size;
pub mod state;
pub mod style;
pub mod trace;
pub mod walk;
