//! Why a directory could not be listed.

use vstd::prelude::*;

verus! {

/// Why the listing of a directory came to nothing.
#[derive(Debug)]
pub enum WalkError {
    /// The path does not lead to a directory.
    NotADirectory { path: String },
    /// The file system could not tell the size of the entry at `path`.
    MetadataUnavailable { path: String, cause: String },
    /// The directory at `path` could not be read.
    Unreadable { path: String, cause: String },
}

/// A failure as a mathematical value.
pub enum Fault {
    NotADirectory { path: Seq<char> },
    MetadataUnavailable { path: Seq<char>, cause: Seq<char> },
    Unreadable { path: Seq<char>, cause: Seq<char> },
}

impl View for WalkError {
    type V = Fault;

    open spec fn view(&self) -> Fault {
        match *self {
            WalkError::NotADirectory { path } => Fault::NotADirectory { path: path@ },
            WalkError::MetadataUnavailable { path, cause } => Fault::MetadataUnavailable {
                path: path@,
                cause: cause@,
            },
            WalkError::Unreadable { path, cause } => Fault::Unreadable {
                path: path@,
                cause: cause@,
            },
        }
    }
}

/// The words that follow the path of what is no directory.
pub open spec fn not_a_directory() -> Seq<char> {
    seq![
        ' ',
        'i',
        's',
        ' ',
        'n',
        'o',
        't',
        ' ',
        'a',
        ' ',
        'd',
        'i',
        'r',
        'e',
        'c',
        't',
        'o',
        'r',
        'y',
    ]
}

impl Fault {
    /// The failure in words: for a path that is no directory the path says
    /// so, else the file system's own words stand.
    pub open spec fn message(self) -> Seq<char> {
        match self {
            Fault::NotADirectory { path } => path + not_a_directory(),
            Fault::MetadataUnavailable { cause, .. } => cause,
            Fault::Unreadable { cause, .. } => cause,
        }
    }
}

impl WalkError {
    /// The failure in words, as it is shown to the user.
    pub fn message(&self) -> (text: String)
        ensures
            text@ == self@.message(),
    {
        match self {
            WalkError::NotADirectory { path } => {
                let mut text = path.clone();
                text.append(" is not a directory");
                proof {
                    reveal_strlit(" is not a directory");
                }
                text
            },
            WalkError::MetadataUnavailable { cause, .. } => cause.clone(),
            WalkError::Unreadable { cause, .. } => cause.clone(),
        }
    }
}

} // verus!
