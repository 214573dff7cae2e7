use vstd::prelude::*;

verus! {

/// A log record as specifications see it: keys and values are character
/// sequences.  `Command` values view to this type.
pub enum Rec {
    Put { key: Seq<char>, val: Seq<char> },
    Remove { key: Seq<char> },
}

impl Rec {
    /// The key the record is about.
    pub open spec fn key(self) -> Seq<char> {
        match self {
            Rec::Put { key, .. } => key,
            Rec::Remove { key } => key,
        }
    }
}

/// Write-ahead log command persisted to disk.
/// Only mutating operations (Put/Remove) are logged; Get is never persisted.
#[derive(Debug, Clone, PartialEq)]
pub enum Command {
    Put { key: String, val: String },
    Remove { key: String },
}

impl View for Command {
    type V = Rec;

    open spec fn view(&self) -> Rec {
        match self {
            Command::Put { key, val } => Rec::Put { key: key@, val: val@ },
            Command::Remove { key } => Rec::Remove { key: key@ },
        }
    }
}

impl Command {
    /// The key the command is about.
    pub fn key(&self) -> (k: &str)
        ensures
            k@ == self@.key(),
    {
        match self {
            Command::Put { key, .. } => key.as_str(),
            Command::Remove { key } => key.as_str(),
        }
    }
}

} // verus!
