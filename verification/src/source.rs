//! Where the input of a run comes from.

use vstd::prelude::*;
use crate::chars::to_chars;

verus! {

/// The input of a run.
#[derive(Debug, PartialEq, Eq)]
pub enum Source {
    /// The standard input.
    Stdin,
    /// The file of this path.
    File(String),
}

impl Source {
    /// The input that the path argument of a run names: the standard input
    /// where there is no path or the path is a single hyphen, else the file of
    /// that path.
    pub fn of(path: Option<&str>) -> (source: Source)
        ensures
            match path {
                None => source is Stdin,
                Some(name) => if name@ == seq!['-'] {
                    source is Stdin
                } else {
                    source matches Source::File(file) && file@ == name@
                },
            },
    {
        match path {
            None => Source::Stdin,
            Some(name) => {
                let chars = to_chars(name);
                if chars.len() == 1 && chars[0] == '-' {
                    assert(name@ =~= seq!['-']);
                    Source::Stdin
                } else {
                    Source::File(name.to_owned())
                }
            },
        }
    }
}

} // verus!
