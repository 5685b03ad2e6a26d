//! A single tracked dotfile.

use vstd::prelude::*;

verus! {

/// A dotfile: its path relative to the user's home directory.
#[derive(Debug)]
pub struct Dotfile {
    /// The path of the dotfile, relative to the home root.
    pub path: String,
}

impl Dotfile {
    /// Creates a new dotfile reference.
    pub fn new(path: String) -> (d: Dotfile)
        ensures
            d.path == path,
    {
        Dotfile { path }
    }
}

} // verus!
