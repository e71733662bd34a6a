//! The reference store: HEAD lives directly in the repository directory and
//! names the latest commit. Reading and atomically rewriting it touch the
//! file system and stay outside the library; the path they use comes from
//! here.

use vstd::prelude::*;

verus! {

/// The reference store rooted at a repository's `.git` directory.
pub struct Refs {
    path: String,
}

impl Refs {
    /// The repository directory the references live in.
    pub closed spec fn path_spec(&self) -> Seq<char> {
        self.path@
    }

    pub fn new(path: String) -> (r: Refs)
        ensures
            r.path_spec() == path@,
    {
        Refs { path }
    }

    /// The path of the HEAD reference file.
    pub fn get_head_path(&self) -> (r: String)
        ensures
            r@ == self.path_spec() + "/HEAD"@,
    {
        let mut p = self.path.clone();
        p.append("/HEAD");
        p
    }
}

} // verus!
