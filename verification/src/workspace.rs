//! The workspace: the root the repository lives in, resolution of
//! user-supplied paths against it, the hard-coded ignore rules applied while
//! enumerating files, and the canonical form of a staged file mode.
//!
//! Enumeration itself reads the file system and stays outside the library;
//! it hands paths and raw metadata in as plain values.

use vstd::prelude::*;

use crate::minigiterror::MinigitError;
use crate::strutil::{str_eq_str, suffix_after_last, suffix_after_last_char};

verus! {

/// The ten 32-bit fields recorded for a staged file.
#[verifier::ext_equal]
#[derive(Clone, Copy, PartialEq, Eq, Structural, Debug)]
pub struct MinigitMetadata {
    pub ctime: u32,
    pub ctime_nsec: u32,
    pub mtime: u32,
    pub mtime_nsec: u32,
    pub dev: u32,
    pub ino: u32,
    pub mode: u32,
    pub uid: u32,
    pub gid: u32,
    pub size: u32,
}

/// The staged form of a file mode: `0o100755` when the owner-execute bit is
/// set in the underlying mode, else `0o100644`.
pub open spec fn spec_canonical_mode(raw_mode: u32) -> u32 {
    if raw_mode & 0o100 != 0 {
        0o100755
    } else {
        0o100644
    }
}

/// Canonicalizes a raw file mode to the two staged forms.
pub fn canonical_mode(raw_mode: u32) -> (r: u32)
    ensures
        r == spec_canonical_mode(raw_mode),
{
    if raw_mode & 0o100 > 0 {
        0o100755
    } else {
        0o100644
    }
}

/// The file-name component of a slash-separated path.
pub open spec fn spec_file_name(p: Seq<char>) -> Seq<char> {
    suffix_after_last(p, '/')
}

/// Whether a directory of this path is never descended into nor reported.
pub open spec fn spec_is_dir_ignored(p: Seq<char>) -> bool {
    spec_file_name(p) =~= seq!['.', 'g', 'i', 't'] || spec_file_name(p) =~= seq![
        't',
        'a',
        'r',
        'g',
        'e',
        't',
    ]
}

/// Whether the file name has an extension in the sense used here: a dot
/// past the first character.
pub open spec fn spec_has_extension(f: Seq<char>) -> bool {
    exists|i: int| 0 < i < f.len() && f[i] == '.'
}

/// Whether a file of this path is skipped during enumeration.
pub open spec fn spec_is_file_ignored(p: Seq<char>) -> bool {
    let f = spec_file_name(p);
    f =~= seq!['.', 'D', 'S', '_', 'S', 't', 'o', 'r', 'e'] || (spec_has_extension(f)
        && suffix_after_last(f, '.') =~= seq!['i', 'm', 'l'])
}

pub struct Workspace {
    path: String,
}

impl Workspace {
    /// The root path the workspace was created with.
    pub closed spec fn root_spec(&self) -> Seq<char> {
        self.path@
    }

    /// A workspace rooted at an already-canonicalized absolute path.
    pub fn new(path: String) -> (r: Workspace)
        ensures
            r.root_spec() == path@,
    {
        Workspace { path }
    }

    /// The workspace root.
    pub fn root(&self) -> (r: &String)
        ensures
            r@ == self.root_spec(),
    {
        &self.path
    }

    /// Resolves a user-supplied path: an absolute path stands as given, a
    /// relative one is joined under the workspace root.
    pub fn resolve_path(&self, path: &str) -> (r: String)
        ensures
            path@.len() > 0 && path@[0] == '/' ==> r@ == path@,
            !(path@.len() > 0 && path@[0] == '/') ==> r@ == self.root_spec() + seq!['/'] + path@,
    {
        if path.unicode_len() > 0 && path.get_char(0) == '/' {
            String::from_str(path)
        } else {
            proof {
                reveal_strlit("/");
                assert("/"@ =~= seq!['/']);
            }
            let mut r = self.path.clone();
            r.append("/");
            r.append(path);
            r
        }
    }

    /// Whether a directory of this path is ignored: its name is `.git` or
    /// `target`.
    pub fn is_dir_ignored(&self, path: &str) -> (r: bool)
        ensures
            r == spec_is_dir_ignored(path@),
    {
        proof {
            reveal_strlit(".git");
            reveal_strlit("target");
            assert(".git"@ =~= seq!['.', 'g', 'i', 't']);
            assert("target"@ =~= seq!['t', 'a', 'r', 'g', 'e', 't']);
        }
        let f = suffix_after_last_char(path, '/');
        str_eq_str(f.as_str(), ".git") || str_eq_str(f.as_str(), "target")
    }

    /// Whether a file of this path is ignored: its name is `.DS_Store`, or
    /// its extension is `iml`.
    pub fn is_file_ignored(&self, path: &str) -> (r: bool)
        ensures
            r == spec_is_file_ignored(path@),
    {
        proof {
            reveal_strlit(".DS_Store");
            reveal_strlit("iml");
            assert(".DS_Store"@ =~= seq!['.', 'D', 'S', '_', 'S', 't', 'o', 'r', 'e']);
            assert("iml"@ =~= seq!['i', 'm', 'l']);
        }
        let f = suffix_after_last_char(path, '/');
        if str_eq_str(f.as_str(), ".DS_Store") {
            return true;
        }
        let n = f.as_str().unicode_len();
        let mut has_dot: bool = false;
        let mut i: usize = 1;
        while i < n
            invariant
                1 <= i || n == 0,
                i <= n || (n == 0 && i == 1),
                n == f@.len(),
                has_dot == exists|j: int| 0 < j < i && f@[j] == '.',
            decreases n - i,
        {
            if f.as_str().get_char(i) == '.' {
                has_dot = true;
            }
            i += 1;
        }
        if !has_dot {
            return false;
        }
        let ext = suffix_after_last_char(f.as_str(), '.');
        str_eq_str(ext.as_str(), "iml")
    }
}

/// The diagnostic for a user-supplied path that matched nothing on disk.
pub fn pathspec_error(path: &str) -> (r: MinigitError)
    ensures
        r.message@ == "fatal: pathspec '"@ + path@ + "' did not match any files"@,
{
    let mut m = String::new();
    m.append("fatal: pathspec '");
    m.append(path);
    m.append("' did not match any files");
    MinigitError::new(m)
}

} // verus!
