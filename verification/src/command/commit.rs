//! Committing: the staged entries become a nested tree of tree objects,
//! the root tree is pinned by a commit object carrying author, committer
//! and message, and every object write comes back for the caller to place
//! on disk before HEAD moves.

use vstd::prelude::*;

use crate::database::{spec_object_write, spec_oid_of_content, Database, ObjectWrite};
use crate::gitobject::{entry_views, lemma_tree_oid_spec, spec_build, spec_commit_data,
    spec_author_line, spec_traversed, spec_tree_writes, Author, Commit, Entry, GitObject, Tree};

verus! {

/// The commit operation; environment, standard input, the clock and HEAD
/// live with the caller.
pub struct CommitCommand;

/// The first line of a commit message: up to the first line feed, with one
/// trailing carriage return removed.
pub open spec fn spec_first_line(s: Seq<char>) -> Seq<char> {
    let upto = crate::strutil::prefix_until(s, '\n');
    if upto.len() > 0 && upto.last() == '\r' {
        upto.drop_last()
    } else {
        upto
    }
}

/// The payload of the root commit marker, present exactly when there is no
/// parent.
pub open spec fn spec_root_marker(has_parent: bool) -> Seq<char> {
    if has_parent {
        Seq::<char>::empty()
    } else {
        "(root-commit) "@
    }
}

/// The tree of the staged entries, every tree object and the commit object
/// hashed and compressed, the commit's hex object id, and the announcement
/// line printed on success.
pub struct CommitOutcome {
    pub writes: Vec<ObjectWrite>,
    pub commit_oid: String,
    pub announcement: String,
}

impl CommitCommand {
    /// Builds and hashes the whole snapshot: the nested trees of the
    /// entries in post-order, then the commit object naming the root tree,
    /// the parent when one exists, and the author for both identities.
    pub fn build_snapshot(
        entries: Vec<Entry>,
        parent: &Option<String>,
        author: Author,
        message: &str,
        database: &Database,
    ) -> (r: CommitOutcome)
        requires
            author.wf(),
            message@.len() > 0,
        ensures
            ({
                let tv = spec_traversed(spec_build(entry_views(entries@)));
                let cdata = spec_commit_data(
                    match parent {
                        Some(p) => Some(p@),
                        None => None,
                    },
                    spec_author_line(
                        author.name_spec(),
                        author.email_spec(),
                        author.seconds_spec(),
                        author.offset_spec(),
                    ),
                    message@,
                    tv.oid,
                );
                let tw = spec_tree_writes(spec_build(entry_views(entries@)));
                &&& r.writes@.len() == tw.len() + 1
                &&& (forall|j: int|
                    0 <= j < tw.len() ==> (#[trigger] r.writes@[j])@ =~= tw[j])
                &&& r.writes@[tw.len() as int]@ =~= spec_object_write("commit"@, cdata)
                &&& r.commit_oid@ == spec_oid_of_content("commit"@, cdata)
                &&& r.announcement@ == "["@ + spec_root_marker(parent is Some) + spec_oid_of_content(
                    "commit"@,
                    cdata,
                ) + "] "@ + spec_first_line(message@) + "\n"@
            }),
    {
        let ghost evs = entry_views(entries@);
        let mut tree = Tree::build(entries);
        let ghost tb = tree@;
        let mut writes: Vec<ObjectWrite> = Vec::new();
        tree.traverse(database, &mut writes);
        proof {
            lemma_tree_oid_spec(&tree);
            assert(tb == spec_build(evs));
            assert(tree@.oid == spec_traversed(spec_build(evs)).oid);
            let tw = spec_tree_writes(spec_build(evs));
            assert forall|j: int| 0 <= j < tw.len() implies (#[trigger] writes@[j])@ =~= tw[j]
                by {
                assert(writes@[0 + j]@ =~= spec_tree_writes(tb)[j]);
            }
        }
        let ghost writes_snap = writes@;
        let mut commit = Commit::new(parent, author, message, tree.get_oid());
        let w = database.store(&mut commit);
        writes.push(w);
        proof {
            let tw = spec_tree_writes(spec_build(evs));
            assert(writes@.len() == tw.len() + 1);
            assert forall|j: int| 0 <= j < tw.len() implies (#[trigger] writes@[j])@ =~= tw[j]
                by {
                assert(writes@[j] == writes_snap[j]);
            }
        }
        let commit_oid = String::from_str(commit.get_oid());
        let mut announcement = String::from_str("[");
        match parent {
            Some(_) => {},
            None => {
                announcement.append("(root-commit) ");
            },
        }
        announcement.append(commit_oid.as_str());
        announcement.append("] ");
        let first = first_line(message);
        announcement.append(first.as_str());
        announcement.append("\n");
        CommitOutcome { writes, commit_oid, announcement }
    }
}

/// The first line of a message.
fn first_line(s: &str) -> (r: String)
    ensures
        r@ == spec_first_line(s@),
{
    let upto = crate::strutil::string_prefix_until(s, '\n');
    let n = upto.as_str().unicode_len();
    if n > 0 && upto.as_str().get_char(n - 1) == '\r' {
        let t = upto.as_str().substring_char(0, n - 1);
        proof {
            assert(upto@.subrange(0, upto@.len() - 1) =~= upto@.drop_last());
        }
        String::from_str(t)
    } else {
        upto
    }
}

} // verus!
