//! Staging: every file handed in is hashed and compressed as a blob, and
//! recorded in the index under its workspace-relative path.

use vstd::prelude::*;
use vstd::utf8::encode_utf8;

use crate::database::{spec_object_write, Database, ObjectWrite};
use crate::gitobject::{entry_view_of, Blob, GitObject};
use crate::index::{index_antichain, index_wf, lemma_add_preserves_antichain, spec_index_add,
    Index};
use crate::database::spec_oid_of_content;
use crate::workspace::MinigitMetadata;

verus! {

/// The staging operation; enumeration, reading, locking and the final
/// index write happen around it.
pub struct AddCommand;

/// One workspace file ready to be staged: its relative path, its bytes,
/// and its stat fields.
pub struct StagedFile {
    pub path: String,
    pub data: Vec<u8>,
    pub metadata: MinigitMetadata,
}

/// The mathematical content of a file to stage.
#[verifier::ext_equal]
pub struct StagedFileView {
    pub path: Seq<char>,
    pub data: Seq<u8>,
    pub metadata: MinigitMetadata,
}

impl View for StagedFile {
    type V = StagedFileView;

    open spec fn view(&self) -> StagedFileView {
        StagedFileView { path: self.path@, data: self.data@, metadata: self.metadata }
    }
}

/// A file fit to stage: a non-empty path without NUL, of bounded length.
pub open spec fn staged_file_ok(f: StagedFileView) -> bool {
    &&& f.path.len() > 0
    &&& forall|i: int| 0 <= i < f.path.len() ==> (#[trigger] f.path[i]) != '\0'
    &&& encode_utf8(f.path).len() <= 0x0fff_ffff
}

/// The entry a staged file becomes: its path, the object id of its blob,
/// and its stat fields.
pub open spec fn spec_staged_entry(f: StagedFileView) -> crate::gitobject::EntryView {
    entry_view_of(f.path, spec_oid_of_content("blob"@, f.data), f.metadata)
}

/// The index after staging a run of files in order.
pub open spec fn spec_stage(s: Seq<crate::gitobject::EntryView>, files: Seq<StagedFileView>) -> Seq<
    crate::gitobject::EntryView,
>
    decreases files.len(),
{
    if files.len() == 0 {
        s
    } else {
        spec_index_add(spec_stage(s, files.drop_last()), spec_staged_entry(files.last()))
    }
}

/// After staging any run of files on an index whose entry paths form an
/// antichain under the directory-prefix relation, they still form one:
/// every add evicts exactly what would break it.
pub proof fn lemma_stage_preserves_antichain(
    s: Seq<crate::gitobject::EntryView>,
    files: Seq<StagedFileView>,
)
    requires
        index_antichain(s),
    ensures
        index_antichain(spec_stage(s, files)),
    decreases files.len(),
{
    if files.len() > 0 {
        lemma_stage_preserves_antichain(s, files.drop_last());
        lemma_add_preserves_antichain(
            spec_stage(s, files.drop_last()),
            spec_staged_entry(files.last()),
        );
    }
}

/// Stores each file as a blob and records it in the index; the object
/// writes come back in file order for the caller to place on disk.
pub fn store_in_database_and_update_index(
    added_files: Vec<StagedFile>,
    database: &Database,
    index: &mut Index,
) -> (writes: Vec<ObjectWrite>)
    requires
        index_wf(old(index)@),
        forall|i: int| 0 <= i < added_files@.len() ==> staged_file_ok((#[trigger] added_files@[i])@),
    ensures
        final(index)@ =~= spec_stage(
            old(index)@,
            Seq::new(added_files@.len(), |i: int| added_files@[i]@),
        ),
        index_wf(final(index)@),
        added_files@.len() > 0 ==> final(index).changed_spec(),
        added_files@.len() == 0 ==> final(index).changed_spec() == old(index).changed_spec(),
        writes@.len() == added_files@.len(),
        forall|i: int|
            0 <= i < writes@.len() ==> (#[trigger] writes@[i])@ =~= spec_object_write(
                "blob"@,
                added_files@[i]@.data,
            ),
{
    let ghost fvs = Seq::new(added_files@.len(), |i: int| added_files@[i]@);
    let mut writes: Vec<ObjectWrite> = Vec::new();
    let mut work = added_files;
    let total: usize = work.len();
    let mut i: usize = 0;
    proof {
        assert(fvs.take(0) =~= Seq::<StagedFileView>::empty());
    }
    while work.len() > 0
        invariant
            i + work@.len() == total,
            total == fvs.len(),
            index_wf(index@),
            forall|j: int| 0 <= j < work@.len() ==> (#[trigger] work@[j])@ == fvs[i + j],
            forall|j: int| 0 <= j < fvs.len() ==> staged_file_ok(#[trigger] fvs[j]),
            index@ =~= spec_stage(old(index)@, fvs.take(i as int)),
            i > 0 ==> index.changed_spec(),
            i == 0 ==> index.changed_spec() == old(index).changed_spec(),
            writes@.len() == i,
            forall|j: int|
                0 <= j < i ==> (#[trigger] writes@[j])@ =~= spec_object_write("blob"@, fvs[j].data),
        decreases work@.len(),
    {
        let f = work.remove(0);
        let ghost fv = f@;
        let mut blob = Blob::new(f.data);
        let w = database.store(&mut blob);
        index.add(f.path.as_str(), blob.get_oid(), f.metadata);
        writes.push(w);
        proof {
            assert(fvs.take(i as int + 1).drop_last() =~= fvs.take(i as int));
            assert(fvs.take(i as int + 1).last() == fvs[i as int]);
            assert(index@ =~= spec_stage(old(index)@, fvs.take(i as int + 1)));
        }
        i += 1;
    }
    proof {
        assert(fvs.take(total as int) =~= fvs);
    }
    writes
}

/// The wrapping a staging failure gets before it is surfaced.
pub fn add_failure_message(inner: &str) -> (r: String)
    ensures
        r@ == inner@ + "\nfatal: adding files failed"@,
{
    let mut m = String::from_str(inner);
    m.append("\nfatal: adding files failed");
    m
}

/// The diagnostic when no path is given to stage.
pub fn nothing_to_add_message() -> (r: String)
    ensures
        r@ == "Nothing specified, nothing added.\nMaybe you wanted to say 'minigit add .'?"@,
{
    String::from_str("Nothing specified, nothing added.\nMaybe you wanted to say 'minigit add .'?")
}

} // verus!
