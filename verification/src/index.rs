//! The staging index: an ordered map from workspace-relative paths to staged
//! entries, with the directory/file conflict resolution applied on every
//! add, the exact binary file format with its trailing SHA-1, and the
//! parser that loads it back.
//!
//! The entries are held sorted by path bytes, strictly ascending; the
//! conflict rule keeps the set of paths an antichain under the
//! directory-prefix relation.

use vstd::prelude::*;
use vstd::utf8::{decode_utf8, encode_utf8, valid_utf8};

use crate::gitobject::{entry_disk_bytes, entry_pad_len, entry_total_len, entry_view_of,
    entry_wf, Entry, EntryView, spec_flags};
use vstd::slice::{slice_subrange, slice_to_vec};

use crate::minigiterror::{MinigitError, MinigitResult};
use crate::sha::{sha1_bytes, sha1_digest};
use crate::strutil::{bytes_lt, bytes_to_string, compare_bytes, dec_digits, lemma_bytes_lt_trans,
    lemma_bytes_lt_trichotomy, u64_to_dec_string, ByteOrder};
use crate::workspace::MinigitMetadata;
use crate::{is_oid, oid_raw_of, spec_be16, spec_be32, spec_u32_of_be,
    uncompress_u8_array_to_oid};

verus! {

/// Whether `anc` names a directory that lies strictly above `p`: a proper
/// prefix ending at a path separator, the empty path standing above all.
pub open spec fn is_strict_ancestor(anc: Seq<u8>, p: Seq<u8>) -> bool {
    &&& anc.len() < p.len()
    &&& p.take(anc.len() as int) == anc
    &&& (anc.len() == 0 || p[anc.len() as int] == 0x2f)
}

/// Whether an existing path conflicts with an added one: equal, or either
/// lies strictly under the other.
pub open spec fn conflicts_with(existing: Seq<u8>, added: Seq<u8>) -> bool {
    existing == added || is_strict_ancestor(existing, added) || is_strict_ancestor(
        added,
        existing,
    )
}

/// A well-formed index: every entry well-formed, paths strictly ascending.
pub open spec fn index_wf(s: Seq<EntryView>) -> bool {
    &&& forall|i: int| 0 <= i < s.len() ==> entry_wf(#[trigger] s[i])
    &&& forall|i: int, j: int| 0 <= i < j < s.len() ==> bytes_lt(s[i].path, s[j].path)
}

/// Whether some entry has exactly this path.
pub open spec fn index_has_path(s: Seq<EntryView>, p: Seq<u8>) -> bool {
    exists|i: int| 0 <= i < s.len() && (#[trigger] s[i].path) == p
}

/// Whether a path is tracked: it is an entry, or some entry lies strictly
/// under it.
pub open spec fn spec_tracked(s: Seq<EntryView>, p: Seq<u8>) -> bool {
    index_has_path(s, p) || exists|i: int|
        0 <= i < s.len() && is_strict_ancestor(p, #[trigger] s[i].path)
}

/// The entry paths form an antichain under the directory-prefix relation.
pub open spec fn index_antichain(s: Seq<EntryView>) -> bool {
    forall|i: int, j: int|
        0 <= i < s.len() && 0 <= j < s.len() ==> !is_strict_ancestor(
            #[trigger] s[i].path,
            #[trigger] s[j].path,
        )
}

/// The entries that survive adding a path: those that do not conflict.
pub open spec fn spec_discard(s: Seq<EntryView>, p: Seq<u8>) -> Seq<EntryView>
    decreases s.len(),
{
    if s.len() == 0 {
        seq![]
    } else if conflicts_with(s[0].path, p) {
        spec_discard(s.drop_first(), p)
    } else {
        seq![s[0]] + spec_discard(s.drop_first(), p)
    }
}

/// Insertion into the sorted entry list: before the first entry not below
/// the new path, replacing an entry with the same path.
pub open spec fn spec_sorted_insert(s: Seq<EntryView>, e: EntryView) -> Seq<EntryView>
    decreases s.len(),
{
    if s.len() == 0 {
        seq![e]
    } else if bytes_lt(s[0].path, e.path) {
        seq![s[0]] + spec_sorted_insert(s.drop_first(), e)
    } else if s[0].path == e.path {
        seq![e] + s.drop_first()
    } else {
        seq![e] + s
    }
}

/// The index after an add: conflicting entries removed, the new entry
/// inserted in path order.
pub open spec fn spec_index_add(s: Seq<EntryView>, e: EntryView) -> Seq<EntryView> {
    spec_sorted_insert(spec_discard(s, e.path), e)
}

/// What survives a discard: exactly the non-conflicting entries, in order.
proof fn lemma_discard_elems(s: Seq<EntryView>, p: Seq<u8>)
    ensures
        forall|k: int|
            0 <= k < spec_discard(s, p).len() ==> exists|i: int|
                0 <= i < s.len() && (#[trigger] spec_discard(s, p)[k]) == s[i],
        forall|k: int|
            0 <= k < spec_discard(s, p).len() ==> !conflicts_with(
                (#[trigger] spec_discard(s, p)[k]).path,
                p,
            ),
        spec_discard(s, p).len() <= s.len(),
    decreases s.len(),
{
    if s.len() > 0 {
        lemma_discard_elems(s.drop_first(), p);
        let d = spec_discard(s, p);
        let dd = spec_discard(s.drop_first(), p);
        if conflicts_with(s[0].path, p) {
            assert forall|k: int| 0 <= k < d.len() implies exists|i: int|
                0 <= i < s.len() && (#[trigger] d[k]) == s[i] by {
                let i0 = choose|i: int| 0 <= i < s.drop_first().len() && dd[k] == s.drop_first()[i];
                assert(d[k] == s[i0 + 1]);
            }
        } else {
            assert forall|k: int| 0 <= k < d.len() implies exists|i: int|
                0 <= i < s.len() && (#[trigger] d[k]) == s[i] by {
                if k == 0 {
                    assert(d[0] == s[0]);
                } else {
                    let i0 = choose|i: int|
                        0 <= i < s.drop_first().len() && dd[k - 1] == s.drop_first()[i];
                    assert(d[k] == s[i0 + 1]);
                }
            }
        }
    }
}

/// Discarding preserves well-formedness and relative order.
proof fn lemma_discard_wf(s: Seq<EntryView>, p: Seq<u8>)
    requires
        index_wf(s),
    ensures
        index_wf(spec_discard(s, p)),
        forall|k: int|
            0 <= k < spec_discard(s, p).len() ==> !conflicts_with(
                (#[trigger] spec_discard(s, p)[k]).path,
                p,
            ),
    decreases s.len(),
{
    lemma_discard_elems(s, p);
    if s.len() > 0 {
        assert(index_wf(s.drop_first()));
        lemma_discard_wf(s.drop_first(), p);
        let d = spec_discard(s, p);
        let dd = spec_discard(s.drop_first(), p);
        lemma_discard_elems(s.drop_first(), p);
        if !conflicts_with(s[0].path, p) {
            assert forall|i: int, j: int| 0 <= i < j < d.len() implies bytes_lt(
                d[i].path,
                d[j].path,
            ) by {
                if i == 0 {
                    let k0 = choose|k: int|
                        0 <= k < s.drop_first().len() && dd[j - 1] == s.drop_first()[k];
                    assert(d[j] == s[k0 + 1]);
                    assert(bytes_lt(s[0].path, s[k0 + 1].path));
                } else {
                    assert(d[i] == dd[i - 1] && d[j] == dd[j - 1]);
                }
            }
        }
    }
}

/// Inserting a well-formed entry into a sorted list keeps the list
/// well-formed; an entry sharing its path is replaced.
proof fn lemma_sorted_insert_wf(s: Seq<EntryView>, e: EntryView)
    requires
        index_wf(s),
        entry_wf(e),
    ensures
        index_wf(spec_sorted_insert(s, e)),
    decreases s.len(),
{
    let r = spec_sorted_insert(s, e);
    if s.len() == 0 {
    } else if bytes_lt(s[0].path, e.path) {
        assert(index_wf(s.drop_first()));
        lemma_sorted_insert_wf(s.drop_first(), e);
        let rr = spec_sorted_insert(s.drop_first(), e);
        assert forall|i: int, j: int| 0 <= i < j < r.len() implies bytes_lt(
            r[i].path,
            r[j].path,
        ) by {
            if i == 0 {
                assert(r[j] == rr[j - 1]);
                lemma_insert_low_bound(s.drop_first(), e, j - 1);
            } else {
                assert(r[i] == rr[i - 1] && r[j] == rr[j - 1]);
            }
        }
        assert forall|i: int| 0 <= i < r.len() implies entry_wf(#[trigger] r[i]) by {
            if i > 0 {
                assert(r[i] == rr[i - 1]);
            }
        }
    } else if s[0].path == e.path {
        assert forall|i: int, j: int| 0 <= i < j < r.len() implies bytes_lt(
            r[i].path,
            r[j].path,
        ) by {
            assert(r[j] == s[j]);
            if i > 0 {
                assert(r[i] == s[i]);
            }
        }
        assert forall|i: int| 0 <= i < r.len() implies entry_wf(#[trigger] r[i]) by {
            if i > 0 {
                assert(r[i] == s[i]);
            }
        }
    } else {
        lemma_bytes_lt_trichotomy(s[0].path, e.path);
        assert(bytes_lt(e.path, s[0].path));
        assert forall|i: int, j: int| 0 <= i < j < r.len() implies bytes_lt(
            r[i].path,
            r[j].path,
        ) by {
            if i == 0 && j > 0 {
                assert(r[j] == s[j - 1]);
                if j > 1 {
                    lemma_bytes_lt_trans(e.path, s[0].path, s[j - 1].path);
                }
            } else {
                assert(r[i] == s[i - 1] && r[j] == s[j - 1]);
            }
        }
    }
}

/// Every element of an insertion result at or above a position is the new
/// entry or above the entries before it.
proof fn lemma_insert_low_bound(s: Seq<EntryView>, e: EntryView, k: int)
    requires
        index_wf(s),
        0 <= k < spec_sorted_insert(s, e).len(),
    ensures
        spec_sorted_insert(s, e)[k] == e || (exists|i: int|
            0 <= i < s.len() && (#[trigger] s[i]) == spec_sorted_insert(s, e)[k]),
        s.len() > 0 && bytes_lt(s[0].path, e.path) && k > 0 ==> bytes_lt(
            s[0].path,
            spec_sorted_insert(s, e)[k].path,
        ),
        s.len() > 0 && bytes_lt(e.path, s[0].path) && k > 0 ==> bytes_lt(
            e.path,
            spec_sorted_insert(s, e)[k].path,
        ),
    decreases s.len(),
{
    let r = spec_sorted_insert(s, e);
    if s.len() == 0 {
    } else if bytes_lt(s[0].path, e.path) {
        lemma_bytes_lt_trichotomy(s[0].path, e.path);
        if k > 0 {
            assert(index_wf(s.drop_first()));
            lemma_insert_low_bound(s.drop_first(), e, k - 1);
            let rr = spec_sorted_insert(s.drop_first(), e);
            assert(r[k] == rr[k - 1]);
            if rr[k - 1] == e {
            } else {
                let i0 = choose|i: int|
                    0 <= i < s.drop_first().len() && s.drop_first()[i] == rr[k - 1];
                assert(s[i0 + 1] == rr[k - 1]);
                assert(bytes_lt(s[0].path, s[i0 + 1].path));
            }
        }
    } else if s[0].path == e.path {
        if k > 0 {
            assert(r[k] == s[k]);
        }
    } else {
        lemma_bytes_lt_trichotomy(s[0].path, e.path);
        assert(bytes_lt(e.path, s[0].path));
        if k > 0 {
            assert(r[k] == s[k - 1]);
            if k > 1 {
                lemma_bytes_lt_trans(e.path, s[0].path, s[k - 1].path);
            }
        }
    }
}

/// The staging index: the sorted staged entries and whether they have
/// changed since the last load or write.
pub struct Index {
    entries: Vec<Entry>,
    changed: bool,
}

impl View for Index {
    type V = Seq<EntryView>;

    closed spec fn view(&self) -> Seq<EntryView> {
        Seq::new(self.entries@.len(), |i: int| self.entries@[i]@)
    }
}

impl Index {
    /// Whether the index holds mutations not yet written out.
    pub closed spec fn changed_spec(&self) -> bool {
        self.changed
    }

    /// An empty index with no pending changes.
    pub fn new() -> (r: Index)
        ensures
            r@ =~= Seq::<EntryView>::empty(),
            !r.changed_spec(),
            index_wf(r@),
    {
        Index { entries: Vec::new(), changed: false }
    }

    /// The number of staged entries.
    pub fn len(&self) -> (r: usize)
        ensures
            r == self@.len(),
    {
        self.entries.len()
    }

    /// A reference to the entry at a position, in path order.
    pub fn entry_at(&self, i: usize) -> (r: &Entry)
        requires
            i < self@.len(),
        ensures
            r@ == self@[i as int],
    {
        &self.entries[i]
    }

    /// Whether a path is tracked: staged itself, or a directory some staged
    /// entry lies under.
    pub fn is_path_tracked(&self, path: &str) -> (r: bool)
        ensures
            r == spec_tracked(self@, encode_utf8(path@)),
    {
        let p = path.as_bytes_vec();
        let mut i: usize = 0;
        while i < self.entries.len()
            invariant
                i <= self@.len(),
                self@.len() == self.entries@.len(),
                p@ == encode_utf8(path@),
                forall|j: int| 0 <= j < i ==> (#[trigger] self@[j].path) != p@,
                forall|j: int| 0 <= j < i ==> !is_strict_ancestor(p@, #[trigger] self@[j].path),
            decreases self@.len() - i,
        {
            let e = &self.entries[i];
            proof {
                assert(self@[i as int] == self.entries@[i as int]@);
            }
            match compare_bytes(e.get_path(), &p) {
                ByteOrder::Same => {
                    proof {
                        assert(self@[i as int].path == p@);
                    }
                    return true;
                },
                _ => {},
            }
            if is_strict_ancestor_exec(&p, e.get_path()) {
                proof {
                    assert(is_strict_ancestor(p@, self@[i as int].path));
                }
                return true;
            }
            i += 1;
        }
        false
    }

    /// Removes every entry in conflict with a path: the path itself, any
    /// entry naming a directory above it, and any entry lying under it.
    fn discard_conflicts(&mut self, p: &Vec<u8>)
        ensures
            final(self)@ =~= spec_discard(old(self)@, p@),
            final(self).changed_spec() == old(self).changed_spec(),
    {
        let ghost s0 = self@;
        let mut rest: Vec<Entry> = Vec::new();
        core::mem::swap(&mut self.entries, &mut rest);
        let mut kept: Vec<Entry> = Vec::new();
        let ghost n = rest@.len();
        while rest.len() > 0
            invariant
                s0.len() == n,
                rest@.len() <= n,
                forall|j: int|
                    0 <= j < rest@.len() ==> (#[trigger] rest@[j])@ == s0[n - rest@.len() + j],
                spec_discard(s0, p@) =~= Seq::new(kept@.len(), |i: int| kept@[i]@) + spec_discard(
                    Seq::new(rest@.len(), |i: int| rest@[i]@),
                    p@,
                ),
            decreases rest@.len(),
        {
            let ghost rv = Seq::new(rest@.len(), |i: int| rest@[i]@);
            let e = rest.remove(0);
            proof {
                assert(rv.drop_first() =~= Seq::new(rest@.len(), |i: int| rest@[i]@));
            }
            if conflicts_exec(e.get_path(), p) {
                proof {
                    assert(conflicts_with(rv[0].path, p@));
                }
            } else {
                kept.push(e);
            }
        }
        proof {
            assert(Seq::new(0, |i: int| rest@[i]@) =~= Seq::<EntryView>::empty());
        }
        self.entries = kept;
    }

    /// Stages a path with the object id of its stored blob and its stat
    /// fields, evicting every conflicting entry first.
    pub fn add(&mut self, path: &str, oid: &str, metadata: MinigitMetadata)
        requires
            index_wf(old(self)@),
            path@.len() > 0,
            forall|i: int| 0 <= i < path@.len() ==> (#[trigger] path@[i]) != '\0',
            encode_utf8(path@).len() <= 0x0fff_ffff,
            is_oid(oid@),
        ensures
            final(self)@ =~= spec_index_add(old(self)@, entry_view_of(path@, oid@, metadata)),
            index_wf(final(self)@),
            final(self).changed_spec(),
    {
        let ghost s0 = self@;
        let entry = Entry::new(path, oid, metadata);
        self.discard_conflicts(entry.get_path());
        proof {
            lemma_discard_wf(s0, entry@.path);
        }
        let ghost d = self@;
        self.insert_entry(entry);
        proof {
            assert forall|i: int| 0 <= i < d.len() implies (#[trigger] d[i].path)
                != entry_view_of(path@, oid@, metadata).path by {
                assert(!conflicts_with(d[i].path, entry@.path));
            }
            lemma_sorted_insert_wf(d, entry_view_of(path@, oid@, metadata));
        }
        self.changed = true;
    }

    /// Inserts an entry at its position in path order, replacing any entry
    /// with the same path.
    fn insert_entry(&mut self, entry: Entry)
        ensures
            final(self)@ =~= spec_sorted_insert(old(self)@, entry@),
            final(self).changed_spec() == old(self).changed_spec(),
    {
        let ghost s0 = self@;
        let mut i: usize = 0;
        while i < self.entries.len() && matches!(
            compare_bytes(self.entries[i].get_path(), entry.get_path()),
            ByteOrder::Before
        )
            invariant
                i <= self@.len(),
                self@.len() == self.entries@.len(),
                self@ == s0,
                forall|j: int| 0 <= j < i ==> bytes_lt(#[trigger] s0[j].path, entry@.path),
            decreases self@.len() - i,
        {
            i += 1;
        }
        let ghost skipped = Seq::new((s0.len() - i as int) as nat, |k: int| s0[i as int + k]);
        if i < self.entries.len() && matches!(
            compare_bytes(self.entries[i].get_path(), entry.get_path()),
            ByteOrder::Same
        ) {
            self.entries.remove(i);
            self.entries.insert(i, entry);
        } else {
            proof {
                if i < s0.len() {
                    lemma_bytes_lt_trichotomy(s0[i as int].path, entry@.path);
                }
            }
            self.entries.insert(i, entry);
        }
        proof {
            lemma_sorted_insert_prefix(s0, entry@, i as int);
        }
    }

    /// Replaces the in-memory entries with those parsed from the bytes of
    /// the index file, or leaves the index as it is when no file exists.
    /// Each diagnostic of the format — shortness, a wrong magic, a wrong
    /// version, corruption — is exactly the one the outcome calls for.
    pub fn load_for_update(&mut self, data: Option<&[u8]>) -> (r: MinigitResult<()>)
        ensures
            data is None ==> r is Ok && final(self)@ == old(self)@ && final(self).changed_spec()
                == old(self).changed_spec(),
            data matches Some(d) ==> !final(self).changed_spec() && match spec_parse_index(d@) {
                IndexParse::Parsed(es) => r is Ok && final(self)@ =~= spec_load(es) && index_wf(
                    final(self)@,
                ),
                IndexParse::TooShort => r is Err && r->Err_0.message@ == too_short_message(),
                IndexParse::Corrupt => r is Err && r->Err_0.message@ == corrupt_message(),
                IndexParse::BadVersion(v) => r is Err && r->Err_0.message@
                    == "Index version: expected 2, got "@ + dec_digits(v as int),
                IndexParse::BadSignature(sig) => r is Err && (if valid_utf8(sig) {
                    r->Err_0.message@ == "Index signature: expected 'DIRC', got "@ + decode_utf8(
                        sig,
                    )
                } else {
                    r->Err_0.message@
                        == "Index signature: expected 'DIRC', got incorrect utf8 bytes "@
                        + spec_bytes_debug(sig)
                }),
            },
    {
        let d = match data {
            None => {
                return Ok(());
            },
            Some(d) => d,
        };
        self.entries.clear();
        self.changed = false;
        let mut offset: usize = 0;
        let count = match read_header(d, &mut offset) {
            Ok(c) => c,
            Err(e) => {
                proof {
                    assert(self@ =~= Seq::<EntryView>::empty());
                }
                return Err(e);
            },
        };
        let ghost mut acc: Seq<EntryView> = seq![];
        let mut k: u32 = 0;
        proof {
            assert(self@ =~= Seq::<EntryView>::empty());
            assert(spec_load(acc) =~= Seq::<EntryView>::empty());
        }
        while k < count
            invariant
                data matches Some(dd) && dd@ == d@,
                k <= count,
                offset <= d@.len(),
                index_wf(self@),
                !self.changed,
                self@ =~= spec_load(acc),
                d@.len() >= 12,
                d@.subrange(0, 4) == index_magic(),
                spec_u32_of_be(d@.subrange(4, 8)) == 2,
                count == spec_u32_of_be(d@.subrange(8, 12)),
                match spec_parse_entries(d@, offset as int, count as int - k as int) {
                    EntriesParse::Found(es2, off3) => spec_parse_entries(d@, 12, count as int)
                        == EntriesParse::Found(acc + es2, off3),
                    EntriesParse::TooShort => spec_parse_entries(d@, 12, count as int)
                        is TooShort,
                    EntriesParse::Corrupt => spec_parse_entries(d@, 12, count as int) is Corrupt,
                },
            decreases count as int - k as int,
        {
            let ghost off_before = offset as int;
            let e = match read_entry(d, &mut offset) {
                Ok(e) => e,
                Err(err) => {
                    return Err(err);
                },
            };
            proof {
                match spec_parse_entry(d@, off_before) {
                    EntryParse::Found(ev, off2) => {
                        assert(e@ =~= ev);
                        match spec_parse_entries(d@, off2, count as int - k as int - 1) {
                            EntriesParse::Found(es3, off4) => {
                                assert((acc + (seq![ev] + es3)) =~= (acc.push(ev) + es3));
                            },
                            _ => {},
                        }
                    },
                    _ => {
                        assert(false);
                    },
                }
                assert(acc.push(e@).drop_last() =~= acc);
                assert(acc.push(e@).last() == e@);
                assert(spec_load(acc.push(e@)) == spec_sorted_insert(spec_load(acc), e@));
                lemma_sorted_insert_wf(self@, e@);
            }
            let ghost e_view = e@;
            self.insert_entry(e);
            proof {
                acc = acc.push(e_view);
            }
            k += 1;
        }
        proof {
            assert(spec_parse_entries(d@, offset as int, 0) == EntriesParse::Found(
                Seq::<EntryView>::empty(),
                offset as int,
            ));
            assert(acc + Seq::<EntryView>::empty() =~= acc);
        }
        match verify_hash(offset, d) {
            Ok(()) => Ok(()),
            Err(e) => Err(e),
        }
    }

    /// Loads the index file's bytes, if any, and hands out the resulting
    /// entries in path order.
    pub fn load_and_get_entries(self, data: Option<&[u8]>) -> (r: MinigitResult<Vec<Entry>>)
        ensures
            data is None ==> (r matches Ok(v) && v@.len() == self@.len() && (forall|i: int|
                0 <= i < v@.len() ==> (#[trigger] v@[i])@ == self@[i])),
            data matches Some(d) ==> match spec_parse_index(d@) {
                IndexParse::Parsed(es) => r matches Ok(v) && v@.len() == spec_load(es).len() && (
                forall|i: int| 0 <= i < v@.len() ==> (#[trigger] v@[i])@ == spec_load(es)[i]),
                IndexParse::TooShort => r is Err && r->Err_0.message@ == too_short_message(),
                IndexParse::Corrupt => r is Err && r->Err_0.message@ == corrupt_message(),
                IndexParse::BadVersion(v) => r is Err && r->Err_0.message@
                    == "Index version: expected 2, got "@ + dec_digits(v as int),
                IndexParse::BadSignature(sig) => r is Err,
            },
    {
        let mut this = self;
        match this.load_for_update(data) {
            Ok(()) => Ok(this.into_entries()),
            Err(e) => Err(e),
        }
    }

    /// Serializes the index when it holds unwritten changes: the `DIRC`
    /// header, the entries in path order, and the SHA-1 of all preceding
    /// bytes. Returns nothing when no mutation happened since the last load.
    #[verifier::rlimit(50)]
    pub fn write_updates(&mut self) -> (r: Option<Vec<u8>>)
        requires
            index_wf(old(self)@),
            old(self)@.len() <= 0xffff_ffff,
        ensures
            final(self)@ == old(self)@,
            final(self).changed_spec() == old(self).changed_spec(),
            !old(self).changed_spec() ==> r is None,
            old(self).changed_spec() ==> (r matches Some(v) && v@ == index_file_bytes(
                old(self)@,
            )),
    {
        if !self.changed {
            return None;
        }
        let mut body: Vec<u8> = Vec::new();
        let m = "DIRC";
        body.extend_from_slice(m.as_bytes());
        proof {
            reveal_strlit("DIRC");
            assert(vstd::utf8::is_ascii_chars("DIRC"@)) by {
                assert("DIRC"@[0] == 'D' && "DIRC"@[1] == 'I' && "DIRC"@[2] == 'R' && "DIRC"@[3]
                    == 'C');
            }
            vstd::utf8::is_ascii_chars_encode_utf8("DIRC"@);
            assert(body@ =~= index_magic());
        }
        let v = crate::u32_to_u8_array_big_endian(2);
        body.extend_from_slice(v.as_slice());
        let n = crate::u32_to_u8_array_big_endian(self.entries.len() as u32);
        body.extend_from_slice(n.as_slice());
        let ghost prefix = index_magic() + spec_be32(2) + spec_be32(self@.len() as u32);
        proof {
            assert(body@ =~= prefix);
        }
        let mut i: usize = 0;
        while i < self.entries.len()
            invariant
                index_wf(self@),
                self@.len() == self.entries@.len() <= 0xffff_ffff,
                i <= self@.len(),
                prefix == index_magic() + spec_be32(2) + spec_be32(self@.len() as u32),
                body@ == prefix + entries_bytes(self@.take(i as int)),
            decreases self@.len() - i,
        {
            proof {
                assert(self@[i as int] == self.entries@[i as int]@);
            }
            let ed = self.entries[i].get_data();
            body.extend_from_slice(ed.as_slice());
            proof {
                lemma_entries_bytes_push(self@.take(i as int), self@[i as int]);
                assert(self@.take(i as int).push(self@[i as int]) =~= self@.take(i as int + 1));
            }
            i += 1;
        }
        proof {
            assert(self@.take(self@.len() as int) =~= self@);
        }
        let digest = sha1_digest(body.as_slice());
        body.extend_from_slice(digest.as_slice());
        Some(body)
    }

    /// Consumes the index and hands out its entries in path order.
    pub fn into_entries(self) -> (r: Vec<Entry>)
        ensures
            r@.len() == self@.len(),
            forall|i: int| 0 <= i < r@.len() ==> (#[trigger] r@[i])@ == self@[i],
    {
        self.entries
    }
}

/// Inserting past `i` entries all below the new path prepends them
/// unchanged.
proof fn lemma_sorted_insert_prefix(s: Seq<EntryView>, e: EntryView, i: int)
    requires
        0 <= i <= s.len(),
        forall|j: int| 0 <= j < i ==> bytes_lt(#[trigger] s[j].path, e.path),
        i < s.len() ==> !bytes_lt(s[i].path, e.path),
    ensures
        i < s.len() && s[i].path == e.path ==> spec_sorted_insert(s, e) =~= s.take(i) + seq![e]
            + s.skip(i + 1),
        !(i < s.len() && s[i].path == e.path) ==> spec_sorted_insert(s, e) =~= s.take(i) + seq![e]
            + s.skip(i),
    decreases i,
{
    if i == 0 {
        if s.len() > 0 {
            if s[0].path == e.path {
                assert(spec_sorted_insert(s, e) == seq![e] + s.drop_first());
                assert(seq![e] + s.drop_first() =~= s.take(0) + seq![e] + s.skip(1));
            } else {
                lemma_bytes_lt_trichotomy(s[0].path, e.path);
                assert(spec_sorted_insert(s, e) == seq![e] + s);
                assert(seq![e] + s =~= s.take(0) + seq![e] + s.skip(0));
            }
        } else {
            assert(spec_sorted_insert(s, e) =~= s.take(0) + seq![e] + s.skip(0));
        }
    } else {
        assert(bytes_lt(s[0].path, e.path));
        assert(spec_sorted_insert(s, e) == seq![s[0]] + spec_sorted_insert(s.drop_first(), e));
        assert forall|j: int| 0 <= j < i - 1 implies bytes_lt(
            (#[trigger] s.drop_first()[j]).path,
            e.path,
        ) by {
            assert(s.drop_first()[j] == s[j + 1]);
        }
        lemma_sorted_insert_prefix(s.drop_first(), e, i - 1);
        if i < s.len() && s[i].path == e.path {
            assert(s.drop_first().take(i - 1) =~= s.take(i).drop_first());
            assert(s.drop_first().skip(i) =~= s.skip(i + 1));
            assert(seq![s[0]] + (s.take(i).drop_first() + seq![e] + s.skip(i + 1)) =~= s.take(i)
                + seq![e] + s.skip(i + 1));
        } else {
            assert(s.drop_first().take(i - 1) =~= s.take(i).drop_first());
            assert(s.drop_first().skip(i - 1) =~= s.skip(i));
            assert(seq![s[0]] + (s.take(i).drop_first() + seq![e] + s.skip(i)) =~= s.take(i)
                + seq![e] + s.skip(i));
        }
    }
}

/// The entries of a parsed file folded into the sorted map, first to last.
pub open spec fn spec_load(es: Seq<EntryView>) -> Seq<EntryView>
    decreases es.len(),
{
    if es.len() == 0 {
        seq![]
    } else {
        spec_sorted_insert(spec_load(es.drop_last()), es.last())
    }
}

/// The four magic bytes opening an index file, spelling `DIRC`.
pub open spec fn index_magic() -> Seq<u8> {
    seq![68u8, 73u8, 82u8, 67u8]
}

/// The serialized entries, in order.
pub open spec fn entries_bytes(s: Seq<EntryView>) -> Seq<u8>
    decreases s.len(),
{
    if s.len() == 0 {
        seq![]
    } else {
        entry_disk_bytes(s[0]) + entries_bytes(s.drop_first())
    }
}

/// Everything of an index file before the trailing hash.
pub open spec fn index_body_bytes(s: Seq<EntryView>) -> Seq<u8> {
    index_magic() + spec_be32(2) + spec_be32(s.len() as u32) + entries_bytes(s)
}

/// A whole index file: the body and the SHA-1 of the body.
pub open spec fn index_file_bytes(s: Seq<EntryView>) -> Seq<u8> {
    index_body_bytes(s) + sha1_bytes(index_body_bytes(s))
}

/// Serialization of the entries appends one entry at a time.
#[verifier::rlimit(50)]
proof fn lemma_entries_bytes_push(s: Seq<EntryView>, e: EntryView)
    ensures
        entries_bytes(s.push(e)) =~= entries_bytes(s) + entry_disk_bytes(e),
    decreases s.len(),
{
    if s.len() == 0 {
        assert(s.push(e)[0] == e);
        assert(s.push(e).drop_first() =~= Seq::<EntryView>::empty());
        assert(entries_bytes(s.push(e)) == entry_disk_bytes(e) + entries_bytes(
            Seq::<EntryView>::empty(),
        ));
        assert(entries_bytes(Seq::<EntryView>::empty()) == Seq::<u8>::empty());
        assert(entries_bytes(s) == Seq::<u8>::empty());
    } else {
        assert(s.push(e)[0] == s[0]);
        assert(s.push(e).drop_first() =~= s.drop_first().push(e));
        assert(entries_bytes(s.push(e)) == entry_disk_bytes(s[0]) + entries_bytes(
            s.drop_first().push(e),
        ));
        lemma_entries_bytes_push(s.drop_first(), e);
        assert(entries_bytes(s) == entry_disk_bytes(s[0]) + entries_bytes(s.drop_first()));
    }
}

/// Every element of an insertion result is the new entry or one of the old.
proof fn lemma_insert_elems(s: Seq<EntryView>, e: EntryView)
    ensures
        forall|k: int|
            0 <= k < spec_sorted_insert(s, e).len() ==> (#[trigger] spec_sorted_insert(s, e)[k])
                == e || exists|i: int| 0 <= i < s.len() && s[i] == spec_sorted_insert(s, e)[k],
    decreases s.len(),
{
    let r = spec_sorted_insert(s, e);
    if s.len() == 0 {
    } else if bytes_lt(s[0].path, e.path) {
        lemma_insert_elems(s.drop_first(), e);
        let rr = spec_sorted_insert(s.drop_first(), e);
        assert forall|k: int| 0 <= k < r.len() implies (#[trigger] r[k]) == e || exists|i: int|
            0 <= i < s.len() && s[i] == r[k] by {
            if k == 0 {
                assert(r[0] == s[0]);
            } else {
                assert(r[k] == rr[k - 1]);
                if rr[k - 1] != e {
                    let i0 = choose|i: int|
                        0 <= i < s.drop_first().len() && s.drop_first()[i] == rr[k - 1];
                    assert(s[i0 + 1] == r[k]);
                }
            }
        }
    } else if s[0].path == e.path {
        assert forall|k: int| 0 <= k < r.len() implies (#[trigger] r[k]) == e || exists|i: int|
            0 <= i < s.len() && s[i] == r[k] by {
            if k > 0 {
                assert(r[k] == s[k]);
            }
        }
    } else {
        assert forall|k: int| 0 <= k < r.len() implies (#[trigger] r[k]) == e || exists|i: int|
            0 <= i < s.len() && s[i] == r[k] by {
            if k > 0 {
                assert(r[k] == s[k - 1]);
            }
        }
    }
}

/// Adding to an index whose entry paths form an antichain under the
/// directory-prefix relation leaves them an antichain: the conflict rule
/// evicts exactly what would break it.
pub proof fn lemma_add_preserves_antichain(s: Seq<EntryView>, e: EntryView)
    requires
        index_antichain(s),
    ensures
        index_antichain(spec_index_add(s, e)),
{
    let d = spec_discard(s, e.path);
    let r = spec_sorted_insert(d, e);
    lemma_discard_elems(s, e.path);
    lemma_insert_elems(d, e);
    assert forall|i: int, j: int|
        0 <= i < r.len() && 0 <= j < r.len() implies !is_strict_ancestor(
        #[trigger] r[i].path,
        #[trigger] r[j].path,
    ) by {
        if r[i] == e && r[j] == e {
        } else if r[i] == e {
            let k = choose|k: int| 0 <= k < d.len() && d[k] == r[j];
            assert(!conflicts_with(d[k].path, e.path));
        } else if r[j] == e {
            let k = choose|k: int| 0 <= k < d.len() && d[k] == r[i];
            assert(!conflicts_with(d[k].path, e.path));
        } else {
            let ki = choose|k: int| 0 <= k < d.len() && d[k] == r[i];
            let kj = choose|k: int| 0 <= k < d.len() && d[k] == r[j];
            let si = choose|k: int| 0 <= k < s.len() && d[ki] == s[k];
            let sj = choose|k: int| 0 <= k < s.len() && d[kj] == s[k];
            assert(!is_strict_ancestor(s[si].path, s[sj].path));
        }
    }
}

/// An empty index trivially satisfies the antichain invariant.
pub proof fn lemma_empty_antichain()
    ensures
        index_antichain(Seq::<EntryView>::empty()),
{
}

/// The advisory diagnostic when the index lock cannot be taken.
pub fn lock_contention_message(inner: &str) -> (r: String)
    ensures
        r@ == "fatal: "@ + inner@
            + "\n\nAnother git process seems to be running in this repository.\nPlease make sure all processes are terminated then try again.\nIf it still fails, a git process may have crashed in this repository earlier: remove the file manually to continue."@,
{
    let mut m = String::new();
    m.append("fatal: ");
    m.append(inner);
    m.append(
        "\n\nAnother git process seems to be running in this repository.\nPlease make sure all processes are terminated then try again.\nIf it still fails, a git process may have crashed in this repository earlier: remove the file manually to continue.",
    );
    m
}

/// The outcome of parsing one serialized entry.
pub enum EntryParse {
    Found(EntryView, int),
    TooShort,
    Corrupt,
}

/// The outcome of parsing a run of serialized entries.
pub enum EntriesParse {
    Found(Seq<EntryView>, int),
    TooShort,
    Corrupt,
}

/// The outcome of parsing a whole index file.
pub enum IndexParse {
    Parsed(Seq<EntryView>),
    TooShort,
    BadSignature(Seq<u8>),
    BadVersion(u32),
    Corrupt,
}

/// The size of an entry past its fixed prefix: blocks of eight bytes are
/// consumed, starting at two, until one ends in a NUL; nothing if the data
/// runs out first.
pub open spec fn spec_scan_block_end(data: Seq<u8>, pos: int, size: int) -> Option<int>
    recommends
        0 <= pos,
        1 <= size,
    decreases data.len() - pos - size + 8,
{
    if pos + size > data.len() {
        None
    } else if data[pos + size - 1] == 0 {
        Some(size)
    } else {
        spec_scan_block_end(data, pos, size + 8)
    }
}

/// The path length within an entry's variable part: trailing NULs removed.
pub open spec fn spec_strip_zeros(data: Seq<u8>, pos: int, size: int) -> int
    decreases size,
{
    if size <= 0 {
        0
    } else if data[pos + size - 1] != 0 {
        size
    } else {
        spec_strip_zeros(data, pos, size - 1)
    }
}

/// The ten stat fields read from an entry's fixed prefix.
pub open spec fn spec_meta_of(d: Seq<u8>, off: int) -> MinigitMetadata {
    MinigitMetadata {
        ctime: spec_u32_of_be(d.subrange(off, off + 4)),
        ctime_nsec: spec_u32_of_be(d.subrange(off + 4, off + 8)),
        mtime: spec_u32_of_be(d.subrange(off + 8, off + 12)),
        mtime_nsec: spec_u32_of_be(d.subrange(off + 12, off + 16)),
        dev: spec_u32_of_be(d.subrange(off + 16, off + 20)),
        ino: spec_u32_of_be(d.subrange(off + 20, off + 24)),
        mode: spec_u32_of_be(d.subrange(off + 24, off + 28)),
        uid: spec_u32_of_be(d.subrange(off + 28, off + 32)),
        gid: spec_u32_of_be(d.subrange(off + 32, off + 36)),
        size: spec_u32_of_be(d.subrange(off + 36, off + 40)),
    }
}

/// One entry parsed at an offset: the fixed prefix, then the path found by
/// the block scan, stripped of its NUL padding and decoded as UTF-8.
pub open spec fn spec_parse_entry(d: Seq<u8>, off: int) -> EntryParse {
    if off + 62 > d.len() {
        EntryParse::TooShort
    } else {
        match spec_scan_block_end(d, off + 62, 2) {
            None => EntryParse::TooShort,
            Some(esize) => {
                let psize = spec_strip_zeros(d, off + 62, esize);
                let path = d.subrange(off + 62, off + 62 + psize);
                if psize == 0 || psize > 0x0fff_ffff {
                    EntryParse::Corrupt
                } else if (exists|i: int| 0 <= i < path.len() && path[i] == 0) || !valid_utf8(
                    path,
                ) {
                    EntryParse::Corrupt
                } else {
                    EntryParse::Found(
                        EntryView {
                            path,
                            path_str: decode_utf8(path),
                            oid: d.subrange(off + 40, off + 60),
                            metadata: spec_meta_of(d, off),
                            flags: spec_flags(psize),
                        },
                        off + 62 + esize,
                    )
                }
            },
        }
    }
}

/// A run of entries parsed in sequence.
pub open spec fn spec_parse_entries(d: Seq<u8>, off: int, count: int) -> EntriesParse
    decreases count,
{
    if count <= 0 {
        EntriesParse::Found(seq![], off)
    } else {
        match spec_parse_entry(d, off) {
            EntryParse::TooShort => EntriesParse::TooShort,
            EntryParse::Corrupt => EntriesParse::Corrupt,
            EntryParse::Found(e, off2) => match spec_parse_entries(d, off2, count - 1) {
                EntriesParse::Found(es, off3) => EntriesParse::Found(seq![e] + es, off3),
                EntriesParse::TooShort => EntriesParse::TooShort,
                EntriesParse::Corrupt => EntriesParse::Corrupt,
            },
        }
    }
}

/// A whole index file parsed: magic, version 2, entry count, the entries,
/// and a trailing SHA-1 of everything before the final 20 bytes.
pub open spec fn spec_parse_index(d: Seq<u8>) -> IndexParse {
    if d.len() < 4 {
        IndexParse::TooShort
    } else if d.subrange(0, 4) != index_magic() {
        IndexParse::BadSignature(d.subrange(0, 4))
    } else if d.len() < 8 {
        IndexParse::TooShort
    } else if spec_u32_of_be(d.subrange(4, 8)) != 2 {
        IndexParse::BadVersion(spec_u32_of_be(d.subrange(4, 8)))
    } else if d.len() < 12 {
        IndexParse::TooShort
    } else {
        match spec_parse_entries(d, 12, spec_u32_of_be(d.subrange(8, 12)) as int) {
            EntriesParse::TooShort => IndexParse::TooShort,
            EntriesParse::Corrupt => IndexParse::Corrupt,
            EntriesParse::Found(es, off) => {
                if off + 20 > d.len() {
                    IndexParse::TooShort
                } else if sha1_bytes(d.take(d.len() - 20)) != d.subrange(
                    d.len() - 20,
                    d.len() as int,
                ) {
                    IndexParse::Corrupt
                } else {
                    IndexParse::Parsed(es)
                }
            },
        }
    }
}

/// The diagnostic for an index file shorter than its contents claim.
pub open spec fn too_short_message() -> Seq<char> {
    "fatal: index was shorter than expected"@
}

/// The diagnostic for a corrupt index file.
pub open spec fn corrupt_message() -> Seq<char> {
    "fatal: index file corrupt"@
}

/// A borrowed window of `size` bytes, advancing the offset; the shortness
/// diagnostic when fewer bytes remain.
fn get_slice<'a>(data: &'a [u8], offset: &mut usize, size: usize) -> (r: MinigitResult<&'a [u8]>)
    requires
        *old(offset) <= data@.len(),
    ensures
        data@.len() - *old(offset) < size ==> (r is Err && *final(offset) == *old(offset)
            && r->Err_0.message@ == too_short_message()),
        data@.len() - *old(offset) >= size ==> (r matches Ok(s) && s@ == data@.subrange(
            *old(offset) as int,
            *old(offset) + size,
        ) && *final(offset) == *old(offset) + size && *final(offset) <= data@.len()),
{
    if data.len() - *offset < size {
        return Err(MinigitError::new(String::from_str("fatal: index was shorter than expected")));
    }
    let old_offset = *offset;
    *offset = *offset + size;
    Ok(slice_subrange(data, old_offset, *offset))
}

/// The entry size and padding at an offset: blocks of eight bytes after the
/// first two are consumed until one ends in NUL, then trailing NULs are
/// stripped off the path.
fn get_entry_size(data: &[u8], offset: usize) -> (r: MinigitResult<(usize, usize)>)
    requires
        offset <= data@.len(),
    ensures
        match spec_scan_block_end(data@, offset as int, 2) {
            Option::None => r is Err && r->Err_0.message@ == too_short_message(),
            Option::Some(esize) => {
                let psize = spec_strip_zeros(data@, offset as int, esize);
                if psize == 0 {
                    r is Err && r->Err_0.message@ == corrupt_message()
                } else {
                    r matches Ok(p) && p.0 == psize && p.1 == esize - psize
                }
            },
        },
{
    let mut entry_size: usize = 2;
    if data.len() - offset < entry_size {
        return Err(MinigitError::new(String::from_str("fatal: index was shorter than expected")));
    }
    while data[offset + entry_size - 1] != 0
        invariant
            2 <= entry_size,
            offset + entry_size <= data@.len(),
            data@.len() <= usize::MAX,
            spec_scan_block_end(data@, offset as int, 2) == spec_scan_block_end(
                data@,
                offset as int,
                entry_size as int,
            ),
        decreases data@.len() - offset - entry_size,
    {
        proof {
            assert(spec_scan_block_end(data@, offset as int, entry_size as int)
                == spec_scan_block_end(data@, offset as int, entry_size as int + 8));
        }
        if data.len() - offset - entry_size < 8 {
            proof {
                assert(spec_scan_block_end(data@, offset as int, entry_size as int + 8)
                    == Option::<int>::None);
            }
            return Err(
                MinigitError::new(String::from_str("fatal: index was shorter than expected")),
            );
        }
        entry_size += 8;
    }
    proof {
        assert(spec_scan_block_end(data@, offset as int, entry_size as int) == Some(
            entry_size as int,
        ));
    }
    let ghost esize = entry_size as int;
    let mut path_size: usize = entry_size;
    while data[offset + path_size - 1] == 0
        invariant
            1 <= path_size <= entry_size,
            2 <= entry_size,
            offset + entry_size <= data@.len(),
            data@.len() <= usize::MAX,
            spec_strip_zeros(data@, offset as int, esize) == spec_strip_zeros(
                data@,
                offset as int,
                path_size as int,
            ),
            esize == entry_size as int,
            spec_scan_block_end(data@, offset as int, 2) == Some(esize),
        decreases path_size,
    {
        proof {
            assert(spec_strip_zeros(data@, offset as int, path_size as int) == spec_strip_zeros(
                data@,
                offset as int,
                path_size as int - 1,
            ));
        }
        path_size -= 1;
        if path_size == 0 {
            proof {
                assert(spec_strip_zeros(data@, offset as int, 0) == 0);
            }
            return Err(MinigitError::new(String::from_str("fatal: index file corrupt")));
        }
    }
    proof {
        assert(spec_strip_zeros(data@, offset as int, path_size as int) == path_size as int);
    }
    Ok((path_size, entry_size - path_size))
}

/// Bounds of a successful block scan: the found size is at least the start,
/// the data covers it, and its last byte is NUL.
proof fn lemma_scan_bounds(data: Seq<u8>, pos: int, size: int)
    requires
        0 <= pos,
        1 <= size,
    ensures
        match spec_scan_block_end(data, pos, size) {
            Option::None => true,
            Option::Some(e) => size <= e && pos + e <= data.len() && data[pos + e - 1] == 0,
        },
    decreases data.len() - pos - size + 8,
{
    if pos + size > data.len() {
    } else if data[pos + size - 1] == 0 {
    } else {
        lemma_scan_bounds(data, pos, size + 8);
    }
}

/// Bounds of the padding strip: the path size is within the entry, the byte
/// before the padding is not NUL, and everything after it is.
proof fn lemma_strip_bounds(data: Seq<u8>, pos: int, size: int)
    requires
        0 <= pos,
        0 <= size,
    ensures
        0 <= spec_strip_zeros(data, pos, size) <= size,
        spec_strip_zeros(data, pos, size) > 0 ==> data[pos + spec_strip_zeros(data, pos, size)
            - 1] != 0,
        forall|j: int|
            pos + spec_strip_zeros(data, pos, size) <= j < pos + size ==> data[j] == 0,
    decreases size,
{
    if size > 0 && data[pos + size - 1] == 0 {
        lemma_strip_bounds(data, pos, size - 1);
    }
}

/// The rendering of raw bytes in a diagnostic: decimal values, separated by
/// a comma and a space, between square brackets.
pub open spec fn spec_bytes_debug_inner(b: Seq<u8>) -> Seq<char>
    decreases b.len(),
{
    if b.len() == 0 {
        seq![]
    } else if b.len() == 1 {
        dec_digits(b[0] as int)
    } else {
        dec_digits(b[0] as int) + seq![',', ' '] + spec_bytes_debug_inner(b.drop_first())
    }
}

/// The full bracketed rendering of raw bytes in a diagnostic.
pub open spec fn spec_bytes_debug(b: Seq<u8>) -> Seq<char> {
    seq!['['] + spec_bytes_debug_inner(b) + seq![']']
}

/// The rendering grows one byte at a time.
proof fn lemma_bytes_debug_inner_push(b: Seq<u8>, x: u8)
    ensures
        b.len() == 0 ==> spec_bytes_debug_inner(b.push(x)) =~= dec_digits(x as int),
        b.len() > 0 ==> spec_bytes_debug_inner(b.push(x)) =~= spec_bytes_debug_inner(b) + seq![
            ',',
            ' ',
        ] + dec_digits(x as int),
    decreases b.len(),
{
    if b.len() == 0 {
        assert(b.push(x)[0] == x);
    } else {
        assert(b.push(x)[0] == b[0]);
        assert(b.push(x).drop_first() =~= b.drop_first().push(x));
        lemma_bytes_debug_inner_push(b.drop_first(), x);
        if b.len() == 1 {
            assert(spec_bytes_debug_inner(b) == dec_digits(b[0] as int));
        }
    }
}

/// Renders raw bytes for a diagnostic.
fn bytes_debug_string(b: &[u8]) -> (r: String)
    ensures
        r@ == spec_bytes_debug(b@),
{
    proof {
        reveal_strlit("[");
        reveal_strlit("]");
        reveal_strlit(", ");
        assert("["@ =~= seq!['[']);
        assert("]"@ =~= seq![']']);
        assert(", "@ =~= seq![',', ' ']);
    }
    let mut r = String::new();
    r.append("[");
    let mut i: usize = 0;
    while i < b.len()
        invariant
            i <= b@.len(),
            r@ == seq!['['] + spec_bytes_debug_inner(b@.take(i as int)),
            ", "@ =~= seq![',', ' '],
        decreases b@.len() - i,
    {
        if i > 0 {
            r.append(", ");
        }
        let d = u64_to_dec_string(b[i] as u64);
        r.append(d.as_str());
        proof {
            lemma_bytes_debug_inner_push(b@.take(i as int), b@[i as int]);
            assert(b@.take(i as int).push(b@[i as int]) =~= b@.take(i as int + 1));
        }
        i += 1;
    }
    r.append("]");
    proof {
        assert(b@.take(b@.len() as int) =~= b@);
    }
    r
}

/// Reads the `DIRC` magic, the version, and the entry count, with the exact
/// diagnostic for each way a header can be wrong.
fn read_header(data: &[u8], offset: &mut usize) -> (r: MinigitResult<u32>)
    requires
        *old(offset) == 0,
    ensures
        data@.len() < 4 ==> r is Err && r->Err_0.message@ == too_short_message(),
        data@.len() >= 4 && data@.subrange(0, 4) != index_magic() ==> r is Err && ({
            let sig = data@.subrange(0, 4);
            if valid_utf8(sig) {
                r->Err_0.message@ == "Index signature: expected 'DIRC', got "@ + decode_utf8(sig)
            } else {
                r->Err_0.message@ == "Index signature: expected 'DIRC', got incorrect utf8 bytes "@
                    + spec_bytes_debug(sig)
            }
        }),
        data@.len() >= 4 && data@.subrange(0, 4) == index_magic() && data@.len() < 8 ==> r is Err
            && r->Err_0.message@ == too_short_message(),
        data@.len() >= 8 && data@.subrange(0, 4) == index_magic() && spec_u32_of_be(
            data@.subrange(4, 8),
        ) != 2 ==> r is Err && r->Err_0.message@ == "Index version: expected 2, got "@
            + dec_digits(spec_u32_of_be(data@.subrange(4, 8)) as int),
        data@.len() >= 8 && data@.subrange(0, 4) == index_magic() && spec_u32_of_be(
            data@.subrange(4, 8),
        ) == 2 && data@.len() < 12 ==> r is Err && r->Err_0.message@ == too_short_message(),
        data@.len() >= 12 && data@.subrange(0, 4) == index_magic() && spec_u32_of_be(
            data@.subrange(4, 8),
        ) == 2 ==> (r matches Ok(c) && c == spec_u32_of_be(data@.subrange(8, 12))
            && *final(offset) == 12),
{
    let signature = match get_slice(data, offset, 4) {
        Ok(s) => s,
        Err(e) => {
            return Err(e);
        },
    };
    if !(signature[0] == 68 && signature[1] == 73 && signature[2] == 82 && signature[3] == 67) {
        proof {
            assert(data@.subrange(0, 4) != index_magic()) by {
                if data@.subrange(0, 4) == index_magic() {
                    assert(data@.subrange(0, 4)[0] == 68u8 && data@.subrange(0, 4)[1] == 73u8
                        && data@.subrange(0, 4)[2] == 82u8 && data@.subrange(0, 4)[3] == 67u8);
                }
            }
        }
        let sig_vec = slice_to_vec(signature);
        match bytes_to_string(sig_vec) {
            Some(sig_str) => {
                proof {
                    vstd::utf8::encode_utf8_decode_utf8(sig_str@);
                }
                let mut m = String::new();
                m.append("Index signature: expected 'DIRC', got ");
                m.append(sig_str.as_str());
                return Err(MinigitError::new(m));
            },
            None => {
                let rendered = bytes_debug_string(signature);
                let mut m = String::new();
                m.append("Index signature: expected 'DIRC', got incorrect utf8 bytes ");
                m.append(rendered.as_str());
                return Err(MinigitError::new(m));
            },
        }
    }
    proof {
        assert(data@.subrange(0, 4) =~= index_magic());
    }
    let version_slice = match get_slice(data, offset, 4) {
        Ok(s) => s,
        Err(e) => {
            return Err(e);
        },
    };
    let version = crate::u8_array_to_u32_big_endian(version_slice);
    if version != 2 {
        let mut m = String::new();
        m.append("Index version: expected 2, got ");
        let d = u64_to_dec_string(version as u64);
        m.append(d.as_str());
        return Err(MinigitError::new(m));
    }
    let count_slice = match get_slice(data, offset, 4) {
        Ok(s) => s,
        Err(e) => {
            return Err(e);
        },
    };
    Ok(crate::u8_array_to_u32_big_endian(count_slice))
}

/// Checks that the final 20 bytes equal the SHA-1 of everything before
/// them.
fn verify_hash(offset: usize, data: &[u8]) -> (r: MinigitResult<()>)
    requires
        offset <= data@.len(),
    ensures
        data@.len() - offset < 20 ==> r is Err && r->Err_0.message@ == too_short_message(),
        data@.len() - offset >= 20 ==> if sha1_bytes(data@.take(data@.len() - 20))
            == data@.subrange(data@.len() - 20, data@.len() as int) {
            r is Ok
        } else {
            r is Err && r->Err_0.message@ == corrupt_message()
        },
{
    if data.len() - offset < 20 {
        return Err(MinigitError::new(String::from_str("fatal: index was shorter than expected")));
    }
    let body = slice_subrange(data, 0, data.len() - 20);
    let expected_hash = sha1_digest(body);
    let actual_slice = slice_subrange(data, data.len() - 20, data.len());
    let actual_hash = slice_to_vec(actual_slice);
    match compare_bytes(&expected_hash, &actual_hash) {
        ByteOrder::Same => Ok(()),
        _ => Err(MinigitError::new(String::from_str("fatal: index file corrupt"))),
    }
}

/// One entry read at the offset: the 62-byte fixed prefix, then the path up
/// to its NUL padding, reconstructed as a staged entry.
#[verifier::rlimit(100)]
fn read_entry(data: &[u8], offset: &mut usize) -> (r: MinigitResult<Entry>)
    requires
        *old(offset) <= data@.len(),
    ensures
        *final(offset) <= data@.len(),
        match spec_parse_entry(data@, *old(offset) as int) {
            EntryParse::Found(e, off2) => (r matches Ok(en) && en@ =~= e && entry_wf(en@)
                && *final(offset) == off2),
            EntryParse::TooShort => r is Err && r->Err_0.message@ == too_short_message(),
            EntryParse::Corrupt => r is Err && r->Err_0.message@ == corrupt_message(),
        },
{
    let dlen = data.len();
    let ghost off0 = *offset as int;
    let s0 = match get_slice(data, offset, 4) {
        Ok(s) => s,
        Err(e) => {
            return Err(e);
        },
    };
    let s1 = match get_slice(data, offset, 4) {
        Ok(s) => s,
        Err(e) => {
            return Err(e);
        },
    };
    let s2 = match get_slice(data, offset, 4) {
        Ok(s) => s,
        Err(e) => {
            return Err(e);
        },
    };
    let s3 = match get_slice(data, offset, 4) {
        Ok(s) => s,
        Err(e) => {
            return Err(e);
        },
    };
    let s4 = match get_slice(data, offset, 4) {
        Ok(s) => s,
        Err(e) => {
            return Err(e);
        },
    };
    let s5 = match get_slice(data, offset, 4) {
        Ok(s) => s,
        Err(e) => {
            return Err(e);
        },
    };
    let s6 = match get_slice(data, offset, 4) {
        Ok(s) => s,
        Err(e) => {
            return Err(e);
        },
    };
    let s7 = match get_slice(data, offset, 4) {
        Ok(s) => s,
        Err(e) => {
            return Err(e);
        },
    };
    let s8 = match get_slice(data, offset, 4) {
        Ok(s) => s,
        Err(e) => {
            return Err(e);
        },
    };
    let s9 = match get_slice(data, offset, 4) {
        Ok(s) => s,
        Err(e) => {
            return Err(e);
        },
    };
    let metadata = MinigitMetadata {
        ctime: crate::u8_array_to_u32_big_endian(s0),
        ctime_nsec: crate::u8_array_to_u32_big_endian(s1),
        mtime: crate::u8_array_to_u32_big_endian(s2),
        mtime_nsec: crate::u8_array_to_u32_big_endian(s3),
        dev: crate::u8_array_to_u32_big_endian(s4),
        ino: crate::u8_array_to_u32_big_endian(s5),
        mode: crate::u8_array_to_u32_big_endian(s6),
        uid: crate::u8_array_to_u32_big_endian(s7),
        gid: crate::u8_array_to_u32_big_endian(s8),
        size: crate::u8_array_to_u32_big_endian(s9),
    };
    proof {
        assert(metadata =~= spec_meta_of(data@, off0));
    }
    let oid_slice = match get_slice(data, offset, 20) {
        Ok(s) => s,
        Err(e) => {
            return Err(e);
        },
    };
    match get_slice(data, offset, 2) {
        Ok(_) => {},
        Err(e) => {
            return Err(e);
        },
    };
    proof {
        assert(*offset == off0 + 62);
    }
    let (path_size, padding_size) = match get_entry_size(data, *offset) {
        Ok(p) => p,
        Err(e) => {
            return Err(e);
        },
    };
    let ghost esize = path_size as int + padding_size as int;
    proof {
        lemma_scan_bounds(data@, off0 + 62, 2);
        match spec_scan_block_end(data@, off0 + 62, 2) {
            Option::Some(es) => {
                assert(es == esize);
                assert(spec_strip_zeros(data@, off0 + 62, esize) == path_size as int);
                assert(off0 + 62 + esize <= data@.len());
            },
            Option::None => {
                assert(false);
            },
        }
        lemma_strip_bounds(data@, off0 + 62, esize);
    }
    if path_size > 0x0fff_ffff {
        return Err(MinigitError::new(String::from_str("fatal: index file corrupt")));
    }
    let path_slice = slice_subrange(data, *offset, *offset + path_size);
    proof {
        assert(path_slice@ == data@.subrange(off0 + 62, off0 + 62 + path_size as int));
    }
    *offset = *offset + path_size;
    *offset = *offset + padding_size;
    let path_vec = slice_to_vec(path_slice);
    let ghost pb = path_vec@;
    let mut i: usize = 0;
    while i < path_vec.len()
        invariant
            i <= pb.len(),
            path_vec@ == pb,
            forall|j: int| 0 <= j < i ==> (#[trigger] pb[j]) != 0,
            *offset == off0 + 62 + esize,
            *offset <= data@.len(),
            spec_scan_block_end(data@, off0 + 62, 2) == Some(esize),
            spec_strip_zeros(data@, off0 + 62, esize) == path_size as int,
            0 < path_size <= 0x0fff_ffff,
            off0 + 62 <= data@.len(),
            0 <= off0,
            off0 == *old(offset) as int,
            pb == data@.subrange(off0 + 62, off0 + 62 + path_size as int),
        decreases pb.len() - i,
    {
        if path_vec[i] == 0 {
            proof {
                assert(pb[i as int] == 0);
            }
            return Err(MinigitError::new(String::from_str("fatal: index file corrupt")));
        }
        i += 1;
    }
    let oid_hex = uncompress_u8_array_to_oid(oid_slice);
    proof {
        crate::lemma_oid_raw_roundtrip(oid_slice@);
    }
    let path_string = match bytes_to_string(path_vec) {
        Some(s) => s,
        None => {
            return Err(MinigitError::new(String::from_str("fatal: index file corrupt")));
        },
    };
    proof {
        vstd::utf8::encode_utf8_decode_utf8(path_string@);
        assert(path_string@.len() > 0) by {
            if path_string@.len() == 0 {
                assert(encode_utf8(path_string@) =~= Seq::<u8>::empty());
            }
        }
        assert forall|k: int| 0 <= k < path_string@.len() implies (#[trigger] path_string@[k])
            != '\0' by {
            if path_string@[k] == '\0' {
                crate::strutil::lemma_encode_utf8_nul_char(path_string@);
            }
        }
    }
    let en = Entry::new(path_string.as_str(), oid_hex.as_str(), metadata);
    proof {
        match spec_parse_entry(data@, off0) {
            EntryParse::Found(e, off2) => {
                assert(en@.path =~= e.path);
                assert(en@.path_str =~= e.path_str);
                assert(en@.oid =~= e.oid);
                assert(en@ =~= e);
            },
            _ => {
                assert(false);
            },
        }
    }
    Ok(en)
}

/// Positions of the pieces of a serialized entry.
proof fn lemma_entry_disk_layout(e: EntryView)
    requires
        entry_wf(e),
    ensures
        entry_disk_bytes(e).len() == entry_total_len(e.path.len() as int),
        entry_disk_bytes(e).subrange(0, 4) =~= spec_be32(e.metadata.ctime),
        entry_disk_bytes(e).subrange(4, 8) =~= spec_be32(e.metadata.ctime_nsec),
        entry_disk_bytes(e).subrange(8, 12) =~= spec_be32(e.metadata.mtime),
        entry_disk_bytes(e).subrange(12, 16) =~= spec_be32(e.metadata.mtime_nsec),
        entry_disk_bytes(e).subrange(16, 20) =~= spec_be32(e.metadata.dev),
        entry_disk_bytes(e).subrange(20, 24) =~= spec_be32(e.metadata.ino),
        entry_disk_bytes(e).subrange(24, 28) =~= spec_be32(e.metadata.mode),
        entry_disk_bytes(e).subrange(28, 32) =~= spec_be32(e.metadata.uid),
        entry_disk_bytes(e).subrange(32, 36) =~= spec_be32(e.metadata.gid),
        entry_disk_bytes(e).subrange(36, 40) =~= spec_be32(e.metadata.size),
        entry_disk_bytes(e).subrange(40, 60) =~= e.oid,
        entry_disk_bytes(e).subrange(60, 62) =~= spec_be16(e.flags),
        entry_disk_bytes(e).subrange(62, 62 + e.path.len() as int) =~= e.path,
        forall|j: int|
            62 + e.path.len() <= j < entry_disk_bytes(e).len() ==> entry_disk_bytes(e)[j] == 0,
        1 <= entry_pad_len(e.path.len() as int) <= 8,
        entry_total_len(e.path.len() as int) % 8 == 0,
{
}

/// On a serialized entry the block scan lands exactly at the end of the
/// padding.
proof fn lemma_scan_serialized(data: Seq<u8>, pos: int, plen: int, pad: int, s: int)
    requires
        0 <= pos,
        0 < plen,
        1 <= pad <= 8,
        (plen + pad) % 8 == 2,
        pos + plen + pad <= data.len(),
        forall|j: int| pos <= j < pos + plen ==> data[j] != 0,
        forall|j: int| pos + plen <= j < pos + plen + pad ==> data[j] == 0,
        2 <= s <= plen + pad,
        s % 8 == 2,
    ensures
        spec_scan_block_end(data, pos, s) == Some(plen + pad),
    decreases plen + pad - s,
{
    if s == plen + pad {
        assert(data[pos + s - 1] == 0);
    } else {
        assert(s + 8 <= plen + pad);
        assert(s <= plen);
        assert(data[pos + s - 1] != 0);
        lemma_scan_serialized(data, pos, plen, pad, s + 8);
    }
}

/// On a serialized entry the padding strip gives back the path length.
proof fn lemma_strip_serialized(data: Seq<u8>, pos: int, plen: int, k: int)
    requires
        0 <= pos,
        0 < plen <= k,
        pos + k <= data.len(),
        data[pos + plen - 1] != 0,
        forall|j: int| pos + plen <= j < pos + k ==> data[j] == 0,
    ensures
        spec_strip_zeros(data, pos, k) == plen,
    decreases k,
{
    if k > plen {
        assert(data[pos + k - 1] == 0);
        lemma_strip_serialized(data, pos, plen, k - 1);
    }
}

/// A serialized well-formed entry parses back to itself.
#[verifier::rlimit(100)]
proof fn lemma_parse_entry_serialized(data: Seq<u8>, off: int, e: EntryView)
    requires
        entry_wf(e),
        0 <= off,
        off + entry_total_len(e.path.len() as int) <= data.len(),
        data.subrange(off, off + entry_total_len(e.path.len() as int)) == entry_disk_bytes(e),
    ensures
        spec_parse_entry(data, off) == EntryParse::Found(
            e,
            off + entry_total_len(e.path.len() as int),
        ),
{
    lemma_entry_disk_layout(e);
    let plen = e.path.len() as int;
    let total = entry_total_len(plen);
    let pad = entry_pad_len(plen);
    let disk = entry_disk_bytes(e);
    assert forall|a: int, b: int| 0 <= a <= b <= total implies data.subrange(off + a, off + b)
        =~= disk.subrange(a, b) by {
        assert forall|j: int| 0 <= j < b - a implies data.subrange(off + a, off + b)[j]
            == disk.subrange(a, b)[j] by {
            assert(data.subrange(off, off + total)[a + j] == disk[a + j]);
        }
    }
    assert forall|j: int| off + 62 <= j < off + 62 + plen implies data[j] != 0 by {
        assert(data.subrange(off + 62, off + 62 + plen)[j - off - 62] == e.path[j - off - 62]);
    }
    assert forall|j: int| off + 62 + plen <= j < off + total implies data[j] == 0 by {
        assert(data.subrange(off, off + total)[j - off] == disk[j - off]);
    }
    assert(data[off + 62 + plen - 1] != 0) by {
        assert(data.subrange(off + 62, off + 62 + plen)[plen - 1] == e.path[plen - 1]);
    }
    lemma_scan_serialized(data, off + 62, plen, pad, 2);
    lemma_strip_serialized(data, off + 62, plen, plen + pad);
    let path = data.subrange(off + 62, off + 62 + plen);
    assert(path =~= e.path);
    assert(valid_utf8(path)) by {
        vstd::utf8::encode_utf8_valid_utf8(e.path_str);
    }
    assert(decode_utf8(path) == e.path_str) by {
        vstd::utf8::encode_utf8_decode_utf8(e.path_str);
    }
    assert(!(exists|i: int| 0 <= i < path.len() && path[i] == 0));
    let m = spec_meta_of(data, off);
    assert(m.ctime == e.metadata.ctime) by {
        assert(data.subrange(off, off + 4) =~= spec_be32(e.metadata.ctime));
        crate::lemma_be32_roundtrip(e.metadata.ctime);
    }
    assert(m.ctime_nsec == e.metadata.ctime_nsec) by {
        assert(data.subrange(off + 4, off + 8) =~= spec_be32(e.metadata.ctime_nsec));
        crate::lemma_be32_roundtrip(e.metadata.ctime_nsec);
    }
    assert(m.mtime == e.metadata.mtime) by {
        assert(data.subrange(off + 8, off + 12) =~= spec_be32(e.metadata.mtime));
        crate::lemma_be32_roundtrip(e.metadata.mtime);
    }
    assert(m.mtime_nsec == e.metadata.mtime_nsec) by {
        assert(data.subrange(off + 12, off + 16) =~= spec_be32(e.metadata.mtime_nsec));
        crate::lemma_be32_roundtrip(e.metadata.mtime_nsec);
    }
    assert(m.dev == e.metadata.dev) by {
        assert(data.subrange(off + 16, off + 20) =~= spec_be32(e.metadata.dev));
        crate::lemma_be32_roundtrip(e.metadata.dev);
    }
    assert(m.ino == e.metadata.ino) by {
        assert(data.subrange(off + 20, off + 24) =~= spec_be32(e.metadata.ino));
        crate::lemma_be32_roundtrip(e.metadata.ino);
    }
    assert(m.mode == e.metadata.mode) by {
        assert(data.subrange(off + 24, off + 28) =~= spec_be32(e.metadata.mode));
        crate::lemma_be32_roundtrip(e.metadata.mode);
    }
    assert(m.uid == e.metadata.uid) by {
        assert(data.subrange(off + 28, off + 32) =~= spec_be32(e.metadata.uid));
        crate::lemma_be32_roundtrip(e.metadata.uid);
    }
    assert(m.gid == e.metadata.gid) by {
        assert(data.subrange(off + 32, off + 36) =~= spec_be32(e.metadata.gid));
        crate::lemma_be32_roundtrip(e.metadata.gid);
    }
    assert(m.size == e.metadata.size) by {
        assert(data.subrange(off + 36, off + 40) =~= spec_be32(e.metadata.size));
        crate::lemma_be32_roundtrip(e.metadata.size);
    }
    assert(m =~= e.metadata);
    match spec_parse_entry(data, off) {
        EntryParse::Found(pe, off2) => {
            assert(pe =~= e);
            assert(off2 == off + total);
        },
        _ => {
            assert(false);
        },
    }
}

/// A serialized run of well-formed entries parses back to itself.
#[verifier::rlimit(100)]
proof fn lemma_parse_entries_serialized(data: Seq<u8>, off: int, s: Seq<EntryView>)
    requires
        forall|i: int| 0 <= i < s.len() ==> entry_wf(#[trigger] s[i]),
        0 <= off,
        off + entries_bytes(s).len() <= data.len(),
        data.subrange(off, off + entries_bytes(s).len() as int) == entries_bytes(s),
    ensures
        spec_parse_entries(data, off, s.len() as int) == EntriesParse::Found(
            s,
            off + entries_bytes(s).len() as int,
        ),
    decreases s.len(),
{
    if s.len() == 0 {
        assert(spec_parse_entries(data, off, 0) == EntriesParse::Found(
            Seq::<EntryView>::empty(),
            off,
        ));
        assert(s =~= Seq::<EntryView>::empty());
    } else {
        let e = s[0];
        lemma_entry_disk_layout(e);
        let total = entry_total_len(e.path.len() as int);
        let eb = entries_bytes(s);
        let ebr = entries_bytes(s.drop_first());
        assert(eb == entry_disk_bytes(e) + ebr);
        assert(data.subrange(off, off + total) =~= entry_disk_bytes(e)) by {
            assert forall|j: int| 0 <= j < total implies data.subrange(off, off + total)[j]
                == entry_disk_bytes(e)[j] by {
                assert(data.subrange(off, off + eb.len() as int)[j] == eb[j]);
            }
        }
        lemma_parse_entry_serialized(data, off, e);
        assert(data.subrange(off + total, off + total + ebr.len() as int) =~= ebr) by {
            assert forall|j: int| 0 <= j < ebr.len() implies data.subrange(
                off + total,
                off + total + ebr.len() as int,
            )[j] == ebr[j] by {
                assert(data.subrange(off, off + eb.len() as int)[total + j] == eb[total + j]);
            }
        }
        lemma_parse_entries_serialized(data, off + total, s.drop_first());
        assert(seq![e] + s.drop_first() =~= s);
    }
}

/// Inserting an entry above every element appends it.
proof fn lemma_insert_at_end(s: Seq<EntryView>, e: EntryView)
    requires
        forall|i: int| 0 <= i < s.len() ==> bytes_lt((#[trigger] s[i]).path, e.path),
    ensures
        spec_sorted_insert(s, e) =~= s.push(e),
    decreases s.len(),
{
    if s.len() > 0 {
        lemma_insert_at_end(s.drop_first(), e);
        assert(seq![s[0]] + s.drop_first().push(e) =~= s.push(e));
    }
}

/// Folding a sorted entry sequence through insertion reproduces it.
pub proof fn lemma_spec_load_sorted(s: Seq<EntryView>)
    requires
        forall|i: int, j: int| 0 <= i < j < s.len() ==> bytes_lt(s[i].path, s[j].path),
    ensures
        spec_load(s) =~= s,
    decreases s.len(),
{
    if s.len() > 0 {
        lemma_spec_load_sorted(s.drop_last());
        lemma_insert_at_end(s.drop_last(), s.last());
        assert(s.drop_last().push(s.last()) =~= s);
    }
}

/// A written index file parses back to exactly the entries it was written
/// from, and loading reproduces them in the same order. The digest length
/// premise holds of every digest the library computes.
pub proof fn lemma_index_round_trip(s: Seq<EntryView>)
    requires
        index_wf(s),
        s.len() <= 0xffff_ffff,
    ensures
        sha1_bytes(index_body_bytes(s)).len() == 20 ==> spec_parse_index(index_file_bytes(s))
            == IndexParse::Parsed(s) && spec_load(s) =~= s,
{
    if sha1_bytes(index_body_bytes(s)).len() == 20 {
        let body = index_body_bytes(s);
        let d = index_file_bytes(s);
        let eb = entries_bytes(s);
        assert(body.len() == 12 + eb.len());
        assert(d.len() == body.len() + 20);
        assert(d.subrange(0, 4) =~= index_magic());
        assert(d.subrange(4, 8) =~= spec_be32(2));
        crate::lemma_be32_roundtrip(2);
        assert(d.subrange(8, 12) =~= spec_be32(s.len() as u32));
        crate::lemma_be32_roundtrip(s.len() as u32);
        assert(d.subrange(12, 12 + eb.len() as int) =~= eb);
        lemma_parse_entries_serialized(d, 12, s);
        assert(d.take(d.len() - 20) =~= body);
        assert(d.subrange(d.len() - 20, d.len() as int) =~= sha1_bytes(body));
        lemma_spec_load_sorted(s);
        match spec_parse_index(d) {
            IndexParse::Parsed(es) => {
                assert(es == s);
            },
            _ => {
                assert(false);
            },
        }
    }
}

/// Whether `anc` names a directory strictly above `p`.
fn is_strict_ancestor_exec(anc: &Vec<u8>, p: &Vec<u8>) -> (r: bool)
    ensures
        r == is_strict_ancestor(anc@, p@),
{
    if anc.len() >= p.len() {
        return false;
    }
    let mut i: usize = 0;
    while i < anc.len()
        invariant
            i <= anc@.len() < p@.len(),
            forall|j: int| 0 <= j < i ==> anc@[j] == p@[j],
        decreases anc@.len() - i,
    {
        if anc[i] != p[i] {
            proof {
                assert(p@.take(anc@.len() as int)[i as int] != anc@[i as int]);
            }
            return false;
        }
        i += 1;
    }
    proof {
        assert(p@.take(anc@.len() as int) =~= anc@);
    }
    if anc.len() == 0 {
        return true;
    }
    p[anc.len()] == 0x2f
}

/// Whether an existing path conflicts with an added one.
fn conflicts_exec(existing: &Vec<u8>, added: &Vec<u8>) -> (r: bool)
    ensures
        r == conflicts_with(existing@, added@),
{
    match compare_bytes(existing, added) {
        ByteOrder::Same => true,
        _ => is_strict_ancestor_exec(existing, added) || is_strict_ancestor_exec(added, existing),
    }
}

} // verus!
