//! The stored object kinds — blob, tree, commit — with their canonical
//! payloads, and the index entry record with its exact on-disk encoding.
//!
//! Every object is addressed by the SHA-1 of `type + " " + length + NUL +
//! payload`; an index entry serializes as a 62-byte fixed prefix, the path
//! bytes, and NUL padding to a multiple of eight bytes.

use vstd::prelude::*;
use vstd::utf8::encode_utf8;

use vstd::slice::{slice_subrange, slice_to_vec};

use crate::strutil::{dec_signed, lemma_encode_utf8_no_nul, suffix_after_last_byte,
    suffix_after_last_byte_vec, tz_offset_chars, tz_offset_string, i64_to_dec_string};
use crate::workspace::MinigitMetadata;
use crate::strutil::{oct_digits, u32_to_octal_string};
use crate::{is_oid, oid_raw_of, spec_be16, spec_be32, u16_to_u8_array_big_endian,
    u32_to_u8_array_big_endian, oid_to_compressed_u8_array};

verus! {

/// A stored object: a type tag, a canonical payload, and the object id the
/// database assigns when the object is stored.
pub trait GitObject {
    /// The canonical payload bytes.
    spec fn data_spec(&self) -> Seq<u8>;

    /// The type tag written in the object header.
    spec fn type_spec(&self) -> Seq<char>;

    /// The hex object id, empty until the object is stored.
    spec fn oid_spec(&self) -> Seq<char>;

    /// Whether two values differ at most in their object id.
    spec fn same_but_oid(&self, other: &Self) -> bool;

    fn get_data(&self) -> (d: &Vec<u8>)
        ensures
            d@ == self.data_spec(),
    ;

    fn get_type(&self) -> (t: &str)
        ensures
            t@ == self.type_spec(),
    ;

    fn get_oid(&self) -> (o: &str)
        ensures
            o@ == self.oid_spec(),
    ;

    fn set_oid(&mut self, oid: String)
        ensures
            final(self).oid_spec() == oid@,
            final(self).data_spec() == old(self).data_spec(),
            final(self).type_spec() == old(self).type_spec(),
            old(self).same_but_oid(final(self)),
    ;
}

/// A blob: the raw bytes of one workspace file.
pub struct Blob {
    data: Vec<u8>,
    oid: String,
}

impl Blob {
    pub fn new(data: Vec<u8>) -> (r: Blob)
        ensures
            r.data_spec() == data@,
            r.type_spec() == "blob"@,
            r.oid_spec() == Seq::<char>::empty(),
    {
        Blob { data, oid: String::new() }
    }
}

impl GitObject for Blob {
    closed spec fn data_spec(&self) -> Seq<u8> {
        self.data@
    }

    closed spec fn type_spec(&self) -> Seq<char> {
        "blob"@
    }

    closed spec fn oid_spec(&self) -> Seq<char> {
        self.oid@
    }

    closed spec fn same_but_oid(&self, other: &Self) -> bool {
        self.data@ == other.data@
    }

    fn get_data(&self) -> (d: &Vec<u8>) {
        &self.data
    }

    fn get_type(&self) -> (t: &str) {
        "blob"
    }

    fn get_oid(&self) -> (o: &str) {
        self.oid.as_str()
    }

    fn set_oid(&mut self, oid: String) {
        self.oid = oid;
    }
}

/// One member of a tree: a nested sub-tree or a staged file.
pub enum TreeNode {
    SubTree(Tree),
    Leaf(Entry),
}

/// A tree object under construction: its directory name, its members in
/// insertion order, and — once traversed — its serialized payload and
/// object id.
pub struct Tree {
    entries: Vec<TreeNode>,
    name: Vec<u8>,
    oid: String,
    data: Vec<u8>,
}

/// The mathematical content of a tree.
#[verifier::ext_equal]
pub struct TreeView {
    pub name: Seq<u8>,
    pub oid: Seq<char>,
    pub data: Seq<u8>,
    pub children: Seq<TreeNodeView>,
}

/// The mathematical content of a tree member.
#[verifier::ext_equal]
pub enum TreeNodeView {
    SubTree(TreeView),
    Leaf(EntryView),
}

/// The views of a sequence of tree members.
pub closed spec fn nodes_view(v: Seq<TreeNode>) -> Seq<TreeNodeView>
    decreases v,
{
    if v.len() == 0 {
        seq![]
    } else {
        nodes_view(v.drop_last()).push(v.last()@)
    }
}

impl View for TreeNode {
    type V = TreeNodeView;

    closed spec fn view(&self) -> TreeNodeView
        decreases self,
    {
        match self {
            TreeNode::SubTree(t) => TreeNodeView::SubTree(t@),
            TreeNode::Leaf(e) => TreeNodeView::Leaf(e@),
        }
    }
}

impl View for Tree {
    type V = TreeView;

    closed spec fn view(&self) -> TreeView
        decreases self,
    {
        TreeView { name: self.name@, oid: self.oid@, data: self.data@, children: nodes_view(self.entries@) }
    }
}

/// The views of the members line up with the members.
proof fn lemma_nodes_view(v: Seq<TreeNode>)
    ensures
        nodes_view(v).len() == v.len(),
        forall|i: int| 0 <= i < v.len() ==> nodes_view(v)[i] == (#[trigger] v[i])@,
    decreases v.len(),
{
    if v.len() > 0 {
        lemma_nodes_view(v.drop_last());
        assert(nodes_view(v) == nodes_view(v.drop_last()).push(v.last()@));
        assert forall|i: int| 0 <= i < v.len() implies nodes_view(v)[i] == (#[trigger] v[i])@ by {
            if i < v.len() - 1 {
                assert(nodes_view(v)[i] == nodes_view(v.drop_last())[i]);
                assert(v.drop_last()[i] == v[i]);
            } else {
                assert(nodes_view(v)[i] == v.last()@);
            }
        }
    }
}

/// A fresh tree with a name and no members.
pub open spec fn spec_tree_new(name: Seq<u8>) -> TreeView {
    TreeView { name, oid: seq![], data: seq![], children: seq![] }
}

/// The length of the component before the first `sep`, or of the whole
/// string if `sep` does not occur.
pub open spec fn sep_index_bytes(s: Seq<u8>, sep: u8) -> int
    decreases s.len(),
{
    if s.len() == 0 {
        0
    } else if s[0] == sep {
        0
    } else {
        1 + sep_index_bytes(s.drop_first(), sep)
    }
}

/// The separator index is the first position holding `sep`.
proof fn lemma_sep_index_bytes(s: Seq<u8>, sep: u8)
    ensures
        0 <= sep_index_bytes(s, sep) <= s.len(),
        forall|j: int| 0 <= j < sep_index_bytes(s, sep) ==> s[j] != sep,
        sep_index_bytes(s, sep) < s.len() ==> s[sep_index_bytes(s, sep)] == sep,
    decreases s.len(),
{
    if s.len() > 0 && s[0] != sep {
        lemma_sep_index_bytes(s.drop_first(), sep);
        assert forall|j: int| 0 <= j < sep_index_bytes(s, sep) implies s[j] != sep by {
            if j > 0 {
                assert(s.drop_first()[j - 1] != sep);
            }
        }
    }
}

/// A scan that stopped at the first separator found it.
proof fn lemma_sep_index_bytes_at(s: Seq<u8>, sep: u8, i: int)
    requires
        0 <= i <= s.len(),
        forall|j: int| 0 <= j < i ==> s[j] != sep,
        i < s.len() ==> s[i] == sep,
    ensures
        sep_index_bytes(s, sep) == i,
    decreases i,
{
    if s.len() > 0 && s[0] != sep {
        assert forall|j: int| 0 <= j < i - 1 implies s.drop_first()[j] != sep by {
            assert(s[j + 1] != sep);
        }
        lemma_sep_index_bytes_at(s.drop_first(), sep, i - 1);
    }
}

/// Whether a member is a sub-tree with the given name.
pub open spec fn is_matching_subtree(n: TreeNodeView, d: Seq<u8>) -> bool {
    match n {
        TreeNodeView::SubTree(st) => st.name == d,
        TreeNodeView::Leaf(_) => false,
    }
}

/// The sub-tree carried by a member.
pub open spec fn get_subtree(n: TreeNodeView) -> TreeView {
    match n {
        TreeNodeView::SubTree(st) => st,
        TreeNodeView::Leaf(_) => spec_tree_new(seq![]),
    }
}

/// Placing an entry below a run of directory components: descend into the
/// last member when it is the sub-tree named by the next component, else
/// open a new sub-tree; with no components left the entry becomes a leaf.
pub open spec fn spec_add_entry(t: TreeView, dirs: Seq<u8>, e: EntryView) -> TreeView
    decreases dirs.len(),
    via spec_add_entry_decreases
{
    if dirs.len() == 0 {
        TreeView { children: t.children.push(TreeNodeView::Leaf(e)), ..t }
    } else {
        let k = sep_index_bytes(dirs, 0x2f);
        let d = dirs.take(k);
        let rest = if k == dirs.len() {
            Seq::<u8>::empty()
        } else {
            dirs.skip(k + 1)
        };
        if t.children.len() > 0 && is_matching_subtree(t.children.last(), d) {
            TreeView {
                children: t.children.update(
                    t.children.len() - 1,
                    TreeNodeView::SubTree(spec_add_entry(get_subtree(t.children.last()), rest, e)),
                ),
                ..t
            }
        } else {
            TreeView {
                children: t.children.push(
                    TreeNodeView::SubTree(spec_add_entry(spec_tree_new(d), rest, e)),
                ),
                ..t
            }
        }
    }
}

#[via_fn]
proof fn spec_add_entry_decreases(t: TreeView, dirs: Seq<u8>, e: EntryView) {
    if dirs.len() > 0 {
        lemma_sep_index_bytes(dirs, 0x2f);
    }
}

/// The directory components of a path: everything before the last slash,
/// empty when there is none.
pub open spec fn spec_parent_dirs(p: Seq<u8>) -> Seq<u8> {
    if suffix_after_last_byte(p, 0x2f).len() == p.len() {
        Seq::<u8>::empty()
    } else {
        p.take(p.len() - suffix_after_last_byte(p, 0x2f).len() - 1)
    }
}

/// The views of a run of entries.
pub open spec fn entry_views(v: Seq<Entry>) -> Seq<EntryView> {
    Seq::new(v.len(), |i: int| v[i]@)
}

/// A tree built from entries in order: each is placed below its directory
/// components.
pub open spec fn spec_build(es: Seq<EntryView>) -> TreeView
    decreases es.len(),
{
    if es.len() == 0 {
        spec_tree_new(encode_utf8("root"@))
    } else {
        spec_add_entry(spec_build(es.drop_last()), spec_parent_dirs(es.last().path), es.last())
    }
}

impl Tree {
    /// A fresh tree with a name and no members.
    fn new(name: Vec<u8>) -> (r: Tree)
        ensures
            r@ =~= spec_tree_new(name@),
    {
        let r = Tree { entries: Vec::new(), name, oid: String::new(), data: Vec::new() };
        proof {
            assert(nodes_view(r.entries@) =~= Seq::<TreeNodeView>::empty());
        }
        r
    }

    /// Builds the nested tree of a sorted entry list: each entry descends
    /// through its directory components, reusing the last-added sub-tree at
    /// each level when its name matches.
    pub fn build(entries: Vec<Entry>) -> (r: Tree)
        ensures
            r@ =~= spec_build(entry_views(entries@)),
    {
        let ghost evs = entry_views(entries@);
        let mut root = Tree::new("root".as_bytes_vec());
        proof {
            assert(evs.take(0) =~= Seq::<EntryView>::empty());
        }
        let mut work = entries;
        let total: usize = work.len();
        let mut i: usize = 0;
        while work.len() > 0
            invariant
                i + work@.len() == total,
                total == evs.len(),
                forall|j: int| 0 <= j < work@.len() ==> (#[trigger] work@[j])@ == evs[i + j],
                root@ == spec_build(evs.take(i as int)),
            decreases work@.len(),
        {
            let entry = work.remove(0);
            let dirs = parent_dirs_vec(entry.get_path().as_slice());
            root.add_entry(dirs.as_slice(), entry);
            proof {
                assert(evs.take(i as int + 1).drop_last() =~= evs.take(i as int));
                assert(evs.take(i as int + 1).last() == evs[i as int]);
            }
            i += 1;
        }
        proof {
            assert(evs.take(total as int) =~= evs);
        }
        root
    }

    /// Places an entry below the given run of directory components.
    fn add_entry(&mut self, dirs: &[u8], entry: Entry)
        ensures
            final(self)@ =~= spec_add_entry(old(self)@, dirs@, entry@),
        decreases dirs@.len(),
    {
        proof {
            lemma_nodes_view(self.entries@);
        }
        let ghost oldv = self.entries@;
        let ghost cv = nodes_view(oldv);
        if dirs.len() == 0 {
            self.entries.push(TreeNode::Leaf(entry));
            proof {
                let newv = self.entries@;
                assert(newv.drop_last() =~= oldv);
                assert(newv.last() == TreeNode::Leaf(entry));
                assert(nodes_view(newv) == nodes_view(newv.drop_last()).push(newv.last()@));
                assert(newv.last()@ == TreeNodeView::Leaf(entry@));
                assert(nodes_view(newv) =~= cv.push(TreeNodeView::Leaf(entry@)));
            }
            return ;
        }
        let n = dirs.len();
        let mut k: usize = 0;
        while k < n && dirs[k] != 0x2f
            invariant
                k <= n,
                n == dirs@.len(),
                forall|j: int| 0 <= j < k ==> dirs@[j] != 0x2f,
            decreases n - k,
        {
            k += 1;
        }
        proof {
            lemma_sep_index_bytes_at(dirs@, 0x2f, k as int);
        }
        let dir_name = slice_to_vec(slice_subrange(dirs, 0, k));
        let rest: &[u8] = if k < n {
            slice_subrange(dirs, k + 1, n)
        } else {
            slice_subrange(dirs, n, n)
        };
        proof {
            if k == n {
                assert(rest@ =~= Seq::<u8>::empty());
            }
        }
        let reuse_last: bool = if self.entries.len() > 0 {
            match &self.entries[self.entries.len() - 1] {
                TreeNode::SubTree(st) => {
                    matches!(
                        crate::strutil::compare_bytes(&st.name, &dir_name),
                        crate::strutil::ByteOrder::Same
                    )
                },
                TreeNode::Leaf(_) => false,
            }
        } else {
            false
        };
        proof {
            if oldv.len() > 0 {
                assert(cv.last() == oldv.last()@);
                assert(oldv[oldv.len() - 1] == oldv.last());
            }
            assert(reuse_last == (cv.len() > 0 && is_matching_subtree(cv.last(), dir_name@)));
        }
        if reuse_last {
            let node = self.entries.pop().unwrap();
            match node {
                TreeNode::SubTree(mut st) => {
                    proof {
                        assert(node@ == TreeNodeView::SubTree(st@));
                        assert(node == oldv.last());
                        assert(st@ == get_subtree(cv.last()));
                    }
                    st.add_entry(rest, entry);
                    self.entries.push(TreeNode::SubTree(st));
                    proof {
                        let newv = self.entries@;
                        assert(newv.drop_last() =~= oldv.drop_last());
                        assert(newv.last() == TreeNode::SubTree(st));
                        assert(nodes_view(newv) == nodes_view(newv.drop_last()).push(
                            newv.last()@,
                        ));
                        assert(nodes_view(oldv) == nodes_view(oldv.drop_last()).push(
                            oldv.last()@,
                        ));
                        assert(nodes_view(newv) =~= cv.update(
                            cv.len() - 1,
                            TreeNodeView::SubTree(st@),
                        )) by {
                            assert(cv.drop_last() == nodes_view(oldv.drop_last()));
                            assert forall|j: int| 0 <= j < cv.len() - 1 implies cv.update(
                                cv.len() - 1,
                                TreeNodeView::SubTree(st@),
                            )[j] == nodes_view(newv)[j] by {
                                assert(nodes_view(newv)[j] == nodes_view(newv.drop_last())[j]);
                                assert(cv[j] == cv.drop_last()[j]);
                            }
                        }
                    }
                },
                TreeNode::Leaf(_) => {
                    proof {
                        assert(oldv.last()@ == node@);
                        assert(false);
                    }
                },
            }
        } else {
            let mut nt = Tree::new(dir_name);
            nt.add_entry(rest, entry);
            self.entries.push(TreeNode::SubTree(nt));
            proof {
                let newv = self.entries@;
                assert(newv.drop_last() =~= oldv);
                assert(newv.last() == TreeNode::SubTree(nt));
                assert(nodes_view(newv) == nodes_view(newv.drop_last()).push(newv.last()@));
                assert(newv.last()@ == TreeNodeView::SubTree(nt@));
                assert(nodes_view(newv) =~= cv.push(TreeNodeView::SubTree(nt@)));
            }
        }
    }
}

/// The mode a tree member is serialized with.
pub open spec fn spec_node_mode(n: TreeNodeView) -> u32 {
    match n {
        TreeNodeView::SubTree(_) => 0o40000,
        TreeNodeView::Leaf(e) => e.metadata.mode,
    }
}

/// The name a tree member is serialized under.
pub open spec fn spec_node_name(n: TreeNodeView) -> Seq<u8> {
    match n {
        TreeNodeView::SubTree(t) => t.name,
        TreeNodeView::Leaf(e) => suffix_after_last_byte(e.path, 0x2f),
    }
}

/// The raw object id a tree member is serialized with.
pub open spec fn spec_node_oid_raw(n: TreeNodeView) -> Seq<u8> {
    match n {
        TreeNodeView::SubTree(t) => oid_raw_of(t.oid),
        TreeNodeView::Leaf(e) => e.oid,
    }
}

/// One member in a tree payload: the octal mode, a space, the name, a NUL,
/// then the raw object id.
pub open spec fn spec_node_bytes(n: TreeNodeView) -> Seq<u8> {
    encode_utf8(oct_digits(spec_node_mode(n) as int)) + seq![32u8] + spec_node_name(n) + seq![0u8]
        + spec_node_oid_raw(n)
}

/// A tree payload: the members in insertion order.
pub open spec fn spec_children_data(kids: Seq<TreeNodeView>) -> Seq<u8>
    decreases kids.len(),
{
    if kids.len() == 0 {
        seq![]
    } else {
        spec_children_data(kids.drop_last()) + spec_node_bytes(kids.last())
    }
}

/// A member after the post-order walk: leaves unchanged, sub-trees
/// traversed.
pub open spec fn spec_node_traversed(n: TreeNodeView) -> TreeNodeView
    decreases n,
{
    match n {
        TreeNodeView::SubTree(t) => TreeNodeView::SubTree(spec_traversed(t)),
        TreeNodeView::Leaf(e) => TreeNodeView::Leaf(e),
    }
}

/// The members after the post-order walk.
pub open spec fn spec_nodes_traversed(kids: Seq<TreeNodeView>) -> Seq<TreeNodeView>
    decreases kids,
{
    if kids.len() == 0 {
        seq![]
    } else {
        spec_nodes_traversed(kids.drop_last()).push(spec_node_traversed(kids.last()))
    }
}

/// A tree after the post-order walk: every member traversed, the payload
/// serialized from the walked members, and the object id of that payload.
pub open spec fn spec_traversed(t: TreeView) -> TreeView
    decreases t,
{
    let kids = spec_nodes_traversed(t.children);
    let data = spec_children_data(kids);
    TreeView {
        name: t.name,
        oid: crate::database::spec_oid_of_content("tree"@, data),
        data,
        children: kids,
    }
}

/// The object writes a member contributes, in post-order.
pub open spec fn spec_node_writes(n: TreeNodeView) -> Seq<crate::database::ObjectWriteView>
    decreases n,
{
    match n {
        TreeNodeView::SubTree(t) => spec_tree_writes(t),
        TreeNodeView::Leaf(_) => seq![],
    }
}

/// The object writes of a run of members, in order.
pub open spec fn spec_kids_writes(kids: Seq<TreeNodeView>) -> Seq<crate::database::ObjectWriteView>
    decreases kids,
{
    if kids.len() == 0 {
        seq![]
    } else {
        spec_kids_writes(kids.drop_last()) + spec_node_writes(kids.last())
    }
}

/// The object writes a whole tree produces: every sub-tree first, then the
/// tree itself.
pub open spec fn spec_tree_writes(t: TreeView) -> Seq<crate::database::ObjectWriteView>
    decreases t,
{
    spec_kids_writes(t.children) + seq![
        crate::database::spec_object_write(
            "tree"@,
            spec_children_data(spec_nodes_traversed(t.children)),
        ),
    ]
}

/// The nesting depth of a tree member.
pub open spec fn node_height(n: TreeNodeView) -> nat
    decreases n,
{
    match n {
        TreeNodeView::SubTree(t) => tree_height(t),
        TreeNodeView::Leaf(_) => 0,
    }
}

/// The nesting depth of a run of members.
pub open spec fn kids_height(kids: Seq<TreeNodeView>) -> nat
    decreases kids,
{
    if kids.len() == 0 {
        0
    } else if node_height(kids.last()) > kids_height(kids.drop_last()) {
        node_height(kids.last())
    } else {
        kids_height(kids.drop_last())
    }
}

/// The nesting depth of a tree: one more than its deepest member.
pub open spec fn tree_height(t: TreeView) -> nat
    decreases t,
{
    1 + kids_height(t.children)
}

/// Every member is at most as deep as the run it belongs to.
proof fn lemma_kids_height(kids: Seq<TreeNodeView>)
    ensures
        forall|i: int| 0 <= i < kids.len() ==> node_height(#[trigger] kids[i]) <= kids_height(
            kids,
        ),
    decreases kids.len(),
{
    if kids.len() > 0 {
        lemma_kids_height(kids.drop_last());
        assert forall|i: int| 0 <= i < kids.len() implies node_height(#[trigger] kids[i])
            <= kids_height(kids) by {
            if i < kids.len() - 1 {
                assert(kids.drop_last()[i] == kids[i]);
            }
        }
    }
}

impl Tree {
    /// Walks the tree post-order: every sub-tree is hashed and compressed
    /// after its own members, each resulting object write appended in that
    /// order, and the root's object id is left on the tree.
    pub fn traverse(&mut self, database: &crate::database::Database, writes: &mut Vec<
        crate::database::ObjectWrite,
    >)
        ensures
            final(self)@ =~= spec_traversed(old(self)@),
            is_oid(final(self)@.oid),
            final(writes)@.len() == old(writes)@.len() + spec_tree_writes(old(self)@).len(),
            forall|j: int| 0 <= j < old(writes)@.len() ==> final(writes)@[j] == old(writes)@[j],
            forall|j: int|
                0 <= j < spec_tree_writes(old(self)@).len() ==> (#[trigger] final(writes)@[old(
                    writes,
                )@.len() + j])@ =~= spec_tree_writes(old(self)@)[j],
    {
        self.traverse_private(database, writes);
    }

    /// The recursive post-order walk behind `traverse`.
    #[verifier::rlimit(100)]
    fn traverse_private(&mut self, database: &crate::database::Database, writes: &mut Vec<
        crate::database::ObjectWrite,
    >)
        ensures
            final(self)@ =~= spec_traversed(old(self)@),
            is_oid(final(self)@.oid),
            final(writes)@.len() == old(writes)@.len() + spec_tree_writes(old(self)@).len(),
            forall|j: int| 0 <= j < old(writes)@.len() ==> final(writes)@[j] == old(writes)@[j],
            forall|j: int|
                0 <= j < spec_tree_writes(old(self)@).len() ==> (#[trigger] final(writes)@[old(
                    writes,
                )@.len() + j])@ =~= spec_tree_writes(old(self)@)[j],
        decreases tree_height(self@),
    {
        let ghost t0 = self@;
        let ghost cv = nodes_view(self.entries@);
        let ghost w0 = writes@;
        proof {
            lemma_nodes_view(self.entries@);
            lemma_kids_height(cv);
            assert(cv.take(0) =~= Seq::<TreeNodeView>::empty());
        }
        let mut work: Vec<TreeNode> = Vec::new();
        core::mem::swap(&mut self.entries, &mut work);
        let mut processed: Vec<TreeNode> = Vec::new();
        let total: usize = work.len();
        let mut i: usize = 0;
        while work.len() > 0
            invariant
                i + work@.len() == total,
                total == cv.len(),
                forall|j: int| 0 <= j < work@.len() ==> (#[trigger] work@[j])@ == cv[i + j],
                processed@.len() == i,
                nodes_view(processed@) =~= spec_nodes_traversed(cv.take(i as int)),
                forall|j: int|
                    0 <= j < processed@.len() ==> (match (#[trigger] processed@[j])@ {
                        TreeNodeView::SubTree(t) => is_oid(t.oid),
                        TreeNodeView::Leaf(_) => true,
                    }),
                writes@.len() == w0.len() + spec_kids_writes(cv.take(i as int)).len(),
                forall|j: int| 0 <= j < w0.len() ==> writes@[j] == w0[j],
                forall|j: int|
                    0 <= j < spec_kids_writes(cv.take(i as int)).len() ==> (#[trigger] writes@[w0.len()
                        + j])@ =~= spec_kids_writes(cv.take(i as int))[j],
                forall|j: int|
                    0 <= j < cv.len() ==> node_height(#[trigger] cv[j]) <= kids_height(cv),
                tree_height(t0) == 1 + kids_height(cv),
                t0 == old(self)@,
                w0.len() <= writes@.len(),
            decreases work@.len(),
        {
            let node = work.remove(0);
            let ghost nv = node@;
            proof {
                assert(nv == cv[i as int]);
                assert(cv.take(i as int + 1).drop_last() =~= cv.take(i as int));
                assert(cv.take(i as int + 1).last() == cv[i as int]);
            }
            let ghost p_before = processed@;
            let ghost writes_before = writes@;
            match node {
                TreeNode::Leaf(e) => {
                    let ghost ev = e@;
                    processed.push(TreeNode::Leaf(e));
                    proof {
                        assert(processed@.last()@ == TreeNodeView::Leaf(ev));
                        assert(processed@.last()@ == spec_node_traversed(nv));
                        assert(spec_node_writes(nv) =~= Seq::<
                            crate::database::ObjectWriteView,
                        >::empty());
                        assert(spec_kids_writes(cv.take(i as int + 1)) =~= spec_kids_writes(
                            cv.take(i as int),
                        ));
                    }
                },
                TreeNode::SubTree(st_in) => {
                    let mut st = st_in;
                    proof {
                        assert(nv == TreeNodeView::SubTree(st@));
                        assert(node_height(nv) == tree_height(st@));
                        assert(tree_height(st@) < tree_height(t0));
                    }
                    st.traverse_private(database, writes);
                    processed.push(TreeNode::SubTree(st));
                    proof {
                        assert(processed@.last()@ == TreeNodeView::SubTree(st@));
                        assert(spec_node_traversed(nv) == TreeNodeView::SubTree(st@));
                        assert(processed@.last()@ == spec_node_traversed(nv));
                        assert(spec_node_writes(nv) == spec_tree_writes(get_subtree(nv)));
                        assert(spec_kids_writes(cv.take(i as int + 1)) =~= spec_kids_writes(
                            cv.take(i as int),
                        ) + spec_node_writes(nv));
                        let kw_i = spec_kids_writes(cv.take(i as int));
                        let kw_n = spec_kids_writes(cv.take(i as int + 1));
                        assert forall|j: int| 0 <= j < kw_n.len() implies (#[trigger] writes@[w0.len()
                            + j])@ =~= kw_n[j] by {
                            if j < kw_i.len() {
                                assert(writes@[w0.len() + j] == writes_before[w0.len() + j]);
                                assert(kw_n[j] == kw_i[j]);
                            } else {
                                assert(kw_n[j] == spec_node_writes(nv)[j - kw_i.len()]);
                                assert(writes@[writes_before.len() + (j - kw_i.len())]@
                                    =~= spec_tree_writes(get_subtree(nv))[j - kw_i.len()]);
                                assert(w0.len() + j == writes_before.len() + (j - kw_i.len()));
                            }
                        }
                    }
                },
            }
            proof {
                assert(processed@.drop_last() =~= p_before);
                lemma_nodes_view(processed@);
                lemma_nodes_view(p_before);
                assert(nodes_view(processed@) == nodes_view(processed@.drop_last()).push(
                    processed@.last()@,
                ));
                assert(spec_nodes_traversed(cv.take(i as int + 1)) == spec_nodes_traversed(
                    cv.take(i as int),
                ).push(spec_node_traversed(cv[i as int])));
                assert(nodes_view(processed@) =~= spec_nodes_traversed(cv.take(i as int + 1)));
            }
            i += 1;
        }
        self.entries = processed;
        proof {
            assert(cv.take(total as int) =~= cv);
        }
        let ghost kids = spec_nodes_traversed(cv);
        proof {
            lemma_nodes_view(self.entries@);
            assert(kids.take(0) =~= Seq::<TreeNodeView>::empty());
        }
        let mut data: Vec<u8> = Vec::new();
        let mut idx: usize = 0;
        let nkids = self.entries.len();
        while idx < nkids
            invariant
                idx <= nkids,
                nkids == self.entries@.len(),
                nodes_view(self.entries@) =~= kids,
                kids.len() == nkids,
                forall|j: int|
                    0 <= j < self.entries@.len() ==> (#[trigger] self.entries@[j])@ == kids[j],
                forall|j: int|
                    0 <= j < self.entries@.len() ==> (match (#[trigger] self.entries@[j])@ {
                        TreeNodeView::SubTree(t) => is_oid(t.oid),
                        TreeNodeView::Leaf(_) => true,
                    }),
                data@ == spec_children_data(kids.take(idx as int)),
            decreases nkids - idx,
        {
            proof {
                assert(kids.take(idx as int + 1).drop_last() =~= kids.take(idx as int));
                assert(kids.take(idx as int + 1).last() == kids[idx as int]);
            }
            let mode: u32 = match &self.entries[idx] {
                TreeNode::SubTree(_) => 0o40000,
                TreeNode::Leaf(e) => e.get_mode(),
            };
            let mode_str = u32_to_octal_string(mode);
            data.extend_from_slice(mode_str.as_str().as_bytes());
            data.push(32u8);
            match &self.entries[idx] {
                TreeNode::SubTree(t) => {
                    data.extend_from_slice(t.name.as_slice());
                },
                TreeNode::Leaf(e) => {
                    let nm = e.get_name();
                    data.extend_from_slice(nm.as_slice());
                },
            }
            data.push(0u8);
            match &self.entries[idx] {
                TreeNode::SubTree(t) => {
                    let raw = oid_to_compressed_u8_array(t.oid.as_str());
                    proof {
                        assert(raw@ =~= oid_raw_of(t.oid@));
                    }
                    data.extend_from_slice(raw.as_slice());
                },
                TreeNode::Leaf(e) => {
                    data.extend_from_slice(e.get_oid().as_slice());
                },
            }
            proof {
                assert(data@ =~= spec_children_data(kids.take(idx as int + 1)));
            }
            idx += 1;
        }
        proof {
            assert(kids.take(nkids as int) =~= kids);
        }
        self.data = data;
        let w = database.store(self);
        writes.push(w);
        proof {
            assert(final(self)@ =~= spec_traversed(t0));
            assert(spec_tree_writes(t0) == spec_kids_writes(cv) + seq![
                crate::database::spec_object_write("tree"@, spec_children_data(kids)),
            ]);
            assert forall|j: int|
                0 <= j < spec_tree_writes(t0).len() implies (#[trigger] final(writes)@[w0.len()
                + j])@ =~= spec_tree_writes(t0)[j] by {
                if j < spec_kids_writes(cv).len() {
                    assert(spec_tree_writes(t0)[j] == spec_kids_writes(cv)[j]);
                } else {
                    assert(spec_tree_writes(t0)[j] == crate::database::spec_object_write(
                        "tree"@,
                        spec_children_data(kids),
                    ));
                }
            }
        }
    }
}

/// The object id carried by a tree equals the one its trait accessor
/// reports.
pub proof fn lemma_tree_oid_spec(t: &Tree)
    ensures
        t.oid_spec() == t@.oid,
        t.type_spec() == "tree"@,
{
}

impl GitObject for Tree {
    closed spec fn data_spec(&self) -> Seq<u8> {
        self.data@
    }

    closed spec fn type_spec(&self) -> Seq<char> {
        "tree"@
    }

    closed spec fn oid_spec(&self) -> Seq<char> {
        self.oid@
    }

    closed spec fn same_but_oid(&self, other: &Self) -> bool {
        self.name@ == other.name@ && self.data@ == other.data@ && nodes_view(self.entries@)
            == nodes_view(other.entries@)
    }

    fn get_data(&self) -> (d: &Vec<u8>) {
        &self.data
    }

    fn get_type(&self) -> (t: &str) {
        "tree"
    }

    fn get_oid(&self) -> (o: &str) {
        self.oid.as_str()
    }

    fn set_oid(&mut self, oid: String) {
        self.oid = oid;
    }
}

/// The directory components of a path: the bytes before the last slash.
fn parent_dirs_vec(p: &[u8]) -> (r: Vec<u8>)
    ensures
        r@ == spec_parent_dirs(p@),
{
    let n = p.len();
    let mut i: usize = n;
    while i > 0 && p[i - 1] != 0x2f
        invariant
            i <= n,
            n == p@.len(),
            forall|j: int| i <= j < n ==> p@[j] != 0x2f,
        decreases i,
    {
        i -= 1;
    }
    proof {
        crate::strutil::lemma_suffix_after_last_byte(p@, 0x2f, i as int);
    }
    if i == 0 {
        proof {
            assert(suffix_after_last_byte(p@, 0x2f).len() == p@.len());
        }
        Vec::new()
    } else {
        proof {
            assert(suffix_after_last_byte(p@, 0x2f).len() == p@.len() - i);
        }
        slice_to_vec(slice_subrange(p, 0, i - 1))
    }
}

/// The staged record of one workspace file, as the index holds it.
pub struct Entry {
    path: Vec<u8>,
    path_as_str: String,
    oid: Vec<u8>,
    metadata: MinigitMetadata,
    flags: u16,
}

/// The mathematical content of an index entry: the path bytes and the
/// characters they encode, the raw object id, the stat fields and the
/// length-derived flags.
#[verifier::ext_equal]
pub struct EntryView {
    pub path: Seq<u8>,
    pub path_str: Seq<char>,
    pub oid: Seq<u8>,
    pub metadata: MinigitMetadata,
    pub flags: u16,
}

/// The flags of an entry: the byte length of its path, clamped at 0xFFF.
pub open spec fn spec_flags(path_len: int) -> u16 {
    if path_len < 0xfff {
        path_len as u16
    } else {
        0xfff
    }
}

/// A well-formed entry: a non-empty path without NUL bytes that encodes its
/// path string, a 20-byte object id, and flags derived from the path length.
pub open spec fn entry_wf(e: EntryView) -> bool {
    &&& 0 < e.path.len() <= 0x0fff_ffff
    &&& forall|i: int| 0 <= i < e.path.len() ==> (#[trigger] e.path[i]) != 0
    &&& encode_utf8(e.path_str) == e.path
    &&& e.oid.len() == 20
    &&& e.flags == spec_flags(e.path.len() as int)
}

/// The NUL padding after an entry's path: the least count that makes the
/// whole entry a multiple of eight bytes long, at least one.
pub open spec fn entry_pad_len(path_len: int) -> int {
    8 - ((62 + path_len) % 8)
}

/// The serialized length of an entry.
pub open spec fn entry_total_len(path_len: int) -> int {
    62 + path_len + entry_pad_len(path_len)
}

/// The 62-byte fixed prefix of a serialized entry: ten big-endian stat
/// fields, the raw object id, and the big-endian flags.
pub open spec fn entry_fixed_bytes(e: EntryView) -> Seq<u8> {
    spec_be32(e.metadata.ctime) + spec_be32(e.metadata.ctime_nsec) + spec_be32(e.metadata.mtime)
        + spec_be32(e.metadata.mtime_nsec) + spec_be32(e.metadata.dev) + spec_be32(e.metadata.ino)
        + spec_be32(e.metadata.mode) + spec_be32(e.metadata.uid) + spec_be32(e.metadata.gid)
        + spec_be32(e.metadata.size) + e.oid + spec_be16(e.flags)
}

/// The entry staged for a path, a hex object id, and stat fields.
pub open spec fn entry_view_of(path: Seq<char>, oid: Seq<char>, m: MinigitMetadata) -> EntryView {
    EntryView {
        path: encode_utf8(path),
        path_str: path,
        oid: oid_raw_of(oid),
        metadata: m,
        flags: spec_flags(encode_utf8(path).len() as int),
    }
}

/// The full on-disk bytes of an entry: fixed prefix, path, NUL padding.
pub open spec fn entry_disk_bytes(e: EntryView) -> Seq<u8> {
    entry_fixed_bytes(e) + e.path + Seq::new(entry_pad_len(e.path.len() as int) as nat, |i: int| 0u8)
}

impl View for Entry {
    type V = EntryView;

    closed spec fn view(&self) -> EntryView {
        EntryView {
            path: self.path@,
            path_str: self.path_as_str@,
            oid: self.oid@,
            metadata: self.metadata,
            flags: self.flags,
        }
    }
}

impl Entry {
    /// A staged record for a workspace-relative path, a hex object id, and
    /// the file's stat fields.
    pub fn new(path: &str, oid: &str, metadata: MinigitMetadata) -> (r: Entry)
        requires
            path@.len() > 0,
            forall|i: int| 0 <= i < path@.len() ==> (#[trigger] path@[i]) != '\0',
            encode_utf8(path@).len() <= 0x0fff_ffff,
            is_oid(oid@),
        ensures
            r@ == entry_view_of(path@, oid@, metadata),
            entry_wf(r@),
    {
        proof {
            lemma_encode_utf8_no_nul(path@);
        }
        let path_bytes = path.as_bytes_vec();
        let len = path_bytes.len();
        let flags: u16 = if len < 0xfff {
            len as u16
        } else {
            0xfff
        };
        let oid_raw = oid_to_compressed_u8_array(oid);
        proof {
            assert(oid_raw@ =~= oid_raw_of(oid@));
        }
        let r = Entry {
            path: path_bytes,
            path_as_str: String::from_str(path),
            oid: oid_raw,
            metadata,
            flags,
        };
        proof {
            assert(r@ == entry_view_of(path@, oid@, metadata));
        }
        r
    }

    /// The workspace-relative path, as raw bytes.
    pub fn get_path(&self) -> (r: &Vec<u8>)
        ensures
            r@ == self@.path,
    {
        &self.path
    }

    /// The workspace-relative path, as a string.
    pub fn get_path_as_str(&self) -> (r: &str)
        ensures
            r@ == self@.path_str,
    {
        self.path_as_str.as_str()
    }

    /// The raw 20-byte object id of the staged blob.
    pub fn get_oid(&self) -> (r: &Vec<u8>)
        ensures
            r@ == self@.oid,
    {
        &self.oid
    }

    /// The file-name component of the path: the bytes after the last slash.
    pub fn get_name(&self) -> (r: Vec<u8>)
        ensures
            r@ == suffix_after_last_byte(self@.path, 0x2f),
    {
        suffix_after_last_byte_vec(self.path.as_slice(), 0x2f)
    }

    /// The staged file mode.
    pub fn get_mode(&self) -> (r: u32)
        ensures
            r == self@.metadata.mode,
    {
        self.metadata.mode
    }

    /// The stat fields of the entry.
    pub fn get_metadata(&self) -> (r: MinigitMetadata)
        ensures
            r == self@.metadata,
    {
        self.metadata
    }

    /// The exact on-disk bytes of this entry: the 62-byte fixed prefix, the
    /// path, and NUL padding up to a multiple of eight bytes.
    pub fn get_data(&self) -> (r: Vec<u8>)
        requires
            entry_wf(self@),
        ensures
            r@ == entry_disk_bytes(self@),
    {
        let mut data: Vec<u8> = Vec::new();
        let f0 = u32_to_u8_array_big_endian(self.metadata.ctime);
        data.extend_from_slice(f0.as_slice());
        let f1 = u32_to_u8_array_big_endian(self.metadata.ctime_nsec);
        data.extend_from_slice(f1.as_slice());
        let f2 = u32_to_u8_array_big_endian(self.metadata.mtime);
        data.extend_from_slice(f2.as_slice());
        let f3 = u32_to_u8_array_big_endian(self.metadata.mtime_nsec);
        data.extend_from_slice(f3.as_slice());
        let f4 = u32_to_u8_array_big_endian(self.metadata.dev);
        data.extend_from_slice(f4.as_slice());
        let f5 = u32_to_u8_array_big_endian(self.metadata.ino);
        data.extend_from_slice(f5.as_slice());
        let f6 = u32_to_u8_array_big_endian(self.metadata.mode);
        data.extend_from_slice(f6.as_slice());
        let f7 = u32_to_u8_array_big_endian(self.metadata.uid);
        data.extend_from_slice(f7.as_slice());
        let f8 = u32_to_u8_array_big_endian(self.metadata.gid);
        data.extend_from_slice(f8.as_slice());
        let f9 = u32_to_u8_array_big_endian(self.metadata.size);
        data.extend_from_slice(f9.as_slice());
        data.extend_from_slice(self.oid.as_slice());
        let ff = u16_to_u8_array_big_endian(self.flags);
        data.extend_from_slice(ff.as_slice());
        proof {
            assert(data@ =~= entry_fixed_bytes(self@));
            assert(data@.len() == 62);
        }
        data.extend_from_slice(self.path.as_slice());
        data.push(0);
        let ghost fixed_len: int = 62 + self@.path.len() as int;
        while data.len() % 8 != 0
            invariant
                fixed_len == 62 + self@.path.len(),
                self@.path.len() <= 0x0fff_ffff,
                data@.take(fixed_len) == entry_fixed_bytes(self@) + self@.path,
                fixed_len < data@.len() <= entry_total_len(self@.path.len() as int),
                forall|i: int| fixed_len <= i < data@.len() ==> (#[trigger] data@[i]) == 0,
            decreases entry_total_len(self@.path.len() as int) - data@.len(),
        {
            proof {
                assert(data@.len() < entry_total_len(self@.path.len() as int));
            }
            data.push(0);
        }
        proof {
            assert(data@.len() == entry_total_len(self@.path.len() as int));
            assert(data@ =~= entry_disk_bytes(self@));
        }
        data
    }
}

/// The author identity stamped on a commit: a display name, an email
/// address, and the commit instant as Unix seconds with a local offset.
pub struct Author {
    name: String,
    email: String,
    timestamp_seconds: i64,
    timezone_offset_seconds: i32,
}

/// The author line written in a commit payload.
pub open spec fn spec_author_line(
    name: Seq<char>,
    email: Seq<char>,
    seconds: int,
    offset: int,
) -> Seq<char> {
    name + " <"@ + email + "> "@ + dec_signed(seconds) + " "@ + tz_offset_chars(offset)
}

impl Author {
    pub closed spec fn name_spec(&self) -> Seq<char> {
        self.name@
    }

    pub closed spec fn email_spec(&self) -> Seq<char> {
        self.email@
    }

    pub closed spec fn seconds_spec(&self) -> int {
        self.timestamp_seconds as int
    }

    pub closed spec fn offset_spec(&self) -> int {
        self.timezone_offset_seconds as int
    }

    /// The bounds under which an author line can be rendered.
    pub closed spec fn wf(&self) -> bool {
        &&& self.timestamp_seconds > i64::MIN
        &&& -86400 < self.timezone_offset_seconds < 86400
    }

    /// An author at an instant given as Unix seconds and a timezone offset
    /// in seconds east of UTC.
    pub fn new(name: &str, email: &str, timestamp_seconds: i64, timezone_offset_seconds: i32) -> (r:
        Author)
        requires
            timestamp_seconds > i64::MIN,
            -86400 < timezone_offset_seconds < 86400,
        ensures
            r.name_spec() == name@,
            r.email_spec() == email@,
            r.seconds_spec() == timestamp_seconds as int,
            r.offset_spec() == timezone_offset_seconds as int,
            r.wf(),
    {
        Author {
            name: String::from_str(name),
            email: String::from_str(email),
            timestamp_seconds,
            timezone_offset_seconds,
        }
    }

    /// The `name <email> seconds offset` line of a commit payload.
    pub fn to_string(&self) -> (r: String)
        requires
            self.wf(),
        ensures
            r@ == spec_author_line(
                self.name_spec(),
                self.email_spec(),
                self.seconds_spec(),
                self.offset_spec(),
            ),
    {
        let mut s = self.name.clone();
        s.append(" <");
        s.append(self.email.as_str());
        s.append("> ");
        let secs = i64_to_dec_string(self.timestamp_seconds);
        s.append(secs.as_str());
        s.append(" ");
        let tz = tz_offset_string(self.timezone_offset_seconds);
        s.append(tz.as_str());
        s
    }
}

/// A commit object: a payload naming a tree, an optional parent, the author
/// and committer lines, and the message.
pub struct Commit {
    data: Vec<u8>,
    oid: String,
}

/// The canonical payload of a commit.
pub open spec fn spec_commit_data(
    parent: Option<Seq<char>>,
    author_line: Seq<char>,
    message: Seq<char>,
    tree_oid: Seq<char>,
) -> Seq<u8> {
    encode_utf8("tree "@) + encode_utf8(tree_oid) + (match parent {
        Some(p) => encode_utf8("\nparent "@) + encode_utf8(p),
        None => Seq::<u8>::empty(),
    }) + encode_utf8("\nauthor "@) + encode_utf8(author_line) + encode_utf8("\ncommitter "@)
        + encode_utf8(author_line) + encode_utf8("\n\n"@) + encode_utf8(message)
}

impl Commit {
    /// A commit of the given tree, with an optional parent commit id, the
    /// given author for both author and committer, and the given message.
    pub fn new(parent: &Option<String>, author: Author, message: &str, tree_oid: &str) -> (r:
        Commit)
        requires
            author.wf(),
        ensures
            r.data_spec() == spec_commit_data(
                match parent {
                    Some(p) => Some(p@),
                    None => None,
                },
                spec_author_line(
                    author.name_spec(),
                    author.email_spec(),
                    author.seconds_spec(),
                    author.offset_spec(),
                ),
                message@,
                tree_oid@,
            ),
            r.type_spec() == "commit"@,
            r.oid_spec() == Seq::<char>::empty(),
    {
        let mut data: Vec<u8> = Vec::new();
        let t = "tree ";
        data.extend_from_slice(t.as_bytes());
        data.extend_from_slice(tree_oid.as_bytes());
        match parent {
            Some(p) => {
                let np = "\nparent ";
                data.extend_from_slice(np.as_bytes());
                data.extend_from_slice(p.as_str().as_bytes());
            },
            None => {},
        }
        let na = "\nauthor ";
        data.extend_from_slice(na.as_bytes());
        let line = author.to_string();
        data.extend_from_slice(line.as_str().as_bytes());
        let nc = "\ncommitter ";
        data.extend_from_slice(nc.as_bytes());
        data.extend_from_slice(line.as_str().as_bytes());
        let nn = "\n\n";
        data.extend_from_slice(nn.as_bytes());
        data.extend_from_slice(message.as_bytes());
        Commit { data, oid: String::new() }
    }
}

impl GitObject for Commit {
    closed spec fn data_spec(&self) -> Seq<u8> {
        self.data@
    }

    closed spec fn type_spec(&self) -> Seq<char> {
        "commit"@
    }

    closed spec fn oid_spec(&self) -> Seq<char> {
        self.oid@
    }

    closed spec fn same_but_oid(&self, other: &Self) -> bool {
        self.data@ == other.data@
    }

    fn get_data(&self) -> (d: &Vec<u8>) {
        &self.data
    }

    fn get_type(&self) -> (t: &str) {
        "commit"
    }

    fn get_oid(&self) -> (o: &str) {
        self.oid.as_str()
    }

    fn set_oid(&mut self, oid: String) {
        self.oid = oid;
    }
}

} // verus!
