//! Status: the untracked-path computation over a snapshot of the
//! workspace. The snapshot — each directory's children, already filtered by
//! the ignore rules — is handed in as a value; the computation decides, for
//! every child, whether to descend, report, or skip, and renders the sorted
//! `?? ` lines.

use vstd::prelude::*;
use vstd::utf8::encode_utf8;

use crate::index::{spec_tracked, Index};
use crate::strutil::{chars_lt, compare_strs, lemma_chars_lt_trans, lemma_chars_lt_trichotomy,
    ByteOrder};

verus! {

/// The status operation; directory enumeration happens around it.
pub struct StatusCommand;

/// One member of the workspace snapshot: a file, or a directory with its
/// children. Names are single path components.
pub enum WsNode {
    File(String),
    Dir(String, Vec<WsNode>),
}

/// The mathematical content of a snapshot member.
#[verifier::ext_equal]
pub enum WsNodeView {
    File(Seq<char>),
    Dir(Seq<char>, Seq<WsNodeView>),
}

/// The views of a run of snapshot members.
pub closed spec fn ws_nodes_view(v: Seq<WsNode>) -> Seq<WsNodeView>
    decreases v,
{
    if v.len() == 0 {
        seq![]
    } else {
        ws_nodes_view(v.drop_last()).push(v.last()@)
    }
}

impl View for WsNode {
    type V = WsNodeView;

    closed spec fn view(&self) -> WsNodeView
        decreases self,
    {
        match self {
            WsNode::File(n) => WsNodeView::File(n@),
            WsNode::Dir(n, children) => WsNodeView::Dir(n@, ws_nodes_view(children@)),
        }
    }
}

/// The views of the members line up with the members.
proof fn lemma_ws_nodes_view(v: Seq<WsNode>)
    ensures
        ws_nodes_view(v).len() == v.len(),
        forall|i: int| 0 <= i < v.len() ==> ws_nodes_view(v)[i] == (#[trigger] v[i])@,
    decreases v.len(),
{
    if v.len() > 0 {
        lemma_ws_nodes_view(v.drop_last());
        assert(ws_nodes_view(v) == ws_nodes_view(v.drop_last()).push(v.last()@));
        assert forall|i: int| 0 <= i < v.len() implies ws_nodes_view(v)[i] == (#[trigger] v[i])@
            by {
            if i < v.len() - 1 {
                assert(ws_nodes_view(v)[i] == ws_nodes_view(v.drop_last())[i]);
                assert(v.drop_last()[i] == v[i]);
            } else {
                assert(ws_nodes_view(v)[i] == v.last()@);
            }
        }
    }
}

/// The nesting depth of a snapshot member.
pub open spec fn ws_node_height(n: WsNodeView) -> nat
    decreases n,
{
    match n {
        WsNodeView::File(_) => 0,
        WsNodeView::Dir(_, children) => 1 + ws_kids_height(children),
    }
}

/// The nesting depth of a run of snapshot members.
pub open spec fn ws_kids_height(kids: Seq<WsNodeView>) -> nat
    decreases kids,
{
    if kids.len() == 0 {
        0
    } else if ws_node_height(kids.last()) > ws_kids_height(kids.drop_last()) {
        ws_node_height(kids.last())
    } else {
        ws_kids_height(kids.drop_last())
    }
}

/// Every member is at most as deep as the run it belongs to.
proof fn lemma_ws_kids_height(kids: Seq<WsNodeView>)
    ensures
        forall|i: int|
            0 <= i < kids.len() ==> ws_node_height(#[trigger] kids[i]) <= ws_kids_height(kids),
    decreases kids.len(),
{
    if kids.len() > 0 {
        lemma_ws_kids_height(kids.drop_last());
        assert forall|i: int|
            0 <= i < kids.len() implies ws_node_height(#[trigger] kids[i]) <= ws_kids_height(
            kids,
        ) by {
            if i < kids.len() - 1 {
                assert(kids.drop_last()[i] == kids[i]);
            }
        }
    }
}

/// The name component of a snapshot member.
pub open spec fn ws_node_name(n: WsNodeView) -> Seq<char> {
    match n {
        WsNodeView::File(name) => name,
        WsNodeView::Dir(name, _) => name,
    }
}

/// A path extended by one component: separated by a slash, except under
/// the empty root prefix.
pub open spec fn spec_join(prefix: Seq<char>, name: Seq<char>) -> Seq<char> {
    if prefix.len() == 0 {
        name
    } else {
        prefix + seq!['/'] + name
    }
}

/// Whether a snapshot member at a path is trackable: a file not tracked by
/// the index, or a directory holding a trackable member somewhere below.
pub open spec fn spec_trackable(
    s: Seq<crate::gitobject::EntryView>,
    n: WsNodeView,
    path: Seq<char>,
) -> bool
    decreases n,
{
    match n {
        WsNodeView::File(_) => !spec_tracked(s, encode_utf8(path)),
        WsNodeView::Dir(_, children) => exists|i: int|
            0 <= i < children.len() && spec_trackable(
                s,
                #[trigger] children[i],
                spec_join(path, ws_node_name(children[i])),
            ),
    }
}

/// Whether scanning a member at a path reports `out`: a tracked directory
/// defers to its children, an untracked trackable member reports itself —
/// with a trailing slash when it is a directory.
pub open spec fn spec_emits(
    s: Seq<crate::gitobject::EntryView>,
    n: WsNodeView,
    path: Seq<char>,
    out: Seq<char>,
) -> bool
    decreases n,
{
    if spec_tracked(s, encode_utf8(path)) {
        match n {
            WsNodeView::File(_) => false,
            WsNodeView::Dir(_, children) => exists|i: int|
                0 <= i < children.len() && spec_emits(
                    s,
                    #[trigger] children[i],
                    spec_join(path, ws_node_name(children[i])),
                    out,
                ),
        }
    } else if spec_trackable(s, n, path) {
        match n {
            WsNodeView::File(_) => out == path,
            WsNodeView::Dir(_, _) => out == path + seq!['/'],
        }
    } else {
        false
    }
}

/// Whether a run of strings holds one with these characters.
pub open spec fn strs_contain(v: Seq<Seq<char>>, s: Seq<char>) -> bool {
    exists|i: int| 0 <= i < v.len() && v[i] == s
}

/// The characters of each string in a run.
pub open spec fn strs_view(v: Seq<String>) -> Seq<Seq<char>> {
    Seq::new(v.len(), |i: int| v[i]@)
}

/// Strictly ascending by code point, so each string occurs once.
pub open spec fn strs_sorted(v: Seq<Seq<char>>) -> bool {
    forall|i: int, j: int| 0 <= i < j < v.len() ==> chars_lt(v[i], v[j])
}

/// Inserts a string at its place in a sorted run, keeping one copy.
fn insert_sorted_unique(v: &mut Vec<String>, s: String)
    requires
        strs_sorted(strs_view(old(v)@)),
    ensures
        strs_sorted(strs_view(final(v)@)),
        forall|t: Seq<char>|
            strs_contain(strs_view(final(v)@), t) <==> strs_contain(strs_view(old(v)@), t) || t
                == s@,
    decreases old(v)@.len(),
{
    let ghost v0 = strs_view(v@);
    let mut i: usize = 0;
    while i < v.len() && matches!(compare_strs(v[i].as_str(), s.as_str()), ByteOrder::Before)
        invariant
            i <= v@.len(),
            v@ == old(v)@,
            v0 == strs_view(v@),
            forall|j: int| 0 <= j < i ==> chars_lt(#[trigger] v0[j], s@),
        decreases v@.len() - i,
    {
        i += 1;
    }
    if i < v.len() && matches!(compare_strs(v[i].as_str(), s.as_str()), ByteOrder::Same) {
        proof {
            assert(v0[i as int] == s@);
            assert forall|t: Seq<char>|
                strs_contain(strs_view(v@), t) <==> strs_contain(v0, t) || t == s@ by {
                if t == s@ {
                    assert(strs_view(v@)[i as int] == t);
                }
            }
        }
        return ;
    }
    proof {
        if i < v@.len() {
            lemma_chars_lt_trichotomy(v0[i as int], s@);
            assert(chars_lt(s@, v0[i as int]));
        }
    }
    v.insert(i, s);
    proof {
        let nv = strs_view(v@);
        assert forall|j: int| 0 <= j < nv.len() implies nv[j] == (if j < i {
            v0[j]
        } else if j == i {
            s@
        } else {
            v0[j - 1]
        }) by {
            if j < i {
                assert(v@[j] == old(v)@[j]);
            } else if j > i {
                assert(v@[j] == old(v)@[j - 1]);
            }
        }
        assert forall|a: int, b: int| 0 <= a < b < nv.len() implies chars_lt(nv[a], nv[b]) by {
            if b < i {
                assert(chars_lt(v0[a], v0[b]));
            } else if b == i {
                assert(chars_lt(v0[a], s@));
            } else if a == i {
                assert(chars_lt(s@, v0[i as int]));
                if b - 1 > i {
                    lemma_chars_lt_trans(s@, v0[i as int], v0[b - 1]);
                }
            } else if a < i {
                assert(chars_lt(v0[a], v0[b - 1]));
            } else {
                assert(chars_lt(v0[a - 1], v0[b - 1]));
            }
        }
        assert forall|t: Seq<char>| strs_contain(nv, t) <==> strs_contain(v0, t) || t == s@ by {
            if strs_contain(nv, t) {
                let j = choose|j: int| 0 <= j < nv.len() && nv[j] == t;
                if j < i {
                    assert(v0[j] == t);
                } else if j > i {
                    assert(v0[j - 1] == t);
                }
            }
            if strs_contain(v0, t) {
                let j = choose|j: int| 0 <= j < v0.len() && v0[j] == t;
                if j < i {
                    assert(nv[j] == t);
                } else {
                    assert(nv[j + 1] == t);
                }
            }
            if t == s@ {
                assert(nv[i as int] == t);
            }
        }
    }
}

/// A path extended by one component.
fn join_path(prefix: &str, name: &str) -> (r: String)
    ensures
        r@ == spec_join(prefix@, name@),
{
    if prefix.unicode_len() == 0 {
        String::from_str(name)
    } else {
        proof {
            reveal_strlit("/");
            assert("/"@ =~= seq!['/']);
        }
        let mut r = String::from_str(prefix);
        r.append("/");
        r.append(name);
        r
    }
}

/// Whether a snapshot member at a path is trackable: a file the index does
/// not track, or a directory with a trackable member below.
pub fn is_trackable_file(index: &Index, node: &WsNode, path: &str) -> (r: bool)
    ensures
        r == spec_trackable(index@, node@, path@),
    decreases ws_node_height(node@),
{
    match node {
        WsNode::File(_) => !index.is_path_tracked(path),
        WsNode::Dir(_, children) => {
            proof {
                lemma_ws_nodes_view(children@);
                lemma_ws_kids_height(ws_nodes_view(children@));
            }
            let ghost nv = node@;
            let ghost cv = ws_nodes_view(children@);
            let mut i: usize = 0;
            while i < children.len()
                invariant
                    i <= children@.len(),
                    nv == node@,
                    nv == WsNodeView::Dir(ws_node_name(nv), cv),
                    cv == ws_nodes_view(children@),
                    cv.len() == children@.len(),
                    ws_node_height(nv) == 1 + ws_kids_height(cv),
                    forall|j: int|
                        0 <= j < cv.len() ==> ws_node_height(#[trigger] cv[j]) <= ws_kids_height(
                            cv,
                        ),
                    forall|j: int| 0 <= j < children@.len() ==> (#[trigger] children@[j])@ == cv[j],
                    forall|j: int|
                        0 <= j < i ==> !spec_trackable(
                            index@,
                            #[trigger] cv[j],
                            spec_join(path@, ws_node_name(cv[j])),
                        ),
                decreases children@.len() - i,
            {
                let child = &children[i];
                let name: &String = match child {
                    WsNode::File(n) => n,
                    WsNode::Dir(n, _) => n,
                };
                proof {
                    assert(child@ == cv[i as int]);
                    assert(ws_node_name(cv[i as int]) == name@);
                    assert(ws_node_height(child@) < ws_node_height(nv));
                }
                let child_path = join_path(path, name.as_str());
                if is_trackable_file(index, child, child_path.as_str()) {
                    proof {
                        assert(spec_trackable(
                            index@,
                            cv[i as int],
                            spec_join(path@, ws_node_name(cv[i as int])),
                        ));
                    }
                    return true;
                }
                i += 1;
            }
            false
        },
    }
}

/// Scans a run of snapshot members below a prefix, collecting every
/// reported path into the sorted set.
pub fn scan_workspace(index: &Index, nodes: &Vec<WsNode>, prefix: &str, untracked: &mut Vec<
    String,
>)
    requires
        strs_sorted(strs_view(old(untracked)@)),
    ensures
        strs_sorted(strs_view(final(untracked)@)),
        forall|t: Seq<char>|
            strs_contain(strs_view(final(untracked)@), t) <==> strs_contain(
                strs_view(old(untracked)@),
                t,
            ) || (exists|i: int|
                0 <= i < nodes@.len() && spec_emits(
                    index@,
                    (#[trigger] nodes@[i])@,
                    spec_join(prefix@, ws_node_name(nodes@[i]@)),
                    t,
                )),
    decreases ws_kids_height(ws_nodes_view(nodes@)), ws_nodes_view(nodes@).len(),
{
    proof {
        lemma_ws_nodes_view(nodes@);
        lemma_ws_kids_height(ws_nodes_view(nodes@));
    }
    let ghost cv = ws_nodes_view(nodes@);
    let mut i: usize = 0;
    while i < nodes.len()
        invariant
            i <= nodes@.len(),
            cv == ws_nodes_view(nodes@),
            cv.len() == nodes@.len(),
            forall|j: int| 0 <= j < nodes@.len() ==> (#[trigger] nodes@[j])@ == cv[j],
            strs_sorted(strs_view(untracked@)),
            forall|j: int|
                0 <= j < cv.len() ==> ws_node_height(#[trigger] cv[j]) <= ws_kids_height(cv),
            forall|t: Seq<char>|
                strs_contain(strs_view(untracked@), t) <==> strs_contain(
                    strs_view(old(untracked)@),
                    t,
                ) || (exists|j: int|
                    0 <= j < i && spec_emits(
                        index@,
                        #[trigger] cv[j],
                        spec_join(prefix@, ws_node_name(cv[j])),
                        t,
                    )),
        decreases nodes@.len() - i,
    {
        let node = &nodes[i];
        let name: &String = match node {
            WsNode::File(n) => n,
            WsNode::Dir(n, _) => n,
        };
        proof {
            assert(node@ == cv[i as int]);
            assert(ws_node_name(cv[i as int]) == name@);
        }
        let path = join_path(prefix, name.as_str());
        let ghost p = path@;
        let ghost before = strs_view(untracked@);
        let tracked_here = index.is_path_tracked(path.as_str());
        if tracked_here {
            match node {
                WsNode::Dir(_, children) => {
                    proof {
                        lemma_ws_nodes_view(children@);
                        assert(cv[i as int] == WsNodeView::Dir(
                            name@,
                            ws_nodes_view(children@),
                        ));
                        assert(ws_node_height(cv[i as int]) == 1 + ws_kids_height(
                            ws_nodes_view(children@),
                        ));
                        assert(ws_kids_height(ws_nodes_view(children@)) < ws_kids_height(cv));
                    }
                    scan_workspace(index, children, path.as_str(), untracked);
                    proof {
                        lemma_ws_nodes_view(children@);
                        assert forall|t: Seq<char>|
                            strs_contain(strs_view(untracked@), t) <==> strs_contain(before, t)
                                || spec_emits(index@, cv[i as int], p, t) by {
                            assert(cv[i as int] == WsNodeView::Dir(
                                name@,
                                ws_nodes_view(children@),
                            ));
                            assert(spec_tracked(index@, encode_utf8(p)));
                            if strs_contain(strs_view(untracked@), t) && !strs_contain(
                                before,
                                t,
                            ) {
                                let k = choose|k: int|
                                    0 <= k < children@.len() && spec_emits(
                                        index@,
                                        (#[trigger] children@[k])@,
                                        spec_join(p, ws_node_name(children@[k]@)),
                                        t,
                                    );
                                assert(ws_nodes_view(children@)[k] == children@[k]@);
                                assert(spec_emits(index@, cv[i as int], p, t));
                            }
                            if spec_emits(index@, cv[i as int], p, t) {
                                let k = choose|k: int|
                                    0 <= k < ws_nodes_view(children@).len() && spec_emits(
                                        index@,
                                        #[trigger] ws_nodes_view(children@)[k],
                                        spec_join(
                                            p,
                                            ws_node_name(ws_nodes_view(children@)[k]),
                                        ),
                                        t,
                                    );
                                assert(children@[k]@ == ws_nodes_view(children@)[k]);
                                assert(spec_emits(
                                    index@,
                                    children@[k]@,
                                    spec_join(p, ws_node_name(children@[k]@)),
                                    t,
                                ));
                                assert(strs_contain(strs_view(untracked@), t));
                            }
                            if strs_contain(before, t) {
                                assert(strs_contain(strs_view(untracked@), t));
                            }
                        }
                    }
                },
                WsNode::File(_) => {
                    proof {
                        assert(forall|t: Seq<char>| !spec_emits(index@, cv[i as int], p, t));
                    }
                },
            }
        } else {
            let trackable = is_trackable_file(index, node, path.as_str());
            if trackable {
                match node {
                    WsNode::Dir(_, _) => {
                        proof {
                            reveal_strlit("/");
                            assert("/"@ =~= seq!['/']);
                        }
                        let mut line = path;
                        line.append("/");
                        proof {
                            assert(line@ == p + seq!['/']);
                            assert(forall|t: Seq<char>|
                                spec_emits(index@, cv[i as int], p, t) <==> t == p + seq!['/']);
                        }
                        insert_sorted_unique(untracked, line);
                    },
                    WsNode::File(_) => {
                        proof {
                            assert(forall|t: Seq<char>|
                                spec_emits(index@, cv[i as int], p, t) <==> t == p);
                        }
                        insert_sorted_unique(untracked, path);
                    },
                }
            } else {
                proof {
                    assert(forall|t: Seq<char>| !spec_emits(index@, cv[i as int], p, t));
                }
            }
        }
        proof {
            assert forall|t: Seq<char>|
                strs_contain(strs_view(untracked@), t) <==> strs_contain(
                    strs_view(old(untracked)@),
                    t,
                ) || (exists|j: int|
                    0 <= j < i + 1 && spec_emits(
                        index@,
                        #[trigger] cv[j],
                        spec_join(prefix@, ws_node_name(cv[j])),
                        t,
                    )) by {
                if strs_contain(strs_view(untracked@), t) {
                    if !strs_contain(before, t) {
                        assert(spec_emits(
                            index@,
                            cv[i as int],
                            spec_join(prefix@, ws_node_name(cv[i as int])),
                            t,
                        ));
                    } else {
                        if !strs_contain(strs_view(old(untracked)@), t) {
                            let j0 = choose|j: int|
                                0 <= j < i && spec_emits(
                                    index@,
                                    #[trigger] cv[j],
                                    spec_join(prefix@, ws_node_name(cv[j])),
                                    t,
                                );
                            assert(spec_emits(
                                index@,
                                cv[j0],
                                spec_join(prefix@, ws_node_name(cv[j0])),
                                t,
                            ));
                        }
                    }
                }
                if strs_contain(strs_view(old(untracked)@), t) {
                    assert(strs_contain(before, t));
                    assert(strs_contain(strs_view(untracked@), t));
                }
                if exists|j: int|
                    0 <= j < i + 1 && spec_emits(
                        index@,
                        #[trigger] cv[j],
                        spec_join(prefix@, ws_node_name(cv[j])),
                        t,
                    ) {
                    let j0 = choose|j: int|
                        0 <= j < i + 1 && spec_emits(
                            index@,
                            #[trigger] cv[j],
                            spec_join(prefix@, ws_node_name(cv[j])),
                            t,
                        );
                    if j0 < i {
                        assert(strs_contain(before, t));
                    } else {
                        assert(spec_emits(index@, cv[i as int], p, t));
                    }
                    assert(strs_contain(strs_view(untracked@), t));
                }
            }
        }
        i += 1;
    }
    proof {
        assert forall|t: Seq<char>|
            strs_contain(strs_view(untracked@), t) <==> strs_contain(
                strs_view(old(untracked)@),
                t,
            ) || (exists|k: int|
                0 <= k < nodes@.len() && spec_emits(
                    index@,
                    (#[trigger] nodes@[k])@,
                    spec_join(prefix@, ws_node_name(nodes@[k]@)),
                    t,
                )) by {
            if strs_contain(strs_view(untracked@), t) && !strs_contain(
                strs_view(old(untracked)@),
                t,
            ) {
                let j0 = choose|j: int|
                    0 <= j < i && spec_emits(
                        index@,
                        #[trigger] cv[j],
                        spec_join(prefix@, ws_node_name(cv[j])),
                        t,
                    );
                assert(nodes@[j0]@ == cv[j0]);
                assert(spec_emits(
                    index@,
                    nodes@[j0]@,
                    spec_join(prefix@, ws_node_name(nodes@[j0]@)),
                    t,
                ));
            }
            if exists|k: int|
                0 <= k < nodes@.len() && spec_emits(
                    index@,
                    (#[trigger] nodes@[k])@,
                    spec_join(prefix@, ws_node_name(nodes@[k]@)),
                    t,
                ) {
                let k0 = choose|k: int|
                    0 <= k < nodes@.len() && spec_emits(
                        index@,
                        (#[trigger] nodes@[k])@,
                        spec_join(prefix@, ws_node_name(nodes@[k]@)),
                        t,
                    );
                assert(cv[k0] == nodes@[k0]@);
                assert(spec_emits(
                    index@,
                    cv[k0],
                    spec_join(prefix@, ws_node_name(cv[k0])),
                    t,
                ));
                assert(strs_contain(strs_view(untracked@), t));
            }
        }
    }
}

/// The rendered status report: one `?? ` line per path, in order.
pub open spec fn spec_status_output(v: Seq<Seq<char>>) -> Seq<char>
    decreases v.len(),
{
    if v.len() == 0 {
        seq![]
    } else {
        spec_status_output(v.drop_last()) + "?? "@ + v.last() + "\n"@
    }
}

impl StatusCommand {
    /// The sorted untracked paths of a workspace snapshot.
    pub fn untracked_paths(index: &Index, nodes: &Vec<WsNode>) -> (r: Vec<String>)
        ensures
            strs_sorted(strs_view(r@)),
            forall|t: Seq<char>|
                strs_contain(strs_view(r@), t) <==> (exists|i: int|
                    0 <= i < nodes@.len() && spec_emits(
                        index@,
                        (#[trigger] nodes@[i])@,
                        ws_node_name(nodes@[i]@),
                        t,
                    )),
    {
        let mut untracked: Vec<String> = Vec::new();
        proof {
            assert(strs_view(untracked@) =~= Seq::<Seq<char>>::empty());
        }
        scan_workspace(index, nodes, "", &mut untracked);
        proof {
            assert(""@.len() == 0) by {
                reveal_strlit("");
            }
            assert forall|i: int| 0 <= i < nodes@.len() implies spec_join(
                ""@,
                ws_node_name(nodes@[i]@),
            ) == ws_node_name(#[trigger] nodes@[i]@) by {}
        }
        untracked
    }

    /// The full status report for the untracked paths.
    pub fn render(untracked: &Vec<String>) -> (r: String)
        ensures
            r@ == spec_status_output(strs_view(untracked@)),
    {
        let ghost v = strs_view(untracked@);
        let mut out = String::new();
        proof {
            assert(v.take(0) =~= Seq::<Seq<char>>::empty());
        }
        let mut i: usize = 0;
        while i < untracked.len()
            invariant
                i <= untracked@.len(),
                v == strs_view(untracked@),
                v.len() == untracked@.len(),
                out@ == spec_status_output(v.take(i as int)),
            decreases untracked@.len() - i,
        {
            out.append("?? ");
            out.append(untracked[i].as_str());
            out.append("\n");
            proof {
                assert(v.take(i as int + 1).drop_last() =~= v.take(i as int));
                assert(v.take(i as int + 1).last() == v[i as int]);
            }
            i += 1;
        }
        proof {
            assert(v.take(v.len() as int) =~= v);
        }
        out
    }
}

} // verus!
