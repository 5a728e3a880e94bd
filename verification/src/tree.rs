//! The arena of active frame nodes: one entry per currently live logical
//! call, keyed by a process-unique identifier, with parent/children linkage.
//! The forest is mutated as operations begin and end, and its invariant —
//! strict nesting, no dangling child, no identifier reuse — is kept by every
//! operation.

use std::collections::HashMap;

use vstd::prelude::*;

use crate::field::{field_entries, Data, Val, ValColl};

verus! {

/// One currently live logical call frame.
pub struct Node {
    /// The enclosing frame, or none for a root.
    pub parent: Option<u64>,
    /// The frames nested in this one, in the order they began.
    pub children: Vec<u64>,
    /// The display name of the call this frame stands for.
    pub label: String,
    /// The source file and line where the frame was created.
    pub location: String,
    /// The creation timestamp and the recorded attributes.
    pub data: Data,
}

/// The mathematical image of one frame node.
pub ghost struct NodeModel {
    pub parent: Option<u64>,
    pub children: Seq<u64>,
    pub label: Seq<char>,
    pub location: Seq<char>,
    pub created_at: u64,
    pub fields: Seq<(Seq<char>, Val)>,
}

/// The mathematical image of one frame node, read off an arena entry.
pub open spec fn node_model(n: Node) -> NodeModel {
    NodeModel {
        parent: n.parent,
        children: n.children@,
        label: n.label@,
        location: n.location@,
        created_at: n.data.start_at,
        fields: field_entries(n.data.fields),
    }
}

/// The mathematical image of the whole forest: the nodes by identifier, the
/// root identifiers in their enumeration order, and the next identifier to
/// be handed out.
pub ghost struct TreeModel {
    pub nodes: Map<u64, NodeModel>,
    pub roots: Seq<u64>,
    pub next_id: nat,
}

/// Well-formedness of one node of the forest: its identifier was handed out
/// before the next one; its parent, if any, was created earlier, is present,
/// and lists it as a child; a parentless node is listed as a root; and its
/// children are present, were created later, list it as their parent, and
/// are pairwise distinct.
pub open spec fn wf_node(m: TreeModel, id: u64) -> bool {
    let n = m.nodes[id];
    &&& (id as nat) < m.next_id
    &&& match n.parent {
        Some(p) => {
            &&& p < id
            &&& m.nodes.dom().contains(p)
            &&& m.nodes[p].children.contains(id)
        },
        None => m.roots.contains(id),
    }
    &&& forall|j: int|
        0 <= j < n.children.len() ==> {
            &&& m.nodes.dom().contains(#[trigger] n.children[j])
            &&& n.children[j] > id
            &&& m.nodes[n.children[j]].parent == Some(id)
        }
    &&& forall|j: int, k: int|
        0 <= j < k < n.children.len() ==> n.children[j] != n.children[k]
}

/// Well-formedness of the forest: every node is well formed, and the root
/// list holds exactly parentless present nodes, each once.
pub open spec fn wf(m: TreeModel) -> bool {
    &&& forall|id: u64| #[trigger] m.nodes.dom().contains(id) ==> wf_node(m, id)
    &&& forall|i: int|
        0 <= i < m.roots.len() ==> {
            &&& m.nodes.dom().contains(#[trigger] m.roots[i])
            &&& m.nodes[m.roots[i]].parent is None
        }
    &&& forall|i: int, j: int| 0 <= i < j < m.roots.len() ==> m.roots[i] != m.roots[j]
}

/// A freshly created frame node, not yet enclosing anything.
pub open spec fn new_node_model(
    parent: Option<u64>,
    label: Seq<char>,
    location: Seq<char>,
    created_at: u64,
    fields: Seq<(Seq<char>, Val)>,
) -> NodeModel {
    NodeModel { parent, children: Seq::empty(), label, location, created_at, fields }
}

/// What inserting a frame does to the forest: the next identifier is handed
/// out and advanced, and the new node is linked as the last child of the
/// requested parent when that parent is present, and as a new root
/// otherwise.
pub open spec fn spec_insert(
    m: TreeModel,
    parent: Option<u64>,
    label: Seq<char>,
    location: Seq<char>,
    created_at: u64,
    fields: Seq<(Seq<char>, Val)>,
) -> TreeModel {
    let id = m.next_id as u64;
    if parent is Some && m.nodes.dom().contains(parent->0) {
        let p = parent->0;
        TreeModel {
            nodes: m.nodes.insert(
                p,
                NodeModel { children: m.nodes[p].children.push(id), ..m.nodes[p] },
            ).insert(id, new_node_model(Some(p), label, location, created_at, fields)),
            roots: m.roots,
            next_id: m.next_id + 1,
        }
    } else {
        TreeModel {
            nodes: m.nodes.insert(id, new_node_model(None, label, location, created_at, fields)),
            roots: m.roots.push(id),
            next_id: m.next_id + 1,
        }
    }
}

/// A sequence with the one occurrence of `id` replaced by `kids`, in place.
pub open spec fn spec_splice(s: Seq<u64>, id: u64, kids: Seq<u64>) -> Seq<u64> {
    if s.contains(id) {
        let j = choose|j: int| 0 <= j < s.len() && s[j] == id;
        s.take(j) + kids + s.skip(j + 1)
    } else {
        s
    }
}

/// The nodes of `m`, with every node listed in `kids` re-pointed at the
/// parent `to`.
pub open spec fn spec_reparent(m: Map<u64, NodeModel>, kids: Seq<u64>, to: Option<u64>) -> Map<
    u64,
    NodeModel,
> {
    Map::new(
        |k: u64| m.dom().contains(k),
        |k: u64|
            if kids.contains(k) {
                NodeModel { parent: to, ..m[k] }
            } else {
                m[k]
            },
    )
}

/// What removing a frame does to the forest: nothing when the identifier is
/// unknown; otherwise the node leaves the arena, its children — present only
/// when completion signals arrived out of nesting order — are re-pointed at
/// its own parent and take its place in that parent's child list (or among
/// the roots), preserving order.
pub open spec fn spec_remove(m: TreeModel, id: u64) -> TreeModel {
    if !m.nodes.dom().contains(id) {
        m
    } else {
        let n = m.nodes[id];
        let rep = spec_reparent(m.nodes.remove(id), n.children, n.parent);
        match n.parent {
            Some(p) => {
                if rep.dom().contains(p) {
                    TreeModel {
                        nodes: rep.insert(
                            p,
                            NodeModel {
                                children: spec_splice(m.nodes[p].children, id, n.children),
                                ..rep[p]
                            },
                        ),
                        roots: m.roots,
                        next_id: m.next_id,
                    }
                } else {
                    TreeModel { nodes: rep, roots: m.roots, next_id: m.next_id }
                }
            },
            None => TreeModel {
                nodes: rep,
                roots: spec_splice(m.roots, id, n.children),
                next_id: m.next_id,
            },
        }
    }
}

/// What recording a late attribute does to the forest: the pair is appended
/// to the named node's attributes; an unknown identifier changes nothing.
pub open spec fn spec_record(m: TreeModel, id: u64, key: Seq<char>, val: Val) -> TreeModel {
    if m.nodes.dom().contains(id) {
        TreeModel {
            nodes: m.nodes.insert(
                id,
                NodeModel { fields: m.nodes[id].fields.push((key, val)), ..m.nodes[id] },
            ),
            roots: m.roots,
            next_id: m.next_id,
        }
    } else {
        m
    }
}

/// What splicing replaces and keeps: the result holds the elements of `s`
/// other than `id`, and the elements of `kids`; it is free of duplicates
/// whenever `s` and `kids` are and share nothing.
proof fn lemma_splice_props(s: Seq<u64>, id: u64, kids: Seq<u64>)
    requires
        s.contains(id),
        forall|i: int, j: int| 0 <= i < j < s.len() ==> s[i] != s[j],
    ensures
        forall|x: u64|
            #[trigger] spec_splice(s, id, kids).contains(x) <==> ((s.contains(x) && x != id)
                || kids.contains(x)),
        spec_splice(s, id, kids).len() == s.len() - 1 + kids.len(),
        ((forall|i: int, j: int| 0 <= i < j < kids.len() ==> kids[i] != kids[j]) && (forall|x: u64|
            kids.contains(x) ==> !s.contains(x))) ==> (forall|i: int, j: int|
            0 <= i < j < spec_splice(s, id, kids).len() ==> spec_splice(s, id, kids)[i]
                != spec_splice(s, id, kids)[j]),
{
    let j = choose|j: int| 0 <= j < s.len() && s[j] == id;
    let r = s.take(j) + kids + s.skip(j + 1);
    assert(spec_splice(s, id, kids) == r);
    let spos = |i: int|
        if i < j {
            i
        } else {
            i - kids.len() + 1
        };
    assert forall|x: u64| #[trigger] r.contains(x) implies ((s.contains(x) && x != id)
        || kids.contains(x)) by {
        let i = choose|i: int| 0 <= i < r.len() && r[i] == x;
        if i < j {
            assert(s[i] == x);
            assert(s[i] != s[j]);
        } else if i < j + kids.len() {
            assert(kids[i - j] == x);
        } else {
            assert(s[i - kids.len() + 1] == x);
            assert(s[j] != s[i - kids.len() + 1]);
        }
    }
    assert forall|x: u64| ((s.contains(x) && x != id) || kids.contains(x)) implies #[trigger] r
        .contains(x) by {
        if kids.contains(x) {
            let i = choose|i: int| 0 <= i < kids.len() && kids[i] == x;
            assert(r[j + i] == x);
        } else {
            let i = choose|i: int| 0 <= i < s.len() && s[i] == x;
            if i < j {
                assert(r[i] == x);
            } else {
                assert(i != j);
                assert(r[i + kids.len() - 1] == x);
            }
        }
    }
    if (forall|i: int, j2: int| 0 <= i < j2 < kids.len() ==> kids[i] != kids[j2]) && (forall|
        x: u64,
    |
        kids.contains(x) ==> !s.contains(x)) {
        assert forall|a: int, b: int| 0 <= a < b < r.len() implies r[a] != r[b] by {
            let in_kids = |i: int| j <= i < j + kids.len();
            if in_kids(a) && in_kids(b) {
                assert(r[a] == kids[a - j] && r[b] == kids[b - j]);
            } else if in_kids(a) {
                assert(kids.contains(r[a]));
                assert(r[b] == s[spos(b)]);
                assert(s.contains(s[spos(b)]));
            } else if in_kids(b) {
                assert(kids.contains(r[b]));
                assert(r[a] == s[spos(a)]);
                assert(s.contains(s[spos(a)]));
            } else {
                assert(r[a] == s[spos(a)] && r[b] == s[spos(b)]);
                assert(spos(a) < spos(b));
            }
        }
    }
}

/// Removing a frame keeps the forest well formed: the node leaves, every
/// other node stays, and its identifier is live nowhere afterwards.
pub proof fn lemma_remove_wf(m: TreeModel, id: u64)
    requires
        wf(m),
    ensures
        wf(spec_remove(m, id)),
        spec_remove(m, id).nodes.dom() == m.nodes.dom().remove(id),
        spec_remove(m, id).next_id == m.next_id,
        forall|x: u64|
            x != id && m.nodes.dom().contains(x) ==> #[trigger] spec_remove(
                m,
                id,
            ).nodes.dom().contains(x),
        !spec_remove(m, id).nodes.dom().contains(id),
{
    if !m.nodes.dom().contains(id) {
        assert(spec_remove(m, id).nodes.dom() =~= m.nodes.dom().remove(id));
        return;
    }
    let r = spec_remove(m, id);
    let n = m.nodes[id];
    let kids = n.children;
    let rep = spec_reparent(m.nodes.remove(id), kids, n.parent);
    assert(wf_node(m, id));
    assert(forall|x: u64| kids.contains(x) ==> #[trigger] m.nodes.dom().contains(x) && x > id);
    assert(forall|x: u64| kids.contains(x) ==> #[trigger] m.nodes[x].parent == Some(id));
    match n.parent {
        Some(p) => {
            assert(p < id);
            assert(!kids.contains(p));
            assert(rep.dom().contains(p));
            let chp = m.nodes[p].children;
            assert(wf_node(m, p));
            assert(chp.contains(id));
            lemma_splice_props(chp, id, kids);
            let spliced = spec_splice(chp, id, kids);
            assert(forall|x: u64| kids.contains(x) ==> !chp.contains(x));
            assert(forall|i: int, j: int| 0 <= i < j < spliced.len() ==> spliced[i] != spliced[j]);
            assert(r.nodes.dom() =~= m.nodes.dom().remove(id));
            assert forall|x: u64| #[trigger] r.nodes.dom().contains(x) implies wf_node(r, x) by {
                assert(wf_node(m, x));
                let rx = r.nodes[x];
                let ch = rx.children;
                assert forall|j: int| 0 <= j < ch.len() implies {
                    &&& r.nodes.dom().contains(#[trigger] ch[j])
                    &&& ch[j] > x
                    &&& r.nodes[ch[j]].parent == Some(x)
                } by {
                    let e = ch[j];
                    if x == p {
                        assert(spliced[j] == e);
                        assert(spliced.contains(e));
                        if chp.contains(e) && e != id {
                            assert(m.nodes[e].parent == Some(p));
                            assert(e != p);
                            assert(!kids.contains(e));
                            assert(r.nodes[e].parent == Some(p));
                        } else {
                            assert(kids.contains(e));
                            assert(e > id && id > p);
                            assert(e != p);
                            assert(r.nodes[e].parent == n.parent);
                        }
                    } else {
                        assert(ch == m.nodes[x].children);
                        assert(m.nodes.dom().contains(e));
                        assert(m.nodes[e].parent == Some(x));
                        assert(e != id);
                        assert(!kids.contains(e));
                        if e == p {
                            assert(r.nodes[e].parent == m.nodes[p].parent);
                            assert(wf_node(m, e));
                        } else {
                            assert(r.nodes[e].parent == m.nodes[e].parent);
                        }
                    }
                }
                if x == p {
                    assert(forall|i: int, j: int| 0 <= i < j < ch.len() ==> ch[i] != ch[j]);
                } else {
                    assert(ch == m.nodes[x].children);
                }
                if x != p {
                    if kids.contains(x) {
                        assert(rx.parent == Some(p));
                        assert(x > id && id > p);
                        assert(r.nodes.dom().contains(p));
                        assert(spliced.contains(x));
                        assert(r.nodes[p].children.contains(x));
                    } else {
                        assert(rx.parent == m.nodes[x].parent);
                        match m.nodes[x].parent {
                            Some(q) => {
                                if q == id {
                                    assert(m.nodes[id].children.contains(x));
                                    assert(false);
                                }
                                assert(r.nodes.dom().contains(q));
                                if q == p {
                                    assert(chp.contains(x));
                                    assert(spliced.contains(x));
                                    assert(r.nodes[p].children.contains(x));
                                } else {
                                    assert(r.nodes[q].children == m.nodes[q].children);
                                }
                            },
                            None => {
                                assert(r.roots == m.roots);
                            },
                        }
                    }
                } else {
                    assert(rx.parent == m.nodes[p].parent);
                    match m.nodes[p].parent {
                        Some(gp) => {
                            assert(gp < p && p < id);
                            assert(r.nodes.dom().contains(gp));
                            assert(!kids.contains(gp));
                            assert(r.nodes[gp].children == m.nodes[gp].children);
                        },
                        None => {},
                    }
                }
            }
            assert forall|i: int| 0 <= i < r.roots.len() implies {
                &&& r.nodes.dom().contains(#[trigger] r.roots[i])
                &&& r.nodes[r.roots[i]].parent is None
            } by {
                let e = m.roots[i];
                assert(m.nodes.dom().contains(e));
                assert(m.nodes[e].parent is None);
                assert(e != id);
                assert(!kids.contains(e));
                if e == p {
                    assert(r.nodes[e].parent == m.nodes[p].parent);
                }
            }
        },
        None => {
            assert(m.roots.contains(id));
            lemma_splice_props(m.roots, id, kids);
            let spliced = spec_splice(m.roots, id, kids);
            assert(forall|x: u64| kids.contains(x) ==> !m.roots.contains(x));
            assert(r.nodes.dom() =~= m.nodes.dom().remove(id));
            assert forall|x: u64| #[trigger] r.nodes.dom().contains(x) implies wf_node(r, x) by {
                assert(wf_node(m, x));
                let rx = r.nodes[x];
                let ch = rx.children;
                assert(ch == m.nodes[x].children);
                assert forall|j: int| 0 <= j < ch.len() implies {
                    &&& r.nodes.dom().contains(#[trigger] ch[j])
                    &&& ch[j] > x
                    &&& r.nodes[ch[j]].parent == Some(x)
                } by {
                    let e = ch[j];
                    assert(m.nodes.dom().contains(e));
                    assert(m.nodes[e].parent == Some(x));
                    assert(e != id);
                    assert(!kids.contains(e));
                    assert(r.nodes[e].parent == m.nodes[e].parent);
                }
                if kids.contains(x) {
                    assert(rx.parent is None);
                    assert(spliced.contains(x));
                    assert(r.roots.contains(x));
                } else {
                    assert(rx.parent == m.nodes[x].parent);
                    match m.nodes[x].parent {
                        Some(q) => {
                            if q == id {
                                assert(m.nodes[id].children.contains(x));
                                assert(false);
                            }
                            assert(r.nodes.dom().contains(q));
                            assert(r.nodes[q].children == m.nodes[q].children);
                        },
                        None => {
                            assert(m.roots.contains(x));
                            assert(spliced.contains(x));
                        },
                    }
                }
            }
            assert forall|i: int| 0 <= i < r.roots.len() implies {
                &&& r.nodes.dom().contains(#[trigger] r.roots[i])
                &&& r.nodes[r.roots[i]].parent is None
            } by {
                let e = r.roots[i];
                assert(spliced.contains(e));
                if m.roots.contains(e) && e != id {
                    assert(m.nodes.dom().contains(e));
                    assert(!kids.contains(e));
                    assert(r.nodes[e].parent == m.nodes[e].parent);
                } else {
                    assert(kids.contains(e));
                    assert(e != id);
                    assert(r.nodes[e].parent is None);
                }
            }
        },
    }
}

/// Recording an attribute keeps the forest well formed: linkage is untouched.
pub proof fn lemma_record_wf(m: TreeModel, id: u64, key: Seq<char>, val: Val)
    requires
        wf(m),
    ensures
        wf(spec_record(m, id, key, val)),
        spec_record(m, id, key, val).nodes.dom() == m.nodes.dom(),
        spec_record(m, id, key, val).next_id == m.next_id,
{
    let r = spec_record(m, id, key, val);
    assert(r.nodes.dom() =~= m.nodes.dom());
    if m.nodes.dom().contains(id) {
        assert forall|x: u64| #[trigger] r.nodes.dom().contains(x) implies wf_node(r, x) by {
            assert(wf_node(m, x));
            assert(r.nodes[x].children == m.nodes[x].children);
            assert(r.nodes[x].parent == m.nodes[x].parent);
            assert(forall|j: int|
                0 <= j < r.nodes[x].children.len() ==> r.nodes[#[trigger] r.nodes[x].children[j]].parent
                    == m.nodes[r.nodes[x].children[j]].parent);
            match m.nodes[x].parent {
                Some(q) => {
                    assert(r.nodes[q].children == m.nodes[q].children);
                },
                None => {},
            }
        }
        assert forall|i: int| 0 <= i < r.roots.len() implies {
            &&& r.nodes.dom().contains(#[trigger] r.roots[i])
            &&& r.nodes[r.roots[i]].parent is None
        } by {
            assert(m.nodes.dom().contains(m.roots[i]));
        }
    }
}

/// No identifier is reused while referenced: an insert hands out an
/// identifier that no live frame carries, and every live frame keeps its
/// entry — only the parent it lands under gains a child.
pub proof fn lemma_insert_fresh(
    m: TreeModel,
    parent: Option<u64>,
    label: Seq<char>,
    location: Seq<char>,
    created_at: u64,
    fields: Seq<(Seq<char>, Val)>,
)
    requires
        wf(m),
        m.next_id < u64::MAX,
    ensures
        !m.nodes.dom().contains((m.next_id as u64)),
        spec_insert(m, parent, label, location, created_at, fields).nodes.dom()
            == m.nodes.dom().insert((m.next_id as u64)),
        forall|x: u64|
            #[trigger] m.nodes.dom().contains(x) && !(parent == Some(x)) ==> spec_insert(
                m,
                parent,
                label,
                location,
                created_at,
                fields,
            ).nodes[x] == m.nodes[x],
{
    let r = spec_insert(m, parent, label, location, created_at, fields);
    assert(r.nodes.dom() =~= m.nodes.dom().insert((m.next_id as u64)));
}

/// Two inserts under distinct live parents — the interleaving of two
/// threads extending disjoint subtrees — give, in either order, the same
/// set of live frames: the two fresh identifiers are handed out, each parent
/// gains exactly the one new child carrying the label meant for it, and
/// every other frame is untouched.
pub proof fn lemma_disjoint_inserts_commute(
    m: TreeModel,
    p1: u64,
    l1: Seq<char>,
    loc1: Seq<char>,
    at1: u64,
    f1: Seq<(Seq<char>, Val)>,
    p2: u64,
    l2: Seq<char>,
    loc2: Seq<char>,
    at2: u64,
    f2: Seq<(Seq<char>, Val)>,
)
    requires
        wf(m),
        m.next_id + 2 <= u64::MAX,
        m.nodes.dom().contains(p1),
        m.nodes.dom().contains(p2),
        p1 != p2,
    ensures
        ({
            let a = spec_insert(
                spec_insert(m, Some(p1), l1, loc1, at1, f1),
                Some(p2),
                l2,
                loc2,
                at2,
                f2,
            );
            let b = spec_insert(
                spec_insert(m, Some(p2), l2, loc2, at2, f2),
                Some(p1),
                l1,
                loc1,
                at1,
                f1,
            );
            let n1 = m.next_id as u64;
            let n2 = (m.next_id + 1) as u64;
            &&& a.nodes.dom() == b.nodes.dom()
            &&& a.nodes.dom() == m.nodes.dom().insert(n1).insert(n2)
            &&& a.roots == m.roots && b.roots == m.roots
            &&& a.next_id == b.next_id
            &&& forall|x: u64|
                #[trigger] m.nodes.dom().contains(x) && x != p1 && x != p2 ==> a.nodes[x]
                    == m.nodes[x] && b.nodes[x] == m.nodes[x]
            &&& a.nodes[p1].children == m.nodes[p1].children.push(n1)
            &&& b.nodes[p1].children == m.nodes[p1].children.push(n2)
            &&& a.nodes[p2].children == m.nodes[p2].children.push(n2)
            &&& b.nodes[p2].children == m.nodes[p2].children.push(n1)
            &&& a.nodes[n1].label == l1 && a.nodes[n1].parent == Some(p1)
            &&& a.nodes[n2].label == l2 && a.nodes[n2].parent == Some(p2)
            &&& b.nodes[n1].label == l2 && b.nodes[n1].parent == Some(p2)
            &&& b.nodes[n2].label == l1 && b.nodes[n2].parent == Some(p1)
            &&& wf(a) && wf(b)
        }),
{
    let n1 = m.next_id as u64;
    let n2 = (m.next_id + 1) as u64;
    let a1 = spec_insert(m, Some(p1), l1, loc1, at1, f1);
    let b1 = spec_insert(m, Some(p2), l2, loc2, at2, f2);
    lemma_insert_wf(m, Some(p1), l1, loc1, at1, f1);
    lemma_insert_wf(m, Some(p2), l2, loc2, at2, f2);
    lemma_insert_wf(a1, Some(p2), l2, loc2, at2, f2);
    lemma_insert_wf(b1, Some(p1), l1, loc1, at1, f1);
    let a = spec_insert(a1, Some(p2), l2, loc2, at2, f2);
    let b = spec_insert(b1, Some(p1), l1, loc1, at1, f1);
    assert(a.nodes.dom() =~= m.nodes.dom().insert(n1).insert(n2));
    assert(b.nodes.dom() =~= m.nodes.dom().insert(n1).insert(n2));
}

/// The concurrent store of active frame nodes.
pub struct Tree {
    pub nodes: HashMap<u64, Node>,
    pub roots: Vec<u64>,
    pub next_id: u64,
}

impl View for Tree {
    type V = TreeModel;

    open spec fn view(&self) -> TreeModel {
        TreeModel {
            nodes: self.nodes@.map_values(|n: Node| node_model(n)),
            roots: self.roots@,
            next_id: self.next_id as nat,
        }
    }
}

proof fn lemma_map_values_insert(m: Map<u64, Node>, k: u64, v: Node)
    ensures
        m.insert(k, v).map_values(|n: Node| node_model(n)) == m.map_values(
            |n: Node| node_model(n),
        ).insert(k, node_model(v)),
{
    assert(m.insert(k, v).map_values(|n: Node| node_model(n)) =~= m.map_values(
        |n: Node| node_model(n),
    ).insert(k, node_model(v)));
}

proof fn lemma_map_values_remove(m: Map<u64, Node>, k: u64)
    ensures
        m.remove(k).map_values(|n: Node| node_model(n)) == m.map_values(
            |n: Node| node_model(n),
        ).remove(k),
{
    assert(m.remove(k).map_values(|n: Node| node_model(n)) =~= m.map_values(
        |n: Node| node_model(n),
    ).remove(k));
}

/// Inserting a well-formed frame keeps the forest well formed.
pub proof fn lemma_insert_wf(
    m: TreeModel,
    parent: Option<u64>,
    label: Seq<char>,
    location: Seq<char>,
    created_at: u64,
    fields: Seq<(Seq<char>, Val)>,
)
    requires
        wf(m),
        m.next_id < u64::MAX,
    ensures
        wf(spec_insert(m, parent, label, location, created_at, fields)),
{
    let r = spec_insert(m, parent, label, location, created_at, fields);
    let id = m.next_id as u64;
    assert(!m.nodes.dom().contains(id));
    if parent is Some && m.nodes.dom().contains(parent->0) {
        let p = parent->0;
        assert(r.nodes[p].children == m.nodes[p].children.push(id));
        assert(r.nodes[p].children[m.nodes[p].children.len() as int] == id);
        assert(r.nodes[p].children.contains(id));
        assert forall|x: u64| #[trigger] r.nodes.dom().contains(x) implies wf_node(r, x) by {
            if x == id {
                assert(m.nodes.dom().contains(p));
                assert(wf_node(m, p));
                assert((p as nat) < m.next_id);
                assert(p < id);
            } else {
                assert(m.nodes.dom().contains(x));
                assert(wf_node(m, x));
                let nx = r.nodes[x];
                let ox = m.nodes[x];
                if x == p {
                    assert forall|j: int| 0 <= j < nx.children.len() implies {
                        &&& r.nodes.dom().contains(#[trigger] nx.children[j])
                        &&& nx.children[j] > x
                        &&& r.nodes[nx.children[j]].parent == Some(x)
                    } by {
                        if j < ox.children.len() {
                            assert(nx.children[j] == ox.children[j]);
                            assert(m.nodes.dom().contains(ox.children[j]));
                            assert(ox.children[j] != id);
                        } else {
                            assert(nx.children[j] == id);
                        }
                    }
                    assert forall|j: int, k: int|
                        0 <= j < k < nx.children.len() implies nx.children[j] != nx.children[k] by {
                        if k == ox.children.len() {
                            assert(m.nodes.dom().contains(ox.children[j]));
                        }
                    }
                    match nx.parent {
                        Some(gp) => {
                            assert(gp < p);
                            assert(r.nodes[gp].children == m.nodes[gp].children);
                        },
                        None => {},
                    }
                } else {
                    assert(nx == ox);
                    assert forall|j: int| 0 <= j < nx.children.len() implies {
                        &&& r.nodes.dom().contains(#[trigger] nx.children[j])
                        &&& nx.children[j] > x
                        &&& r.nodes[nx.children[j]].parent == Some(x)
                    } by {
                        assert(m.nodes.dom().contains(ox.children[j]));
                        assert(ox.children[j] != id);
                        assert(m.nodes[ox.children[j]].parent == Some(x));
                    }
                    match nx.parent {
                        Some(q) => {
                            if q == p {
                                assert(m.nodes[p].children.contains(x));
                                let i = choose|i: int|
                                    0 <= i < m.nodes[p].children.len() && m.nodes[p].children[i]
                                        == x;
                                assert(r.nodes[p].children[i] == x);
                                assert(r.nodes[p].children.contains(x));
                            }
                        },
                        None => {},
                    }
                }
            }
        }
    } else {
        assert(r.roots[m.roots.len() as int] == id);
        assert(r.roots.contains(id));
        assert forall|x: u64| #[trigger] r.nodes.dom().contains(x) implies wf_node(r, x) by {
            if x != id {
                assert(m.nodes.dom().contains(x));
                assert(wf_node(m, x));
                let nx = r.nodes[x];
                let ox = m.nodes[x];
                assert(nx == ox);
                assert forall|j: int| 0 <= j < nx.children.len() implies {
                    &&& r.nodes.dom().contains(#[trigger] nx.children[j])
                    &&& nx.children[j] > x
                    &&& r.nodes[nx.children[j]].parent == Some(x)
                } by {
                    assert(m.nodes.dom().contains(ox.children[j]));
                    assert(ox.children[j] != id);
                }
                match nx.parent {
                    Some(q) => {
                        assert(m.nodes.dom().contains(q));
                    },
                    None => {
                        let i = choose|i: int| 0 <= i < m.roots.len() && m.roots[i] == x;
                        assert(r.roots[i] == x);
                        assert(r.roots.contains(x));
                    },
                }
            }
        }
        assert forall|i: int| 0 <= i < r.roots.len() implies {
            &&& r.nodes.dom().contains(#[trigger] r.roots[i])
            &&& r.nodes[r.roots[i]].parent is None
        } by {
            if i < m.roots.len() {
                assert(m.nodes.dom().contains(m.roots[i]));
                assert(m.roots[i] != id);
            }
        }
        assert forall|i: int, j: int|
            0 <= i < j < r.roots.len() implies r.roots[i] != r.roots[j] by {
            if j == m.roots.len() {
                assert(m.nodes.dom().contains(m.roots[i]));
            }
        }
    }
}

impl Tree {
    /// An empty forest.
    pub fn new() -> (t: Tree)
        ensures
            t@.nodes == Map::<u64, NodeModel>::empty(),
            t@.roots == Seq::<u64>::empty(),
            t@.next_id == 0,
            wf(t@),
    {
        let t = Tree { nodes: HashMap::new(), roots: Vec::new(), next_id: 0 };
        proof {
            assert(t@.nodes =~= Map::<u64, NodeModel>::empty());
        }
        t
    }

    /// The number of currently live frames.
    pub fn len(&self) -> (n: usize)
        ensures
            n == self@.nodes.dom().len(),
    {
        proof {
            assert(self@.nodes.dom() =~= self.nodes@.dom());
        }
        self.nodes.len()
    }

    /// Whether a frame with this identifier is currently live.
    pub fn contains(&self, id: u64) -> (b: bool)
        ensures
            b == self@.nodes.dom().contains(id),
    {
        self.nodes.contains_key(&id)
    }

    /// The current root identifiers, in their enumeration order.
    pub fn snapshot_roots(&self) -> (r: Vec<u64>)
        ensures
            r@ == self@.roots,
    {
        let mut r: Vec<u64> = Vec::new();
        let mut i: usize = 0;
        while i < self.roots.len()
            invariant
                i <= self.roots.len(),
                r@ == self.roots@.take(i as int),
            decreases self.roots.len() - i,
        {
            r.push(self.roots[i]);
            proof {
                assert(r@ =~= self.roots@.take(i + 1));
            }
            i = i + 1;
        }
        proof {
            assert(self.roots@.take(self.roots@.len() as int) =~= self.roots@);
        }
        r
    }

    /// Creates a frame, links it as the last child of `parent` — or as a new
    /// root when `parent` is absent or unknown — and returns its identifier,
    /// which no live frame carries.
    pub fn insert(
        &mut self,
        parent: Option<u64>,
        label: String,
        location: String,
        data: Data,
    ) -> (id: u64)
        requires
            wf(old(self)@),
            old(self)@.next_id < u64::MAX,
        ensures
            final(self)@ == spec_insert(
                old(self)@,
                parent,
                label@,
                location@,
                data.start_at,
                field_entries(data.fields),
            ),
            wf(final(self)@),
            id as nat == old(self)@.next_id,
            !old(self)@.nodes.dom().contains(id),
            final(self)@.nodes.dom().contains(id),
    {
        let ghost m0 = self@;
        let id = self.next_id;
        self.next_id = self.next_id + 1;
        let mut actual_parent: Option<u64> = None;
        match parent {
            Some(p) => {
                let taken = self.nodes.remove(&p);
                match taken {
                    Some(mut pnode) => {
                        pnode.children.push(id);
                        proof {
                            lemma_map_values_remove(old(self).nodes@, p);
                            lemma_map_values_insert(old(self).nodes@.remove(p), p, pnode);
                        }
                        self.nodes.insert(p, pnode);
                        actual_parent = Some(p);
                    },
                    None => {},
                }
            },
            None => {},
        }
        let node = Node { parent: actual_parent, children: Vec::new(), label, location, data };
        proof {
            lemma_map_values_insert(self.nodes@, id, node);
        }
        self.nodes.insert(id, node);
        if actual_parent.is_none() {
            self.roots.push(id);
        }
        proof {
            assert(self@.nodes =~= spec_insert(
                m0,
                parent,
                label@,
                location@,
                data.start_at,
                field_entries(data.fields),
            ).nodes);
            assert(self@ == spec_insert(
                m0,
                parent,
                label@,
                location@,
                data.start_at,
                field_entries(data.fields),
            ));
            lemma_insert_wf(m0, parent, label@, location@, data.start_at, field_entries(
                data.fields,
            ));
        }
        id
    }

    /// Detaches the frame with this identifier and forgets it. An unknown
    /// identifier — a duplicate completion signal — changes nothing. A frame
    /// that still has children — a completion signal out of nesting order —
    /// is removed all the same: the children are re-pointed at its own
    /// parent and take its place there, so the dump keeps its continuity.
    pub fn remove(&mut self, id: u64)
        requires
            wf(old(self)@),
        ensures
            final(self)@ == spec_remove(old(self)@, id),
            wf(final(self)@),
            !final(self)@.nodes.dom().contains(id),
    {
        let ghost m0 = self@;
        proof {
            lemma_remove_wf(m0, id);
            assert(m0.nodes.dom() =~= self.nodes@.dom());
        }
        let taken = self.nodes.remove(&id);
        let node = match taken {
            Some(node) => node,
            None => {
                proof {
                    assert(self.nodes@ =~= old(self).nodes@);
                    assert(self@.nodes =~= m0.nodes);
                    assert(self@ == m0);
                }
                return ;
            },
        };
        proof {
            lemma_map_values_remove(old(self).nodes@, id);
            assert(wf_node(m0, id));
        }
        let ghost n = m0.nodes[id];
        let ghost base = m0.nodes.remove(id);
        let ghost kidsm = node.children@;
        let kid_count = node.children.len();
        let mut k: usize = 0;
        proof {
            assert(self@.nodes =~= spec_reparent(base, kidsm.take(0), node.parent));
        }
        while k < kid_count
            invariant
                wf(m0),
                m0.nodes.dom().contains(id),
                n == m0.nodes[id],
                base == m0.nodes.remove(id),
                kidsm == n.children,
                node.parent == n.parent,
                node.children@ == kidsm,
                kid_count == kidsm.len(),
                k <= kid_count,
                self@.nodes == spec_reparent(base, kidsm.take(k as int), node.parent),
                self.roots@ == m0.roots,
                self.next_id as nat == m0.next_id,
            decreases kid_count - k,
        {
            let c = node.children[k];
            proof {
                assert(kidsm[k as int] == c);
                assert(kidsm.contains(c));
                assert(c != id);
                assert(m0.nodes.dom().contains(c));
                assert(self@.nodes.dom() =~= base.dom());
                assert(self@.nodes.dom() =~= self.nodes@.dom());
            }
            let ghost before = self.nodes@;
            let ctaken = self.nodes.remove(&c);
            match ctaken {
                Some(mut cnode) => {
                    cnode.parent = node.parent;
                    proof {
                        lemma_map_values_remove(before, c);
                        lemma_map_values_insert(before.remove(c), c, cnode);
                        assert(forall|a: int, b: int|
                            0 <= a < b < kidsm.len() ==> kidsm[a] != kidsm[b]);
                        assert(!kidsm.take(k as int).contains(c));
                        assert(node_model(before[c]) == spec_reparent(
                            base,
                            kidsm.take(k as int),
                            node.parent,
                        )[c]);
                        assert(node_model(before[c]) == base[c]);
                    }
                    self.nodes.insert(c, cnode);
                    proof {
                        assert(kidsm.take(k + 1) =~= kidsm.take(k as int).push(c));
                        assert forall|x: u64|
                            #[trigger] kidsm.take(k + 1).contains(x) <==> (kidsm.take(
                                k as int,
                            ).contains(x) || x == c) by {
                            vstd::seq_lib::lemma_seq_contains_after_push(
                                kidsm.take(k as int),
                                c,
                                x,
                            );
                        }
                        assert(self@.nodes =~= spec_reparent(
                            base,
                            kidsm.take(k + 1),
                            node.parent,
                        ));
                    }
                },
                None => {
                    proof {
                        assert(false);
                    }
                },
            }
            k = k + 1;
        }
        proof {
            assert(kidsm.take(kid_count as int) =~= kidsm);
            assert(self@.nodes == spec_reparent(base, kidsm, node.parent));
        }
        let ghost rep = spec_reparent(base, kidsm, n.parent);
        match node.parent {
            Some(p) => {
                proof {
                    assert(p < id);
                    assert(m0.nodes.dom().contains(p));
                    assert(!kidsm.contains(p));
                    assert(rep.dom().contains(p));
                    assert(self@.nodes.dom() =~= self.nodes@.dom());
                }
                let ghost before = self.nodes@;
                let ptaken = self.nodes.remove(&p);
                match ptaken {
                    Some(mut pnode) => {
                        proof {
                            assert(node_model(before[p]) == rep[p]);
                            assert(rep[p] == base[p]);
                            assert(pnode.children@ == m0.nodes[p].children);
                            assert(wf_node(m0, p));
                            assert(m0.nodes[p].children.contains(id));
                        }
                        let spliced = splice_vec(&pnode.children, id, &node.children);
                        pnode.children = spliced;
                        proof {
                            lemma_map_values_remove(before, p);
                            lemma_map_values_insert(before.remove(p), p, pnode);
                        }
                        self.nodes.insert(p, pnode);
                        proof {
                            assert(self@.nodes =~= spec_remove(m0, id).nodes);
                            assert(self@ == spec_remove(m0, id));
                        }
                    },
                    None => {
                        proof {
                            assert(false);
                        }
                    },
                }
            },
            None => {
                proof {
                    assert(m0.roots.contains(id));
                    assert(forall|i: int, j: int|
                        0 <= i < j < m0.roots.len() ==> m0.roots[i] != m0.roots[j]);
                }
                let new_roots = splice_vec(&self.roots, id, &node.children);
                self.roots = new_roots;
                proof {
                    assert(self@.nodes =~= spec_remove(m0, id).nodes);
                    assert(self@ == spec_remove(m0, id));
                }
            },
        }
    }

    /// Appends a late attribute to the frame with this identifier; an
    /// unknown identifier changes nothing.
    pub fn record(&mut self, id: u64, key: String, val: Val)
        requires
            wf(old(self)@),
        ensures
            final(self)@ == spec_record(old(self)@, id, key@, val),
            wf(final(self)@),
    {
        let ghost m0 = self@;
        proof {
            lemma_record_wf(m0, id, key@, val);
            assert(m0.nodes.dom() =~= self.nodes@.dom());
        }
        let taken = self.nodes.remove(&id);
        match taken {
            Some(mut node) => {
                node.data.fields.push(key, val);
                proof {
                    lemma_map_values_remove(old(self).nodes@, id);
                    lemma_map_values_insert(old(self).nodes@.remove(id), id, node);
                }
                self.nodes.insert(id, node);
                proof {
                    assert(self@.nodes =~= spec_record(m0, id, key@, val).nodes);
                    assert(self@ == spec_record(m0, id, key@, val));
                }
            },
            None => {
                proof {
                    assert(self.nodes@ =~= old(self).nodes@);
                    assert(self@.nodes =~= m0.nodes);
                    assert(self@ == m0);
                }
            },
        }
    }

    /// Appends a whole collection of late attributes to the frame with this
    /// identifier, in their recording order; an unknown identifier changes
    /// nothing.
    pub fn record_all(&mut self, id: u64, fields: &ValColl)
        requires
            wf(old(self)@),
        ensures
            wf(final(self)@),
            final(self)@.roots == old(self)@.roots,
            final(self)@.next_id == old(self)@.next_id,
            old(self)@.nodes.dom().contains(id) ==> final(self)@.nodes == old(
                self,
            )@.nodes.insert(
                id,
                NodeModel {
                    fields: old(self)@.nodes[id].fields + field_entries(*fields),
                    ..old(self)@.nodes[id]
                },
            ),
            !old(self)@.nodes.dom().contains(id) ==> final(self)@ == old(self)@,
    {
        let ghost m0 = self@;
        let ghost entries = field_entries(*fields);
        let n = fields.len();
        let mut i: usize = 0;
        proof {
            if m0.nodes.dom().contains(id) {
                assert(m0.nodes[id].fields + entries.take(0) =~= m0.nodes[id].fields);
                assert(m0.nodes.insert(
                    id,
                    NodeModel { fields: m0.nodes[id].fields + entries.take(0), ..m0.nodes[id] },
                ) =~= m0.nodes);
            }
        }
        while i < n
            invariant
                wf(m0),
                wf(self@),
                n == entries.len(),
                i <= n,
                entries == field_entries(*fields),
                self@.roots == m0.roots,
                self@.next_id == m0.next_id,
                m0.nodes.dom().contains(id) ==> self@.nodes == m0.nodes.insert(
                    id,
                    NodeModel {
                        fields: m0.nodes[id].fields + entries.take(i as int),
                        ..m0.nodes[id]
                    },
                ),
                !m0.nodes.dom().contains(id) ==> self@ == m0,
            decreases n - i,
        {
            let kv = fields.get(i);
            proof {
                if m0.nodes.dom().contains(id) {
                    assert(self@.nodes.dom() =~= m0.nodes.dom());
                }
            }
            self.record(id, kv.0, kv.1);
            proof {
                if m0.nodes.dom().contains(id) {
                    assert((m0.nodes[id].fields + entries.take(i as int)).push(entries[i as int])
                        =~= m0.nodes[id].fields + entries.take(i + 1));
                    assert(self@.nodes =~= m0.nodes.insert(
                        id,
                        NodeModel {
                            fields: m0.nodes[id].fields + entries.take(i + 1),
                            ..m0.nodes[id]
                        },
                    ));
                } else {
                    assert(self@.nodes.dom() =~= m0.nodes.dom());
                    assert(self@.nodes =~= m0.nodes);
                }
            }
            i = i + 1;
        }
        proof {
            assert(entries.take(n as int) =~= entries);
        }
    }
}

/// Replaces the one occurrence of `id` in a duplicate-free list by the
/// elements of `kids`, keeping the surrounding order.
fn splice_vec(s: &Vec<u64>, id: u64, kids: &Vec<u64>) -> (r: Vec<u64>)
    requires
        s@.contains(id),
        forall|i: int, j: int| 0 <= i < j < s@.len() ==> s@[i] != s@[j],
    ensures
        r@ == spec_splice(s@, id, kids@),
{
    let ghost jj = choose|j: int| 0 <= j < s@.len() && s@[j] == id;
    let mut j: usize = 0;
    while j < s.len() && s[j] != id
        invariant
            j <= s@.len(),
            forall|t: int| 0 <= t < j ==> s@[t] != id,
        decreases s@.len() - j,
    {
        j = j + 1;
    }
    proof {
        if j == s@.len() {
            let w = choose|w: int| 0 <= w < s@.len() && s@[w] == id;
            assert(s@[w] != id);
        }
        assert(s@[j as int] == id);
        assert(jj == j as int);
    }
    let mut r: Vec<u64> = Vec::new();
    let mut i: usize = 0;
    while i < j
        invariant
            i <= j,
            j < s@.len(),
            r@ == s@.take(i as int),
        decreases j - i,
    {
        r.push(s[i]);
        proof {
            assert(r@ =~= s@.take(i + 1));
        }
        i = i + 1;
    }
    let mut k: usize = 0;
    while k < kids.len()
        invariant
            k <= kids@.len(),
            j < s@.len(),
            r@ == s@.take(j as int) + kids@.take(k as int),
        decreases kids@.len() - k,
    {
        r.push(kids[k]);
        proof {
            assert(r@ =~= s@.take(j as int) + kids@.take(k + 1));
        }
        k = k + 1;
    }
    proof {
        assert(kids@.take(kids@.len() as int) =~= kids@);
    }
    let mut t: usize = j + 1;
    while t < s.len()
        invariant
            j + 1 <= t <= s@.len(),
            j < s@.len(),
            r@ == s@.take(j as int) + kids@ + s@.subrange(j + 1, t as int),
        decreases s@.len() - t,
    {
        r.push(s[t]);
        proof {
            assert(r@ =~= s@.take(j as int) + kids@ + s@.subrange(j + 1, t + 1));
        }
        t = t + 1;
    }
    proof {
        assert(s@.subrange(j + 1, s@.len() as int) =~= s@.skip(j + 1));
        assert(r@ =~= spec_splice(s@, id, kids@));
    }
    r
}

} // verus!

