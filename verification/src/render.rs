//! The formatter: a depth-first pre-order rendering of the forest, or of one
//! subtree, into indented text with box-drawing connectors. Every root is a
//! header line; the last child of a node hangs off a corner connector, the
//! others off tee connectors, with continuation bars for every ancestor that
//! has further siblings.

use vstd::prelude::*;

use crate::field::spec_render_data;
use crate::text::{append_u64, push_char, spec_nat_digits};
use crate::time::now_nanos;
use crate::tree::{node_model, wf, wf_node, Node, NodeModel, Tree, TreeModel};

verus! {

/// One rendered node line: the location, the identifier, the quoted label,
/// then the attributes and the elapsed time, each segment bracketed.
pub open spec fn spec_node_line(n: NodeModel, id: u64, now: u64) -> Seq<char> {
    seq!['['] + n.location + "] [span_id="@ + spec_nat_digits(id as nat) + "] [\""@ + n.label
        + "\"] "@ + spec_render_data(n.fields, n.created_at, now) + seq!['\n']
}

/// The rendering of one present node and everything below it: `own` is the
/// connector prefix of its own line, `rest` the prefix its children build
/// on. An absent identifier renders as nothing.
pub open spec fn spec_render_node(
    m: TreeModel,
    id: u64,
    own: Seq<char>,
    rest: Seq<char>,
    now: u64,
) -> Seq<char>
    decreases m.next_id - id, 1int, 0int,
        when wf(m)
{
    if !m.nodes.dom().contains(id) {
        Seq::empty()
    } else {
        own + spec_node_line(m.nodes[id], id, now) + spec_render_children(
            m,
            id,
            m.nodes[id].children,
            rest,
            now,
        )
    }
}

/// The rendering of a node's children in order: every child but the last
/// under a tee connector with a continuation bar for its own children, the
/// last under a corner connector with blank continuation.
pub open spec fn spec_render_children(
    m: TreeModel,
    pid: u64,
    kids: Seq<u64>,
    base: Seq<char>,
    now: u64,
) -> Seq<char>
    decreases m.next_id - pid, 0int, kids.len(),
        when wf(m) && (forall|j: int|
            0 <= j < kids.len() ==> (#[trigger] kids[j]) > pid && (kids[j] as nat) < m.next_id)
{
    if kids.len() == 0 {
        Seq::empty()
    } else {
        let connector = if kids.len() == 1 {
            "└── "@
        } else {
            "├── "@
        };
        let extension = if kids.len() == 1 {
            "    "@
        } else {
            "│   "@
        };
        spec_render_node(m, kids[0], base + connector, base + extension, now)
            + spec_render_children(m, pid, kids.drop_first(), base, now)
    }
}

/// The rendering of a list of root identifiers: one block per root, in
/// enumeration order.
pub open spec fn spec_render_roots(m: TreeModel, roots: Seq<u64>, now: u64) -> Seq<char>
    decreases roots.len(),
{
    if roots.len() == 0 {
        Seq::empty()
    } else {
        spec_render_node(m, roots[0], Seq::empty(), Seq::empty(), now) + spec_render_roots(
            m,
            roots.drop_first(),
            now,
        )
    }
}

/// The rendering of the whole forest at one clock reading.
pub open spec fn spec_render_forest(m: TreeModel, now: u64) -> Seq<char> {
    spec_render_roots(m, m.roots, now)
}

/// The depth-first pre-order enumeration of one present node and everything
/// below it: each entry carries the frame's identifier, its depth below the
/// enumeration root, and whether it is the last of its siblings. An absent
/// identifier enumerates as nothing.
pub open spec fn spec_visit_node(m: TreeModel, id: u64, depth: u64, is_last: bool) -> Seq<
    (u64, u64, bool),
>
    decreases m.next_id - id, 1int, 0int,
        when wf(m) && depth <= id
{
    if !m.nodes.dom().contains(id) {
        Seq::empty()
    } else {
        seq![(id, depth, is_last)] + spec_visit_children(
            m,
            id,
            m.nodes[id].children,
            ((depth + 1) as u64),
        )
    }
}

/// The depth-first pre-order enumeration of a node's children in order.
pub open spec fn spec_visit_children(m: TreeModel, pid: u64, kids: Seq<u64>, depth: u64) -> Seq<
    (u64, u64, bool),
>
    decreases m.next_id - pid, 0int, kids.len(),
        when wf(m) && (forall|j: int|
            0 <= j < kids.len() ==> (#[trigger] kids[j]) > pid && (kids[j] as nat) < m.next_id
                && depth <= kids[j])
{
    if kids.len() == 0 {
        Seq::empty()
    } else {
        spec_visit_node(m, kids[0], depth, kids.len() == 1) + spec_visit_children(
            m,
            pid,
            kids.drop_first(),
            depth,
        )
    }
}

fn append_node_line(node: &Node, id: u64, now: u64, out: &mut String)
    ensures
        final(out)@ == old(out)@ + spec_node_line(node_model(*node), id, now),
{
    proof {
        reveal_strlit("] [span_id=");
        reveal_strlit("] [\"");
        reveal_strlit("\"] ");
    }
    push_char(out, '[');
    out.append(node.location.as_str());
    out.append("] [span_id=");
    append_u64(out, id);
    out.append("] [\"");
    out.append(node.label.as_str());
    out.append("\"] ");
    node.data.append_rendered(out, now);
    push_char(out, '\n');
    proof {
        assert(out@ =~= old(out)@ + spec_node_line(node_model(*node), id, now));
    }
}

impl Tree {
    fn render_node_into(&self, id: u64, own: &String, rest: &String, now: u64, out: &mut String)
        requires
            wf(self@),
        ensures
            final(out)@ == old(out)@ + spec_render_node(self@, id, own@, rest@, now),
        decreases self@.next_id - id, 1int, 0int,
    {
        proof {
            assert(self@.nodes.dom() =~= self.nodes@.dom());
        }
        match self.nodes.get(&id) {
            None => {
                proof {
                    assert(out@ =~= old(out)@ + spec_render_node(self@, id, own@, rest@, now));
                }
            },
            Some(node) => {
                proof {
                    assert(self.nodes@[id] == *node);
                    assert(node_model(*node) == self@.nodes[id]);
                    assert(wf_node(self@, id));
                    assert forall|j: int| 0 <= j < node.children@.len() implies (
                    #[trigger] node.children@[j]) > id && (node.children@[j] as nat)
                        < self@.next_id by {
                        assert(self@.nodes.dom().contains(node.children@[j]));
                        assert(wf_node(self@, node.children@[j]));
                    }
                }
                out.append(own.as_str());
                append_node_line(node, id, now, out);
                self.render_children_into(id, &node.children, 0, rest, now, out);
                proof {
                    assert(node.children@.skip(0) =~= self@.nodes[id].children);
                    assert(out@ =~= old(out)@ + spec_render_node(self@, id, own@, rest@, now));
                }
            },
        }
    }

    fn render_children_into(
        &self,
        pid: u64,
        kids: &Vec<u64>,
        i: usize,
        base: &String,
        now: u64,
        out: &mut String,
    )
        requires
            wf(self@),
            i <= kids@.len(),
            forall|j: int|
                0 <= j < kids@.len() ==> (#[trigger] kids@[j]) > pid && (kids@[j] as nat)
                    < self@.next_id,
        ensures
            final(out)@ == old(out)@ + spec_render_children(
                self@,
                pid,
                kids@.skip(i as int),
                base@,
                now,
            ),
        decreases self@.next_id - pid, 0int, kids@.len() - i,
    {
        if i < kids.len() {
            let c = kids[i];
            let is_last = i + 1 == kids.len();
            let mut own = base.clone();
            let mut rest = base.clone();
            if is_last {
                proof {
                    reveal_strlit("└── ");
                    reveal_strlit("    ");
                }
                own.append("└── ");
                rest.append("    ");
            } else {
                proof {
                    reveal_strlit("├── ");
                    reveal_strlit("│   ");
                }
                own.append("├── ");
                rest.append("│   ");
            }
            self.render_node_into(c, &own, &rest, now, out);
            self.render_children_into(pid, kids, i + 1, base, now, out);
            proof {
                let sk = kids@.skip(i as int);
                assert(sk[0] == c);
                assert(sk.drop_first() =~= kids@.skip(i + 1));
                assert((sk.len() == 1) == is_last);
                assert(out@ =~= old(out)@ + spec_render_children(self@, pid, sk, base@, now));
            }
        } else {
            proof {
                assert(kids@.skip(i as int) =~= Seq::<u64>::empty());
                assert(out@ =~= old(out)@ + spec_render_children(
                    self@,
                    pid,
                    kids@.skip(i as int),
                    base@,
                    now,
                ));
            }
        }
    }

    fn render_roots_into(&self, roots: &Vec<u64>, i: usize, now: u64, out: &mut String)
        requires
            wf(self@),
            i <= roots@.len(),
        ensures
            final(out)@ == old(out)@ + spec_render_roots(self@, roots@.skip(i as int), now),
        decreases roots@.len() - i,
    {
        if i < roots.len() {
            let empty_own = String::new();
            let empty_rest = String::new();
            self.render_node_into(roots[i], &empty_own, &empty_rest, now, out);
            self.render_roots_into(roots, i + 1, now, out);
            proof {
                let sk = roots@.skip(i as int);
                assert(sk[0] == roots@[i as int]);
                assert(sk.drop_first() =~= roots@.skip(i + 1));
                assert(out@ =~= old(out)@ + spec_render_roots(self@, sk, now));
            }
        } else {
            proof {
                assert(roots@.skip(i as int) =~= Seq::<u64>::empty());
            }
        }
    }

    fn visit_node_into(&self, id: u64, depth: u64, is_last: bool, out: &mut Vec<(u64, u64, bool)>)
        requires
            wf(self@),
            depth <= id,
        ensures
            final(out)@ == old(out)@ + spec_visit_node(self@, id, depth, is_last),
        decreases self@.next_id - id, 1int, 0int,
    {
        proof {
            assert(self@.nodes.dom() =~= self.nodes@.dom());
        }
        match self.nodes.get(&id) {
            None => {
                proof {
                    assert(out@ =~= old(out)@ + spec_visit_node(self@, id, depth, is_last));
                }
            },
            Some(node) => {
                proof {
                    assert(self.nodes@[id] == *node);
                    assert(node_model(*node) == self@.nodes[id]);
                    assert(wf_node(self@, id));
                    assert forall|j: int| 0 <= j < node.children@.len() implies (
                    #[trigger] node.children@[j]) > id && (node.children@[j] as nat)
                        < self@.next_id && depth + 1 <= node.children@[j] by {
                        assert(self@.nodes.dom().contains(node.children@[j]));
                        assert(wf_node(self@, node.children@[j]));
                    }
                }
                out.push((id, depth, is_last));
                self.visit_children_into(id, &node.children, 0, depth + 1, out);
                proof {
                    assert(node.children@.skip(0) =~= self@.nodes[id].children);
                    assert(out@ =~= old(out)@ + spec_visit_node(self@, id, depth, is_last));
                }
            },
        }
    }

    fn visit_children_into(
        &self,
        pid: u64,
        kids: &Vec<u64>,
        i: usize,
        depth: u64,
        out: &mut Vec<(u64, u64, bool)>,
    )
        requires
            wf(self@),
            i <= kids@.len(),
            forall|j: int|
                0 <= j < kids@.len() ==> (#[trigger] kids@[j]) > pid && (kids@[j] as nat)
                    < self@.next_id && depth <= kids@[j],
        ensures
            final(out)@ == old(out)@ + spec_visit_children(
                self@,
                pid,
                kids@.skip(i as int),
                depth,
            ),
        decreases self@.next_id - pid, 0int, kids@.len() - i,
    {
        if i < kids.len() {
            let c = kids[i];
            let is_last = i + 1 == kids.len();
            self.visit_node_into(c, depth, is_last, out);
            self.visit_children_into(pid, kids, i + 1, depth, out);
            proof {
                let sk = kids@.skip(i as int);
                assert(sk[0] == c);
                assert(sk.drop_first() =~= kids@.skip(i + 1));
                assert((sk.len() == 1) == is_last);
                assert(out@ =~= old(out)@ + spec_visit_children(self@, pid, sk, depth));
            }
        } else {
            proof {
                assert(kids@.skip(i as int) =~= Seq::<u64>::empty());
                assert(out@ =~= old(out)@ + spec_visit_children(
                    self@,
                    pid,
                    kids@.skip(i as int),
                    depth,
                ));
            }
        }
    }

    /// Enumerates the subtree below the given identifier depth-first in
    /// pre-order: each entry is the frame's identifier, its depth below the
    /// given root, and whether it is the last of its siblings. An absent
    /// identifier — a frame that completed between enumeration and visit —
    /// yields nothing.
    pub fn visit(&self, id: u64) -> (r: Vec<(u64, u64, bool)>)
        requires
            wf(self@),
        ensures
            r@ == spec_visit_node(self@, id, 0, true),
    {
        let mut out: Vec<(u64, u64, bool)> = Vec::new();
        self.visit_node_into(id, 0, true, &mut out);
        proof {
            assert(out@ =~= spec_visit_node(self@, id, 0, true));
        }
        out
    }

    /// Appends the rendering of the whole forest at the given clock reading
    /// to a caller-supplied buffer.
    pub fn render_into(&self, now: u64, out: &mut String)
        requires
            wf(self@),
        ensures
            final(out)@ == old(out)@ + spec_render_forest(self@, now),
    {
        self.render_roots_into(&self.roots, 0, now, out);
        proof {
            assert(self.roots@.skip(0) =~= self@.roots);
        }
    }

    /// Renders the whole forest at the given clock reading.
    pub fn render_at(&self, now: u64) -> (s: String)
        requires
            wf(self@),
        ensures
            s@ == spec_render_forest(self@, now),
    {
        let mut out = String::new();
        self.render_into(now, &mut out);
        proof {
            assert(out@ =~= spec_render_forest(self@, now));
        }
        out
    }

    /// Renders the whole forest at the clock reading of this moment.
    pub fn render(&self) -> (s: String)
        requires
            wf(self@),
        ensures
            exists|now: u64| s@ == spec_render_forest(self@, now),
    {
        let now = now_nanos();
        let s = self.render_at(now);
        proof {
            assert(s@ == spec_render_forest(self@, now));
        }
        s
    }

    /// Renders only the subtree below the given identifier, at the given
    /// clock reading; an absent identifier renders as nothing.
    pub fn render_subtree_at(&self, id: u64, now: u64) -> (s: String)
        requires
            wf(self@),
        ensures
            s@ == spec_render_node(self@, id, Seq::empty(), Seq::empty(), now),
    {
        let mut out = String::new();
        let empty_own = String::new();
        let empty_rest = String::new();
        self.render_node_into(id, &empty_own, &empty_rest, now, &mut out);
        proof {
            assert(out@ =~= spec_render_node(self@, id, Seq::empty(), Seq::empty(), now));
        }
        out
    }

    /// Renders only the subtree below the given identifier, at the clock
    /// reading of this moment.
    pub fn render_subtree(&self, id: u64) -> (s: String)
        requires
            wf(self@),
        ensures
            exists|now: u64| s@ == spec_render_node(self@, id, Seq::empty(), Seq::empty(), now),
    {
        let now = now_nanos();
        let s = self.render_subtree_at(id, now);
        proof {
            assert(s@ == spec_render_node(self@, id, Seq::empty(), Seq::empty(), now));
        }
        s
    }
}

} // verus!
