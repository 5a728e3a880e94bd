//! The frame and root wrappers: the single-shot state machine that tracks an
//! arbitrary suspend/resume/complete operation in the forest. Registration
//! happens once, on the first resumption attempt; removal happens exactly
//! once, whether the operation completed or was dropped early — a lost
//! select race or a cancelled task never leaks a frame.

use vstd::prelude::*;

use crate::field::{field_entries, Data, Val};
use crate::tree::{spec_insert, spec_remove, wf, Tree, TreeModel};

verus! {

/// The lifecycle state of one wrapped operation: whether it starts a new
/// independent root group, the frame it registered, and whether that frame
/// was already removed.
pub struct FrameGuard {
    /// Whether the wrapped operation starts a new root group instead of
    /// hanging under the ambient frame.
    pub root: bool,
    /// The registered frame, once the first resumption attempt has run.
    pub node: Option<u64>,
    /// Whether the registered frame was already removed.
    pub done: bool,
}

impl FrameGuard {
    /// A wrapper for an operation shown under the ambient current frame.
    pub fn frame() -> (g: FrameGuard)
        ensures
            !g.root,
            g.node is None,
            !g.done,
    {
        FrameGuard { root: false, node: None, done: false }
    }

    /// A wrapper for an operation spawned with no ambient parent, starting a
    /// new independent root group.
    pub fn root() -> (g: FrameGuard)
        ensures
            g.root,
            g.node is None,
            !g.done,
    {
        FrameGuard { root: true, node: None, done: false }
    }

    /// The first-resumption hook: registers the frame — under the ambient
    /// frame, or as a new root — once; every later resumption attempt leaves
    /// the forest untouched.
    pub fn on_poll(
        &mut self,
        tree: &mut Tree,
        ambient: Option<u64>,
        label: String,
        location: String,
        data: Data,
    )
        requires
            wf(old(tree)@),
            old(tree)@.next_id < u64::MAX,
            !old(self).done,
        ensures
            final(self).root == old(self).root,
            !final(self).done,
            final(self).node is Some,
            old(self).node is Some ==> final(tree)@ == old(tree)@ && *final(self) == *old(self),
            old(self).node is None ==> {
                &&& final(self).node == Some((old(tree)@.next_id as u64))
                &&& final(tree)@ == spec_insert(
                    old(tree)@,
                    if old(self).root {
                        None
                    } else {
                        ambient
                    },
                    label@,
                    location@,
                    data.start_at,
                    field_entries(data.fields),
                )
                &&& final(tree)@.nodes.dom().contains(final(self).node->0)
            },
            wf(final(tree)@),
    {
        if self.node.is_none() {
            let parent = if self.root {
                None
            } else {
                ambient
            };
            let id = tree.insert(parent, label, location, data);
            self.node = Some(id);
        }
    }

    /// The completion-or-drop hook: removes the registered frame exactly
    /// once. Run again, or run on a wrapper that never registered — an
    /// operation cancelled before its first resumption — it leaves the
    /// forest untouched, so no identifier this wrapper produced stays in
    /// any later snapshot.
    pub fn finish(&mut self, tree: &mut Tree)
        requires
            wf(old(tree)@),
        ensures
            final(self).done,
            final(self).node == old(self).node,
            final(self).root == old(self).root,
            old(self).done || old(self).node is None ==> final(tree)@ == old(tree)@,
            !old(self).done && old(self).node is Some ==> final(tree)@ == spec_remove(
                old(tree)@,
                old(self).node->0,
            ) && !final(tree)@.nodes.dom().contains(old(self).node->0),
            wf(final(tree)@),
    {
        if !self.done {
            match self.node {
                Some(id) => {
                    tree.remove(id);
                },
                None => {},
            }
        }
        self.done = true;
    }
}

/// A root wrapper used twice — two operations spawned with no ambient parent
/// — produces two distinct root groups: both frames are parentless roots,
/// and neither sits below the other, having no children at all.
pub proof fn lemma_two_roots_independent(
    m: TreeModel,
    l1: Seq<char>,
    loc1: Seq<char>,
    at1: u64,
    f1: Seq<(Seq<char>, Val)>,
    l2: Seq<char>,
    loc2: Seq<char>,
    at2: u64,
    f2: Seq<(Seq<char>, Val)>,
)
    requires
        wf(m),
        m.next_id + 2 <= u64::MAX,
    ensures
        ({
            let m2 = spec_insert(spec_insert(m, None, l1, loc1, at1, f1), None, l2, loc2, at2, f2);
            let id1 = m.next_id as u64;
            let id2 = (m.next_id + 1) as u64;
            &&& id1 != id2
            &&& m2.nodes.dom().contains(id1)
            &&& m2.nodes.dom().contains(id2)
            &&& m2.nodes[id1].parent is None
            &&& m2.nodes[id2].parent is None
            &&& m2.nodes[id1].children == Seq::<u64>::empty()
            &&& m2.nodes[id2].children == Seq::<u64>::empty()
            &&& m2.roots == m.roots.push(id1).push(id2)
            &&& wf(m2)
        }),
{
    let m1 = spec_insert(m, None, l1, loc1, at1, f1);
    crate::tree::lemma_insert_wf(m, None, l1, loc1, at1, f1);
    crate::tree::lemma_insert_wf(m1, None, l2, loc2, at2, f2);
}

} // verus!
