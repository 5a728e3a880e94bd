//! The lifecycle adapter: the decision logic that turns observed
//! instrumentation signals — creation, resumption, suspension, attribute
//! recording, completion — into forest mutations, and the laws that hold of
//! whole signal sequences.

use vstd::prelude::*;

use crate::field::{field_entries, Data, Val};
use crate::tree::{
    lemma_insert_wf, lemma_record_wf, lemma_remove_wf, spec_insert, spec_record, spec_remove, wf,
    NodeModel, Tree, TreeModel,
};

verus! {

/// One observed lifecycle signal of the instrumentation facility.
pub enum Event {
    /// A frame was created, under the currently active frame if any, with
    /// the attributes recorded at creation.
    Create { parent: Option<u64>, label: String, location: String, data: Data },
    /// A frame resumed on some worker thread.
    Enter { id: u64 },
    /// A frame suspended without completing.
    Exit { id: u64 },
    /// A late attribute arrived for a live frame.
    Record { id: u64, key: String, val: Val },
    /// A frame completed for good, or was abandoned.
    Close { id: u64 },
}

/// What one signal does to the forest: creation inserts, completion removes,
/// a late attribute is appended, and resumption or suspension — a frame is
/// logically in progress wherever it currently runs — change nothing.
pub open spec fn spec_step(m: TreeModel, ev: Event) -> TreeModel {
    match ev {
        Event::Create { parent, label, location, data } => spec_insert(
            m,
            parent,
            label@,
            location@,
            data.start_at,
            field_entries(data.fields),
        ),
        Event::Enter { .. } => m,
        Event::Exit { .. } => m,
        Event::Record { id, key, val } => spec_record(m, id, key@, val),
        Event::Close { id } => spec_remove(m, id),
    }
}

/// What a whole signal sequence does to the forest, first signal first.
pub open spec fn spec_run(m: TreeModel, evs: Seq<Event>) -> TreeModel
    decreases evs.len(),
{
    if evs.len() == 0 {
        m
    } else {
        spec_run(spec_step(m, evs[0]), evs.drop_first())
    }
}

/// Whether this signal closes the given frame.
pub open spec fn is_close_of(ev: Event, id: u64) -> bool {
    match ev {
        Event::Close { id: c } => c == id,
        _ => false,
    }
}

/// Whether some signal of the sequence closes the given frame.
pub open spec fn closes(evs: Seq<Event>, id: u64) -> bool {
    exists|j: int| 0 <= j < evs.len() && is_close_of(#[trigger] evs[j], id)
}

/// Whether every frame the sequence creates is closed later in it, when
/// identifiers are handed out from `n` on.
pub open spec fn creates_closed(n: nat, evs: Seq<Event>) -> bool
    decreases evs.len(),
{
    if evs.len() == 0 {
        true
    } else {
        match evs[0] {
            Event::Create { .. } => closes(evs.drop_first(), n as u64) && creates_closed(
                n + 1,
                evs.drop_first(),
            ),
            _ => creates_closed(n, evs.drop_first()),
        }
    }
}

impl Tree {
    /// Applies one observed signal to the forest.
    pub fn handle(&mut self, ev: Event)
        requires
            wf(old(self)@),
            old(self)@.next_id < u64::MAX,
        ensures
            final(self)@ == spec_step(old(self)@, ev),
            wf(final(self)@),
    {
        match ev {
            Event::Create { parent, label, location, data } => {
                self.insert(parent, label, location, data);
            },
            Event::Enter { .. } => {},
            Event::Exit { .. } => {},
            Event::Record { id, key, val } => {
                self.record(id, key, val);
            },
            Event::Close { id } => {
                self.remove(id);
            },
        }
    }
}

/// For every sequence of signals in which each currently live frame and each
/// frame created along the way is eventually closed, the forest is empty
/// after the whole sequence has run. In particular, every sequence of
/// create/close signals respecting the nesting of the operations they stand
/// for, and every balanced interleaving across disjoint parents, leaves the
/// forest empty.
pub proof fn lemma_all_closed_run_empties(m: TreeModel, evs: Seq<Event>)
    requires
        wf(m),
        m.next_id + evs.len() <= u64::MAX,
        forall|id: u64| #[trigger] m.nodes.dom().contains(id) ==> closes(evs, id),
        creates_closed(m.next_id, evs),
    ensures
        spec_run(m, evs).nodes == Map::<u64, NodeModel>::empty(),
        spec_run(m, evs).roots == Seq::<u64>::empty(),
    decreases evs.len(),
{
    if evs.len() == 0 {
        assert forall|id: u64| !(#[trigger] m.nodes.dom().contains(id)) by {
            if m.nodes.dom().contains(id) {
                let j = choose|j: int| 0 <= j < evs.len() && is_close_of(evs[j], id);
                assert(false);
            }
        }
        assert(m.nodes =~= Map::<u64, NodeModel>::empty());
        if m.roots.len() > 0 {
            assert(m.nodes.dom().contains(m.roots[0]));
            assert(false);
        }
        assert(m.roots =~= Seq::<u64>::empty());
    } else {
        let ev = evs[0];
        let tail = evs.drop_first();
        let m1 = spec_step(m, ev);
        match ev {
            Event::Create { parent, label, location, data } => {
                lemma_insert_wf(
                    m,
                    parent,
                    label@,
                    location@,
                    data.start_at,
                    field_entries(data.fields),
                );
                let newid = m.next_id as u64;
                assert(m1.nodes.dom() =~= m.nodes.dom().insert(newid));
                assert forall|id: u64| #[trigger] m1.nodes.dom().contains(id) implies closes(
                    tail,
                    id,
                ) by {
                    if id == newid {
                        assert(closes(tail, newid));
                    } else {
                        assert(m.nodes.dom().contains(id));
                        assert(closes(evs, id));
                        let j = choose|j: int| 0 <= j < evs.len() && is_close_of(evs[j], id);
                        assert(j != 0);
                        assert(tail[j - 1] == evs[j]);
                        assert(is_close_of(tail[j - 1], id));
                    }
                }
                assert(m1.next_id == m.next_id + 1);
                assert(creates_closed(m1.next_id, tail));
                lemma_all_closed_run_empties(m1, tail);
            },
            Event::Close { id } => {
                lemma_remove_wf(m, id);
                assert forall|x: u64| #[trigger] m1.nodes.dom().contains(x) implies closes(
                    tail,
                    x,
                ) by {
                    assert(m.nodes.dom().contains(x));
                    assert(x != id);
                    let j = choose|j: int| 0 <= j < evs.len() && is_close_of(evs[j], x);
                    assert(j != 0);
                    assert(tail[j - 1] == evs[j]);
                    assert(is_close_of(tail[j - 1], x));
                }
                assert(creates_closed(m1.next_id, tail));
                lemma_all_closed_run_empties(m1, tail);
            },
            Event::Enter { .. } => {
                assert forall|x: u64| #[trigger] m1.nodes.dom().contains(x) implies closes(
                    tail,
                    x,
                ) by {
                    let j = choose|j: int| 0 <= j < evs.len() && is_close_of(evs[j], x);
                    assert(j != 0);
                    assert(tail[j - 1] == evs[j]);
                    assert(is_close_of(tail[j - 1], x));
                }
                lemma_all_closed_run_empties(m1, tail);
            },
            Event::Exit { .. } => {
                assert forall|x: u64| #[trigger] m1.nodes.dom().contains(x) implies closes(
                    tail,
                    x,
                ) by {
                    let j = choose|j: int| 0 <= j < evs.len() && is_close_of(evs[j], x);
                    assert(j != 0);
                    assert(tail[j - 1] == evs[j]);
                    assert(is_close_of(tail[j - 1], x));
                }
                lemma_all_closed_run_empties(m1, tail);
            },
            Event::Record { id, key, val } => {
                lemma_record_wf(m, id, key@, val);
                assert forall|x: u64| #[trigger] m1.nodes.dom().contains(x) implies closes(
                    tail,
                    x,
                ) by {
                    assert(m.nodes.dom().contains(x));
                    let j = choose|j: int| 0 <= j < evs.len() && is_close_of(evs[j], x);
                    assert(j != 0);
                    assert(tail[j - 1] == evs[j]);
                    assert(is_close_of(tail[j - 1], x));
                }
                assert(creates_closed(m1.next_id, tail));
                lemma_all_closed_run_empties(m1, tail);
            },
        }
    }
}

} // verus!
