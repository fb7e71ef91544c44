//! The replay cursor: a log of operations and a position in it.
use vstd::prelude::*;

use crate::change::{ChangeModel, ChangeType};
use crate::event::{Event, ValueModel};
use crate::graph::{event_loc_ok, process_model, step_apply, ProgramGraph};
use crate::node::NodeModel;
use crate::op::{ids_ok, lemma_ids_ok_mono, Op, OpStep, StepDirection, StepModel};

verus! {

/// The graph, the log of operations compiled from the events, and the
/// position of the cursor in that log.
#[derive(Debug)]
pub struct AppState {
    pub graph: ProgramGraph,
    /// Reversible operations; the first is a no-op that stands for the start.
    pub ops: Vec<Op>,
    pub op_index: usize,
}

/// A node after a reset: no live children and no value.
pub open spec fn reset_node(n: NodeModel) -> NodeModel {
    NodeModel { live: 0, value: ValueModel::Undefined, ..n }
}

impl AppState {
    /// The graph is well formed, the log is never empty, the cursor is in
    /// it, and every step of the log names existing nodes only.
    pub open spec fn wf(&self) -> bool {
        &&& self.graph.wf()
        &&& self.ops.len() >= 1
        &&& self.op_index < self.ops.len()
        &&& forall|k: int| 0 <= k < self.ops.len() ==> {
            &&& ids_ok(self.graph.nodes.len() as nat, #[trigger] self.ops[k].forward@)
            &&& ids_ok(self.graph.nodes.len() as nat, self.ops[k].reverse@)
        }
    }

    pub fn new() -> (r: AppState)
        ensures
            r.wf(),
            r.graph@.nodes.len() == 0,
            r.ops.len() == 1,
            r.ops[0].forward@ is NoOp,
            r.ops[0].reverse@ is NoOp,
            r.op_index == 0,
    {
        let mut ops: Vec<Op> = Vec::new();
        // The cursor cannot point between operations, so a no-op stands
        // for the start.
        ops.push(Op { forward: OpStep::NoOp, reverse: OpStep::NoOp });
        AppState { graph: ProgramGraph::new(), ops, op_index: 0 }
    }

    /// Takes every node back to no value and no live children, and the
    /// cursor back to the start.
    pub fn player_reset_to_start(&mut self)
        requires
            old(self).wf(),
        ensures
            final(self).wf(),
            final(self).op_index == 0,
            final(self).ops == old(self).ops,
            final(self).graph@.names == old(self).graph@.names,
            final(self).graph@.nodes.len() == old(self).graph@.nodes.len(),
            forall|i: int| 0 <= i < old(self).graph@.nodes.len()
                ==> #[trigger] final(self).graph@.nodes[i] == reset_node(old(self).graph@.nodes[i]),
    {
        let ghost g0 = self.graph@;
        let mut i: usize = 0;
        while i < self.graph.nodes.len()
            invariant
                i <= self.graph.nodes.len(),
                self.graph.nodes.len() == g0.nodes.len(),
                self.graph.gensym == old(self).graph.gensym,
                self.graph.names_by_id == old(self).graph.names_by_id,
                self.ops == old(self).ops,
                self.op_index == old(self).op_index,
                self.graph@.names == g0.names,
                forall|j: int| 0 <= j < i ==> #[trigger] self.graph@.nodes[j] == reset_node(g0.nodes[j]),
                forall|j: int| i <= j < g0.nodes.len() ==> #[trigger] self.graph@.nodes[j] == g0.nodes[j],
            decreases g0.nodes.len() - i,
        {
            let ghost before = self.graph@;
            self.graph.nodes[i].reset();
            proof {
                assert(self.graph@.nodes[i as int] == reset_node(before.nodes[i as int]));
                assert forall|j: int| 0 <= j < g0.nodes.len() && j != i implies #[trigger] self.graph@.nodes[j] == before.nodes[j] by {}
            }
            i = i + 1;
        }
        self.op_index = 0;
        proof {
            let g1 = self.graph@;
            assert forall|k: int| #![trigger g1.nodes[k]] 0 <= k < g1.nodes.len() implies {
                &&& g1.nodes[k].id == k
                &&& g1.nodes[k].live <= g1.nodes[k].children.len()
                &&& (g1.names[k] is Some <==> g1.nodes[k].node_type == crate::node::NodeType::NamedContainer)
            } by {
                assert(g1.nodes[k] == reset_node(g0.nodes[k]));
                assert(g0.nodes[k].id == k);
            }
            assert forall|k: int, j: int| 0 <= k < g1.nodes.len() && 0 <= j < g1.nodes[k].children.len()
                implies #[trigger] g1.nodes[k].children[j] < g1.nodes.len() by {
                assert(g1.nodes[k] == reset_node(g0.nodes[k]));
                assert(g0.nodes[k].children[j] < g0.nodes.len());
            }
            assert(g1.nodes_wf());
            assert(g1.children_wf());
        }
    }

    /// Compiles an event and appends its operation to the log.
    pub fn add_event(&mut self, event: Event)
        requires
            old(self).wf(),
            old(self).graph.has_room(),
            old(self).ops.len() < usize::MAX,
            event_loc_ok(old(self).graph@, event),
        ensures
            final(self).wf(),
            final(self).graph@ == process_model(old(self).graph@, event).0,
            match process_model(old(self).graph@, event).1 {
                None => final(self).ops == old(self).ops && final(self).op_index == old(self).op_index,
                Some((f, b)) => {
                    &&& final(self).ops.len() == old(self).ops.len() + 1
                    &&& forall|k: int| 0 <= k < old(self).ops.len() ==> #[trigger] final(self).ops[k] == old(self).ops[k]
                    &&& final(self).ops[old(self).ops.len() as int].forward@ == f
                    &&& final(self).ops[old(self).ops.len() as int].reverse@ == b
                    &&& final(self).op_index == old(self).op_index + 1
                },
            },
    {
        let ghost n0 = self.graph.nodes.len();
        let ghost ops0 = self.ops@;
        if let Some(op) = self.graph.process(&event) {
            self.ops.push(op);
            self.op_index += 1;
            proof {
                let n = self.graph.nodes.len() as nat;
                assert forall|k: int| 0 <= k < self.ops.len() implies {
                    &&& ids_ok(n, #[trigger] self.ops[k].forward@)
                    &&& ids_ok(n, self.ops[k].reverse@)
                } by {
                    if k < ops0.len() {
                        assert(self.ops[k] == ops0[k]);
                        assert(ids_ok(n0 as nat, ops0[k].forward@));
                        lemma_ids_ok_mono(n0 as nat, n, ops0[k].forward@);
                        lemma_ids_ok_mono(n0 as nat, n, ops0[k].reverse@);
                    }
                }
            }
        } else {
            proof {
                assert forall|k: int| 0 <= k < self.ops.len() implies {
                    &&& ids_ok(self.graph.nodes.len() as nat, #[trigger] self.ops[k].forward@)
                    &&& ids_ok(self.graph.nodes.len() as nat, self.ops[k].reverse@)
                } by {
                    assert(ids_ok(n0 as nat, self.ops[k].forward@));
                    lemma_ids_ok_mono(n0 as nat, self.graph.nodes.len() as nat, self.ops[k].forward@);
                    lemma_ids_ok_mono(n0 as nat, self.graph.nodes.len() as nat, self.ops[k].reverse@);
                }
            }
        }
    }

    /// Moves the cursor one operation forward and replays it; at the end of
    /// the log nothing changes.
    pub fn player_advance(&mut self) -> (r: ChangeType)
        requires
            old(self).wf(),
        ensures
            final(self).wf(),
            old(self).op_index + 1 == old(self).ops.len() ==> *final(self) == *old(self) && r@ == ChangeModel::NoChange,
            old(self).op_index + 1 < old(self).ops.len() ==> {
                &&& final(self).op_index == old(self).op_index + 1
                &&& final(self).ops == old(self).ops
                &&& final(self).graph@ == step_apply(old(self).graph@, old(self).ops[old(self).op_index + 1].forward@).0
                &&& r@ == step_apply(old(self).graph@, old(self).ops[old(self).op_index + 1].forward@).1
            },
    {
        self.player_step(StepDirection::Forward)
    }

    /// Undoes the operation at the cursor and moves the cursor back; at the
    /// start nothing changes.
    pub fn player_rewind(&mut self) -> (r: ChangeType)
        requires
            old(self).wf(),
        ensures
            final(self).wf(),
            old(self).op_index == 0 ==> *final(self) == *old(self) && r@ == ChangeModel::NoChange,
            old(self).op_index > 0 ==> {
                &&& final(self).op_index == old(self).op_index - 1
                &&& final(self).ops == old(self).ops
                &&& final(self).graph@ == step_apply(old(self).graph@, old(self).ops[old(self).op_index as int].reverse@).0
                &&& r@ == step_apply(old(self).graph@, old(self).ops[old(self).op_index as int].reverse@).1
            },
    {
        self.player_step(StepDirection::Reverse)
    }

    fn player_step(&mut self, direction: StepDirection) -> (r: ChangeType)
        requires
            old(self).wf(),
        ensures
            final(self).wf(),
            match find_step_spec(old(self).op_index, old(self).ops.len(), direction) {
                None => *final(self) == *old(self) && r@ == ChangeModel::NoChange,
                Some((k, next)) => {
                    &&& final(self).op_index == next
                    &&& final(self).ops == old(self).ops
                    &&& final(self).graph@ == step_apply(old(self).graph@, step_of(old(self).ops[k as int], direction)).0
                    &&& r@ == step_apply(old(self).graph@, step_of(old(self).ops[k as int], direction)).1
                },
            },
    {
        match self.find_step_ops(direction) {
            Some((op_index, new_op_index)) => {
                let ghost n0 = self.graph.nodes.len();
                let op = &self.ops[op_index];
                let op_step = op.step_in(direction);
                proof {
                    assert(ids_ok(n0 as nat, self.ops[op_index as int].forward@));
                    assert(ids_ok(n0 as nat, op_step@));
                }
                let changes = self.graph.step(op_step);
                self.op_index = new_op_index;
                proof {
                    assert forall|k: int| 0 <= k < self.ops.len() implies {
                        &&& ids_ok(self.graph.nodes.len() as nat, #[trigger] self.ops[k].forward@)
                        &&& ids_ok(self.graph.nodes.len() as nat, self.ops[k].reverse@)
                    } by {
                        assert(ids_ok(n0 as nat, self.ops[k].forward@));
                    }
                }
                changes
            },
            None => {
                let r = ChangeType::NoChange;
                r
            },
        }
    }

    /// The operation to replay and the cursor after it, if the cursor can move.
    fn find_step_ops(&self, direction: StepDirection) -> (r: Option<(usize, usize)>)
        requires
            self.wf(),
        ensures
            r == find_step_spec(self.op_index, self.ops.len(), direction),
    {
        match direction {
            StepDirection::Forward => {
                let new_index = self.op_index + 1;
                if new_index == self.ops.len() {
                    return None;
                }
                Some((new_index, new_index))
            },
            StepDirection::Reverse => {
                if self.op_index == 0 {
                    return None;
                }
                Some((self.op_index, self.op_index - 1))
            },
        }
    }
}

/// The step an operation replays in a direction.
pub open spec fn step_of(op: Op, direction: StepDirection) -> StepModel {
    match direction {
        StepDirection::Forward => op.forward@,
        StepDirection::Reverse => op.reverse@,
    }
}

/// Which operation a move replays, and where the cursor lands; none at the
/// boundaries.
pub open spec fn find_step_spec(index: usize, len: usize, direction: StepDirection) -> Option<(usize, usize)> {
    match direction {
        StepDirection::Forward => if index + 1 == len {
            None
        } else {
            Some(((index + 1) as usize, (index + 1) as usize))
        },
        StepDirection::Reverse => if index == 0 {
            None
        } else {
            Some((index, (index - 1) as usize))
        },
    }
}

} // verus!
