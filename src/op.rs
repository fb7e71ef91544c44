//! Reversible operations: primitive steps, their composition and their inverse.
use vstd::prelude::*;

use crate::event::{Value, ValueModel};
use crate::node::NId;

verus! {

#[derive(Copy, Clone, Debug, PartialEq, Eq, Structural)]
pub enum StepDirection {
    Forward,
    Reverse,
}

/// One primitive mutation of the node graph, or an ordered group of them.
#[derive(Debug)]
pub enum OpStep {
    NoOp,
    Atomic { steps: Vec<OpStep> },
    Define { id: NId },
    Forget { id: NId },
    SetValue { id: NId, value: Value },
    Push { id: NId, child_id: NId, value: Value },
    Pop { id: NId },
}

/// The mathematical model of an `OpStep`.
pub enum StepModel {
    NoOp,
    Atomic(Seq<StepModel>),
    Define(NId),
    Forget(NId),
    SetValue(NId, ValueModel),
    Push(NId, NId, ValueModel),
    Pop(NId),
}

/// A forward step with the step that undoes it.
#[derive(Debug)]
pub struct Op {
    pub forward: OpStep,
    pub reverse: OpStep,
}

/// The models of the first `n` steps of `v`.
pub open spec fn steps_model(v: Vec<OpStep>, n: nat) -> Seq<StepModel>
    decreases v, n,
{
    if n == 0 || n > v.len() {
        Seq::empty()
    } else {
        steps_model(v, (n - 1) as nat).push(step_model(v[n - 1]))
    }
}

pub open spec fn step_model(s: OpStep) -> StepModel
    decreases s, 0nat,
{
    match s {
        OpStep::NoOp => StepModel::NoOp,
        OpStep::Atomic { steps } => StepModel::Atomic(steps_model(steps, steps.len() as nat)),
        OpStep::Define { id } => StepModel::Define(id),
        OpStep::Forget { id } => StepModel::Forget(id),
        OpStep::SetValue { id, value } => StepModel::SetValue(id, value@),
        OpStep::Push { id, child_id, value } => StepModel::Push(id, child_id, value@),
        OpStep::Pop { id } => StepModel::Pop(id),
    }
}

impl View for OpStep {
    type V = StepModel;

    open spec fn view(&self) -> StepModel {
        step_model(*self)
    }
}

pub proof fn lemma_steps_model(v: Vec<OpStep>, n: nat)
    requires
        n <= v.len(),
    ensures
        steps_model(v, n).len() == n,
        forall|i: int| 0 <= i < n ==> #[trigger] steps_model(v, n)[i] == v[i]@,
    decreases n,
{
    if n > 0 {
        lemma_steps_model(v, (n - 1) as nat);
    }
}

/// Whether the structural inverse is defined: a set or a pop cannot be
/// undone from its own data.
pub open spec fn reversible(s: StepModel) -> bool
    decreases s,
{
    match s {
        StepModel::Atomic(steps) => all_reversible(steps),
        StepModel::SetValue(..) => false,
        StepModel::Pop(..) => false,
        _ => true,
    }
}

/// Whether every step of `s` is reversible.
pub open spec fn all_reversible(s: Seq<StepModel>) -> bool
    decreases s,
{
    if s.len() == 0 {
        true
    } else {
        all_reversible(s.subrange(0, s.len() - 1)) && reversible(s[s.len() - 1])
    }
}

pub proof fn lemma_all_reversible(s: Seq<StepModel>, i: int)
    requires
        all_reversible(s),
        0 <= i < s.len(),
    ensures
        reversible(s[i]),
    decreases s.len(),
{
    if i < s.len() - 1 {
        let t = s.subrange(0, s.len() - 1);
        lemma_all_reversible(t, i);
        assert(t[i] == s[i]);
    }
}

/// The structural inverse of each of `s`, in reverse order.
pub open spec fn rev_steps(s: Seq<StepModel>) -> Seq<StepModel>
    decreases s,
{
    if s.len() == 0 {
        Seq::empty()
    } else {
        seq![rev_model(s[s.len() - 1])] + rev_steps(s.subrange(0, s.len() - 1))
    }
}

/// The structural inverse of a step.
pub open spec fn rev_model(s: StepModel) -> StepModel
    decreases s,
{
    match s {
        StepModel::NoOp => StepModel::NoOp,
        StepModel::Atomic(steps) => StepModel::Atomic(rev_steps(steps)),
        StepModel::Define(id) => StepModel::Forget(id),
        StepModel::Forget(id) => StepModel::Define(id),
        StepModel::Push(id, _, _) => StepModel::Pop(id),
        _ => StepModel::NoOp,
    }
}

/// Sequential composition: `a`, then `b`.
pub open spec fn then_model(a: StepModel, b: StepModel) -> StepModel {
    if b is NoOp {
        a
    } else {
        match a {
            StepModel::NoOp => b,
            StepModel::Atomic(s) => StepModel::Atomic(s.push(b)),
            _ => match b {
                StepModel::Atomic(t) => StepModel::Atomic(seq![a] + t),
                _ => StepModel::Atomic(seq![a, b]),
            },
        }
    }
}

pub proof fn lemma_rev_steps(s: Seq<StepModel>)
    ensures
        rev_steps(s).len() == s.len(),
        forall|i: int| 0 <= i < s.len() ==> #[trigger] rev_steps(s)[i] == rev_model(s[s.len() - 1 - i]),
    decreases s.len(),
{
    if s.len() > 0 {
        let t = s.subrange(0, s.len() - 1);
        lemma_rev_steps(t);
        assert forall|i: int| 0 <= i < s.len() implies #[trigger] rev_steps(s)[i] == rev_model(s[s.len() - 1 - i]) by {
            if i > 0 {
                assert(rev_steps(s)[i] == rev_steps(t)[i - 1]);
            }
        }
    }
}

pub proof fn lemma_all_reversible_intro(s: Seq<StepModel>)
    requires
        forall|i: int| 0 <= i < s.len() ==> reversible(#[trigger] s[i]),
    ensures
        all_reversible(s),
    decreases s.len(),
{
    if s.len() > 0 {
        let t = s.subrange(0, s.len() - 1);
        assert forall|i: int| 0 <= i < t.len() implies reversible(#[trigger] t[i]) by {
            assert(t[i] == s[i]);
        }
        lemma_all_reversible_intro(t);
    }
}

/// Composing two reversible steps gives a reversible step.
pub proof fn lemma_then_reversible(a: StepModel, b: StepModel)
    requires
        reversible(a),
        reversible(b),
    ensures
        reversible(then_model(a, b)),
{
    if !(b is NoOp) {
        match a {
            StepModel::NoOp => {},
            StepModel::Atomic(s) => {
                let t = s.push(b);
                assert forall|i: int| 0 <= i < t.len() implies reversible(#[trigger] t[i]) by {
                    if i < s.len() {
                        lemma_all_reversible(s, i);
                    }
                }
                lemma_all_reversible_intro(t);
            },
            _ => match b {
                StepModel::Atomic(u) => {
                    let t = seq![a] + u;
                    assert forall|i: int| 0 <= i < t.len() implies reversible(#[trigger] t[i]) by {
                        if i > 0 {
                            lemma_all_reversible(u, i - 1);
                        }
                    }
                    lemma_all_reversible_intro(t);
                },
                _ => {
                    let t = seq![a, b];
                    assert forall|i: int| 0 <= i < t.len() implies reversible(#[trigger] t[i]) by {}
                    lemma_all_reversible_intro(t);
                },
            },
        }
    }
}

/// Every node id that a step names is below `n`.
pub open spec fn ids_ok(n: nat, s: StepModel) -> bool
    decreases s,
{
    match s {
        StepModel::NoOp => true,
        StepModel::Atomic(steps) => all_ids_ok(n, steps),
        StepModel::Define(id) => id < n,
        StepModel::Forget(id) => id < n,
        StepModel::SetValue(id, _) => id < n,
        StepModel::Push(id, child_id, _) => id < n && child_id < n,
        StepModel::Pop(id) => id < n,
    }
}

pub open spec fn all_ids_ok(n: nat, s: Seq<StepModel>) -> bool
    decreases s,
{
    if s.len() == 0 {
        true
    } else {
        all_ids_ok(n, s.subrange(0, s.len() - 1)) && ids_ok(n, s[s.len() - 1])
    }
}

pub proof fn lemma_all_ids_ok(n: nat, s: Seq<StepModel>, i: int)
    requires
        all_ids_ok(n, s),
        0 <= i < s.len(),
    ensures
        ids_ok(n, s[i]),
    decreases s.len(),
{
    if i < s.len() - 1 {
        let t = s.subrange(0, s.len() - 1);
        lemma_all_ids_ok(n, t, i);
        assert(t[i] == s[i]);
    }
}

pub proof fn lemma_all_ids_ok_intro(n: nat, s: Seq<StepModel>)
    requires
        forall|i: int| 0 <= i < s.len() ==> ids_ok(n, #[trigger] s[i]),
    ensures
        all_ids_ok(n, s),
    decreases s.len(),
{
    if s.len() > 0 {
        let t = s.subrange(0, s.len() - 1);
        assert forall|i: int| 0 <= i < t.len() implies ids_ok(n, #[trigger] t[i]) by {
            assert(t[i] == s[i]);
        }
        lemma_all_ids_ok_intro(n, t);
    }
}

/// Ids below `n` stay below any larger bound.
pub proof fn lemma_ids_ok_mono(n: nat, m: nat, s: StepModel)
    requires
        ids_ok(n, s),
        n <= m,
    ensures
        ids_ok(m, s),
    decreases s,
{
    if let StepModel::Atomic(t) = s {
        assert forall|i: int| 0 <= i < t.len() implies ids_ok(m, #[trigger] t[i]) by {
            lemma_all_ids_ok(n, t, i);
            lemma_ids_ok_mono(n, m, t[i]);
        }
        lemma_all_ids_ok_intro(m, t);
    }
}

pub proof fn lemma_then_ids_ok(n: nat, a: StepModel, b: StepModel)
    requires
        ids_ok(n, a),
        ids_ok(n, b),
    ensures
        ids_ok(n, then_model(a, b)),
{
    if !(b is NoOp) {
        match a {
            StepModel::NoOp => {},
            StepModel::Atomic(s) => {
                let t = s.push(b);
                assert forall|i: int| 0 <= i < t.len() implies ids_ok(n, #[trigger] t[i]) by {
                    if i < s.len() {
                        lemma_all_ids_ok(n, s, i);
                    }
                }
                lemma_all_ids_ok_intro(n, t);
            },
            _ => match b {
                StepModel::Atomic(u) => {
                    let t = seq![a] + u;
                    assert forall|i: int| 0 <= i < t.len() implies ids_ok(n, #[trigger] t[i]) by {
                        if i > 0 {
                            lemma_all_ids_ok(n, u, i - 1);
                        }
                    }
                    lemma_all_ids_ok_intro(n, t);
                },
                _ => {
                    let t = seq![a, b];
                    assert forall|i: int| 0 <= i < t.len() implies ids_ok(n, #[trigger] t[i]) by {}
                    lemma_all_ids_ok_intro(n, t);
                },
            },
        }
    }
}

pub proof fn lemma_rev_ids_ok(n: nat, s: StepModel)
    requires
        ids_ok(n, s),
    ensures
        ids_ok(n, rev_model(s)),
    decreases s,
{
    if let StepModel::Atomic(t) = s {
        lemma_rev_steps(t);
        let r = rev_steps(t);
        assert forall|i: int| 0 <= i < r.len() implies ids_ok(n, #[trigger] r[i]) by {
            let j = t.len() - 1 - i;
            lemma_all_ids_ok(n, t, j);
            lemma_rev_ids_ok(n, t[j]);
        }
        lemma_all_ids_ok_intro(n, r);
    }
}

impl Op {
    /// Builds an operation that first runs `previous`, then `forward`; its
    /// reverse undoes `forward` before `previous`.
    pub fn from_steps(forward: OpStep, reverse: OpStep, previous: OpStep) -> (r: Op)
        requires
            reversible(previous@),
        ensures
            r.forward@ == then_model(previous@, forward@),
            r.reverse@ == then_model(reverse@, rev_model(previous@)),
    {
        let prev_rev_step = previous.rev();
        Op { forward: previous.and_then(forward), reverse: reverse.and_then(prev_rev_step) }
    }

    pub fn step_in(&self, direction: StepDirection) -> (r: &OpStep)
        ensures
            *r == match direction {
                StepDirection::Forward => self.forward,
                StepDirection::Reverse => self.reverse,
            },
    {
        match direction {
            StepDirection::Forward => &self.forward,
            StepDirection::Reverse => &self.reverse,
        }
    }
}

impl OpStep {
    /// The operation whose reverse is this step's structural inverse.
    pub fn into_op(self) -> (r: Op)
        requires
            reversible(self@),
        ensures
            r.forward@ == self@,
            r.reverse@ == rev_model(self@),
    {
        let reverse = self.rev();
        Op { forward: self, reverse }
    }

    /// The operation that runs `prev_step` and then this step, and undoes
    /// them in the opposite order.
    pub fn into_op_with_previous(self, prev_step: OpStep) -> (r: Op)
        requires
            reversible(self@),
            reversible(prev_step@),
        ensures
            r.forward@ == then_model(prev_step@, self@),
            r.reverse@ == then_model(rev_model(self@), rev_model(prev_step@)),
    {
        let reverse = self.rev();
        let prev_step_rev = prev_step.rev();
        Op { forward: prev_step.and_then(self), reverse: reverse.and_then(prev_step_rev) }
    }

    /// The structural inverse.
    pub fn rev(&self) -> (r: OpStep)
        requires
            reversible(self@),
        ensures
            r@ == rev_model(self@),
        decreases self,
    {
        match self {
            OpStep::NoOp => OpStep::NoOp,
            OpStep::Atomic { steps } => {
                proof {
                    lemma_steps_model(*steps, steps.len() as nat);
                    lemma_rev_steps(self@->Atomic_0);
                }
                let ghost src = self@->Atomic_0;
                let mut out: Vec<OpStep> = Vec::new();
                let mut i: usize = steps.len();
                while i > 0
                    invariant
                        i <= steps.len(),
                        out.len() == steps.len() - i,
                        *self == (OpStep::Atomic { steps: *steps }),
                        reversible(self@),
                        src == steps_model(*steps, steps.len() as nat),
                        src.len() == steps.len(),
                        forall|j: int| 0 <= j < steps.len() ==> #[trigger] src[j] == steps[j]@,
                        forall|j: int| 0 <= j < out.len() ==> #[trigger] out[j]@ == rev_model(src[steps.len() - 1 - j]),
                    decreases i,
                {
                    i = i - 1;
                    proof {
                        vstd::std_specs::vec::axiom_vec_index_decreases(*steps, i as int);
                        assert((*self)->steps == *steps);
                        assert(decreases_to!(*self => (*self)->steps));
                        assert(decreases_to!(*steps => steps[i as int]));
                        assert(self@ == StepModel::Atomic(src));
                        lemma_all_reversible(src, i as int);
                    }
                    let r = steps[i].rev();
                    out.push(r);
                }
                proof {
                    lemma_steps_model(out, out.len() as nat);
                    assert(steps_model(out, out.len() as nat) =~= rev_steps(src));
                }
                OpStep::Atomic { steps: out }
            },
            OpStep::Define { id } => OpStep::Forget { id: *id },
            OpStep::Forget { id } => OpStep::Define { id: *id },
            OpStep::Push { id, .. } => OpStep::Pop { id: *id },
            OpStep::SetValue { .. } => OpStep::NoOp,
            OpStep::Pop { .. } => OpStep::NoOp,
        }
    }

    /// Sequential composition; a no-op on either side is absorbed.
    pub fn and_then(self, step: OpStep) -> (r: OpStep)
        ensures
            r@ == then_model(self@, step@),
    {
        if step.is_no_op() {
            return self;
        }
        match self {
            OpStep::NoOp => step,
            OpStep::Atomic { mut steps } => {
                proof {
                    lemma_steps_model(steps, steps.len() as nat);
                }
                let ghost before = steps;
                steps.push(step);
                proof {
                    lemma_steps_model(steps, steps.len() as nat);
                    assert(steps_model(steps, steps.len() as nat) =~= steps_model(before, before.len() as nat).push(step@));
                }
                OpStep::Atomic { steps }
            },
            _ => {
                let ghost a = self@;
                match step {
                    OpStep::Atomic { steps } => {
                        proof {
                            lemma_steps_model(steps, steps.len() as nat);
                        }
                        let mut out: Vec<OpStep> = Vec::new();
                        out.push(self);
                        let mut rest = steps;
                        let ghost t = steps_model(rest, rest.len() as nat);
                        let n = rest.len();
                        // Move the group's steps after `self`, keeping their order.
                        let mut tail: Vec<OpStep> = Vec::new();
                        while rest.len() > 0
                            invariant
                                rest.len() + tail.len() == n,
                                t.len() == n,
                                forall|j: int| 0 <= j < rest.len() ==> #[trigger] rest[j]@ == t[j],
                                forall|j: int| 0 <= j < tail.len() ==> #[trigger] tail[j]@ == t[n - 1 - j],
                            decreases rest.len(),
                        {
                            let x = rest.pop().unwrap();
                            tail.push(x);
                        }
                        while tail.len() > 0
                            invariant
                                tail.len() + out.len() == n + 1,
                                t.len() == n,
                                out.len() >= 1,
                                out[0]@ == a,
                                forall|j: int| 0 <= j < tail.len() ==> #[trigger] tail[j]@ == t[n - 1 - j],
                                forall|j: int| 1 <= j < out.len() ==> #[trigger] out[j]@ == t[j - 1],
                            decreases tail.len(),
                        {
                            let x = tail.pop().unwrap();
                            out.push(x);
                        }
                        proof {
                            lemma_steps_model(out, out.len() as nat);
                            assert(steps_model(out, out.len() as nat) =~= seq![a] + t);
                        }
                        OpStep::Atomic { steps: out }
                    },
                    _ => {
                        let mut out: Vec<OpStep> = Vec::new();
                        out.push(self);
                        out.push(step);
                        proof {
                            lemma_steps_model(out, out.len() as nat);
                            assert(steps_model(out, out.len() as nat) =~= seq![a, out[1]@]);
                        }
                        OpStep::Atomic { steps: out }
                    },
                }
            },
        }
    }

    pub fn is_no_op(&self) -> (r: bool)
        ensures
            r == (self@ is NoOp),
    {
        match self {
            OpStep::NoOp => true,
            _ => false,
        }
    }
}

} // verus!
