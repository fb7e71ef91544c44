//! Replaying a compiled history forward and then back again.
use vstd::prelude::*;

use crate::change::ChangeModel;
use crate::event::{model_is_simple, Event, Location, Value, ValueModel};
use crate::graph::{
    event_loc_ok, find_name, find_name_upto, lemma_find_name_bound, loc_ok, lookup_model,
    process_model, push_model, resolve_model, step_apply, steps_apply, GraphModel,
};
use crate::node::{with_value, NId, NodeModel};
use crate::op::{lemma_rev_steps, rev_model, then_model, StepModel};
use crate::state::reset_node;

verus! {

/// A step that only declares or forgets a node.
pub open spec fn is_decl(s: StepModel) -> bool {
    s is NoOp || s is Define
}

proof fn lemma_steps_apply_prepend(g: GraphModel, a: StepModel, t: Seq<StepModel>)
    ensures
        steps_apply(g, seq![a] + t).0 == steps_apply(step_apply(g, a).0, t).0,
    decreases t.len(),
{
    let s = seq![a] + t;
    reveal_with_fuel(steps_apply, 2);
    if t.len() == 0 {
        assert(s.subrange(0, 0) =~= Seq::<StepModel>::empty());
        assert(s[0] == a);
    } else {
        let t1 = t.subrange(0, t.len() - 1);
        lemma_steps_apply_prepend(g, a, t1);
        assert(s.subrange(0, s.len() - 1) =~= seq![a] + t1);
        assert(s[s.len() - 1] == t[t.len() - 1]);
    }
}

/// Replaying a composition replays its parts in order.
pub proof fn lemma_then_apply(g: GraphModel, a: StepModel, b: StepModel)
    ensures
        step_apply(g, then_model(a, b)).0 == step_apply(step_apply(g, a).0, b).0,
{
    reveal_with_fuel(steps_apply, 3);
    reveal_with_fuel(step_apply, 3);
    if b is NoOp {
    } else {
        match a {
            StepModel::NoOp => {},
            StepModel::Atomic(s) => {
                let t = s.push(b);
                assert(t.subrange(0, t.len() - 1) =~= s);
                assert(t[t.len() - 1] == b);
            },
            _ => match b {
                StepModel::Atomic(u) => {
                    lemma_steps_apply_prepend(g, a, u);
                },
                _ => {
                    let t = seq![a, b];
                    assert(t.subrange(0, 1) =~= seq![a]);
                    assert(seq![a].subrange(0, 0) =~= Seq::<StepModel>::empty());
                },
            },
        }
    }
}

/// Declaring and forgetting nodes leaves the graph as it is, in either direction.
pub proof fn lemma_decl_inert(g: GraphModel, a: StepModel, b: StepModel)
    requires
        is_decl(a),
        is_decl(b),
    ensures
        step_apply(g, then_model(a, b)).0 == g,
        step_apply(g, rev_model(then_model(a, b))).0 == g,
{
    lemma_then_apply(g, a, b);
    reveal_with_fuel(steps_apply, 3);
    reveal_with_fuel(step_apply, 3);
    let p = then_model(a, b);
    if let StepModel::Atomic(s) = p {
        lemma_rev_steps(s);
        let r = crate::op::rev_steps(s);
        assert(r.len() == 2);
        assert(r.subrange(0, 1) =~= seq![r[0]]);
        assert(seq![r[0]].subrange(0, 0) =~= Seq::<StepModel>::empty());
    }
}

/// Facts that every compiled graph keeps: live counts fit; a node with
/// children, or holding an array, is complex; children come after their
/// container, are never variables, and each sits in one slot only.
pub open spec fn good(c: GraphModel) -> bool {
    &&& c.names.len() == c.nodes.len()
    &&& c.nodes.len() < usize::MAX
    &&& forall|i: int| #![trigger c.nodes[i]] 0 <= i < c.nodes.len() ==> {
        &&& c.nodes[i].live <= c.nodes[i].children.len()
        &&& c.nodes[i].children.len() <= c.nodes.len()
        &&& (c.nodes[i].children.len() > 0 ==> c.nodes[i].complex)
        &&& (!model_is_simple(c.nodes[i].value) ==> c.nodes[i].complex)
    }
    &&& forall|i: int, j: int| 0 <= i < c.nodes.len() && 0 <= j < c.nodes[i].children.len() ==> {
        &&& i < #[trigger] c.nodes[i].children[j]
        &&& c.nodes[i].children[j] < c.nodes.len()
        &&& c.names[c.nodes[i].children[j] as int] is None
    }
    &&& forall|i: int, j: int, k: int, l: int|
        0 <= i < c.nodes.len() && 0 <= j < c.nodes[i].children.len() && 0 <= k < c.nodes.len() && 0 <= l
            < c.nodes[k].children.len() && #[trigger] c.nodes[i].children[j] == #[trigger] c.nodes[k].children[l]
            ==> i == k && j == l
}

/// `d` grew from `c`: no node, name or allocated child went away, and no
/// node stopped being complex.
pub open spec fn grows(c: GraphModel, d: GraphModel) -> bool {
    &&& c.nodes.len() <= d.nodes.len()
    &&& forall|i: int| #![trigger d.nodes[i]] 0 <= i < c.nodes.len() ==> {
        &&& c.names[i] == d.names[i]
        &&& c.nodes[i].children.len() <= d.nodes[i].children.len()
        &&& (c.nodes[i].complex ==> d.nodes[i].complex)
    }
    &&& forall|i: int, j: int| 0 <= i < c.nodes.len() && 0 <= j < c.nodes[i].children.len()
        ==> #[trigger] d.nodes[i].children[j] == c.nodes[i].children[j]
}

pub proof fn lemma_grows_trans(a: GraphModel, b: GraphModel, c: GraphModel)
    requires
        grows(a, b),
        grows(b, c),
    ensures
        grows(a, c),
{
    assert forall|i: int, j: int| 0 <= i < a.nodes.len() && 0 <= j < a.nodes[i].children.len()
        implies #[trigger] c.nodes[i].children[j] == a.nodes[i].children[j] by {
        assert(b.nodes[i].children[j] == a.nodes[i].children[j]);
        assert(a.nodes[i].children.len() <= b.nodes[i].children.len());
    }
    assert forall|i: int| #![trigger c.nodes[i]] 0 <= i < a.nodes.len() implies {
        &&& a.names[i] == c.names[i]
        &&& a.nodes[i].children.len() <= c.nodes[i].children.len()
        &&& (a.nodes[i].complex ==> c.nodes[i].complex)
    } by {
        assert(b.nodes[i] == b.nodes[i]);
    }
}

/// The node a resolvable location denotes exists.
pub proof fn lemma_lookup_bound(c: GraphModel, loc: Location)
    requires
        good(c),
    ensures
        lookup_model(c, loc) is Some ==> lookup_model(c, loc)->0 < c.nodes.len(),
    decreases loc,
{
    match loc {
        Location::VariableLoc(name) => {
            lemma_find_name_bound(c.names, name@, c.names.len());
        },
        Location::IndexLoc(inner, i) => {
            lemma_lookup_bound(c, *inner);
            if let Some(n) = lookup_model(c, *inner) {
                if i < c.nodes[n as int].children.len() {
                    assert(c.nodes[n as int].children[i as int] < c.nodes.len());
                }
            }
        },
    }
}

pub proof fn lemma_resolve(c: GraphModel, loc: Location, v: ValueModel)
    requires
        good(c),
        loc_ok(c, loc),
        c.nodes.len() + 2 < usize::MAX,
        model_is_simple(v),
    ensures
        ({
            let (c1, n, pre) = resolve_model(c, loc, v);
            &&& good(c1)
            &&& grows(c, c1)
            &&& n < c1.nodes.len()
            &&& c1.nodes.len() + 1 < usize::MAX
            &&& is_decl(pre)
            &&& pre is NoOp ==> c1 == c
            &&& pre is Define ==> n == c.nodes.len() && pre == StepModel::Define(n)
                && c1.nodes.len() == c.nodes.len() + 1 && c1.names[n as int] is Some
        }),
{
    lemma_lookup_bound(c, loc);
    let (c1, n, pre) = resolve_model(c, loc, v);
    if pre is Define {
        assert forall|i: int| #![trigger c1.nodes[i]] 0 <= i < c1.nodes.len() implies {
            &&& c1.nodes[i].live <= c1.nodes[i].children.len()
            &&& c1.nodes[i].children.len() <= c1.nodes.len()
            &&& (c1.nodes[i].children.len() > 0 ==> c1.nodes[i].complex)
            &&& (!model_is_simple(c1.nodes[i].value) ==> c1.nodes[i].complex)
        } by {
            if i < c.nodes.len() {
                assert(c1.nodes[i] == c.nodes[i]);
            }
        }
        assert forall|i: int, j: int| 0 <= i < c1.nodes.len() && 0 <= j < c1.nodes[i].children.len() implies {
            &&& i < #[trigger] c1.nodes[i].children[j]
            &&& c1.nodes[i].children[j] < c1.nodes.len()
            &&& c1.names[c1.nodes[i].children[j] as int] is None
        } by {
            assert(i < c.nodes.len());
            assert(c1.nodes[i] == c.nodes[i]);
            assert(c.nodes[i].children[j] < c.nodes.len());
        }
        assert forall|i: int, j: int, k: int, l: int|
            0 <= i < c1.nodes.len() && 0 <= j < c1.nodes[i].children.len() && 0 <= k < c1.nodes.len() && 0 <= l
                < c1.nodes[k].children.len() && #[trigger] c1.nodes[i].children[j] == #[trigger] c1.nodes[k].children[l]
                implies i == k && j == l by {
            assert(c1.nodes[i] == c.nodes[i]);
            assert(c1.nodes[k] == c.nodes[k]);
        }
        assert forall|i: int| #![trigger c1.nodes[i]] 0 <= i < c.nodes.len() implies {
            &&& c.names[i] == c1.names[i]
            &&& c.nodes[i].children.len() <= c1.nodes[i].children.len()
            &&& (c.nodes[i].complex ==> c1.nodes[i].complex)
        } by {
            assert(c1.nodes[i] == c.nodes[i]);
        }
        assert forall|i: int, j: int| 0 <= i < c.nodes.len() && 0 <= j < c.nodes[i].children.len()
            implies #[trigger] c1.nodes[i].children[j] == c.nodes[i].children[j] by {
            assert(c1.nodes[i] == c.nodes[i]);
        }
    }
}

/// Replacing a node by one that keeps its children and live count and is at
/// least as complex (and complex when it holds an array) keeps the history facts.
pub proof fn lemma_update_good(c: GraphModel, n: int, node: NodeModel)
    requires
        good(c),
        0 <= n < c.nodes.len(),
        node.children == c.nodes[n].children,
        node.live <= node.children.len(),
        c.nodes[n].complex ==> node.complex,
        !model_is_simple(node.value) ==> node.complex,
    ensures
        good(GraphModel { nodes: c.nodes.update(n, node), names: c.names }),
        grows(c, GraphModel { nodes: c.nodes.update(n, node), names: c.names }),
{
    let d = GraphModel { nodes: c.nodes.update(n, node), names: c.names };
    assert forall|i: int| #![trigger d.nodes[i]] 0 <= i < d.nodes.len() implies {
        &&& d.nodes[i].live <= d.nodes[i].children.len()
        &&& d.nodes[i].children.len() <= d.nodes.len()
        &&& (d.nodes[i].children.len() > 0 ==> d.nodes[i].complex)
        &&& (!model_is_simple(d.nodes[i].value) ==> d.nodes[i].complex)
    } by {
        assert(c.nodes[i] == c.nodes[i]);
    }
    assert forall|i: int, j: int| 0 <= i < d.nodes.len() && 0 <= j < d.nodes[i].children.len() implies {
        &&& i < #[trigger] d.nodes[i].children[j]
        &&& d.nodes[i].children[j] < d.nodes.len()
        &&& d.names[d.nodes[i].children[j] as int] is None
    } by {
        assert(d.nodes[i].children[j] == c.nodes[i].children[j]);
    }
    assert forall|i: int, j: int, k: int, l: int|
        0 <= i < d.nodes.len() && 0 <= j < d.nodes[i].children.len() && 0 <= k < d.nodes.len() && 0 <= l
            < d.nodes[k].children.len() && #[trigger] d.nodes[i].children[j] == #[trigger] d.nodes[k].children[l]
            implies i == k && j == l by {
        assert(d.nodes[i].children[j] == c.nodes[i].children[j]);
        assert(d.nodes[k].children[l] == c.nodes[k].children[l]);
    }
    assert forall|i: int| #![trigger d.nodes[i]] 0 <= i < c.nodes.len() implies {
        &&& c.names[i] == d.names[i]
        &&& c.nodes[i].children.len() <= d.nodes[i].children.len()
        &&& (c.nodes[i].complex ==> d.nodes[i].complex)
    } by {}
    assert forall|i: int, j: int| 0 <= i < c.nodes.len() && 0 <= j < c.nodes[i].children.len()
        implies #[trigger] d.nodes[i].children[j] == c.nodes[i].children[j] by {
        assert(d.nodes[i].children == c.nodes[i].children);
    }
}

/// Pushing onto an array node keeps the history facts.
pub proof fn lemma_push_good(c: GraphModel, n: NId, v: ValueModel)
    requires
        good(c),
        n < c.nodes.len(),
        c.nodes.len() + 1 < usize::MAX,
    ensures
        good(push_model(c, n, v).0),
        grows(c, push_model(c, n, v).0),
        push_model(c, n, v).2 is NoOp ==> push_model(c, n, v).1 < c.nodes.len(),
        push_model(c, n, v).2 is Define ==> push_model(c, n, v).1 == c.nodes.len()
            && push_model(c, n, v).2 == StepModel::Define(push_model(c, n, v).1),
        is_decl(push_model(c, n, v).2),
{
    let cn = c.nodes[n as int];
    let (d, ch, pre) = push_model(c, n, v);
    if cn.live < cn.children.len() {
        let nodes1 = c.nodes.update(n as int, NodeModel { live: (cn.live + 1) as usize, ..cn });
        let c1 = GraphModel { nodes: nodes1, names: c.names };
        lemma_update_good(c, n as int, NodeModel { live: (cn.live + 1) as usize, ..cn });
        assert(ch < c.nodes.len());
        lemma_update_good(c1, ch as int, with_value(nodes1[ch as int], v));
        lemma_grows_trans(c, c1, d);
    } else {
        let ch = c.nodes.len() as NId;
        assert forall|i: int| #![trigger d.nodes[i]] 0 <= i < d.nodes.len() implies {
            &&& d.nodes[i].live <= d.nodes[i].children.len()
            &&& d.nodes[i].children.len() <= d.nodes.len()
            &&& (d.nodes[i].children.len() > 0 ==> d.nodes[i].complex)
            &&& (!model_is_simple(d.nodes[i].value) ==> d.nodes[i].complex)
        } by {
            if i < c.nodes.len() && i != n {
                assert(d.nodes[i] == c.nodes[i]);
            }
        }
        assert forall|i: int, j: int| 0 <= i < d.nodes.len() && 0 <= j < d.nodes[i].children.len() implies {
            &&& i < #[trigger] d.nodes[i].children[j]
            &&& d.nodes[i].children[j] < d.nodes.len()
            &&& d.names[d.nodes[i].children[j] as int] is None
        } by {
            if i != n {
                assert(d.nodes[i] == c.nodes[i]);
                assert(c.nodes[i].children[j] < c.nodes.len());
            } else if j < cn.children.len() {
                assert(d.nodes[i].children[j] == cn.children[j]);
                assert(c.nodes[i].children[j] < c.nodes.len());
            }
        }
        assert forall|i: int, j: int, k: int, l: int|
            0 <= i < d.nodes.len() && 0 <= j < d.nodes[i].children.len() && 0 <= k < d.nodes.len() && 0 <= l
                < d.nodes[k].children.len() && #[trigger] d.nodes[i].children[j] == #[trigger] d.nodes[k].children[l]
                implies i == k && j == l by {
            if i != n {
                assert(d.nodes[i] == c.nodes[i]);
                assert(c.nodes[i].children[j] < c.nodes.len());
            } else if j < cn.children.len() {
                assert(c.nodes[i].children[j] < c.nodes.len());
            }
            if k != n {
                assert(d.nodes[k] == c.nodes[k]);
                assert(c.nodes[k].children[l] < c.nodes.len());
            } else if l < cn.children.len() {
                assert(c.nodes[k].children[l] < c.nodes.len());
            }
            if i != n || j < cn.children.len() {
                assert(d.nodes[i].children[j] == c.nodes[i].children[j]);
            }
            if k != n || l < cn.children.len() {
                assert(d.nodes[k].children[l] == c.nodes[k].children[l]);
            }
        }
        assert forall|i: int| #![trigger d.nodes[i]] 0 <= i < c.nodes.len() implies {
            &&& c.names[i] == d.names[i]
            &&& c.nodes[i].children.len() <= d.nodes[i].children.len()
            &&& (c.nodes[i].complex ==> d.nodes[i].complex)
        } by {
            if i != n {
                assert(d.nodes[i] == c.nodes[i]);
            }
        }
        assert forall|i: int, j: int| 0 <= i < c.nodes.len() && 0 <= j < c.nodes[i].children.len()
            implies #[trigger] d.nodes[i].children[j] == c.nodes[i].children[j] by {
            if i != n {
                assert(d.nodes[i] == c.nodes[i]);
            }
        }
    }
}

/// Compiling an event keeps the history facts, and the graph only grows.
pub proof fn lemma_process_good(c: GraphModel, e: Event)
    requires
        good(c),
        event_loc_ok(c, e),
        c.nodes.len() + 2 < usize::MAX,
    ensures
        good(process_model(c, e).0),
        grows(c, process_model(c, e).0),
        process_model(c, e).0.nodes.len() <= c.nodes.len() + 2,
{
    let u = ValueModel::Undefined;
    match e {
        Event::NoOp => {
            assert(grows(c, c));
        },
        Event::Display(loc, mode) => {
            lemma_resolve(c, loc, u);
            let (c1, n, pre) = resolve_model(c, loc, u);
            lemma_update_good(c1, n as int, NodeModel { display_type: mode, ..c1.nodes[n as int] });
            lemma_grows_trans(c, c1, process_model(c, e).0);
        },
        Event::SetValue(loc, v) => {
            lemma_resolve(c, loc, u);
            let (c1, n, pre) = resolve_model(c, loc, u);
            lemma_update_good(c1, n as int, with_value(c1.nodes[n as int], v@));
            lemma_grows_trans(c, c1, process_model(c, e).0);
        },
        Event::Push(loc, v) => {
            lemma_resolve(c, loc, u);
            let (c1, n, pre) = resolve_model(c, loc, u);
            lemma_push_good(c1, n, v@);
            lemma_grows_trans(c, c1, process_model(c, e).0);
        },
        Event::Pop(loc) => {
            lemma_resolve(c, loc, u);
            let (c1, n, pre) = resolve_model(c, loc, u);
            let cn = c1.nodes[n as int];
            if cn.live > 0 {
                lemma_update_good(c1, n as int, NodeModel { live: (cn.live - 1) as usize, ..cn });
                lemma_grows_trans(c, c1, process_model(c, e).0);
            } else {
                assert(process_model(c, e).0 == c1);
            }
        },
    }
}

/// How many live children node `i` has in `c`; none before it exists.
pub open spec fn live_at(c: GraphModel, i: int) -> usize {
    if 0 <= i < c.nodes.len() {
        c.nodes[i].live
    } else {
        0
    }
}

/// The value of node `i` in `c`; undefined before it exists.
pub open spec fn value_at(c: GraphModel, i: int) -> ValueModel {
    if 0 <= i < c.nodes.len() {
        c.nodes[i].value
    } else {
        ValueModel::Undefined
    }
}

/// `r`, a replay of the history that compiled to `f`, stands where the
/// compiler stood at `c`: the same allocated children and complexity flags
/// as `f`, and the live counts, variable values and live slot values of `c`.
pub open spec fn replays(c: GraphModel, f: GraphModel, r: GraphModel) -> bool {
    &&& r.nodes.len() == f.nodes.len()
    &&& forall|i: int| #![trigger r.nodes[i]] 0 <= i < f.nodes.len() ==> {
        &&& r.nodes[i].children == f.nodes[i].children
        &&& r.nodes[i].complex == f.nodes[i].complex
        &&& r.nodes[i].live == live_at(c, i)
        &&& (f.names[i] is Some ==> r.nodes[i].value == value_at(c, i))
    }
    &&& forall|i: int, j: int| 0 <= i < c.nodes.len() && 0 <= j < c.nodes[i].live
        ==> r.nodes[#[trigger] c.nodes[i].children[j] as int].value == c.nodes[c.nodes[i].children[j] as int].value
}

/// The forward step compiled for an event (a no-op for the no-op event).
pub open spec fn forward_of(c: GraphModel, e: Event) -> StepModel {
    match process_model(c, e).1 {
        Some((fw, _)) => fw,
        None => StepModel::NoOp,
    }
}

/// The reverse step compiled for an event (a no-op for the no-op event).
pub open spec fn reverse_of(c: GraphModel, e: Event) -> StepModel {
    match process_model(c, e).1 {
        Some((_, bw)) => bw,
        None => StepModel::NoOp,
    }
}

/// What each event's lemmas assume: the compiler may take it from `c`, and
/// the history it belongs to compiled to `f`.
pub open spec fn event_step_ok(c: GraphModel, f: GraphModel, e: Event) -> bool {
    &&& good(c)
    &&& event_loc_ok(c, e)
    &&& c.nodes.len() + 2 < usize::MAX
    &&& grows(process_model(c, e).0, f)
    &&& f.names.len() == f.nodes.len()
}

pub proof fn lemma_set_forward(c: GraphModel, f: GraphModel, r: GraphModel, e: Event)
    requires
        event_step_ok(c, f, e),
        e is SetValue,
        replays(c, f, r),
    ensures
        replays(process_model(c, e).0, f, step_apply(r, forward_of(c, e)).0),
{
    let (loc, val) = (e->SetValue_0, e->SetValue_1);
    let v = val@;
    lemma_resolve(c, loc, ValueModel::Undefined);
    let (c1, n, pre) = resolve_model(c, loc, ValueModel::Undefined);
    let d = process_model(c, e).0;
    lemma_process_good(c, e);
    lemma_decl_inert(r, pre, StepModel::NoOp);
    lemma_then_apply(r, pre, StepModel::SetValue(n, v));
    let r2 = step_apply(r, StepModel::SetValue(n, v)).0;
    assert(step_apply(r, forward_of(c, e)).0 == r2);
    assert forall|i: int| #![trigger r2.nodes[i]] 0 <= i < f.nodes.len() implies {
        &&& r2.nodes[i].children == f.nodes[i].children
        &&& r2.nodes[i].complex == f.nodes[i].complex
        &&& r2.nodes[i].live == live_at(d, i)
        &&& (f.names[i] is Some ==> r2.nodes[i].value == value_at(d, i))
    } by {
        assert(r.nodes[i] == r.nodes[i]);
        if i == n {
            assert(d.nodes[i] == d.nodes[i]);
        }
    }
    assert forall|i: int, j: int| 0 <= i < d.nodes.len() && 0 <= j < d.nodes[i].live
        implies r2.nodes[#[trigger] d.nodes[i].children[j] as int].value == d.nodes[d.nodes[i].children[j] as int].value by {
        assert(i < c.nodes.len());
        assert(d.nodes[i].children == c.nodes[i].children);
        assert(c.nodes[i].children[j] == d.nodes[i].children[j]);
        assert(c.nodes[i].children[j] < c.nodes.len());
    }
}

pub proof fn lemma_set_back(c: GraphModel, f: GraphModel, r: GraphModel, e: Event)
    requires
        event_step_ok(c, f, e),
        e is SetValue,
        replays(process_model(c, e).0, f, r),
    ensures
        replays(c, f, step_apply(r, reverse_of(c, e)).0),
{
    let (loc, val) = (e->SetValue_0, e->SetValue_1);
    let v = val@;
    lemma_resolve(c, loc, ValueModel::Undefined);
    let (c1, n, pre) = resolve_model(c, loc, ValueModel::Undefined);
    let d = process_model(c, e).0;
    let old_v = c1.nodes[n as int].value;
    lemma_process_good(c, e);
    let r2 = step_apply(r, StepModel::SetValue(n, old_v)).0;
    lemma_decl_inert(r2, pre, StepModel::NoOp);
    lemma_then_apply(r, StepModel::SetValue(n, old_v), rev_model(pre));
    assert(step_apply(r, reverse_of(c, e)).0 == r2);
    assert(c1.nodes[n as int] == c1.nodes[n as int]);
    assert forall|i: int| #![trigger r2.nodes[i]] 0 <= i < f.nodes.len() implies {
        &&& r2.nodes[i].children == f.nodes[i].children
        &&& r2.nodes[i].complex == f.nodes[i].complex
        &&& r2.nodes[i].live == live_at(c, i)
        &&& (f.names[i] is Some ==> r2.nodes[i].value == value_at(c, i))
    } by {
        assert(r.nodes[i] == r.nodes[i]);
        if i == n {
            assert(d.nodes[i] == d.nodes[i]);
        }
        if i < c1.nodes.len() {
            assert(c1.nodes[i] == c1.nodes[i]);
        }
    }
    assert forall|i: int, j: int| 0 <= i < c.nodes.len() && 0 <= j < c.nodes[i].live
        implies r2.nodes[#[trigger] c.nodes[i].children[j] as int].value == c.nodes[c.nodes[i].children[j] as int].value by {
        assert(d.nodes[i].children == c.nodes[i].children);
        assert(c.nodes[i].children[j] == d.nodes[i].children[j]);
        assert(c.nodes[i].children[j] < c.nodes.len());
    }
}

pub proof fn lemma_display_steps(c: GraphModel, f: GraphModel, r: GraphModel, e: Event)
    requires
        event_step_ok(c, f, e),
        e is Display,
    ensures
        replays(c, f, r) ==> replays(process_model(c, e).0, f, step_apply(r, forward_of(c, e)).0),
        replays(process_model(c, e).0, f, r) ==> replays(c, f, step_apply(r, reverse_of(c, e)).0),
{
    let loc = e->Display_0;
    lemma_resolve(c, loc, ValueModel::Undefined);
    let (c1, n, pre) = resolve_model(c, loc, ValueModel::Undefined);
    let d = process_model(c, e).0;
    lemma_decl_inert(r, pre, StepModel::NoOp);
    assert forall|i: int| 0 <= i < f.nodes.len() implies live_at(c, i) == live_at(d, i) && value_at(c, i) == value_at(d, i) by {
        if i < d.nodes.len() {
            assert(d.nodes[i] == d.nodes[i]);
            assert(c1.nodes[i] == c1.nodes[i]);
        }
    }
    if replays(c, f, r) {
        assert forall|i: int, j: int| 0 <= i < d.nodes.len() && 0 <= j < d.nodes[i].live
            implies r.nodes[#[trigger] d.nodes[i].children[j] as int].value == d.nodes[d.nodes[i].children[j] as int].value by {
            assert(i < c.nodes.len());
            assert(d.nodes[i].children == c.nodes[i].children);
            assert(c.nodes[i].children[j] == d.nodes[i].children[j]);
            assert(c.nodes[i].children[j] < c.nodes.len());
        }
    }
    if replays(d, f, r) {
        assert forall|i: int, j: int| 0 <= i < c.nodes.len() && 0 <= j < c.nodes[i].live
            implies r.nodes[#[trigger] c.nodes[i].children[j] as int].value == c.nodes[c.nodes[i].children[j] as int].value by {
            assert(d.nodes[i].children == c.nodes[i].children);
            assert(c.nodes[i].children[j] == d.nodes[i].children[j]);
            assert(c.nodes[i].children[j] < c.nodes.len());
        }
    }
}

pub proof fn lemma_pop_forward(c: GraphModel, f: GraphModel, r: GraphModel, e: Event)
    requires
        event_step_ok(c, f, e),
        e is Pop,
        replays(c, f, r),
    ensures
        replays(process_model(c, e).0, f, step_apply(r, forward_of(c, e)).0),
{
    let loc = e->Pop_0;
    lemma_resolve(c, loc, ValueModel::Undefined);
    let (c1, n, pre) = resolve_model(c, loc, ValueModel::Undefined);
    let d = process_model(c, e).0;
    lemma_process_good(c, e);
    lemma_decl_inert(r, pre, StepModel::NoOp);
    lemma_then_apply(r, pre, StepModel::Pop(n));
    let r2 = step_apply(r, StepModel::Pop(n)).0;
    assert(r.nodes[n as int] == r.nodes[n as int]);
    assert(c1.nodes[n as int] == c1.nodes[n as int]);
    assert forall|i: int| #![trigger r2.nodes[i]] 0 <= i < f.nodes.len() implies {
        &&& r2.nodes[i].children == f.nodes[i].children
        &&& r2.nodes[i].complex == f.nodes[i].complex
        &&& r2.nodes[i].live == live_at(d, i)
        &&& (f.names[i] is Some ==> r2.nodes[i].value == value_at(d, i))
    } by {
        assert(r.nodes[i] == r.nodes[i]);
        if i < c1.nodes.len() {
            assert(c1.nodes[i] == c1.nodes[i]);
            assert(d.nodes[i] == d.nodes[i]);
        }
    }
    assert forall|i: int, j: int| 0 <= i < d.nodes.len() && 0 <= j < d.nodes[i].live
        implies r2.nodes[#[trigger] d.nodes[i].children[j] as int].value == d.nodes[d.nodes[i].children[j] as int].value by {
        assert(i < c.nodes.len());
        assert(d.nodes[i].children == c.nodes[i].children);
        assert(c.nodes[i].children[j] == d.nodes[i].children[j]);
        assert(c.nodes[i].children[j] < c.nodes.len());
    }
}

pub proof fn lemma_pop_back(c: GraphModel, f: GraphModel, r: GraphModel, e: Event)
    requires
        event_step_ok(c, f, e),
        e is Pop,
        replays(process_model(c, e).0, f, r),
    ensures
        replays(c, f, step_apply(r, reverse_of(c, e)).0),
{
    let loc = e->Pop_0;
    lemma_resolve(c, loc, ValueModel::Undefined);
    let (c1, n, pre) = resolve_model(c, loc, ValueModel::Undefined);
    let d = process_model(c, e).0;
    lemma_process_good(c, e);
    let cn = c1.nodes[n as int];
    assert(r.nodes[n as int] == r.nodes[n as int]);
    assert(d.nodes[n as int] == d.nodes[n as int]);
    if cn.live == 0 {
        lemma_decl_inert(r, pre, StepModel::NoOp);
        lemma_then_apply(r, StepModel::NoOp, rev_model(pre));
        assert(step_apply(r, reverse_of(c, e)).0 == r);
        assert forall|i: int| #![trigger r.nodes[i]] 0 <= i < f.nodes.len() implies {
            &&& r.nodes[i].children == f.nodes[i].children
            &&& r.nodes[i].complex == f.nodes[i].complex
            &&& r.nodes[i].live == live_at(c, i)
            &&& (f.names[i] is Some ==> r.nodes[i].value == value_at(c, i))
        } by {
            if i < c1.nodes.len() {
                assert(c1.nodes[i] == c1.nodes[i]);
            }
        }
        assert forall|i: int, j: int| 0 <= i < c.nodes.len() && 0 <= j < c.nodes[i].live
            implies r.nodes[#[trigger] c.nodes[i].children[j] as int].value == c.nodes[c.nodes[i].children[j] as int].value by {
            assert(d.nodes[i].children == c.nodes[i].children);
            assert(c.nodes[i].children[j] == d.nodes[i].children[j]);
            assert(c.nodes[i].children[j] < c.nodes.len());
        }
    } else {
        let l = (cn.live - 1) as int;
        let ch = cn.children[l];
        let w = c1.nodes[ch as int].value;
        let step = StepModel::Push(n, ch, w);
        let r2 = step_apply(r, step).0;
        lemma_decl_inert(r2, pre, StepModel::NoOp);
        lemma_then_apply(r, step, rev_model(pre));
        assert(step_apply(r, reverse_of(c, e)).0 == r2);
        // The popped child sits after its container and is no variable.
        assert(n < ch && ch < c1.nodes.len());
        assert(n < c.nodes.len());
        assert(c1 == c);
        assert(f.nodes[n as int].children[l] == ch);
        assert(c.names[ch as int] is None);
        assert(c.nodes[ch as int] == c.nodes[ch as int]);
        assert(f.nodes[ch as int] == f.nodes[ch as int]);
        let r1 = GraphModel { nodes: r.nodes.update(ch as int, with_value(r.nodes[ch as int], w)), names: r.names };
        assert(r1.nodes[n as int] == r.nodes[n as int]);
        assert(r.nodes[n as int].children.update(l, ch) =~= r.nodes[n as int].children);
        assert forall|i: int| #![trigger r2.nodes[i]] 0 <= i < f.nodes.len() implies {
            &&& r2.nodes[i].children == f.nodes[i].children
            &&& r2.nodes[i].complex == f.nodes[i].complex
            &&& r2.nodes[i].live == live_at(c, i)
            &&& (f.names[i] is Some ==> r2.nodes[i].value == value_at(c, i))
        } by {
            assert(r.nodes[i] == r.nodes[i]);
            if i < c.nodes.len() {
                assert(c.nodes[i] == c.nodes[i]);
                assert(d.nodes[i] == d.nodes[i]);
            }
        }
        assert forall|i: int, j: int| 0 <= i < c.nodes.len() && 0 <= j < c.nodes[i].live
            implies r2.nodes[#[trigger] c.nodes[i].children[j] as int].value == c.nodes[c.nodes[i].children[j] as int].value by {
            assert(d.nodes[i].children == c.nodes[i].children);
            assert(c.nodes[i].children[j] == d.nodes[i].children[j]);
            assert(c.nodes[i].children[j] < c.nodes.len());
            if c.nodes[i].children[j] != ch {
                if i == n {
                    assert(j != l);
                }
            } else {
                assert(i == n && j == l);
            }
        }
    }
}

/// Where a push changes the graph: the container's live count and the child.
pub proof fn lemma_push_frame(c: GraphModel, n: NId, v: ValueModel)
    requires
        good(c),
        n < c.nodes.len(),
        c.nodes.len() + 1 < usize::MAX,
    ensures
        ({
            let (d, ch, pre) = push_model(c, n, v);
            let l = c.nodes[n as int].live as int;
            &&& n < ch < d.nodes.len()
            &&& d.nodes[n as int].live == l + 1
            &&& d.nodes[n as int].value == c.nodes[n as int].value
            &&& d.nodes[n as int].children[l] == ch
            &&& d.nodes[ch as int].value == v
            &&& d.nodes[ch as int].live == live_at(c, ch as int)
            &&& forall|i: int| 0 <= i < c.nodes.len() && i != n && i != ch ==> #[trigger] d.nodes[i] == c.nodes[i]
        }),
{
    let cn = c.nodes[n as int];
    let (d, ch, pre) = push_model(c, n, v);
    if cn.live < cn.children.len() {
        assert(n < cn.children[cn.live as int]);
        assert(ch < c.nodes.len());
        assert(c.nodes[ch as int] == c.nodes[ch as int]);
        assert(d.nodes[n as int].children == cn.children);
    } else {
        assert(cn.live <= cn.children.len());
        assert(cn.live == cn.children.len());
        assert(d.nodes[n as int].children == cn.children.push(ch));
        assert(d.nodes[ch as int].live == 0);
    }
}

pub proof fn lemma_push_forward(c: GraphModel, f: GraphModel, r: GraphModel, e: Event)
    requires
        event_step_ok(c, f, e),
        e is Push,
        replays(c, f, r),
    ensures
        replays(process_model(c, e).0, f, step_apply(r, forward_of(c, e)).0),
{
    let (loc, val) = (e->Push_0, e->Push_1);
    let v = val@;
    lemma_resolve(c, loc, ValueModel::Undefined);
    let (c1, n, pre_a) = resolve_model(c, loc, ValueModel::Undefined);
    lemma_push_good(c1, n, v);
    let (d, ch, pre_b) = push_model(c1, n, v);
    assert(d == process_model(c, e).0);
    let pre = then_model(pre_a, pre_b);
    lemma_decl_inert(r, pre_a, pre_b);
    lemma_then_apply(r, pre, StepModel::Push(n, ch, v));
    let r2 = step_apply(r, StepModel::Push(n, ch, v)).0;
    assert(step_apply(r, forward_of(c, e)).0 == r2);
    let cn = c1.nodes[n as int];
    let l = cn.live as int;
    assert(d.nodes[n as int] == d.nodes[n as int]);
    assert(d.nodes[n as int].children[l] == ch);
    assert(n < ch);
    assert(d.names[ch as int] is None);
    assert(f.nodes[n as int].children[l] == ch);
    assert(f.names[ch as int] is None);
    assert(r.nodes[n as int] == r.nodes[n as int]);
    assert(r.nodes[n as int].live == l) by {
        if n < c.nodes.len() {
            assert(c.nodes[n as int] == c1.nodes[n as int]);
        }
    }
    assert(r.nodes[n as int].children.update(l, ch) =~= r.nodes[n as int].children);
    assert(d.nodes[ch as int] == d.nodes[ch as int]);
    assert(f.nodes[ch as int] == f.nodes[ch as int]);
    assert(r.nodes[ch as int] == r.nodes[ch as int]);
    assert(r.nodes[ch as int].live == d.nodes[ch as int].live) by {
        if ch < c.nodes.len() {
            assert(c.nodes[ch as int] == c1.nodes[ch as int]);
        }
    }
    assert forall|i: int| #![trigger r2.nodes[i]] 0 <= i < f.nodes.len() implies {
        &&& r2.nodes[i].children == f.nodes[i].children
        &&& r2.nodes[i].complex == f.nodes[i].complex
        &&& r2.nodes[i].live == live_at(d, i)
        &&& (f.names[i] is Some ==> r2.nodes[i].value == value_at(d, i))
    } by {
        assert(r.nodes[i] == r.nodes[i]);
        if i < d.nodes.len() {
            assert(d.nodes[i] == d.nodes[i]);
        }
        if i < c1.nodes.len() {
            assert(c1.nodes[i] == c1.nodes[i]);
        }
    }
    assert forall|i: int, j: int| 0 <= i < d.nodes.len() && 0 <= j < d.nodes[i].live
        implies r2.nodes[#[trigger] d.nodes[i].children[j] as int].value == d.nodes[d.nodes[i].children[j] as int].value by {
        let x = d.nodes[i].children[j];
        assert(x < d.nodes.len());
        if x != ch {
            assert(i != n || j != l);
            assert(i < c1.nodes.len());
            assert(c1.nodes[i] == c1.nodes[i]);
            assert(j < c1.nodes[i].live);
            assert(c1.nodes[i].children[j] == x);
            assert(i < c.nodes.len());
            assert(c.nodes[i] == c1.nodes[i]);
            assert(x < c.nodes.len());
            assert(c1.nodes[x as int] == c.nodes[x as int]);
        }
    }
}

pub proof fn lemma_push_back(c: GraphModel, f: GraphModel, r: GraphModel, e: Event)
    requires
        event_step_ok(c, f, e),
        e is Push,
        replays(process_model(c, e).0, f, r),
    ensures
        replays(c, f, step_apply(r, reverse_of(c, e)).0),
{
    let (loc, val) = (e->Push_0, e->Push_1);
    let v = val@;
    lemma_resolve(c, loc, ValueModel::Undefined);
    let (c1, n, pre_a) = resolve_model(c, loc, ValueModel::Undefined);
    lemma_push_good(c1, n, v);
    let (d, ch, pre_b) = push_model(c1, n, v);
    assert(d == process_model(c, e).0);
    let pre = then_model(pre_a, pre_b);
    let r2 = step_apply(r, StepModel::Pop(n)).0;
    lemma_decl_inert(r2, pre_a, pre_b);
    lemma_then_apply(r, StepModel::Pop(n), rev_model(pre));
    assert(step_apply(r, reverse_of(c, e)).0 == r2);
    lemma_push_frame(c1, n, v);
    let cn = c1.nodes[n as int];
    let l = cn.live as int;
    assert(d.nodes[n as int] == d.nodes[n as int]);
    assert(d.nodes[n as int].children[l] == ch);
    assert(n < ch);
    assert(d.names[ch as int] is None);
    assert(f.names[ch as int] is None);
    assert(r.nodes[n as int] == r.nodes[n as int]);
    assert(d.nodes[ch as int] == d.nodes[ch as int]);
    assert(live_at(c, ch as int) == live_at(d, ch as int)) by {
        if ch < c.nodes.len() {
            assert(c.nodes[ch as int] == c1.nodes[ch as int]);
        }
    }
    assert(live_at(c, n as int) == l) by {
        if n < c.nodes.len() {
            assert(c.nodes[n as int] == c1.nodes[n as int]);
        }
    }
    assert forall|i: int| #![trigger r2.nodes[i]] 0 <= i < f.nodes.len() implies {
        &&& r2.nodes[i].children == f.nodes[i].children
        &&& r2.nodes[i].complex == f.nodes[i].complex
        &&& r2.nodes[i].live == live_at(c, i)
        &&& (f.names[i] is Some ==> r2.nodes[i].value == value_at(c, i))
    } by {
        assert(r.nodes[i] == r.nodes[i]);
        if i < d.nodes.len() {
            assert(d.nodes[i] == d.nodes[i]);
        }
        if i < c1.nodes.len() {
            assert(c1.nodes[i] == c1.nodes[i]);
        }
    }
    assert forall|i: int, j: int| 0 <= i < c.nodes.len() && 0 <= j < c.nodes[i].live
        implies r2.nodes[#[trigger] c.nodes[i].children[j] as int].value == c.nodes[c.nodes[i].children[j] as int].value by {
        let x = c.nodes[i].children[j];
        assert(c.nodes[i] == c1.nodes[i]);
        assert(d.nodes[i] == d.nodes[i]);
        assert(d.nodes[i].children[j] == x);
        assert(j < d.nodes[i].live);
        assert(x < c.nodes.len());
        if x == ch {
            assert(i == n && j == l);
        }
        assert(c1.nodes[x as int] == c.nodes[x as int]);
    }
}

pub proof fn lemma_event_forward(c: GraphModel, f: GraphModel, r: GraphModel, e: Event)
    requires
        event_step_ok(c, f, e),
        replays(c, f, r),
    ensures
        replays(process_model(c, e).0, f, step_apply(r, forward_of(c, e)).0),
{
    match e {
        Event::NoOp => {},
        Event::Display(..) => lemma_display_steps(c, f, r, e),
        Event::SetValue(..) => lemma_set_forward(c, f, r, e),
        Event::Push(..) => lemma_push_forward(c, f, r, e),
        Event::Pop(..) => lemma_pop_forward(c, f, r, e),
    }
}

pub proof fn lemma_event_back(c: GraphModel, f: GraphModel, r: GraphModel, e: Event)
    requires
        event_step_ok(c, f, e),
        replays(process_model(c, e).0, f, r),
    ensures
        replays(c, f, step_apply(r, reverse_of(c, e)).0),
{
    match e {
        Event::NoOp => {},
        Event::Display(..) => lemma_display_steps(c, f, r, e),
        Event::SetValue(..) => lemma_set_back(c, f, r, e),
        Event::Push(..) => lemma_push_back(c, f, r, e),
        Event::Pop(..) => lemma_pop_back(c, f, r, e),
    }
}

/// Compiling `events` in order from `g`: the graph before and after each
/// operation, and the event that each operation was compiled from. The
/// no-op event compiles to no operation.
pub open spec fn compile(g: GraphModel, events: Seq<Event>) -> (Seq<GraphModel>, Seq<Event>)
    decreases events.len(),
{
    if events.len() == 0 {
        (seq![g], Seq::empty())
    } else {
        let (states, evs) = compile(g, events.subrange(0, events.len() - 1));
        let e = events[events.len() - 1];
        let (g2, o) = process_model(states.last(), e);
        match o {
            Some(_) => (states.push(g2), evs.push(e)),
            None => (states, evs),
        }
    }
}

/// Every event can be compiled where it stands: its location resolves, and
/// ids remain for the nodes it may make.
pub open spec fn valid_history(g: GraphModel, events: Seq<Event>) -> bool
    decreases events.len(),
{
    if events.len() == 0 {
        true
    } else {
        let prefix = events.subrange(0, events.len() - 1);
        let last = compile(g, prefix).0.last();
        &&& valid_history(g, prefix)
        &&& event_loc_ok(last, events[events.len() - 1])
        &&& last.nodes.len() + 2 < usize::MAX
    }
}

/// What compiling a valid history gives: each operation's event could be
/// compiled from the graph before it and gave the graph after it, and the
/// final graph grew from every earlier one.
pub proof fn lemma_compile(g: GraphModel, events: Seq<Event>)
    requires
        good(g),
        valid_history(g, events),
    ensures
        ({
            let (states, evs) = compile(g, events);
            &&& states.len() == evs.len() + 1
            &&& states[0] == g
            &&& good(states.last())
            &&& forall|k: int| 0 <= k < evs.len() ==> {
                &&& good(#[trigger] states[k])
                &&& event_loc_ok(states[k], evs[k])
                &&& states[k].nodes.len() + 2 < usize::MAX
                &&& process_model(states[k], evs[k]).1 is Some
                &&& process_model(states[k], evs[k]).0 == states[k + 1]
            }
            &&& forall|k: int| 0 <= k < states.len() ==> grows(#[trigger] states[k], states.last())
        }),
    decreases events.len(),
{
    if events.len() > 0 {
        let prefix = events.subrange(0, events.len() - 1);
        lemma_compile(g, prefix);
        let (states, evs) = compile(g, prefix);
        let e = events[events.len() - 1];
        let last = states.last();
        lemma_process_good(last, e);
        let (g2, o) = process_model(last, e);
        if o is Some {
            let s2 = states.push(g2);
            assert(s2.last() == g2);
            assert forall|k: int| 0 <= k < s2.len() implies grows(#[trigger] s2[k], s2.last()) by {
                if k < states.len() {
                    assert(s2[k] == states[k]);
                    assert(grows(states[k], last));
                    lemma_grows_trans(states[k], last, g2);
                } else {
                    assert(grows(g2, g2));
                }
            }
            assert forall|k: int| 0 <= k < evs.len() + 1 implies {
                &&& good(#[trigger] s2[k])
                &&& event_loc_ok(s2[k], evs.push(e)[k])
                &&& s2[k].nodes.len() + 2 < usize::MAX
                &&& process_model(s2[k], evs.push(e)[k]).1 is Some
                &&& process_model(s2[k], evs.push(e)[k]).0 == s2[k + 1]
            } by {
                if k < evs.len() {
                    assert(s2[k] == states[k]);
                    assert(s2[k + 1] == states[k + 1]);
                    assert(evs.push(e)[k] == evs[k]);
                }
            }
        }
    }
}

/// Replaying `n` operations forward from position `k`.
pub open spec fn advance_n(r: GraphModel, states: Seq<GraphModel>, evs: Seq<Event>, k: nat, n: nat) -> GraphModel
    decreases n,
{
    if n == 0 {
        r
    } else {
        advance_n(step_apply(r, forward_of(states[k as int], evs[k as int])).0, states, evs, k + 1, (n - 1) as nat)
    }
}

/// Undoing `n` operations from position `k` back.
pub open spec fn rewind_n(r: GraphModel, states: Seq<GraphModel>, evs: Seq<Event>, k: nat, n: nat) -> GraphModel
    decreases n,
{
    if n == 0 || k == 0 {
        r
    } else {
        rewind_n(step_apply(r, reverse_of(states[k - 1], evs[k - 1])).0, states, evs, (k - 1) as nat, (n - 1) as nat)
    }
}

/// The facts `lemma_compile` gives, as a predicate.
pub open spec fn compiled(states: Seq<GraphModel>, evs: Seq<Event>) -> bool {
    &&& states.len() == evs.len() + 1
    &&& good(states.last())
    &&& forall|k: int| 0 <= k < evs.len() ==> {
        &&& good(#[trigger] states[k])
        &&& event_loc_ok(states[k], evs[k])
        &&& states[k].nodes.len() + 2 < usize::MAX
        &&& process_model(states[k], evs[k]).0 == states[k + 1]
    }
    &&& forall|k: int| 0 <= k < states.len() ==> grows(#[trigger] states[k], states.last())
}

pub proof fn lemma_advance(r: GraphModel, states: Seq<GraphModel>, evs: Seq<Event>, k: nat, n: nat)
    requires
        compiled(states, evs),
        k + n <= evs.len(),
        replays(states[k as int], states.last(), r),
    ensures
        replays(states[(k + n) as int], states.last(), advance_n(r, states, evs, k, n)),
    decreases n,
{
    if n > 0 {
        let f = states.last();
        let c = states[k as int];
        let e = evs[k as int];
        assert(good(c));
        assert(process_model(c, e).0 == states[(k + 1) as int]);
        assert(grows(states[(k + 1) as int], f));
        assert(event_step_ok(c, f, e));
        lemma_event_forward(c, f, r, e);
        lemma_advance(step_apply(r, forward_of(c, evs[k as int])).0, states, evs, k + 1, (n - 1) as nat);
    }
}

#[verifier::rlimit(30)]
pub proof fn lemma_rewind(r: GraphModel, states: Seq<GraphModel>, evs: Seq<Event>, k: nat, n: nat)
    requires
        compiled(states, evs),
        n <= k <= evs.len(),
        replays(states[k as int], states.last(), r),
    ensures
        replays(states[k - n], states.last(), rewind_n(r, states, evs, k, n)),
    decreases n,
{
    if n > 0 {
        let f = states.last();
        let c = states[k - 1];
        let e = evs[k - 1];
        assert(good(c));
        assert(process_model(c, e).0 == states[k as int]);
        assert(grows(states[k as int], f));
        assert(event_step_ok(c, f, e));
        lemma_event_back(c, f, r, e);
        lemma_rewind(step_apply(r, reverse_of(c, evs[k - 1])).0, states, evs, (k - 1) as nat, (n - 1) as nat);
    }
}

/// The graph before any event.
pub open spec fn empty_graph() -> GraphModel {
    GraphModel { nodes: Seq::empty(), names: Seq::empty() }
}

/// The start of a replay: every node of the compiled graph reset.
pub open spec fn reset_graph(f: GraphModel) -> GraphModel {
    GraphModel { nodes: f.nodes.map_values(|n: NodeModel| reset_node(n)), names: f.names }
}

/// Round trip: compile a history from the empty graph, reset it, replay the
/// first `n` operations forward and then undo them. Every node gets back its
/// live-child count, its allocated children and its complexity flag, and every
/// variable its value, as they were at the start. (At the start no slot is
/// live; a slot that a push filled keeps that value once it is popped again.)
pub proof fn lemma_round_trip(events: Seq<Event>, n: nat)
    requires
        valid_history(empty_graph(), events),
        n <= compile(empty_graph(), events).1.len(),
    ensures
        ({
            let (states, evs) = compile(empty_graph(), events);
            let start = reset_graph(states.last());
            let back = rewind_n(advance_n(start, states, evs, 0, n), states, evs, n, n);
            &&& back.nodes.len() == start.nodes.len()
            &&& forall|i: int| 0 <= i < start.nodes.len() ==> {
                &&& #[trigger] back.nodes[i].live == start.nodes[i].live
                &&& back.nodes[i].children == start.nodes[i].children
                &&& back.nodes[i].complex == start.nodes[i].complex
                &&& (start.names[i] is Some ==> back.nodes[i].value == start.nodes[i].value)
            }
        }),
{
    let g = empty_graph();
    assert(good(g));
    lemma_compile(g, events);
    let (states, evs) = compile(g, events);
    let f = states.last();
    let start = reset_graph(f);
    assert(compiled(states, evs));
    assert(replays(states[0], f, start)) by {
        assert forall|i: int| #![trigger start.nodes[i]] 0 <= i < f.nodes.len() implies {
            &&& start.nodes[i].children == f.nodes[i].children
            &&& start.nodes[i].complex == f.nodes[i].complex
            &&& start.nodes[i].live == live_at(states[0], i)
            &&& (f.names[i] is Some ==> start.nodes[i].value == value_at(states[0], i))
        } by {}
    }
    lemma_advance(start, states, evs, 0, n);
    let mid = advance_n(start, states, evs, 0, n);
    lemma_rewind(mid, states, evs, n, n);
    let back = rewind_n(mid, states, evs, n, n);
    assert(states[0] == g);
    assert forall|i: int| 0 <= i < start.nodes.len() implies {
        &&& #[trigger] back.nodes[i].live == start.nodes[i].live
        &&& back.nodes[i].children == start.nodes[i].children
        &&& back.nodes[i].complex == start.nodes[i].complex
        &&& (start.names[i] is Some ==> back.nodes[i].value == start.nodes[i].value)
    } by {
        assert(back.nodes[i] == back.nodes[i]);
        assert(start.nodes[i] == start.nodes[i]);
    }
}

proof fn lemma_find_name_stable(a: Seq<Option<Seq<char>>>, b: Seq<Option<Seq<char>>>, name: Seq<char>, n: nat)
    requires
        n <= a.len(),
        n <= b.len(),
        forall|i: int| 0 <= i < n ==> a[i] == b[i],
    ensures
        find_name_upto(a, name, n) == find_name_upto(b, name, n),
    decreases n,
{
    if n > 0 {
        lemma_find_name_stable(a, b, name, (n - 1) as nat);
    }
}

proof fn lemma_find_name_extend(a: Seq<Option<Seq<char>>>, name: Seq<char>, n: nat, m: nat)
    requires
        n <= m <= a.len(),
        find_name_upto(a, name, n) is Some,
    ensures
        find_name_upto(a, name, m) == find_name_upto(a, name, n),
    decreases m,
{
    if m > n {
        lemma_find_name_extend(a, name, n, (m - 1) as nat);
    }
}

proof fn lemma_grows_names(c: GraphModel, d: GraphModel, i: int)
    requires
        grows(c, d),
        0 <= i < c.nodes.len(),
    ensures
        c.names[i] == d.names[i],
{
    assert(c.nodes[i].children.len() <= d.nodes[i].children.len());
}

/// A location that denotes a node keeps denoting it as the graph grows.
pub proof fn lemma_lookup_stable(c: GraphModel, d: GraphModel, loc: Location)
    requires
        good(c),
        grows(c, d),
        d.names.len() == d.nodes.len(),
        lookup_model(c, loc) is Some,
    ensures
        lookup_model(d, loc) == lookup_model(c, loc),
    decreases loc,
{
    lemma_lookup_bound(c, loc);
    match loc {
        Location::VariableLoc(name) => {
            assert(c.names.len() == c.nodes.len());
            assert forall|i: int| 0 <= i < c.names.len() implies c.names[i] == d.names[i] by {
                lemma_grows_names(c, d, i);
            }
            lemma_find_name_stable(c.names, d.names, name@, c.names.len());
            lemma_find_name_extend(d.names, name@, c.names.len(), d.names.len());
        },
        Location::IndexLoc(inner, i) => {
            lemma_lookup_stable(c, d, *inner);
            lemma_lookup_bound(c, *inner);
            let n = lookup_model(c, *inner)->0;
            assert(d.nodes[n as int] == d.nodes[n as int]);
            assert(d.nodes[n as int].children[i as int] == c.nodes[n as int].children[i as int]);
        },
    }
}

/// The node a resolved location denotes is found by the same location afterwards.
pub proof fn lemma_resolve_found(c: GraphModel, loc: Location, v: ValueModel)
    requires
        good(c),
        loc_ok(c, loc),
        c.nodes.len() + 2 < usize::MAX,
        model_is_simple(v),
    ensures
        lookup_model(resolve_model(c, loc, v).0, loc) == Some(resolve_model(c, loc, v).1),
{
    lemma_resolve(c, loc, v);
    let (c1, n, pre) = resolve_model(c, loc, v);
    if pre is Define {
        let name = loc->VariableLoc_0@;
        lemma_find_name_stable(c.names, c1.names, name, c.names.len());
        assert(c1.names[c.names.len() as int] == Some(name));
    }
}

/// The child that pushing `v` at `loc` fills.
pub open spec fn pushed_child(c: GraphModel, loc: Location, v: ValueModel) -> NId {
    let (c1, n, _) = resolve_model(c, loc, ValueModel::Undefined);
    push_model(c1, n, v).1
}

/// Slot reuse: pushing at a location, popping it and pushing again makes one
/// node only; the second push fills the same child as the first.
pub proof fn lemma_slot_reuse(c: GraphModel, loc: Location, p: Value, q: Value)
    requires
        good(c),
        loc_ok(c, loc),
        c.nodes.len() + 4 < usize::MAX,
    ensures
        ({
            let c1 = process_model(c, Event::Push(loc, p)).0;
            let c2 = process_model(c1, Event::Pop(loc)).0;
            let c3 = process_model(c2, Event::Push(loc, q)).0;
            &&& c3.nodes.len() == c1.nodes.len()
            &&& pushed_child(c2, loc, q@) == pushed_child(c, loc, p@)
        }),
{
    let u = ValueModel::Undefined;
    lemma_resolve(c, loc, u);
    lemma_resolve_found(c, loc, u);
    let (c0, n, pre_a) = resolve_model(c, loc, u);
    lemma_push_good(c0, n, p@);
    lemma_push_frame(c0, n, p@);
    let (c1, ch, pre_b) = push_model(c0, n, p@);
    assert(c1 == process_model(c, Event::Push(loc, p)).0);
    lemma_lookup_stable(c0, c1, loc);
    assert(resolve_model(c1, loc, u) == (c1, n, StepModel::NoOp));
    let l = c0.nodes[n as int].live as int;
    let cn = c1.nodes[n as int];
    assert(cn.live == l + 1);
    lemma_update_good(c1, n as int, NodeModel { live: (cn.live - 1) as usize, ..cn });
    let c2 = process_model(c1, Event::Pop(loc)).0;
    assert(c2 == GraphModel { nodes: c1.nodes.update(n as int, NodeModel { live: (cn.live - 1) as usize, ..cn }), names: c1.names });
    lemma_lookup_stable(c1, c2, loc);
    assert(resolve_model(c2, loc, u) == (c2, n, StepModel::NoOp));
    assert(c2.nodes[n as int].live == l);
    assert(c2.nodes[n as int].children == cn.children);
    assert(l < cn.children.len());
}

/// Implicit declaration: the first set of, or push onto, a variable not seen
/// before makes exactly one new variable node; replaying the operation first
/// reports that node added, and undoing it last reports it removed.
pub proof fn lemma_implicit_declaration(c: GraphModel, r: GraphModel, e: Event)
    requires
        good(c),
        c.nodes.len() + 2 < usize::MAX,
        e is SetValue || e is Push,
        e is SetValue ==> e->SetValue_0 is VariableLoc && find_name(c, e->SetValue_0->VariableLoc_0@) is None,
        e is Push ==> e->Push_0 is VariableLoc && find_name(c, e->Push_0->VariableLoc_0@) is None,
    ensures
        ({
            let d = process_model(c, e).0;
            let n = c.nodes.len() as NId;
            let fw = step_apply(r, forward_of(c, e)).1;
            let bw = step_apply(r, reverse_of(c, e)).1;
            &&& d.nodes.len() > n
            &&& d.names[n as int] is Some
            &&& forall|i: int| 0 <= i < c.nodes.len() ==> #[trigger] d.names[i] == c.names[i]
            &&& forall|i: int| n < i < d.nodes.len() ==> #[trigger] d.names[i] is None
            &&& fw is Parallel && fw->Parallel_0.len() > 0 && fw->Parallel_0[0] == ChangeModel::AddCell(n)
            &&& bw is Parallel && bw->Parallel_0.len() > 0
                && bw->Parallel_0[bw->Parallel_0.len() - 1] == ChangeModel::RemoveCell(n)
        }),
{
    reveal_with_fuel(steps_apply, 4);
    reveal_with_fuel(step_apply, 4);
    let u = ValueModel::Undefined;
    let n = c.nodes.len() as NId;
    if e is SetValue {
        let loc = e->SetValue_0;
        let v = e->SetValue_1@;
        lemma_resolve(c, loc, u);
        let fw = seq![StepModel::Define(n), StepModel::SetValue(n, v)];
        assert(forward_of(c, e) == StepModel::Atomic(fw));
        assert(fw.subrange(0, 1) =~= seq![StepModel::Define(n)]);
        assert(seq![StepModel::Define(n)].subrange(0, 0) =~= Seq::<StepModel>::empty());
        let bw = seq![StepModel::SetValue(n, u), StepModel::Forget(n)];
        assert(reverse_of(c, e) == StepModel::Atomic(bw));
        assert(bw.subrange(0, 1) =~= seq![StepModel::SetValue(n, u)]);
        assert(seq![StepModel::SetValue(n, u)].subrange(0, 0) =~= Seq::<StepModel>::empty());
    } else {
        let loc = e->Push_0;
        let v = e->Push_1@;
        lemma_resolve(c, loc, u);
        let (c1, cn, pre_a) = resolve_model(c, loc, u);
        lemma_push_good(c1, cn, v);
        let (d, ch, pre_b) = push_model(c1, cn, v);
        assert(c1.nodes[cn as int].children.len() == 0);
        assert(ch == c1.nodes.len());
        let fw = seq![StepModel::Define(n), StepModel::Define(ch), StepModel::Push(n, ch, v)];
        let pre = seq![StepModel::Define(n), StepModel::Define(ch)];
        assert(pre_a == StepModel::Define(n));
        assert(pre_b == StepModel::Define(ch));
        assert(then_model(pre_a, pre_b) == StepModel::Atomic(pre));
        assert(pre.push(StepModel::Push(n, ch, v)) =~= fw);
        assert(forward_of(c, e) == StepModel::Atomic(fw));
        assert(fw.subrange(0, 2) =~= seq![StepModel::Define(n), StepModel::Define(ch)]);
        assert(seq![StepModel::Define(n), StepModel::Define(ch)].subrange(0, 1) =~= seq![StepModel::Define(n)]);
        assert(seq![StepModel::Define(n)].subrange(0, 0) =~= Seq::<StepModel>::empty());
        lemma_rev_steps(pre);
        assert(crate::op::rev_steps(pre) =~= seq![StepModel::Forget(ch), StepModel::Forget(n)]);
        let bw = seq![StepModel::Pop(n), StepModel::Forget(ch), StepModel::Forget(n)];
        assert(seq![StepModel::Pop(n)] + seq![StepModel::Forget(ch), StepModel::Forget(n)] =~= bw);
        assert(reverse_of(c, e) == StepModel::Atomic(bw));
        assert(bw.subrange(0, 2) =~= seq![StepModel::Pop(n), StepModel::Forget(ch)]);
        assert(seq![StepModel::Pop(n), StepModel::Forget(ch)].subrange(0, 1) =~= seq![StepModel::Pop(n)]);
        assert(seq![StepModel::Pop(n)].subrange(0, 0) =~= Seq::<StepModel>::empty());
    }
}

/// Reverse ordering: setting a variable not seen before compiles to
/// declaring it and then setting it; the reverse first restores the
/// undefined value and only then forgets the node.
pub proof fn lemma_reverse_order(c: GraphModel, loc: Location, v: Value)
    requires
        good(c),
        c.nodes.len() + 2 < usize::MAX,
        loc is VariableLoc,
        find_name(c, loc->VariableLoc_0@) is None,
    ensures
        ({
            let n = c.nodes.len() as NId;
            let e = Event::SetValue(loc, v);
            &&& forward_of(c, e) == StepModel::Atomic(seq![StepModel::Define(n), StepModel::SetValue(n, v@)])
            &&& reverse_of(c, e) == StepModel::Atomic(seq![StepModel::SetValue(n, ValueModel::Undefined), StepModel::Forget(n)])
        }),
{
    lemma_resolve(c, loc, ValueModel::Undefined);
}

} // verus!
