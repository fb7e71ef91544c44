//! The node graph: its cells, the names of its variables, and the compiler
//! from events to reversible operations.
use vstd::prelude::*;

use crate::change::{lemma_changes_model, changes_model, ChangeModel, ChangeType};
use crate::event::{display_text, Event, Location, Value, ValueModel};
use crate::node::{
    fresh_member, fresh_named, with_value, NId, Node, NodeIdGenerator, NodeModel, NodeType,
};
use crate::op::{
    ids_ok, lemma_all_ids_ok, lemma_rev_ids_ok, lemma_steps_model, steps_model, lemma_then_ids_ok, lemma_then_reversible, rev_model, reversible,
    then_model, Op, OpStep, StepModel,
};

verus! {

/// Every node ever made, indexed by id, with the names of the variables.
#[derive(Debug)]
pub struct ProgramGraph {
    pub gensym: NodeIdGenerator,
    pub nodes: Vec<Node>,
    /// The name of each node; only variables have one.
    pub names_by_id: Vec<Option<String>>,
}

/// The mathematical model of a `ProgramGraph`.
pub struct GraphModel {
    pub nodes: Seq<NodeModel>,
    pub names: Seq<Option<Seq<char>>>,
}

pub open spec fn name_model(o: Option<String>) -> Option<Seq<char>> {
    match o {
        Some(s) => Some(s@),
        None => None,
    }
}

impl View for ProgramGraph {
    type V = GraphModel;

    open spec fn view(&self) -> GraphModel {
        GraphModel {
            nodes: self.nodes@.map_values(|n: Node| n@),
            names: self.names_by_id@.map_values(|o: Option<String>| name_model(o)),
        }
    }
}

/// The first node among the first `n` that carries `name`.
pub open spec fn find_name_upto(names: Seq<Option<Seq<char>>>, name: Seq<char>, n: nat) -> Option<NId>
    decreases n,
{
    if n == 0 {
        None
    } else {
        match find_name_upto(names, name, (n - 1) as nat) {
            Some(k) => Some(k),
            None => if names[n - 1] == Some(name) {
                Some((n - 1) as NId)
            } else {
                None
            },
        }
    }
}

pub open spec fn find_name(g: GraphModel, name: Seq<char>) -> Option<NId> {
    find_name_upto(g.names, name, g.names.len())
}

/// The node a location denotes, when it denotes one without declaring anything.
pub open spec fn lookup_model(g: GraphModel, loc: Location) -> Option<NId>
    decreases loc,
{
    match loc {
        Location::VariableLoc(name) => find_name(g, name@),
        Location::IndexLoc(inner, i) => match lookup_model(g, *inner) {
            Some(n) => if n < g.nodes.len() && i < g.nodes[n as int].children.len() {
                Some(g.nodes[n as int].children[i as int])
            } else {
                None
            },
            None => None,
        },
    }
}

/// A location can be resolved: a variable, named or not yet, or a slot
/// that an earlier push allocated.
pub open spec fn loc_ok(g: GraphModel, loc: Location) -> bool {
    loc is VariableLoc || lookup_model(g, loc) is Some
}

/// The graph after resolving `loc`, the node it denotes, and the step that
/// declared it (a no-op when nothing was declared).
pub open spec fn resolve_model(g: GraphModel, loc: Location, v: ValueModel) -> (GraphModel, NId, StepModel) {
    match lookup_model(g, loc) {
        Some(n) => (g, n, StepModel::NoOp),
        None => {
            let n = g.nodes.len() as NId;
            (
                GraphModel {
                    nodes: g.nodes.push(fresh_named(n, v)),
                    names: g.names.push(Some(loc->VariableLoc_0@)),
                },
                n,
                StepModel::Define(n),
            )
        },
    }
}

/// The graph after pushing `v` onto the array node `c`, the child that holds
/// it, and the step that made the child (a no-op when a slot was reused).
pub open spec fn push_model(g: GraphModel, c: NId, v: ValueModel) -> (GraphModel, NId, StepModel) {
    let cn = g.nodes[c as int];
    if cn.live < cn.children.len() {
        let ch = cn.children[cn.live as int];
        let nodes1 = g.nodes.update(c as int, NodeModel { live: (cn.live + 1) as usize, ..cn });
        (
            GraphModel { nodes: nodes1.update(ch as int, with_value(nodes1[ch as int], v)), names: g.names },
            ch,
            StepModel::NoOp,
        )
    } else {
        let ch = g.nodes.len() as NId;
        let nodes1 = g.nodes.push(fresh_member(ch, v, c, cn.live, cn.display_type));
        (
            GraphModel {
                nodes: nodes1.update(
                    c as int,
                    NodeModel { children: cn.children.push(ch), complex: true, live: (cn.live + 1) as usize, ..cn },
                ),
                names: g.names.push(None),
            },
            ch,
            StepModel::Define(ch),
        )
    }
}

/// The graph after revoking the last live child of `c`, and that child.
pub open spec fn pop_model(g: GraphModel, c: NId) -> (GraphModel, Option<NId>) {
    let cn = g.nodes[c as int];
    if cn.live == 0 {
        (g, None)
    } else {
        (
            GraphModel { nodes: g.nodes.update(c as int, NodeModel { live: (cn.live - 1) as usize, ..cn }), names: g.names },
            Some(cn.children[cn.live - 1]),
        )
    }
}

/// What compiling one event does: the graph after it, and the forward and
/// reverse steps of its operation (none for the no-op event).
pub open spec fn process_model(g: GraphModel, e: Event) -> (GraphModel, Option<(StepModel, StepModel)>) {
    match e {
        Event::NoOp => (g, None),
        Event::Display(loc, mode) => {
            let (g1, n, pre) = resolve_model(g, loc, ValueModel::Undefined);
            (
                GraphModel { nodes: g1.nodes.update(n as int, NodeModel { display_type: mode, ..g1.nodes[n as int] }), names: g1.names },
                Some((pre, rev_model(pre))),
            )
        },
        Event::SetValue(loc, v) => {
            let (g1, n, pre) = resolve_model(g, loc, ValueModel::Undefined);
            let old_v = g1.nodes[n as int].value;
            (
                GraphModel { nodes: g1.nodes.update(n as int, with_value(g1.nodes[n as int], v@)), names: g1.names },
                Some((
                    then_model(pre, StepModel::SetValue(n, v@)),
                    then_model(StepModel::SetValue(n, old_v), rev_model(pre)),
                )),
            )
        },
        Event::Push(loc, v) => {
            let (g1, c, pre_a) = resolve_model(g, loc, ValueModel::Undefined);
            let (g2, ch, pre_b) = push_model(g1, c, v@);
            let pre = then_model(pre_a, pre_b);
            (g2, Some((then_model(pre, StepModel::Push(c, ch, v@)), then_model(StepModel::Pop(c), rev_model(pre)))))
        },
        Event::Pop(loc) => {
            let (g1, c, pre) = resolve_model(g, loc, ValueModel::Undefined);
            let (g2, popped) = pop_model(g1, c);
            let reverse = match popped {
                None => StepModel::NoOp,
                Some(ch) => StepModel::Push(c, ch, g1.nodes[ch as int].value),
            };
            (g2, Some((then_model(pre, StepModel::Pop(c)), then_model(reverse, rev_model(pre)))))
        },
    }
}

/// The location an event names, if any.
pub open spec fn event_loc_ok(g: GraphModel, e: Event) -> bool {
    match e {
        Event::NoOp => true,
        Event::Display(loc, _) => loc_ok(g, loc),
        Event::SetValue(loc, _) => loc_ok(g, loc),
        Event::Push(loc, _) => loc_ok(g, loc),
        Event::Pop(loc) => loc_ok(g, loc),
    }
}

impl GraphModel {
    /// Ids match positions, live counts fit, children exist, and only
    /// variables have names, each its own.
    pub open spec fn wf(&self) -> bool {
        &&& self.names.len() == self.nodes.len()
        &&& self.nodes_wf()
        &&& self.children_wf()
        &&& self.names_wf()
    }

    pub open spec fn nodes_wf(&self) -> bool {
        forall|i: int| #![trigger self.nodes[i]] 0 <= i < self.nodes.len() ==> {
            &&& self.nodes[i].id == i
            &&& self.nodes[i].live <= self.nodes[i].children.len()
            &&& (self.names[i] is Some <==> self.nodes[i].node_type == NodeType::NamedContainer)
        }
    }

    pub open spec fn children_wf(&self) -> bool {
        forall|i: int, j: int| 0 <= i < self.nodes.len() && 0 <= j < self.nodes[i].children.len()
            ==> #[trigger] self.nodes[i].children[j] < self.nodes.len()
    }

    pub open spec fn names_wf(&self) -> bool {
        forall|i: int, j: int| 0 <= i < self.names.len() && 0 <= j < self.names.len() && i != j
            && #[trigger] self.names[i] is Some ==> #[trigger] self.names[j] != self.names[i]
    }
}

impl ProgramGraph {
    pub open spec fn wf(&self) -> bool {
        &&& self@.wf()
        &&& self.gensym.next == self.nodes.len()
    }

    /// Room for the ids that one event may take.
    pub open spec fn has_room(&self) -> bool {
        self.nodes.len() + 2 < usize::MAX
    }

    pub fn new() -> (r: ProgramGraph)
        ensures
            r.wf(),
            r@.nodes.len() == 0,
    {
        let r = ProgramGraph { gensym: NodeIdGenerator::new(), nodes: Vec::new(), names_by_id: Vec::new() };
        assert(r@.nodes =~= Seq::empty());
        assert(r@.names =~= Seq::empty());
        r
    }

    /// The nodes in the order they were made.
    pub fn nodes_iter(&self) -> (r: &Vec<Node>)
        ensures
            *r == self.nodes,
    {
        &self.nodes
    }

    pub fn node(&self, node_id: NId) -> (r: &Node)
        requires
            node_id < self.nodes.len(),
        ensures
            *r == self.nodes[node_id as int],
    {
        &self.nodes[node_id]
    }

    fn next_id(&mut self) -> (r: NId)
        requires
            old(self).gensym.next < usize::MAX,
        ensures
            r == old(self).gensym.next,
            final(self).gensym.next == old(self).gensym.next + 1,
            final(self).nodes == old(self).nodes,
            final(self).names_by_id == old(self).names_by_id,
    {
        self.gensym.next()
    }

    fn add_unnamed_node(&mut self, node: Node)
        ensures
            final(self).nodes@ == old(self).nodes@.push(node),
            final(self).names_by_id@ == old(self).names_by_id@.push(None),
            final(self).gensym == old(self).gensym,
    {
        self.nodes.push(node);
        self.names_by_id.push(None);
    }

    fn add_named_node(&mut self, name: String, node: Node)
        ensures
            final(self).nodes@ == old(self).nodes@.push(node),
            final(self).names_by_id@ == old(self).names_by_id@.push(Some(name)),
            final(self).gensym == old(self).gensym,
    {
        self.nodes.push(node);
        self.names_by_id.push(Some(name));
    }

    fn add_named_value_node(&mut self, name: String, value: Value) -> (r: NId)
        requires
            old(self).wf(),
            old(self).nodes.len() < usize::MAX,
            find_name(old(self)@, name@) is None,
        ensures
            final(self).wf(),
            r == old(self).nodes.len(),
            final(self)@.nodes == old(self)@.nodes.push(fresh_named(r, value@)),
            final(self)@.names == old(self)@.names.push(Some(name@)),
    {
        let ghost g0 = self@;
        let ghost nm = name@;
        let id = self.next_id();
        let node = Node::new_named_container(id, value);
        proof {
            assert(node.children@ =~= Seq::<NId>::empty());
        }
        self.add_named_node(name, node);
        proof {
            assert(self@.nodes =~= g0.nodes.push(fresh_named(id, value@)));
            assert(self@.names =~= g0.names.push(Some(nm)));
            lemma_find_name_none(g0.names, nm, g0.names.len());
            lemma_wf_push(g0, fresh_named(id, value@), Some(nm));
        }
        id
    }

    fn add_value_node(&mut self, value: Value, parent_id: NId, index: usize) -> (r: NId)
        requires
            old(self).wf(),
            old(self).nodes.len() < usize::MAX,
            parent_id < old(self).nodes.len(),
        ensures
            r == old(self).nodes.len(),
            final(self).gensym.next == old(self).gensym.next + 1,
            final(self)@.nodes == old(self)@.nodes.push(
                fresh_member(r, value@, parent_id, index, old(self).nodes[parent_id as int].display_type),
            ),
            final(self)@.names == old(self)@.names.push(None),
    {
        let ghost g0 = self@;
        let display_type = self.nodes[parent_id].display_type();
        let id = self.next_id();
        let node = Node::new(id, value, Some(parent_id), index, display_type);
        proof {
            assert(node.children@ =~= Seq::<NId>::empty());
        }
        self.add_unnamed_node(node);
        proof {
            assert(self@.nodes =~= g0.nodes.push(fresh_member(id, value@, parent_id, index, display_type)));
            assert(self@.names =~= g0.names.push(None));
        }
        id
    }

    /// The name of a variable's node; none for an array slot.
    pub fn node_name(&self, node: &Node) -> (r: Option<&String>)
        requires
            self.wf(),
            node.id < self.nodes.len(),
        ensures
            r is Some == self.names_by_id[node.id as int] is Some,
            r is Some ==> *r->0 == self.names_by_id[node.id as int]->0,
    {
        match &self.names_by_id[node.id] {
            Some(s) => Some(s),
            None => None,
        }
    }

    /// The id of the variable called `name`, if there is one.
    fn id_by_name(&self, name: &String) -> (r: Option<NId>)
        requires
            self.wf(),
        ensures
            r == find_name(self@, name@),
    {
        let mut found: Option<NId> = None;
        let mut j: usize = 0;
        while j < self.names_by_id.len()
            invariant
                self.wf(),
                j <= self.names_by_id.len(),
                found == find_name_upto(self@.names, name@, j as nat),
            decreases self.names_by_id.len() - j,
        {
            if found.is_none() {
                match &self.names_by_id[j] {
                    Some(s) => {
                        if *s == *name {
                            found = Some(j);
                        }
                    },
                    None => {},
                }
            }
            j = j + 1;
        }
        found
    }

    /// The node `loc` denotes, when it denotes one without declaring anything.
    pub fn lookup(&self, loc: &Location) -> (r: Option<NId>)
        requires
            self.wf(),
        ensures
            r == lookup_model(self@, *loc),
            r is Some ==> r->0 < self.nodes.len(),
        decreases loc,
    {
        match loc {
            Location::VariableLoc(name) => {
                let r = self.id_by_name(name);
                proof {
                    lemma_find_name_bound(self@.names, name@, self@.names.len());
                }
                r
            },
            Location::IndexLoc(inner, i) => {
                match self.lookup(inner) {
                    Some(n) => {
                        if *i < self.nodes[n].children.len() {
                            let c = self.nodes[n].children[*i];
                            proof {
                                assert(self@.nodes[n as int].children[*i as int] == c);
                            }
                            Some(c)
                        } else {
                            None
                        }
                    },
                    None => None,
                }
            },
        }
    }

    /// Whether `loc` can be resolved: a variable, or a slot that a push allocated.
    pub fn loc_is_resolvable(&self, loc: &Location) -> (r: bool)
        requires
            self.wf(),
        ensures
            r == loc_ok(self@, *loc),
    {
        match loc {
            Location::VariableLoc(_) => true,
            Location::IndexLoc(..) => self.lookup(loc).is_some(),
        }
    }

    /// Whether the location that `event` names, if any, can be resolved.
    pub fn event_is_resolvable(&self, event: &Event) -> (r: bool)
        requires
            self.wf(),
        ensures
            r == event_loc_ok(self@, *event),
    {
        match event {
            Event::NoOp => true,
            Event::Display(loc, _) => self.loc_is_resolvable(loc),
            Event::SetValue(loc, _) => self.loc_is_resolvable(loc),
            Event::Push(loc, _) => self.loc_is_resolvable(loc),
            Event::Pop(loc) => self.loc_is_resolvable(loc),
        }
    }

    /// Resolves `name`, declaring a variable holding `value` when it is new.
    fn node_id_by_name_implicit_declare(&mut self, name: &String, value: Value) -> (r: (NId, OpStep))
        requires
            old(self).wf(),
            old(self).nodes.len() < usize::MAX,
        ensures
            final(self).wf(),
            match find_name(old(self)@, name@) {
                Some(n) => r.0 == n && r.1@ is NoOp && final(self)@ == old(self)@,
                None => {
                    &&& r.0 == old(self).nodes.len()
                    &&& r.1@ == StepModel::Define(r.0)
                    &&& final(self)@.nodes == old(self)@.nodes.push(fresh_named(r.0, value@))
                    &&& final(self)@.names == old(self)@.names.push(Some(name@))
                },
            },
    {
        match self.id_by_name(name) {
            None => {
                let new_id = self.add_named_value_node(name.clone(), value);
                (new_id, OpStep::Define { id: new_id })
            },
            Some(id) => (id, OpStep::NoOp),
        }
    }

    /// Resolves `loc`, declaring its variable holding `value` when it is new.
    fn node_id_by_loc_implicit_declare(&mut self, loc: &Location, value: Value) -> (r: (NId, OpStep))
        requires
            old(self).wf(),
            old(self).has_room(),
            loc_ok(old(self)@, *loc),
        ensures
            final(self).wf(),
            final(self)@ == resolve_model(old(self)@, *loc, value@).0,
            r.0 == resolve_model(old(self)@, *loc, value@).1,
            r.1@ == resolve_model(old(self)@, *loc, value@).2,
            r.0 < final(self).nodes.len(),
    {
        match self.lookup(loc) {
            Some(n) => (n, OpStep::NoOp),
            None => {
                let ghost g0 = self@;
                let r = self.node_id_by_name_implicit_declare(&loc_name(loc), value);
                proof {
                    let e = resolve_model(g0, *loc, value@).0;
                    assert(self@.nodes == e.nodes);
                    assert(self@.names == e.names);
                }
                r
            },
        }
    }

    fn node_id_by_loc_implicit_declare_array(&mut self, loc: &Location) -> (r: (NId, OpStep))
        requires
            old(self).wf(),
            old(self).has_room(),
            loc_ok(old(self)@, *loc),
        ensures
            final(self).wf(),
            final(self)@ == resolve_model(old(self)@, *loc, ValueModel::Undefined).0,
            r.0 == resolve_model(old(self)@, *loc, ValueModel::Undefined).1,
            r.1@ == resolve_model(old(self)@, *loc, ValueModel::Undefined).2,
            r.0 < final(self).nodes.len(),
    {
        self.node_id_by_loc_implicit_declare(loc, Value::UndefinedVal)
    }
}


impl ProgramGraph {
    /// Pushes `value` onto the array node `node_id`, reusing the slot past the
    /// live ones when one is allocated, else making a new child.
    fn node_push_implicit_create(&mut self, node_id: NId, value: Value) -> (r: (NId, OpStep))
        requires
            old(self).wf(),
            old(self).nodes.len() < usize::MAX,
            node_id < old(self).nodes.len(),
        ensures
            final(self).wf(),
            final(self)@ == push_model(old(self)@, node_id, value@).0,
            r.0 == push_model(old(self)@, node_id, value@).1,
            r.1@ == push_model(old(self)@, node_id, value@).2,
            r.0 < final(self).nodes.len(),
    {
        let ghost g0 = self@;
        let capacity = self.nodes[node_id].children().len();
        let index = self.nodes[node_id].num_children();
        if index < capacity {
            // The slot is allocated: reuse its node.
            let child_id = self.nodes[node_id].children[index];
            proof {
                assert(g0.nodes[node_id as int].children[index as int] == child_id);
            }
            self.nodes[node_id].increment_num_children();
            let ghost g1 = self@;
            proof {
                let cn = g0.nodes[node_id as int];
                assert(g1.nodes =~= g0.nodes.update(node_id as int, NodeModel { live: (cn.live + 1) as usize, ..cn }));
                assert(g1.names =~= g0.names);
                lemma_wf_update(g0, node_id as int, g1.nodes[node_id as int]);
            }
            self.nodes[child_id].set_value(value);
            proof {
                assert(self@.nodes =~= g1.nodes.update(child_id as int, with_value(g1.nodes[child_id as int], value@)));
                assert(self@.names =~= g1.names);
                lemma_wf_update(g1, child_id as int, self@.nodes[child_id as int]);
            }
            return (child_id, OpStep::NoOp);
        }
        // Make a new node for the slot.
        let child_id = self.add_value_node(value, node_id, index);
        let ghost g1 = self@;
        proof {
            let parent = g0.nodes[node_id as int];
            lemma_wf_push(g0, fresh_member(child_id, value@, node_id, index, parent.display_type), None);
        }
        self.nodes[node_id].children.push(child_id);
        self.nodes[node_id].set_complex();
        self.nodes[node_id].increment_num_children();
        proof {
            let cn = g0.nodes[node_id as int];
            let nn = NodeModel { children: cn.children.push(child_id), complex: true, live: (cn.live + 1) as usize, ..cn };
            assert(self@.nodes[node_id as int] == nn);
            assert(self@.nodes =~= g1.nodes.update(node_id as int, nn));
            assert(self@.names =~= g1.names);
            assert forall|j: int| 0 <= j < nn.children.len() implies #[trigger] nn.children[j] < g1.nodes.len() by {
                if j < cn.children.len() {
                    assert(g1.nodes[node_id as int] == cn);
                    assert(g1.nodes[node_id as int].children[j] < g1.nodes.len());
                }
            }
            lemma_wf_update(g1, node_id as int, nn);
        }
        (child_id, OpStep::Define { id: child_id })
    }

    /// Links `child_id` as the next live child of `node_id`: the replay of a push.
    fn node_push_id(&mut self, node_id: NId, child_id: NId)
        requires
            old(self).wf(),
            node_id < old(self).nodes.len(),
            child_id < old(self).nodes.len(),
        ensures
            final(self).wf(),
            final(self)@ == link_model(old(self)@, node_id, child_id),
    {
        let ghost g0 = self@;
        let index = self.nodes[node_id].num_children();
        self.nodes[child_id].set_parent_id(Some(node_id));
        self.nodes[child_id].set_index(index);
        let ghost g1 = self@;
        proof {
            let chn = NodeModel { parent_id: Some(node_id), index, ..g0.nodes[child_id as int] };
            assert(g1.nodes =~= g0.nodes.update(child_id as int, chn));
            assert(g1.names =~= g0.names);
            lemma_wf_update(g0, child_id as int, chn);
        }
        let live = self.nodes[node_id].num_children();
        if live < self.nodes[node_id].children.len() {
            self.nodes[node_id].children.set(live, child_id);
        } else {
            self.nodes[node_id].children.push(child_id);
        }
        self.nodes[node_id].set_complex();
        self.nodes[node_id].increment_num_children();
        proof {
            let cn = g1.nodes[node_id as int];
            let kids = if cn.live < cn.children.len() {
                cn.children.update(cn.live as int, child_id)
            } else {
                cn.children.push(child_id)
            };
            let nn = NodeModel { children: kids, complex: true, live: (cn.live + 1) as usize, ..cn };
            assert(self@.nodes[node_id as int] == nn);
            assert(self@.nodes =~= g1.nodes.update(node_id as int, nn));
            assert(self@.names =~= g1.names);
            assert forall|j: int| 0 <= j < nn.children.len() implies #[trigger] nn.children[j] < g1.nodes.len() by {
                if j < cn.children.len() && j != cn.live {
                    assert(g1.nodes[node_id as int].children[j] < g1.nodes.len());
                }
            }
            lemma_wf_update(g1, node_id as int, nn);
        }
    }

    /// Revokes the last live child of `node_id`, if any, and names it.
    fn node_pop(&mut self, node_id: NId) -> (r: Option<NId>)
        requires
            old(self).wf(),
            node_id < old(self).nodes.len(),
        ensures
            final(self).wf(),
            final(self)@ == pop_model(old(self)@, node_id).0,
            r == pop_model(old(self)@, node_id).1,
            r is Some ==> r->0 < final(self).nodes.len(),
    {
        let ghost g0 = self@;
        let len = self.nodes[node_id].num_children();
        if len == 0 {
            return None;
        }
        let child_id = self.nodes[node_id].children[len - 1];
        self.nodes[node_id].decrement_num_children();
        proof {
            let cn = g0.nodes[node_id as int];
            let nn = NodeModel { live: (cn.live - 1) as usize, ..cn };
            assert(self@.nodes =~= g0.nodes.update(node_id as int, nn));
            assert(self@.names =~= g0.names);
            lemma_wf_update(g0, node_id as int, nn);
            assert(g0.nodes[node_id as int].children[len - 1] == child_id);
        }
        // The child stays allocated, so that undoing the pop brings it back.
        Some(child_id)
    }
}

impl ProgramGraph {
    /// Compiles one event: mutates the graph as the event says and returns the
    /// operation that redoes (forward) and undoes (reverse) that mutation.
    pub fn process(&mut self, event: &Event) -> (r: Option<Op>)
        requires
            old(self).wf(),
            old(self).has_room(),
            event_loc_ok(old(self)@, *event),
        ensures
            final(self).wf(),
            final(self)@ == process_model(old(self)@, *event).0,
            old(self).nodes.len() <= final(self).nodes.len() <= old(self).nodes.len() + 2,
            match process_model(old(self)@, *event).1 {
                None => r is None,
                Some((f, b)) => {
                    &&& r is Some
                    &&& r->0.forward@ == f
                    &&& r->0.reverse@ == b
                    &&& ids_ok(final(self).nodes.len() as nat, f)
                    &&& ids_ok(final(self).nodes.len() as nat, b)
                },
            },
    {
        match event {
            Event::NoOp => None,
            Event::Display(loc, display_type) => {
                let (node_id, step) = self.node_id_by_loc_implicit_declare(loc, Value::UndefinedVal);
                let ghost g1 = self@;
                self.nodes[node_id].set_display_type(*display_type);
                proof {
                    let nn = NodeModel { display_type: *display_type, ..g1.nodes[node_id as int] };
                    assert(self@.nodes =~= g1.nodes.update(node_id as int, nn));
                    assert(self@.names =~= g1.names);
                    lemma_wf_update(g1, node_id as int, nn);
                    lemma_rev_ids_ok(self.nodes.len() as nat, step@);
                }
                Some(step.into_op())
            },
            Event::SetValue(loc, value) => {
                let (node_id, prev_step) = self.node_id_by_loc_implicit_declare(loc, Value::UndefinedVal);
                let ghost g1 = self@;
                let from = self.nodes[node_id].replace_value(value.deep_clone());
                proof {
                    let nn = with_value(g1.nodes[node_id as int], value@);
                    assert(self@.nodes =~= g1.nodes.update(node_id as int, nn));
                    assert(self@.names =~= g1.names);
                    lemma_wf_update(g1, node_id as int, nn);
                    let n = self.nodes.len() as nat;
                    lemma_then_ids_ok(n, prev_step@, StepModel::SetValue(node_id, value@));
                    lemma_rev_ids_ok(n, prev_step@);
                    lemma_then_ids_ok(n, StepModel::SetValue(node_id, from@), rev_model(prev_step@));
                }
                let forward = OpStep::SetValue { id: node_id, value: value.deep_clone() };
                let reverse = OpStep::SetValue { id: node_id, value: from };
                Some(Op::from_steps(forward, reverse, prev_step))
            },
            Event::Push(loc, value) => {
                let (node_id, step1) = self.node_id_by_loc_implicit_declare_array(loc);
                let (child_id, step2) = self.node_push_implicit_create(node_id, value.deep_clone());
                proof {
                    lemma_then_reversible(step1@, step2@);
                    let n = self.nodes.len() as nat;
                    lemma_then_ids_ok(n, step1@, step2@);
                    let pre = then_model(step1@, step2@);
                    lemma_then_ids_ok(n, pre, StepModel::Push(node_id, child_id, value@));
                    lemma_rev_ids_ok(n, pre);
                    lemma_then_ids_ok(n, StepModel::Pop(node_id), rev_model(pre));
                }
                let prev_step = step1.and_then(step2);
                let forward = OpStep::Push { id: node_id, child_id, value: value.deep_clone() };
                Some(forward.into_op_with_previous(prev_step))
            },
            Event::Pop(loc) => {
                let (node_id, prev_step) = self.node_id_by_loc_implicit_declare_array(loc);
                let ghost g1 = self@;
                let popped = self.node_pop(node_id);
                let forward = OpStep::Pop { id: node_id };
                let reverse = match popped {
                    None => OpStep::NoOp,
                    Some(popped_id) => {
                        let value = self.nodes[popped_id].value().deep_clone();
                        proof {
                            assert(self@.nodes[popped_id as int].value == g1.nodes[popped_id as int].value);
                        }
                        OpStep::Push { id: node_id, child_id: popped_id, value }
                    },
                };
                proof {
                    let n = self.nodes.len() as nat;
                    lemma_then_ids_ok(n, prev_step@, StepModel::Pop(node_id));
                    lemma_rev_ids_ok(n, prev_step@);
                    lemma_then_ids_ok(n, reverse@, rev_model(prev_step@));
                }
                Some(Op::from_steps(forward, reverse, prev_step))
            },
        }
    }
}

/// What replaying one step does: the graph after it, and the change it reports.
pub open spec fn step_apply(g: GraphModel, s: StepModel) -> (GraphModel, ChangeModel)
    decreases s,
{
    match s {
        StepModel::NoOp => (g, ChangeModel::NoChange),
        StepModel::Atomic(steps) => {
            let (g1, cs) = steps_apply(g, steps);
            (g1, ChangeModel::Parallel(cs))
        },
        StepModel::Define(id) => (g, ChangeModel::AddCell(id)),
        StepModel::Forget(id) => (g, ChangeModel::RemoveCell(id)),
        StepModel::SetValue(id, v) => (
            GraphModel { nodes: g.nodes.update(id as int, with_value(g.nodes[id as int], v)), names: g.names },
            ChangeModel::ValueChange(id, display_text(g.nodes[id as int].value), display_text(v)),
        ),
        StepModel::Push(id, ch, v) => {
            let g1 = GraphModel { nodes: g.nodes.update(ch as int, with_value(g.nodes[ch as int], v)), names: g.names };
            (link_model(g1, id, ch), ChangeModel::AddCell(ch))
        },
        StepModel::Pop(id) => {
            let (g1, popped) = pop_model(g, id);
            match popped {
                Some(ch) => (g1, ChangeModel::RemoveCell(ch)),
                None => (g1, ChangeModel::NoChange),
            }
        },
    }
}

/// Replaying steps in order: the graph after them, and their changes.
pub open spec fn steps_apply(g: GraphModel, s: Seq<StepModel>) -> (GraphModel, Seq<ChangeModel>)
    decreases s,
{
    if s.len() == 0 {
        (g, Seq::empty())
    } else {
        let (g1, cs) = steps_apply(g, s.subrange(0, s.len() - 1));
        let (g2, c) = step_apply(g1, s[s.len() - 1]);
        (g2, cs.push(c))
    }
}

impl ProgramGraph {
    /// Replays one step on the graph and reports what it did.
    pub fn step(&mut self, op_step: &OpStep) -> (r: ChangeType)
        requires
            old(self).wf(),
            ids_ok(old(self).nodes.len() as nat, op_step@),
        ensures
            final(self).wf(),
            final(self)@ == step_apply(old(self)@, op_step@).0,
            r@ == step_apply(old(self)@, op_step@).1,
            final(self).nodes.len() == old(self).nodes.len(),
        decreases op_step,
    {
        match op_step {
            OpStep::NoOp => ChangeType::NoChange,
            OpStep::Atomic { steps } => {
                proof {
                    lemma_steps_model(*steps, steps.len() as nat);
                }
                let ghost g0 = self@;
                let ghost src = op_step@->Atomic_0;
                let mut changes: Vec<ChangeType> = Vec::new();
                let mut i: usize = 0;
                while i < steps.len()
                    invariant
                        i <= steps.len(),
                        self.wf(),
                        self.nodes.len() == g0.nodes.len(),
                        *op_step == (OpStep::Atomic { steps: *steps }),
                        src == steps_model(*steps, steps.len() as nat),
                        src.len() == steps.len(),
                        ids_ok(g0.nodes.len() as nat, StepModel::Atomic(src)),
                        forall|j: int| 0 <= j < steps.len() ==> #[trigger] src[j] == steps[j]@,
                        changes.len() == i,
                        self@ == steps_apply(g0, src.subrange(0, i as int)).0,
                        changes_model(changes, i as nat) == steps_apply(g0, src.subrange(0, i as int)).1,
                    decreases steps.len() - i,
                {
                    proof {
                        vstd::std_specs::vec::axiom_vec_index_decreases(*steps, i as int);
                        assert((*op_step)->steps == *steps);
                        assert(decreases_to!(*op_step => (*op_step)->steps));
                        assert(decreases_to!(*steps => steps[i as int]));
                        lemma_all_ids_ok(g0.nodes.len() as nat, src, i as int);
                        lemma_changes_model(changes, i as nat);
                    }
                    let c = self.step(&steps[i]);
                    let ghost before = changes;
                    changes.push(c);
                    proof {
                        let t = src.subrange(0, i + 1);
                        assert(t.subrange(0, t.len() - 1) =~= src.subrange(0, i as int));
                        lemma_changes_model(changes, (i + 1) as nat);
                        assert(changes_model(changes, (i + 1) as nat) =~= changes_model(before, i as nat).push(c@));
                    }
                    i = i + 1;
                }
                proof {
                    assert(src.subrange(0, steps.len() as int) =~= src);
                    lemma_changes_model(changes, changes.len() as nat);
                }
                ChangeType::Parallel { changes }
            },
            OpStep::Define { id } => ChangeType::AddCell { id: *id },
            OpStep::Forget { id } => ChangeType::RemoveCell { id: *id },
            OpStep::SetValue { id, value } => {
                let ghost g0 = self@;
                let from = self.nodes[*id].value().display_string();
                self.nodes[*id].set_value(value.deep_clone());
                proof {
                    let nn = with_value(g0.nodes[*id as int], value@);
                    assert(self@.nodes =~= g0.nodes.update(*id as int, nn));
                    assert(self@.names =~= g0.names);
                    lemma_wf_update(g0, *id as int, nn);
                }
                ChangeType::ValueChange { id: *id, from, to: value.display_string() }
            },
            OpStep::Push { id, child_id, value } => {
                let ghost g0 = self@;
                self.nodes[*child_id].set_value(value.deep_clone());
                proof {
                    let nn = with_value(g0.nodes[*child_id as int], value@);
                    assert(self@.nodes =~= g0.nodes.update(*child_id as int, nn));
                    assert(self@.names =~= g0.names);
                    lemma_wf_update(g0, *child_id as int, nn);
                }
                self.node_push_id(*id, *child_id);
                ChangeType::AddCell { id: *child_id }
            },
            OpStep::Pop { id } => {
                match self.node_pop(*id) {
                    Some(child_id) => ChangeType::RemoveCell { id: child_id },
                    None => ChangeType::NoChange,
                }
            },
        }
    }
}

/// The graph after the replay of a push links `ch` as the next live child of `c`.
pub open spec fn link_model(g: GraphModel, c: NId, ch: NId) -> GraphModel {
    let live = g.nodes[c as int].live;
    let nodes1 = g.nodes.update(ch as int, NodeModel { parent_id: Some(c), index: live, ..g.nodes[ch as int] });
    let cn = nodes1[c as int];
    let kids = if cn.live < cn.children.len() {
        cn.children.update(cn.live as int, ch)
    } else {
        cn.children.push(ch)
    };
    GraphModel {
        nodes: nodes1.update(c as int, NodeModel { children: kids, complex: true, live: (cn.live + 1) as usize, ..cn }),
        names: g.names,
    }
}

/// Replacing a node by one with the same id and kind, whose live count fits
/// and whose children exist, keeps the graph well formed.
pub proof fn lemma_wf_update(g: GraphModel, i: int, node: NodeModel)
    requires
        g.wf(),
        0 <= i < g.nodes.len(),
        node.id == g.nodes[i].id,
        node.node_type == g.nodes[i].node_type,
        node.live <= node.children.len(),
        forall|j: int| 0 <= j < node.children.len() ==> #[trigger] node.children[j] < g.nodes.len(),
    ensures
        (GraphModel { nodes: g.nodes.update(i, node), names: g.names }).wf(),
{
    let h = GraphModel { nodes: g.nodes.update(i, node), names: g.names };
    assert forall|k: int| #![trigger h.nodes[k]] 0 <= k < h.nodes.len() implies {
        &&& h.nodes[k].id == k
        &&& h.nodes[k].live <= h.nodes[k].children.len()
        &&& (h.names[k] is Some <==> h.nodes[k].node_type == NodeType::NamedContainer)
    } by {
        assert(g.nodes[k].id == k);
    }
    assert forall|k: int, j: int| 0 <= k < h.nodes.len() && 0 <= j < h.nodes[k].children.len()
        implies #[trigger] h.nodes[k].children[j] < h.nodes.len() by {
        if k != i {
            assert(g.nodes[k].children[j] < g.nodes.len());
        }
    }
    assert(h.nodes_wf());
    assert(h.children_wf());
    assert(h.names_wf());
}

/// The variable's name of a location that names one.
fn loc_name(loc: &Location) -> (r: String)
    requires
        loc is VariableLoc,
    ensures
        r@ == loc->VariableLoc_0@,
{
    match loc {
        Location::VariableLoc(name) => name.clone(),
        Location::IndexLoc(..) => String::new(),
    }
}

/// Adding a node with no children, under a name no other node carries (or
/// none, for a slot), keeps the graph well formed.
pub proof fn lemma_wf_push(g: GraphModel, node: NodeModel, name: Option<Seq<char>>)
    requires
        g.wf(),
        node.id == g.nodes.len(),
        node.live == 0,
        node.children.len() == 0,
        name is Some <==> node.node_type == NodeType::NamedContainer,
        name is Some ==> forall|i: int| 0 <= i < g.names.len() ==> g.names[i] != name,
    ensures
        (GraphModel { nodes: g.nodes.push(node), names: g.names.push(name) }).wf(),
{
    let h = GraphModel { nodes: g.nodes.push(node), names: g.names.push(name) };
    assert(h.names.len() == h.nodes.len());
    assert forall|i: int| #![trigger h.nodes[i]] 0 <= i < h.nodes.len() implies {
        &&& h.nodes[i].id == i
        &&& h.nodes[i].live <= h.nodes[i].children.len()
        &&& (h.names[i] is Some <==> h.nodes[i].node_type == NodeType::NamedContainer)
    } by {
        if i < g.nodes.len() {
            assert(h.nodes[i] == g.nodes[i]);
            assert(h.names[i] == g.names[i]);
            assert(g.nodes[i].id == i);
        } else {
            assert(h.nodes[i] == node);
            assert(h.names[i] == name);
        }
    }
    assert forall|i: int, j: int| 0 <= i < h.nodes.len() && 0 <= j < h.nodes[i].children.len()
        implies #[trigger] h.nodes[i].children[j] < h.nodes.len() by {
        if i < g.nodes.len() {
            assert(h.nodes[i] == g.nodes[i]);
            assert(g.nodes[i].children[j] < g.nodes.len());
        } else {
            assert(h.nodes[i] == node);
        }
    }
    assert forall|i: int, j: int| 0 <= i < h.names.len() && 0 <= j < h.names.len() && i != j
        && #[trigger] h.names[i] is Some implies #[trigger] h.names[j] != h.names[i] by {
        if i < g.names.len() && j < g.names.len() {
            assert(h.names[i] == g.names[i]);
            assert(h.names[j] == g.names[j]);
            assert(g.names[i] is Some);
            assert(g.names[j] != g.names[i]);
        } else if i < g.names.len() {
            assert(h.names[i] == g.names[i]);
            assert(h.names[j] == name);
            if name is Some {
                assert(g.names[i] != name);
            }
        } else {
            assert(h.names[j] == g.names[j]);
            assert(h.names[i] == name);
            assert(g.names[j] != name);
        }
    }
    assert(h.nodes_wf());
    assert(h.children_wf());
    assert(h.names_wf());
}

pub proof fn lemma_find_name_bound(names: Seq<Option<Seq<char>>>, name: Seq<char>, n: nat)
    requires
        n <= names.len(),
        names.len() <= usize::MAX,
    ensures
        find_name_upto(names, name, n) is Some ==> find_name_upto(names, name, n)->0 < n,
        find_name_upto(names, name, n) is Some ==> names[find_name_upto(names, name, n)->0 as int] == Some(name),
    decreases n,
{
    if n > 0 {
        lemma_find_name_bound(names, name, (n - 1) as nat);
    }
}

/// When no node among the first `n` carries `name`, none of them does.
pub proof fn lemma_find_name_none(names: Seq<Option<Seq<char>>>, name: Seq<char>, n: nat)
    requires
        find_name_upto(names, name, n) is None,
        n <= names.len(),
    ensures
        forall|i: int| 0 <= i < n ==> names[i] != Some(name),
    decreases n,
{
    if n > 0 {
        lemma_find_name_none(names, name, (n - 1) as nat);
    }
}

} // verus!
