//! The cells of the node graph and the generator of their ids.
use vstd::prelude::*;

use crate::event::{DisplayType, Value, ValueModel, model_is_simple};

verus! {

pub type NId = usize;

/// Hands out node ids in increasing order, never the same one twice.
#[derive(Copy, Clone, Debug, PartialEq, Eq, Structural)]
pub struct NodeIdGenerator {
    pub next: NId,
}

#[derive(Copy, Clone, Debug, PartialEq, Eq, Structural)]
pub struct Tag {
    pub id: usize,
}

#[derive(Debug)]
pub struct Node {
    pub id: NId,
    pub node_type: NodeType,
    pub parent_id: Option<NId>,
    /// Index in the parent.
    pub index: usize,
    /// Every child ever allocated, live or not.
    pub children: Vec<NId>,
    /// How many of `children` are live.
    pub num_child_values: usize,
    pub tags: Vec<Tag>,
    pub value: Value,
    pub is_complex: bool,
    pub display_type: DisplayType,
}

/// The mathematical model of a `Node`.
pub struct NodeModel {
    pub id: NId,
    pub node_type: NodeType,
    pub parent_id: Option<NId>,
    pub index: usize,
    pub children: Seq<NId>,
    pub live: usize,
    pub value: ValueModel,
    pub complex: bool,
    pub display_type: DisplayType,
}

impl View for Node {
    type V = NodeModel;

    open spec fn view(&self) -> NodeModel {
        NodeModel {
            id: self.id,
            node_type: self.node_type,
            parent_id: self.parent_id,
            index: self.index,
            children: self.children@,
            live: self.num_child_values,
            value: self.value@,
            complex: self.is_complex,
            display_type: self.display_type,
        }
    }
}

/// A node after storing `v`: holding an array makes it complex for good.
pub open spec fn with_value(n: NodeModel, v: ValueModel) -> NodeModel {
    NodeModel { value: v, complex: n.complex || !model_is_simple(v), ..n }
}

/// A variable's node as it is first made.
pub open spec fn fresh_named(id: NId, v: ValueModel) -> NodeModel {
    NodeModel {
        id,
        node_type: NodeType::NamedContainer,
        parent_id: None,
        index: 0,
        children: Seq::empty(),
        live: 0,
        value: v,
        complex: !model_is_simple(v),
        display_type: DisplayType::Default,
    }
}

/// An array slot's node as it is first made.
pub open spec fn fresh_member(id: NId, v: ValueModel, parent: NId, index: usize, display_type: DisplayType) -> NodeModel {
    NodeModel {
        id,
        node_type: NodeType::MemCell,
        parent_id: Some(parent),
        index,
        children: Seq::empty(),
        live: 0,
        value: v,
        complex: !model_is_simple(v),
        display_type,
    }
}

#[derive(Copy, Clone, Debug, PartialEq, Eq, Structural)]
pub enum NodeType {
    MemCell,
    NamedContainer,
}

impl Node {
    /// The live-child count never exceeds the allocated children.
    pub open spec fn wf(&self) -> bool {
        self.num_child_values <= self.children.len()
    }

    /// A member cell with no children.
    pub fn new(id: NId, value: Value, parent_id: Option<NId>, index: usize, display_type: DisplayType) -> (r: Node)
        ensures
            r.id == id,
            r.node_type == NodeType::MemCell,
            r.parent_id == parent_id,
            r.index == index,
            r.children@.len() == 0,
            r.num_child_values == 0,
            r.value@ == value@,
            r.is_complex == !model_is_simple(value@),
            r.display_type == display_type,
    {
        let is_complex = !value.is_simple();
        Node {
            id,
            node_type: NodeType::MemCell,
            parent_id,
            index,
            children: Vec::new(),
            num_child_values: 0,
            tags: Vec::new(),
            value,
            is_complex,
            display_type,
        }
    }

    /// A variable's node: no parent, no children, shown the default way.
    pub fn new_named_container(id: NId, value: Value) -> (r: Node)
        ensures
            r.id == id,
            r.node_type == NodeType::NamedContainer,
            r.parent_id is None,
            r.index == 0,
            r.children@.len() == 0,
            r.num_child_values == 0,
            r.value@ == value@,
            r.is_complex == !model_is_simple(value@),
            r.display_type == DisplayType::Default,
    {
        let is_complex = !value.is_simple();
        Node {
            id,
            node_type: NodeType::NamedContainer,
            parent_id: None,
            index: 0,
            children: Vec::new(),
            num_child_values: 0,
            tags: Vec::new(),
            value,
            is_complex,
            display_type: DisplayType::Default,
        }
    }

    /// Clears the live children, the tags and the value; the allocated
    /// children, the id and the complexity flag stay.
    pub fn reset(&mut self)
        ensures
            final(self).num_child_values == 0,
            final(self).tags@.len() == 0,
            final(self).value@ == ValueModel::Undefined,
            final(self).id == old(self).id,
            final(self).node_type == old(self).node_type,
            final(self).parent_id == old(self).parent_id,
            final(self).index == old(self).index,
            final(self).children == old(self).children,
            final(self).is_complex == old(self).is_complex,
            final(self).display_type == old(self).display_type,
    {
        self.num_child_values = 0;
        self.tags.clear();
        self.set_value(Value::UndefinedVal);
    }

    pub fn id(&self) -> (r: NId)
        ensures
            r == self.id,
    {
        self.id
    }

    pub fn parent_id(&self) -> (r: Option<&NId>)
        ensures
            r is Some == self.parent_id is Some,
            r is Some ==> *r->0 == self.parent_id->0,
    {
        self.parent_id.as_ref()
    }

    pub fn set_parent_id(&mut self, parent_id: Option<NId>)
        ensures
            *final(self) == (Node { parent_id, ..*old(self) }),
    {
        self.parent_id = parent_id;
    }

    pub fn index(&self) -> (r: usize)
        ensures
            r == self.index,
    {
        self.index
    }

    pub fn set_index(&mut self, index: usize)
        ensures
            *final(self) == (Node { index, ..*old(self) }),
    {
        self.index = index;
    }

    pub fn children(&self) -> (r: &Vec<NId>)
        ensures
            *r == self.children,
    {
        &self.children
    }

    pub fn children_mut(&mut self) -> (r: &mut Vec<NId>)
        ensures
            *r == old(self).children,
            *final(self) == (Node { children: *final(r), ..*old(self) }),
    {
        &mut self.children
    }

    pub fn num_children(&self) -> (r: usize)
        ensures
            r == self.num_child_values,
    {
        self.num_child_values
    }

    pub fn increment_num_children(&mut self)
        requires
            old(self).num_child_values < old(self).children.len(),
        ensures
            *final(self) == (Node { num_child_values: (old(self).num_child_values + 1) as usize, ..*old(self) }),
    {
        self.num_child_values += 1;
    }

    pub fn decrement_num_children(&mut self)
        requires
            old(self).num_child_values > 0,
        ensures
            *final(self) == (Node { num_child_values: (old(self).num_child_values - 1) as usize, ..*old(self) }),
    {
        self.num_child_values -= 1;
    }

    pub fn value(&self) -> (r: &Value)
        ensures
            *r == self.value,
    {
        &self.value
    }

    /// Stores a value; holding an array makes the node complex for good.
    pub fn set_value(&mut self, value: Value)
        ensures
            final(self).value@ == value@,
            final(self).is_complex == (old(self).is_complex || !model_is_simple(value@)),
            final(self).id == old(self).id,
            final(self).node_type == old(self).node_type,
            final(self).parent_id == old(self).parent_id,
            final(self).index == old(self).index,
            final(self).children == old(self).children,
            final(self).num_child_values == old(self).num_child_values,
            final(self).tags == old(self).tags,
            final(self).display_type == old(self).display_type,
    {
        if !value.is_simple() {
            self.is_complex = true;
        }
        self.value = value;
    }

    /// Stores a value and hands back the one it held.
    pub fn replace_value(&mut self, value: Value) -> (r: Value)
        ensures
            r == old(self).value,
            final(self).value@ == value@,
            final(self).is_complex == (old(self).is_complex || !model_is_simple(value@)),
            final(self).id == old(self).id,
            final(self).node_type == old(self).node_type,
            final(self).parent_id == old(self).parent_id,
            final(self).index == old(self).index,
            final(self).children == old(self).children,
            final(self).num_child_values == old(self).num_child_values,
            final(self).tags == old(self).tags,
            final(self).display_type == old(self).display_type,
    {
        let mut v = value;
        if !v.is_simple() {
            self.is_complex = true;
        }
        core::mem::swap(&mut self.value, &mut v);
        v
    }

    pub fn should_show_name(&self) -> (r: bool)
        ensures
            r == (self.is_complex || !(self.value@ is Undefined)),
    {
        self.is_ever_complex() || !self.value.is_undefined()
    }

    pub fn should_show_value(&self) -> (r: bool)
        ensures
            r == match self.display_type {
                DisplayType::Default => !self.is_complex && !(self.value@ is Undefined),
                DisplayType::Tree => true,
            },
    {
        match self.display_type {
            DisplayType::Default => self.is_always_simple() && !self.value.is_undefined(),
            DisplayType::Tree => true,
        }
    }

    pub fn is_always_simple(&self) -> (r: bool)
        ensures
            r == !self.is_complex,
    {
        !self.is_ever_complex()
    }

    pub fn is_ever_complex(&self) -> (r: bool)
        ensures
            r == self.is_complex,
    {
        self.is_complex
    }

    pub fn set_complex(&mut self)
        ensures
            *final(self) == (Node { is_complex: true, ..*old(self) }),
    {
        self.is_complex = true;
    }

    pub fn has_index_label(&self) -> (r: bool)
        ensures
            r == self.parent_id is Some,
    {
        self.parent_id.is_some()
    }

    pub fn display_type(&self) -> (r: DisplayType)
        ensures
            r == self.display_type,
    {
        self.display_type
    }

    pub fn set_display_type(&mut self, display_type: DisplayType)
        ensures
            *final(self) == (Node { display_type, ..*old(self) }),
    {
        self.display_type = display_type;
    }
}

impl NodeIdGenerator {
    pub fn new() -> (r: NodeIdGenerator)
        ensures
            r.next == 0,
    {
        NodeIdGenerator { next: 0 }
    }

    /// Hands out the next id; running out of ids is a caller's error.
    pub fn next(&mut self) -> (r: NId)
        requires
            old(self).next < usize::MAX,
        ensures
            r == old(self).next,
            final(self).next == old(self).next + 1,
    {
        let cur = self.next;
        self.next = self.next + 1;
        cur
    }
}

} // verus!
