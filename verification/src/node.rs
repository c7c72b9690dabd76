//! Node handles.
//!
//! A handle holds the arena index of the node it stands for; copying a
//! handle never copies the node, and two handles with the same index are the
//! same node.  Every mutating operation takes the arena (and, for deferred
//! document mutations, the work queue) explicitly: a handle owns no storage.
//!
//! An operation on a node is applied to whatever representation currently
//! backs it: the markup description of a `MarkupOnly` or `Hydrating` node,
//! or the live document node of a `LiveOnly` node.  Child insertion and
//! removal on a live node are deferred through the queue, so a burst of
//! them is applied in one batch at the host's next flush; their `..._now`
//! forms and all other operations apply synchronously.

use core::marker::PhantomData;

use vstd::prelude::*;

use crate::arena::{
    attrs_set_rel, d_attrs, d_ns, d_tag, d_text, insert_before_spec, remove_first_spec,
    replace_first_spec, Arena, Stage,
};
use crate::dom::Dom;
use crate::queue::{EffectQueue, QueuedOp};

verus! {

/// A handle to an element node.
#[derive(Clone, Copy, PartialEq, Eq, Structural)]
pub struct DomElement {
    pub id: usize,
}

/// A handle to a text node.
#[derive(Clone, Copy, PartialEq, Eq, Structural)]
pub struct DomText {
    pub id: usize,
}

/// A handle to either kind of node, for storing nodes uniformly.
#[derive(Clone, Copy, PartialEq, Eq, Structural)]
pub enum DomNodeData {
    Element(DomElement),
    Text(DomText),
}

/// The arena index a handle stands for.
pub open spec fn node_id(d: DomNodeData) -> usize {
    match d {
        DomNodeData::Element(e) => e.id,
        DomNodeData::Text(t) => t.id,
    }
}

/// A node in the tree: anything that can stand for an element or text
/// handle without first constructing a [`DomNodeData`].
pub trait DomNode: Sized {
    spec fn data(&self) -> DomNodeData;

    fn node_data(&self) -> (d: DomNodeData)
        ensures
            d == self.data(),
    ;
}

impl DomNode for DomElement {
    open spec fn data(&self) -> DomNodeData {
        DomNodeData::Element(*self)
    }

    fn node_data(&self) -> (d: DomNodeData)
        ensures
            d == self.data(),
    {
        DomNodeData::Element(*self)
    }
}

impl DomNode for DomText {
    open spec fn data(&self) -> DomNodeData {
        DomNodeData::Text(*self)
    }

    fn node_data(&self) -> (d: DomNodeData)
        ensures
            d == self.data(),
    {
        DomNodeData::Text(*self)
    }
}

impl DomNode for DomNodeData {
    open spec fn data(&self) -> DomNodeData {
        *self
    }

    fn node_data(&self) -> (d: DomNodeData)
        ensures
            d == self.data(),
    {
        *self
    }
}

impl DomNodeData {
    /// Whether two handles stand for the same node: the same kind and the
    /// same arena entry.
    pub fn is_same(&self, other: &Self) -> (r: bool)
        ensures
            r == (*self == *other),
    {
        match (self, other) {
            (DomNodeData::Element(a), DomNodeData::Element(b)) => a.id == b.id,
            (DomNodeData::Text(a), DomNodeData::Text(b)) => a.id == b.id,
            _ => false,
        }
    }
}

impl DomElement {
    /// Create an element description awaiting hydration or direct use.
    pub fn new(arena: &mut Arena, tag: &str) -> (e: DomElement)
        requires
            old(arena).wf(),
        ensures
            final(arena).wf(),
            e.id == old(arena)@.len(),
            final(arena)@.len() == old(arena)@.len() + 1,
            forall|j: int| 0 <= j < old(arena)@.len() ==> final(arena)@[j] == old(arena)@[j],
            final(arena).data_of(e.id as int) is Element,
            d_tag(final(arena).data_of(e.id as int)) == tag@,
            d_ns(final(arena).data_of(e.id as int)) is None,
            d_attrs(final(arena).data_of(e.id as int)) == Seq::<(String, String)>::empty(),
            final(arena).children_of(e.id as int) == Seq::<usize>::empty(),
            final(arena).stage_of(e.id as int) == Stage::Hydrating,
    {
        let id = arena.new_element(tag, None, Stage::Hydrating);
        DomElement { id }
    }

    /// Create a namespaced element description.
    pub fn new_in_namespace(arena: &mut Arena, namespace: &str, tag: &str) -> (e: DomElement)
        requires
            old(arena).wf(),
        ensures
            final(arena).wf(),
            e.id == old(arena)@.len(),
            final(arena)@.len() == old(arena)@.len() + 1,
            forall|j: int| 0 <= j < old(arena)@.len() ==> final(arena)@[j] == old(arena)@[j],
            final(arena).data_of(e.id as int) is Element,
            d_tag(final(arena).data_of(e.id as int)) == tag@,
            d_ns(final(arena).data_of(e.id as int)) == Some(namespace@),
            d_attrs(final(arena).data_of(e.id as int)) == Seq::<(String, String)>::empty(),
            final(arena).children_of(e.id as int) == Seq::<usize>::empty(),
            final(arena).stage_of(e.id as int) == Stage::Hydrating,
    {
        let id = arena.new_element(tag, Some(namespace), Stage::Hydrating);
        DomElement { id }
    }

    /// Release spare capacity; no observable change.
    pub fn shrink_to_fit(&self, arena: &mut Arena)
        requires
            old(arena).wf(),
            old(arena).valid(self.id as int),
        ensures
            final(arena).wf(),
            final(arena)@.len() == old(arena)@.len(),
            forall|j: int|
                0 <= j < old(arena)@.len() && j != self.id ==> final(arena)@[j] == old(arena)@[j],
            final(arena).children_of(self.id as int) == old(arena).children_of(self.id as int),
            final(arena)@[self.id as int].stored@ == old(arena)@[self.id as int].stored@,
            final(arena)@[self.id as int].listeners == old(arena)@[self.id as int].listeners,
            final(arena).data_of(self.id as int) == old(arena).data_of(self.id as int),
            final(arena).stage_of(self.id as int) == old(arena).stage_of(self.id as int),
    {
        arena.shrink_node(self.id);
    }

    /// Keep `child` alive on behalf of this node without making it a child.
    pub fn store_child(&self, arena: &mut Arena, child: DomNodeData)
        requires
            old(arena).wf(),
            old(arena).valid(self.id as int),
            old(arena).valid(node_id(child) as int),
        ensures
            final(arena).wf(),
            final(arena)@.len() == old(arena)@.len(),
            forall|j: int|
                0 <= j < old(arena)@.len() && j != self.id ==> final(arena)@[j] == old(arena)@[j],
            final(arena)@[self.id as int].data == old(arena)@[self.id as int].data,
            final(arena)@[self.id as int].stage == old(arena)@[self.id as int].stage,
            final(arena)@[self.id as int].children == old(arena)@[self.id as int].children,
            final(arena)@[self.id as int].listeners == old(arena)@[self.id as int].listeners,
            final(arena)@[self.id as int].stored@ == old(arena)@[self.id as int].stored@.push(
                node_id(child),
            ),
    {
        arena.store_in(self.id, node_id_of(child));
    }

    /// Append `child` as the last child, synchronously.
    pub fn append_child_now<C: DomNode>(&self, arena: &mut Arena, child: &C)
        requires
            old(arena).wf(),
            old(arena).valid(self.id as int),
            old(arena).valid(node_id(child.data()) as int),
            old(arena).stage_of(self.id as int) != Stage::LiveOnly ==> node_id(child.data())
                < self.id,
        ensures
            final(arena).wf(),
            Arena::same_but_children(old(arena)@, final(arena)@, self.id as int),
            final(arena).children_of(self.id as int) == old(arena).children_of(
                self.id as int,
            ).push(node_id(child.data())),
    {
        let c = node_id_of(child.node_data());
        arena.append_child(self.id, c);
    }

    /// Insert `child` before `next_child` (or append without an anchor).  On
    /// a live node the mutation is queued for the next flush; on a
    /// description it happens synchronously.
    pub fn insert_child_before<C: DomNode, N: DomNode>(
        &self,
        arena: &mut Arena,
        queue: &mut EffectQueue,
        child: &C,
        next_child: Option<&N>,
    )
        requires
            old(arena).wf(),
            old(arena).valid(self.id as int),
            old(arena).valid(node_id(child.data()) as int),
            old(arena).stage_of(self.id as int) != Stage::LiveOnly ==> node_id(child.data())
                < self.id,
        ensures
            final(arena).wf(),
            old(arena).stage_of(self.id as int) == Stage::LiveOnly ==> {
                &&& final(arena)@ == old(arena)@
                &&& final(queue)@ == old(queue)@.push(
                    QueuedOp::InsertChildBefore {
                        parent: self.id,
                        child: node_id(child.data()),
                        next_child: (match next_child {
                            Some(n) => Some(node_id(n.data())),
                            None => None,
                        }),
                    },
                )
                &&& final(queue).frame_is_requested() == (old(queue).frame_is_requested() || old(
                    queue,
                )@.len() == 0)
            },
            old(arena).stage_of(self.id as int) != Stage::LiveOnly ==> {
                &&& final(queue)@ == old(queue)@
                &&& final(queue).frame_is_requested() == old(queue).frame_is_requested()
                &&& Arena::same_but_children(old(arena)@, final(arena)@, self.id as int)
                &&& final(arena).children_of(self.id as int) == insert_before_spec(
                    old(arena).children_of(self.id as int),
                    node_id(child.data()),
                    (match next_child {
                        Some(n) => Some(node_id(n.data())),
                        None => None,
                    }),
                )
            },
    {
        let c = node_id_of(child.node_data());
        let next: Option<usize> = match next_child {
            Some(n) => Some(node_id_of(n.node_data())),
            None => None,
        };
        if matches!(arena.stage_at(self.id), Stage::LiveOnly) {
            queue.enqueue(QueuedOp::InsertChildBefore { parent: self.id, child: c, next_child: next });
        } else {
            arena.insert_child_before_anchor(self.id, c, next);
        }
    }

    /// Insert `child` before `next_child` synchronously.
    pub fn insert_child_before_now<C: DomNode, N: DomNode>(
        &self,
        arena: &mut Arena,
        child: &C,
        next_child: Option<&N>,
    )
        requires
            old(arena).wf(),
            old(arena).valid(self.id as int),
            old(arena).valid(node_id(child.data()) as int),
            old(arena).stage_of(self.id as int) != Stage::LiveOnly ==> node_id(child.data())
                < self.id,
        ensures
            final(arena).wf(),
            Arena::same_but_children(old(arena)@, final(arena)@, self.id as int),
            final(arena).children_of(self.id as int) == insert_before_spec(
                old(arena).children_of(self.id as int),
                node_id(child.data()),
                (match next_child {
                    Some(n) => Some(node_id(n.data())),
                    None => None,
                }),
            ),
    {
        let c = node_id_of(child.node_data());
        let next: Option<usize> = match next_child {
            Some(n) => Some(node_id_of(n.node_data())),
            None => None,
        };
        arena.insert_child_before_anchor(self.id, c, next);
    }

    /// Replace the first occurrence of `old_child` among the children by
    /// `new_child`, synchronously.
    pub fn replace_child<C: DomNode, D: DomNode>(
        &self,
        arena: &mut Arena,
        new_child: &C,
        old_child: &D,
    )
        requires
            old(arena).wf(),
            old(arena).valid(self.id as int),
            old(arena).valid(node_id(new_child.data()) as int),
            old(arena).stage_of(self.id as int) != Stage::LiveOnly ==> node_id(new_child.data())
                < self.id,
        ensures
            final(arena).wf(),
            Arena::same_but_children(old(arena)@, final(arena)@, self.id as int),
            final(arena).children_of(self.id as int) == replace_first_spec(
                old(arena).children_of(self.id as int),
                node_id(old_child.data()),
                node_id(new_child.data()),
            ),
    {
        let n = node_id_of(new_child.node_data());
        let o = node_id_of(old_child.node_data());
        arena.replace_child_first(self.id, n, o);
    }

    /// Remove `child` from the children.  On a live node the removal is
    /// queued for the next flush; on a description it happens synchronously.
    pub fn remove_child<C: DomNode>(&self, arena: &mut Arena, queue: &mut EffectQueue, child: &C)
        requires
            old(arena).wf(),
            old(arena).valid(self.id as int),
        ensures
            final(arena).wf(),
            old(arena).stage_of(self.id as int) == Stage::LiveOnly ==> {
                &&& final(arena)@ == old(arena)@
                &&& final(queue)@ == old(queue)@.push(
                    QueuedOp::RemoveChild { parent: self.id, child: node_id(child.data()) },
                )
                &&& final(queue).frame_is_requested() == (old(queue).frame_is_requested() || old(
                    queue,
                )@.len() == 0)
            },
            old(arena).stage_of(self.id as int) != Stage::LiveOnly ==> {
                &&& final(queue)@ == old(queue)@
                &&& final(queue).frame_is_requested() == old(queue).frame_is_requested()
                &&& Arena::same_but_children(old(arena)@, final(arena)@, self.id as int)
                &&& final(arena).children_of(self.id as int) == remove_first_spec(
                    old(arena).children_of(self.id as int),
                    node_id(child.data()),
                )
            },
    {
        let c = node_id_of(child.node_data());
        if matches!(arena.stage_at(self.id), Stage::LiveOnly) {
            queue.enqueue(QueuedOp::RemoveChild { parent: self.id, child: c });
        } else {
            arena.remove_child_first(self.id, c);
        }
    }

    /// Remove `child` from the children, synchronously.
    pub fn remove_child_now<C: DomNode>(&self, arena: &mut Arena, child: &C)
        requires
            old(arena).wf(),
            old(arena).valid(self.id as int),
        ensures
            final(arena).wf(),
            Arena::same_but_children(old(arena)@, final(arena)@, self.id as int),
            final(arena).children_of(self.id as int) == remove_first_spec(
                old(arena).children_of(self.id as int),
                node_id(child.data()),
            ),
    {
        let c = node_id_of(child.node_data());
        arena.remove_child_first(self.id, c);
    }

    /// Remove every child, synchronously.
    pub fn clear_children(&self, arena: &mut Arena)
        requires
            old(arena).wf(),
            old(arena).valid(self.id as int),
        ensures
            final(arena).wf(),
            Arena::same_but_children(old(arena)@, final(arena)@, self.id as int),
            final(arena).children_of(self.id as int) == Seq::<usize>::empty(),
    {
        arena.clear_children_of(self.id);
    }

    /// Set attribute `name` to `value`, synchronously.
    pub fn attribute(&self, arena: &mut Arena, name: &str, value: &str)
        requires
            old(arena).wf(),
            old(arena).valid(self.id as int),
            old(arena).data_of(self.id as int) is Element,
        ensures
            final(arena).wf(),
            final(arena)@.len() == old(arena)@.len(),
            forall|j: int|
                0 <= j < old(arena)@.len() && j != self.id ==> final(arena)@[j] == old(arena)@[j],
            final(arena)@[self.id as int].children == old(arena)@[self.id as int].children,
            final(arena)@[self.id as int].stored == old(arena)@[self.id as int].stored,
            final(arena)@[self.id as int].listeners == old(arena)@[self.id as int].listeners,
            final(arena)@[self.id as int].stage == old(arena)@[self.id as int].stage,
            final(arena).data_of(self.id as int) is Element,
            d_tag(final(arena).data_of(self.id as int)) == d_tag(old(arena).data_of(self.id as int)),
            d_ns(final(arena).data_of(self.id as int)) == d_ns(old(arena).data_of(self.id as int)),
            attrs_set_rel(
                crate::arena::d_attrs(old(arena).data_of(self.id as int)),
                crate::arena::d_attrs(final(arena).data_of(self.id as int)),
                name@,
                value@,
            ),
    {
        arena.set_attribute(self.id, name, value);
    }

    /// Bind the event `name` on this node.  Only the binding is recorded:
    /// the handler is the host's, keyed by node and event name.
    pub fn on(&self, arena: &mut Arena, name: &str)
        requires
            old(arena).wf(),
            old(arena).valid(self.id as int),
        ensures
            final(arena).wf(),
            final(arena)@.len() == old(arena)@.len(),
            forall|j: int|
                0 <= j < old(arena)@.len() && j != self.id ==> final(arena)@[j] == old(arena)@[j],
            final(arena)@[self.id as int].data == old(arena)@[self.id as int].data,
            final(arena)@[self.id as int].children == old(arena)@[self.id as int].children,
            final(arena)@[self.id as int].stored == old(arena)@[self.id as int].stored,
            final(arena)@[self.id as int].stage == old(arena)@[self.id as int].stage,
            final(arena)@[self.id as int].listeners@.len() == old(
                arena,
            )@[self.id as int].listeners@.len() + 1,
            forall|k: int|
                0 <= k < old(arena)@[self.id as int].listeners@.len()
                    ==> final(arena)@[self.id as int].listeners@[k] == old(
                    arena,
                )@[self.id as int].listeners@[k],
            final(arena)@[self.id as int].listeners@.last()@ == name@,
    {
        arena.bind_event(self.id, name);
    }
}

impl DomText {
    /// Create a text description awaiting hydration or direct use.
    pub fn new(arena: &mut Arena, text: &str) -> (t: DomText)
        requires
            old(arena).wf(),
        ensures
            final(arena).wf(),
            t.id == old(arena)@.len(),
            final(arena)@.len() == old(arena)@.len() + 1,
            forall|j: int| 0 <= j < old(arena)@.len() ==> final(arena)@[j] == old(arena)@[j],
            final(arena).data_of(t.id as int) is Text,
            d_text(final(arena).data_of(t.id as int)) == text@,
            final(arena).children_of(t.id as int) == Seq::<usize>::empty(),
            final(arena).stage_of(t.id as int) == Stage::Hydrating,
    {
        let id = arena.new_text(text, Stage::Hydrating);
        DomText { id }
    }

    /// Overwrite the content, synchronously.
    pub fn set_text(&self, arena: &mut Arena, text: &str)
        requires
            old(arena).wf(),
            old(arena).valid(self.id as int),
            old(arena).data_of(self.id as int) is Text,
        ensures
            final(arena).wf(),
            final(arena)@.len() == old(arena)@.len(),
            forall|j: int|
                0 <= j < old(arena)@.len() && j != self.id ==> final(arena)@[j] == old(arena)@[j],
            final(arena)@[self.id as int].children == old(arena)@[self.id as int].children,
            final(arena)@[self.id as int].stored == old(arena)@[self.id as int].stored,
            final(arena)@[self.id as int].listeners == old(arena)@[self.id as int].listeners,
            final(arena)@[self.id as int].stage == old(arena)@[self.id as int].stage,
            final(arena).data_of(self.id as int) is Text,
            d_text(final(arena).data_of(self.id as int)) == text@,
    {
        arena.set_text_at(self.id, text);
    }
}

/// The arena index behind a uniform handle.
pub fn node_id_of(d: DomNodeData) -> (id: usize)
    ensures
        id == node_id(d),
{
    match d {
        DomNodeData::Element(e) => e.id,
        DomNodeData::Text(t) => t.id,
    }
}

/// A text node of strategy `D`.
pub struct Text<D: Dom> {
    pub node: DomText,
    pub marker: PhantomData<D>,
}

impl<D: Dom> Text<D> {
    /// Create a text node in the stage strategy `D` asks for.
    pub fn new(arena: &mut Arena, content: &str) -> (t: Text<D>)
        requires
            old(arena).wf(),
        ensures
            final(arena).wf(),
            t.node.id == old(arena)@.len(),
            final(arena)@.len() == old(arena)@.len() + 1,
            forall|j: int| 0 <= j < old(arena)@.len() ==> final(arena)@[j] == old(arena)@[j],
            final(arena).data_of(t.node.id as int) is Text,
            d_text(final(arena).data_of(t.node.id as int)) == content@,
            final(arena).children_of(t.node.id as int) == Seq::<usize>::empty(),
            final(arena).stage_of(t.node.id as int) == D::stage_spec(),
    {
        let stage = D::stage();
        let id = arena.new_text(content, stage);
        Text { node: DomText { id }, marker: PhantomData }
    }
}

/// Construct a text node of strategy `D`.
pub fn text<D: Dom>(arena: &mut Arena, content: &str) -> (t: Text<D>)
    requires
        old(arena).wf(),
    ensures
        final(arena).wf(),
        t.node.id == old(arena)@.len(),
        final(arena)@.len() == old(arena)@.len() + 1,
        forall|j: int| 0 <= j < old(arena)@.len() ==> final(arena)@[j] == old(arena)@[j],
        final(arena).data_of(t.node.id as int) is Text,
        d_text(final(arena).data_of(t.node.id as int)) == content@,
        final(arena).stage_of(t.node.id as int) == D::stage_spec(),
{
    Text::<D>::new(arena, content)
}

} // verus!
