//! The deferred-work queue.
//!
//! Document mutations that need not happen synchronously, and pending state
//! updates, are queued as plain values and flushed by the host at a
//! well-defined point (an animation-frame-equivalent callback).  A flush
//! applies the queued work first-in first-out and runs to completion; the
//! queue records with a flag whether a flush has been requested, which
//! happens when work is queued onto an empty queue.

use vstd::prelude::*;

use crate::arena::{insert_before_spec, remove_first_spec, Arena, NodeRep, Stage};

verus! {

/// One unit of deferred work.
#[derive(Clone, Copy, PartialEq, Eq, Structural)]
pub enum QueuedOp {
    /// Insert `child` before `next_child` (or at the end, without an anchor)
    /// among the live children of `parent`.
    InsertChildBefore { parent: usize, child: usize, next_child: Option<usize> },
    /// Remove `child` from the live children of `parent`.
    RemoveChild { parent: usize, child: usize },
    /// Apply the pending value of the state setter with this identity; the
    /// host resolves the identity, so a flush hands these back in order.
    StateUpdate { setter: u64 },
}

/// How the arena changes when one queued operation is applied.  An operation
/// whose nodes are gone or whose parent is not a live node does nothing.
pub open spec fn op_applies(pre: Seq<NodeRep>, post: Seq<NodeRep>, op: QueuedOp) -> bool {
    match op {
        QueuedOp::InsertChildBefore { parent, child, next_child } => {
            if parent < pre.len() && child < pre.len() && pre[parent as int].stage
                == Stage::LiveOnly {
                &&& Arena::same_but_children(pre, post, parent as int)
                &&& post[parent as int].children@ == insert_before_spec(
                    pre[parent as int].children@,
                    child,
                    next_child,
                )
            } else {
                post == pre
            }
        },
        QueuedOp::RemoveChild { parent, child } => {
            if parent < pre.len() && pre[parent as int].stage == Stage::LiveOnly {
                &&& Arena::same_but_children(pre, post, parent as int)
                &&& post[parent as int].children@ == remove_first_spec(
                    pre[parent as int].children@,
                    child,
                )
            } else {
                post == pre
            }
        },
        QueuedOp::StateUpdate { .. } => post == pre,
    }
}

/// How the arena changes when a list of queued operations is applied in
/// order.
pub open spec fn ops_apply(pre: Seq<NodeRep>, post: Seq<NodeRep>, ops: Seq<QueuedOp>) -> bool
    decreases ops.len(),
{
    if ops.len() == 0 {
        post == pre
    } else {
        exists|mid: Seq<NodeRep>|
            ops_apply(pre, mid, ops.drop_last()) && op_applies(mid, post, ops.last())
    }
}

proof fn lemma_ops_apply_snoc(
    pre: Seq<NodeRep>,
    mid: Seq<NodeRep>,
    post: Seq<NodeRep>,
    ops: Seq<QueuedOp>,
    op: QueuedOp,
)
    requires
        ops_apply(pre, mid, ops),
        op_applies(mid, post, op),
    ensures
        ops_apply(pre, post, ops.push(op)),
{
    assert(ops.push(op).drop_last() =~= ops);
    assert(ops.push(op).last() == op);
    assert(ops_apply(pre, mid, ops.push(op).drop_last()) && op_applies(mid, post, ops.push(op).last()));
}

/// The identities of the queued state updates, in queue order.
pub open spec fn state_tokens(ops: Seq<QueuedOp>) -> Seq<u64>
    decreases ops.len(),
{
    if ops.len() == 0 {
        Seq::empty()
    } else {
        state_tokens(ops.drop_last()) + (match ops.last() {
            QueuedOp::StateUpdate { setter } => seq![setter],
            _ => Seq::empty(),
        })
    }
}

/// The queue of deferred work.
pub struct EffectQueue {
    ops: Vec<QueuedOp>,
    frame_requested: bool,
}

impl View for EffectQueue {
    type V = Seq<QueuedOp>;

    closed spec fn view(&self) -> Seq<QueuedOp> {
        self.ops@
    }
}

impl EffectQueue {
    /// Whether the host has been asked to flush the queue.
    pub closed spec fn frame_is_requested(self) -> bool {
        self.frame_requested
    }

    pub fn new() -> (q: EffectQueue)
        ensures
            q@ == Seq::<QueuedOp>::empty(),
            !q.frame_is_requested(),
    {
        let q = EffectQueue { ops: Vec::new(), frame_requested: false };
        proof {
            assert(q@ =~= Seq::<QueuedOp>::empty());
        }
        q
    }

    /// Ask the host for a flush at its next animation-frame-equivalent
    /// callback.
    pub fn request_process_updates(&mut self)
        ensures
            final(self)@ == old(self)@,
            final(self).frame_is_requested(),
    {
        self.frame_requested = true;
    }

    /// Queue one unit of work.  Work queued onto an empty queue requests a
    /// flush from the host.
    pub fn enqueue(&mut self, op: QueuedOp)
        ensures
            final(self)@ == old(self)@.push(op),
            final(self).frame_is_requested() == (old(self).frame_is_requested() || old(
                self,
            )@.len() == 0),
    {
        if self.ops.len() == 0 {
            self.request_process_updates();
        }
        self.ops.push(op);
    }

    pub fn len(&self) -> (n: usize)
        ensures
            n == self@.len(),
    {
        self.ops.len()
    }

    pub fn frame_requested(&self) -> (r: bool)
        ensures
            r == self.frame_is_requested(),
    {
        self.frame_requested
    }
}

/// Flush the queue: apply every queued document mutation to the arena in
/// first-in first-out order, and hand the queued state-update identities
/// back to the host in the same order.  The queue is empty afterwards and
/// no flush is requested any more.
pub fn process_updates(arena: &mut Arena, queue: &mut EffectQueue) -> (tokens: Vec<u64>)
    requires
        old(arena).wf(),
    ensures
        final(arena).wf(),
        ops_apply(old(arena)@, final(arena)@, old(queue)@),
        tokens@ == state_tokens(old(queue)@),
        final(queue)@ == Seq::<QueuedOp>::empty(),
        !final(queue).frame_is_requested(),
{
    let mut tokens: Vec<u64> = Vec::new();
    let n = queue.ops.len();
    let mut i: usize = 0;
    while i < n
        invariant
            arena.wf(),
            i <= n,
            n == queue@.len(),
            queue@ == old(queue)@,
            ops_apply(old(arena)@, arena@, queue@.take(i as int)),
            tokens@ == state_tokens(queue@.take(i as int)),
        decreases n - i,
    {
        let ghost pre = arena@;
        let op = queue.ops[i];
        match op {
            QueuedOp::InsertChildBefore { parent, child, next_child } => {
                if parent < arena.node_count() && child < arena.node_count() {
                    if arena.stage_at(parent) == Stage::LiveOnly {
                        arena.insert_child_before_anchor(parent, child, next_child);
                    }
                }
            },
            QueuedOp::RemoveChild { parent, child } => {
                if parent < arena.node_count() {
                    if arena.stage_at(parent) == Stage::LiveOnly {
                        arena.remove_child_first(parent, child);
                    }
                }
            },
            QueuedOp::StateUpdate { setter } => {
                tokens.push(setter);
            },
        }
        proof {
            assert(op_applies(pre, arena@, op));
            assert(queue@.take(i + 1) =~= queue@.take(i as int).push(op));
            lemma_ops_apply_snoc(old(arena)@, pre, arena@, queue@.take(i as int), op);
            assert(queue@.take(i + 1).drop_last() =~= queue@.take(i as int));
            assert(tokens@ =~= state_tokens(queue@.take(i + 1)));
        }
        i = i + 1;
    }
    proof {
        assert(queue@.take(n as int) =~= old(queue)@);
    }
    queue.ops.clear();
    queue.frame_requested = false;
    proof {
        assert(queue@ =~= Seq::<QueuedOp>::empty());
    }
    tokens
}

} // verus!
