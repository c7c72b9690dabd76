//! State setters.
//!
//! A [`StateSetter`] is the write half of a piece of reactive state the host
//! computes from: setting a value records it as pending and queues one
//! update for the host's next flush.  Setting again before the flush only
//! replaces the pending value — one queued update applies the latest value,
//! so a burst of writes costs one unit of deferred work.

use vstd::prelude::*;

use crate::queue::{EffectQueue, QueuedOp};

verus! {

/// The write half of a piece of reactive state, known to the host by its
/// identity.
pub struct StateSetter<T> {
    id: u64,
    new_state: Option<T>,
}

impl<T> StateSetter<T> {
    /// The identity the host resolves when applying queued updates.
    pub closed spec fn setter_id(self) -> u64 {
        self.id
    }

    /// The value waiting to be applied, if one is.
    pub closed spec fn pending(self) -> Option<T> {
        self.new_state
    }

    /// A setter with identity `id` and nothing pending.
    pub fn new(id: u64) -> (s: StateSetter<T>)
        ensures
            s.setter_id() == id,
            s.pending() is None,
    {
        StateSetter { id, new_state: None }
    }

    /// Record `new_value` as the pending value.  The first set after a
    /// flush queues one update; later sets before the flush only replace
    /// the value.
    pub fn set(&mut self, queue: &mut EffectQueue, new_value: T)
        ensures
            final(self).setter_id() == old(self).setter_id(),
            final(self).pending() == Some(new_value),
            old(self).pending() is Some ==> {
                &&& final(queue)@ == old(queue)@
                &&& final(queue).frame_is_requested() == old(queue).frame_is_requested()
            },
            old(self).pending() is None ==> {
                &&& final(queue)@ == old(queue)@.push(
                    QueuedOp::StateUpdate { setter: old(self).setter_id() },
                )
                &&& final(queue).frame_is_requested() == (old(queue).frame_is_requested() || old(
                    queue,
                )@.len() == 0)
            },
    {
        let had = self.new_state.is_some();
        self.new_state = Some(new_value);
        if !had {
            queue.enqueue(QueuedOp::StateUpdate { setter: self.id });
        }
    }

    /// Hand the pending value out for the host to apply, leaving nothing
    /// pending.
    pub fn take(&mut self) -> (v: Option<T>)
        ensures
            final(self).setter_id() == old(self).setter_id(),
            final(self).pending() is None,
            v == old(self).pending(),
    {
        let mut v: Option<T> = None;
        core::mem::swap(&mut v, &mut self.new_state);
        v
    }
}

} // verus!
