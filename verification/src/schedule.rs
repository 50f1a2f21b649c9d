//! Interleavings: what holds of the protocol whatever the order in which the
//! operations in flight perform their atomic actions.
use crate::model::{carried_by, lemma_advance_inv, lemma_advance_log, lemma_init_inv};
use crate::model::{lemma_begin_offer_inv, lemma_begin_take_inv, lemma_carried_none};
use crate::model::Model;
use vstd::prelude::*;

verus! {

/// One move of a scheduler.
pub enum Event<T> {
    /// An enqueue of `value` starts in slot `slot`.
    Offer { slot: int, value: T },
    /// A dequeue starts in slot `slot`.
    Take { slot: int },
    /// The operation in slot `slot` performs its next atomic action.
    Act { slot: int },
}

impl<T> Model<T> {
    /// The state after one move. A move that the state does not allow (a start
    /// in an occupied slot, an action of a vacant one) changes nothing.
    pub open spec fn apply(self, event: Event<T>) -> Self {
        match event {
            Event::Offer { slot, value } => if self.admits(slot) {
                self.begin_offer(slot, value)
            } else {
                self
            },
            Event::Take { slot } => if self.admits(slot) {
                self.begin_take(slot)
            } else {
                self
            },
            Event::Act { slot } => if self.in_flight(slot) {
                self.advance(slot)
            } else {
                self
            },
        }
    }

    /// The state after the moves of `events`, in their order.
    pub open spec fn run(self, events: Seq<Event<T>>) -> Self
        decreases events.len(),
    {
        if events.len() == 0 {
            self
        } else {
            self.run(events.drop_last()).apply(events.last())
        }
    }
}

/// One move keeps the protocol's invariant, only ever appends to the linked
/// values and only ever moves the head pointer forward.
pub proof fn lemma_apply<T>(m: Model<T>, event: Event<T>)
    requires
        m.inv(),
    ensures
        m.apply(event).inv(),
        m.offered.len() <= m.apply(event).offered.len(),
        m.apply(event).offered.take(m.offered.len() as int) == m.offered,
        m.front <= m.apply(event).front,
{
    match event {
        Event::Offer { slot, value } => {
            if m.admits(slot) {
                lemma_begin_offer_inv(m, slot, value);
            }
        },
        Event::Take { slot } => {
            if m.admits(slot) {
                lemma_begin_take_inv(m, slot);
            }
        },
        Event::Act { slot } => {
            if m.in_flight(slot) {
                lemma_advance_inv(m, slot);
                lemma_advance_log(m, slot);
            }
        },
    }
}

/// Whatever the interleaving, the protocol's invariant holds at its end: the
/// head pointer has not passed the last node, the tail pointer is at the last
/// node or one link behind it, and every operation in flight holds positions
/// that its pointer has reached.
pub proof fn lemma_run_inv<T>(m: Model<T>, events: Seq<Event<T>>)
    requires
        m.inv(),
    ensures
        m.run(events).inv(),
    decreases events.len(),
{
    if events.len() > 0 {
        lemma_run_inv(m, events.drop_last());
        lemma_apply(m.run(events.drop_last()), events.last());
    }
}

/// Every state that a new queue can reach, by whatever interleaving, keeps
/// the protocol's invariant.
pub proof fn lemma_reachable_inv<T>(events: Seq<Event<T>>)
    ensures
        Model::<T>::init().run(events).inv(),
{
    lemma_init_inv::<T>();
    lemma_run_inv(Model::<T>::init(), events);
}

/// No value is lost and none is made up: whatever the interleaving, the
/// values handed to enqueues are, each as often as it was handed in, the
/// values handed out, the values in the queue and the values that enqueues in
/// flight have yet to link. Once no operation is in flight and the queue is
/// drained, the values handed out are exactly the values handed in.
pub proof fn lemma_nothing_lost<T>(m: Model<T>)
    requires
        m.inv(),
    ensures
        m.submitted == m.taken().to_multiset().add(m.contents().to_multiset()).add(
            carried_by(m.ops),
        ),
        m.quiescent() && m.contents().len() == 0 ==> m.taken().to_multiset() == m.submitted,
{
    vstd::seq_lib::lemma_multiset_commutative(m.taken(), m.contents());
    assert(m.taken() + m.contents() =~= m.offered);
    if m.quiescent() && m.contents().len() == 0 {
        lemma_carried_none(m.ops);
    }
}

/// Values leave in the order in which they were linked, whatever the
/// interleaving: a value linked at index `i` keeps that index, every value
/// linked later has a greater one, and the values handed out are always the
/// linked values up to the head pointer. So where a value linked later has
/// been handed out, the earlier one was handed out before it.
///
/// An enqueue returns only after it has linked its value, so the values of
/// one producer, which starts an enqueue after the one before has returned,
/// leave in the order in which it enqueued them.
pub proof fn lemma_order_kept<T>(m: Model<T>, events: Seq<Event<T>>, i: int, j: int)
    requires
        m.inv(),
        0 <= i < m.offered.len(),
        m.offered.len() <= j < m.run(events).front,
    ensures
        i < j,
        m.run(events).taken().len() == m.run(events).front,
        m.run(events).taken()[i] == m.offered[i],
        m.run(events).taken()[j] == m.run(events).offered[j],
{
    lemma_run_log(m, events);
    lemma_run_inv(m, events);
}

/// An interleaving only ever appends to the linked values, and only ever
/// moves the head pointer forward.
pub proof fn lemma_run_log<T>(m: Model<T>, events: Seq<Event<T>>)
    requires
        m.inv(),
    ensures
        m.offered.len() <= m.run(events).offered.len(),
        m.run(events).offered.take(m.offered.len() as int) == m.offered,
        m.front <= m.run(events).front,
    decreases events.len(),
{
    if events.len() > 0 {
        lemma_run_log(m, events.drop_last());
        lemma_run_inv(m, events.drop_last());
        lemma_apply(m.run(events.drop_last()), events.last());
    }
}

} // verus!
