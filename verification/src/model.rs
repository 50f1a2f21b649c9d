//! The abstract protocol: what the shared memory of the queue looks like to
//! the operations that race on it, and what one atomic action of one
//! operation does to it.
//!
//! Nodes are identified by their position in the order in which they were
//! linked. Position 0 is the first sentinel; the value linked as number `k`
//! (counting from one) sits at position `k`, so the node at position `p > 0`
//! carries `offered[p - 1]`. The head pointer stands at position `front`, the
//! tail pointer at position `back`.
use vstd::multiset::*;
use vstd::prelude::*;

verus! {

/// The local state of one operation between two of its atomic actions.
///
/// An `anchor` is the position of the node that the operation last read the
/// tail pointer (an enqueue) or the head pointer (a dequeue) to be.
pub enum Op<T> {
    /// No operation occupies the slot.
    Vacant,
    /// An enqueue that owns an unlinked node and will read the tail pointer.
    OfferLoad { value: T },
    /// An enqueue that will read the link of its anchor.
    OfferProbe { value: T, anchor: nat },
    /// An enqueue that found its anchor unlinked and will try to link after it.
    OfferLink { value: T, anchor: nat },
    /// An enqueue that found a node behind its anchor and will help the tail
    /// pointer forward.
    OfferHelp { value: T, anchor: nat },
    /// An enqueue whose node is linked behind its anchor and which will try to
    /// move the tail pointer to it.
    OfferSwing { value: T, anchor: nat },
    /// A dequeue that will read the head pointer.
    TakeLoad,
    /// A dequeue that will read the link of its anchor.
    TakeProbe { anchor: nat },
    /// A dequeue that found a node behind its anchor and will try to move the
    /// head pointer to it.
    TakeSwing { anchor: nat },
}

/// What one atomic action told the caller.
#[derive(Debug)]
pub enum Progress<T> {
    /// The operation has more actions to perform.
    Pending,
    /// The enqueue has returned.
    Offered,
    /// The dequeue has returned, with a value or with "no item".
    Taken(Option<T>),
}

impl<T> Op<T> {
    /// The value that the operation holds and has not yet linked, if any.
    pub open spec fn carried(self) -> Multiset<T> {
        match self {
            Op::OfferLoad { value } => Multiset::singleton(value),
            Op::OfferProbe { value, .. } => Multiset::singleton(value),
            Op::OfferLink { value, .. } => Multiset::singleton(value),
            Op::OfferHelp { value, .. } => Multiset::singleton(value),
            _ => Multiset::empty(),
        }
    }

    /// The operation is an enqueue that has not linked its node yet.
    pub open spec fn is_unlinked(self) -> bool {
        self is OfferLoad || self is OfferProbe || self is OfferLink || self is OfferHelp
    }
}

/// The values held by the operations of `ops` that have not linked theirs yet.
pub open spec fn carried_by<T>(ops: Seq<Op<T>>) -> Multiset<T>
    decreases ops.len(),
{
    if ops.len() == 0 {
        Multiset::empty()
    } else {
        carried_by(ops.drop_last()).add(ops.last().carried())
    }
}

/// The shared state and the local states of all operations.
pub struct Model<T> {
    /// Every value ever linked, in the order of linking.
    pub offered: Seq<T>,
    /// The position of the head pointer: the number of values handed out.
    pub front: nat,
    /// The position of the tail pointer.
    pub back: nat,
    /// The slots for operations in flight.
    pub ops: Seq<Op<T>>,
    /// Every value ever handed to an enqueue.
    pub submitted: Multiset<T>,
}

impl<T> Model<T> {
    /// The state of a new queue.
    pub open spec fn init() -> Self {
        Model {
            offered: Seq::empty(),
            front: 0,
            back: 0,
            ops: Seq::empty(),
            submitted: Multiset::empty(),
        }
    }

    /// The values in the queue, oldest first.
    pub open spec fn contents(self) -> Seq<T> {
        self.offered.skip(self.front as int)
    }

    /// The values handed out so far, in the order in which they left.
    pub open spec fn taken(self) -> Seq<T> {
        self.offered.take(self.front as int)
    }

    /// The number of enqueues in flight that have not linked their node yet.
    pub open spec fn unlinked(self) -> nat {
        carried_by(self.ops).len()
    }

    /// Slot `id` holds an operation.
    pub open spec fn in_flight(self, id: int) -> bool {
        0 <= id < self.ops.len() && !(self.ops[id] is Vacant)
    }

    /// No operation is in flight.
    pub open spec fn quiescent(self) -> bool {
        forall|id: int| 0 <= id < self.ops.len() ==> self.ops[id] is Vacant
    }

    /// Slot `id` can take a new operation: it is vacant, or it is the next
    /// slot to be created.
    pub open spec fn admits(self, id: int) -> bool {
        id == self.ops.len() || (0 <= id < self.ops.len() && self.ops[id] is Vacant)
    }

    /// Slot `id` is the first that can take a new operation.
    pub open spec fn first_fit(self, id: int) -> bool {
        &&& self.admits(id)
        &&& forall|j: int| 0 <= j < id ==> !(#[trigger] self.ops[j] is Vacant)
    }

    /// The slots with `op` put into slot `id`.
    pub open spec fn place(self, id: int, op: Op<T>) -> Seq<Op<T>> {
        if id == self.ops.len() {
            self.ops.push(op)
        } else {
            self.ops.update(id, op)
        }
    }

    /// An enqueue of `value` starts in slot `id`.
    pub open spec fn begin_offer(self, id: int, value: T) -> Self {
        Model {
            ops: self.place(id, Op::OfferLoad { value }),
            submitted: self.submitted.insert(value),
            ..self
        }
    }

    /// A dequeue starts in slot `id`.
    pub open spec fn begin_take(self, id: int) -> Self {
        Model { ops: self.place(id, Op::TakeLoad), ..self }
    }

    /// The state after the operation in slot `id` performed its next atomic
    /// action.
    pub open spec fn advance(self, id: int) -> Self {
        let last = self.offered.len();
        match self.ops[id] {
            Op::Vacant => self,
            Op::OfferLoad { value } => Model {
                ops: self.ops.update(id, Op::OfferProbe { value, anchor: self.back }),
                ..self
            },
            Op::OfferProbe { value, anchor } => if anchor == last {
                Model { ops: self.ops.update(id, Op::OfferLink { value, anchor }), ..self }
            } else {
                Model { ops: self.ops.update(id, Op::OfferHelp { value, anchor }), ..self }
            },
            Op::OfferLink { value, anchor } => if anchor == last {
                Model {
                    offered: self.offered.push(value),
                    ops: self.ops.update(id, Op::OfferSwing { value, anchor }),
                    ..self
                }
            } else {
                Model { ops: self.ops.update(id, Op::OfferProbe { value, anchor }), ..self }
            },
            Op::OfferHelp { value, anchor } => Model {
                back: if self.back == anchor {
                    anchor + 1
                } else {
                    self.back
                },
                ops: self.ops.update(id, Op::OfferLoad { value }),
                ..self
            },
            Op::OfferSwing { anchor, .. } => Model {
                back: if self.back == anchor {
                    anchor + 1
                } else {
                    self.back
                },
                ops: self.ops.update(id, Op::Vacant),
                ..self
            },
            Op::TakeLoad => Model {
                ops: self.ops.update(id, Op::TakeProbe { anchor: self.front }),
                ..self
            },
            Op::TakeProbe { anchor } => if anchor == last {
                Model { ops: self.ops.update(id, Op::Vacant), ..self }
            } else {
                Model { ops: self.ops.update(id, Op::TakeSwing { anchor }), ..self }
            },
            Op::TakeSwing { anchor } => if self.front == anchor {
                Model { front: anchor + 1, ops: self.ops.update(id, Op::Vacant), ..self }
            } else {
                Model { ops: self.ops.update(id, Op::TakeLoad), ..self }
            },
        }
    }

    /// What the next atomic action of the operation in slot `id` tells its
    /// caller.
    pub open spec fn outcome(self, id: int) -> Progress<T> {
        match self.ops[id] {
            Op::OfferSwing { .. } => Progress::Offered,
            Op::TakeProbe { anchor } => if anchor == self.offered.len() {
                Progress::Taken(None)
            } else {
                Progress::Pending
            },
            Op::TakeSwing { anchor } => if self.front == anchor {
                Progress::Taken(Some(self.offered[anchor as int]))
            } else {
                Progress::Pending
            },
            _ => Progress::Pending,
        }
    }

    /// What holds of the local state of one operation.
    pub open spec fn op_inv(self, op: Op<T>) -> bool {
        match op {
            Op::Vacant => true,
            Op::OfferLoad { .. } => true,
            Op::OfferProbe { anchor, .. } => anchor <= self.back,
            Op::OfferLink { anchor, .. } => anchor <= self.back,
            Op::OfferHelp { anchor, .. } => anchor <= self.back && anchor < self.offered.len(),
            Op::OfferSwing { value, anchor } => anchor <= self.back && anchor < self.offered.len()
                && self.offered[anchor as int] == value,
            Op::TakeLoad => true,
            Op::TakeProbe { anchor } => anchor <= self.front,
            Op::TakeSwing { anchor } => anchor <= self.front && anchor < self.offered.len(),
        }
    }

    /// The enqueue in slot `id` has linked the last node and has yet to move
    /// the tail pointer to it.
    pub open spec fn swings_last(self, id: int) -> bool {
        &&& 0 <= id < self.ops.len()
        &&& self.ops[id] is OfferSwing
        &&& self.ops[id]->OfferSwing_anchor == self.back
    }

    /// What holds in every state that the protocol can reach.
    ///
    /// The head pointer never passes the last node. The tail pointer is at the
    /// last node or one link behind it, and where it is behind, the enqueue
    /// that linked the last node has yet to move it. Every value handed to an
    /// enqueue is either linked or still held by that enqueue.
    pub open spec fn inv(self) -> bool {
        &&& self.front <= self.offered.len()
        &&& self.back <= self.offered.len() <= self.back + 1
        &&& forall|id: int| 0 <= id < self.ops.len() ==> self.op_inv(#[trigger] self.ops[id])
        &&& self.back < self.offered.len() ==> exists|id: int| self.swings_last(id)
        &&& self.submitted == self.offered.to_multiset().add(carried_by(self.ops))
    }

    /// A bound on the number of atomic actions that the operation in slot `id`
    /// still performs if no other operation interferes.
    pub open spec fn effort(self, id: int) -> nat {
        let last = self.offered.len();
        match self.ops[id] {
            Op::Vacant => 0,
            Op::OfferLoad { .. } => (4 * (last - self.back) + 4) as nat,
            Op::OfferProbe { anchor, .. } => (4 * (last - anchor) + 3) as nat,
            Op::OfferLink { anchor, .. } => if anchor == last {
                2
            } else {
                (4 * (last - anchor) + 4) as nat
            },
            Op::OfferHelp { anchor, .. } => (4 * (last - anchor) + 2) as nat,
            Op::OfferSwing { .. } => 1,
            Op::TakeLoad => 3,
            Op::TakeProbe { anchor } => if anchor == self.front {
                2
            } else {
                5
            },
            Op::TakeSwing { anchor } => if anchor == self.front {
                1
            } else {
                4
            },
        }
    }
}

/// Appending a slot adds what its operation carries.
pub proof fn lemma_carried_push<T>(ops: Seq<Op<T>>, op: Op<T>)
    ensures
        carried_by(ops.push(op)) == carried_by(ops).add(op.carried()),
{
    assert(ops.push(op).drop_last() =~= ops);
}

/// Replacing the operation of a slot exchanges what is carried there.
pub proof fn lemma_carried_update<T>(ops: Seq<Op<T>>, id: int, op: Op<T>)
    requires
        0 <= id < ops.len(),
    ensures
        forall|v: T| #[trigger]
            carried_by(ops.update(id, op)).count(v) + ops[id].carried().count(v) == carried_by(
                ops,
            ).count(v) + op.carried().count(v),
    decreases ops.len(),
{
    let updated = ops.update(id, op);
    assert(carried_by(updated) == carried_by(updated.drop_last()).add(updated.last().carried()));
    if id == ops.len() - 1 {
        assert(updated.drop_last() =~= ops.drop_last());
    } else {
        lemma_carried_update(ops.drop_last(), id, op);
        assert(updated.drop_last() =~= ops.drop_last().update(id, op));
    }
}

/// Where no operation is in flight, none carries a value.
pub proof fn lemma_carried_none<T>(ops: Seq<Op<T>>)
    requires
        forall|id: int| 0 <= id < ops.len() ==> ops[id] is Vacant,
    ensures
        carried_by(ops) == Multiset::<T>::empty(),
    decreases ops.len(),
{
    if ops.len() > 0 {
        lemma_carried_none(ops.drop_last());
    }
}

/// Every value handed to an enqueue is linked or held by an enqueue that has
/// yet to link it, so the enqueues in flight without a linked node are as many
/// as the values that are not linked; where no operation is in flight, there
/// is none.
pub proof fn lemma_unlinked<T>(m: Model<T>)
    requires
        m.inv(),
    ensures
        m.unlinked() + m.offered.len() == m.submitted.len(),
        m.quiescent() ==> m.unlinked() == 0,
{
    broadcast use vstd::seq_lib::group_to_multiset_ensures;

    if m.quiescent() {
        lemma_carried_none(m.ops);
    }
}

/// The state of a new queue is one that the protocol can be in.
pub proof fn lemma_init_inv<T>()
    ensures
        Model::<T>::init().inv(),
        Model::<T>::init().contents() == Seq::<T>::empty(),
        Model::<T>::init().quiescent(),
{
    let m = Model::<T>::init();
    assert(m.offered.to_multiset() =~= Multiset::<T>::empty()) by {
        broadcast use vstd::seq_lib::group_to_multiset_ensures;

        assert(m.offered.to_multiset().len() == 0);
    }
    assert(m.submitted =~= m.offered.to_multiset().add(carried_by(m.ops)));
}

/// Starting an enqueue keeps the protocol's invariant.
pub proof fn lemma_begin_offer_inv<T>(m: Model<T>, id: int, value: T)
    requires
        m.inv(),
        m.admits(id),
    ensures
        m.begin_offer(id, value).inv(),
        m.begin_offer(id, value).in_flight(id),
{
    let n = m.begin_offer(id, value);
    let op = Op::OfferLoad { value };
    if id == m.ops.len() {
        lemma_carried_push(m.ops, op);
    } else {
        lemma_carried_update(m.ops, id, op);
    }
    assert(n.submitted =~= n.offered.to_multiset().add(carried_by(n.ops)));
    if n.back < n.offered.len() {
        let w = choose|w: int| m.swings_last(w);
        assert(n.swings_last(w));
    }
}

/// Starting a dequeue keeps the protocol's invariant.
pub proof fn lemma_begin_take_inv<T>(m: Model<T>, id: int)
    requires
        m.inv(),
        m.admits(id),
    ensures
        m.begin_take(id).inv(),
        m.begin_take(id).in_flight(id),
{
    let n = m.begin_take(id);
    let op = Op::<T>::TakeLoad;
    if id == m.ops.len() {
        lemma_carried_push(m.ops, op);
    } else {
        lemma_carried_update(m.ops, id, op);
    }
    assert(n.submitted =~= n.offered.to_multiset().add(carried_by(n.ops)));
    if n.back < n.offered.len() {
        let w = choose|w: int| m.swings_last(w);
        assert(n.swings_last(w));
    }
}

/// Every atomic action of every operation keeps the protocol's invariant,
/// whatever the other operations are in the middle of.
pub proof fn lemma_advance_inv<T>(m: Model<T>, id: int)
    requires
        m.inv(),
        m.in_flight(id),
    ensures
        m.advance(id).inv(),
        m.advance(id).ops.len() == m.ops.len(),
        forall|j: int| 0 <= j < m.ops.len() && j != id ==> m.advance(id).ops[j] == m.ops[j],
{
    let n = m.advance(id);
    let old_op = m.ops[id];
    let new_op = n.ops[id];
    lemma_carried_update(m.ops, id, new_op);
    assert(n.submitted =~= n.offered.to_multiset().add(carried_by(n.ops))) by {
        broadcast use vstd::seq_lib::group_to_multiset_ensures;
        broadcast use vstd::multiset::group_multiset_properties;

        if old_op is OfferLink && old_op->OfferLink_anchor == m.offered.len() {
            let value = old_op->OfferLink_value;
            assert(n.offered.to_multiset() =~= m.offered.to_multiset().insert(value));
            assert(old_op.carried() =~= Multiset::singleton(value));
            assert(new_op.carried() =~= Multiset::<T>::empty());
        } else {
            assert(n.offered == m.offered);
            assert(old_op.carried() =~= new_op.carried());
        }
    }
    if n.back < n.offered.len() {
        if m.back < m.offered.len() {
            let w = choose|w: int| m.swings_last(w);
            if w != id {
            }
            assert(n.swings_last(w));
        } else {
            assert(n.swings_last(id));
        }
    }
}

/// An atomic action only ever appends to the linked values and only ever
/// moves the pointers forward; it hands out the oldest value or none.
pub proof fn lemma_advance_log<T>(m: Model<T>, id: int)
    requires
        m.inv(),
        m.in_flight(id),
    ensures
        m.advance(id).offered.take(m.offered.len() as int) == m.offered,
        m.offered.len() <= m.advance(id).offered.len() <= m.offered.len() + 1,
        m.front <= m.advance(id).front <= m.front + 1,
        m.back <= m.advance(id).back <= m.back + 1,
        m.advance(id).submitted == m.submitted,
        m.advance(id).front == m.front + 1 <==> (m.outcome(id) matches Progress::Taken(Some(_))),
        m.outcome(id) matches Progress::Taken(Some(v)) ==> m.contents().len() > 0 && v
            == m.contents()[0],
        m.outcome(id) matches Progress::Taken(None) ==> m.contents().len() == 0,
        m.outcome(id) is Pending <==> m.advance(id).in_flight(id),
        m.outcome(id) is Offered ==> (m.ops[id] matches Op::OfferSwing { value, anchor }
            && m.offered[anchor as int] == value),
        m.advance(id).offered.len() == m.offered.len() + 1 <==> m.ops[id] is OfferLink
            && m.ops[id]->OfferLink_anchor == m.offered.len(),
        m.advance(id).offered.len() == m.offered.len() + 1 ==> m.advance(id).offered
            == m.offered.push(m.ops[id]->OfferLink_value),
{
}

/// An operation is nearer to its return after each of its own atomic
/// actions.
pub proof fn lemma_advance_effort<T>(m: Model<T>, id: int)
    requires
        m.inv(),
        m.in_flight(id),
    ensures
        m.advance(id).effort(id) < m.effort(id),
{
}

/// An action of another operation sets an operation back only where that
/// action succeeds in linking a node or in moving the head pointer, and then
/// by a bounded number of actions. So an operation retries at most as often as
/// other operations succeed in the meantime.
pub proof fn lemma_interference<T>(m: Model<T>, id: int, other: int)
    requires
        m.inv(),
        m.in_flight(id),
        m.in_flight(other),
        id != other,
    ensures
        m.advance(other).effort(id) <= m.effort(id) + 6 * (m.advance(other).offered.len()
            - m.offered.len()) + 3 * (m.advance(other).front - m.front),
{
}

} // verus!
