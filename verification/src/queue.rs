//! The queue: the chain, the operations in flight on it, and the abstract
//! state that both stand for.
use crate::chain::Chain;
use crate::model::{lemma_advance_effort, lemma_advance_inv, lemma_unlinked};
use crate::model::{lemma_begin_offer_inv, lemma_begin_take_inv, lemma_init_inv};
use crate::model::{Model, Op, Progress};
use vstd::prelude::*;

verus! {

/// Which atomic action an operation performs next.
enum Phase {
    Vacant,
    OfferLoad,
    OfferProbe,
    OfferLink,
    OfferHelp,
    OfferSwing,
    TakeLoad,
    TakeProbe,
    TakeSwing,
}

/// The local variables of one operation: the handles that it has read and
/// will hand to its next compare-and-swap.
struct Record {
    phase: Phase,
    /// The node that an enqueue took from the arena.
    node: usize,
    /// What the operation read the tail pointer or the head pointer to be.
    anchor: usize,
    /// What the operation read the link of its anchor to be.
    next: usize,
}

/// An unbounded FIFO queue whose operations are sequences of atomic actions
/// that may be interleaved in any order.
pub struct LockFreeQueue<T> {
    chain: Chain<T>,
    records: Vec<Record>,
    model: Ghost<Model<T>>,
    /// The position of the oldest node that was not given back to the arena.
    base: Ghost<nat>,
    /// For each reserved node, the slot of the enqueue that took it.
    owners: Ghost<Map<usize, int>>,
}

impl<T> View for LockFreeQueue<T> {
    type V = Seq<T>;

    /// The values in the queue, oldest first.
    closed spec fn view(&self) -> Seq<T> {
        self.model@.contents()
    }
}

impl<T> LockFreeQueue<T> {
    /// The abstract state that the queue stands for.
    pub closed spec fn model(&self) -> Model<T> {
        self.model@
    }

    /// The number of nodes that the head pointer has left behind and that
    /// were not given back to the arena yet.
    pub closed spec fn retired(&self) -> nat {
        (self.model@.front - self.base@) as nat
    }

    spec fn owns(&self, id: int, value: T) -> bool {
        let node = self.records@[id].node;
        &&& self.chain.reserved().contains_key(node)
        &&& self.chain.reserved()[node] == value
        &&& self.owners@[node] == id
    }

    spec fn anchored(&self, id: int, anchor: nat) -> bool {
        &&& self.base@ <= anchor
        &&& self.chain.handles()[anchor - self.base@] == self.records@[id].anchor
    }

    spec fn found(&self, id: int, anchor: nat) -> bool {
        self.chain.handles()[anchor + 1 - self.base@] == self.records@[id].next
    }

    /// The record of slot `id` holds the handles of the nodes whose positions
    /// the abstract operation of that slot holds.
    spec fn coupled(&self, id: int) -> bool {
        let rec = self.records@[id];
        match self.model@.ops[id] {
            Op::Vacant => rec.phase is Vacant,
            Op::OfferLoad { value } => rec.phase is OfferLoad && self.owns(id, value),
            Op::OfferProbe { value, anchor } => rec.phase is OfferProbe && self.owns(id, value)
                && self.anchored(id, anchor),
            Op::OfferLink { value, anchor } => rec.phase is OfferLink && self.owns(id, value)
                && self.anchored(id, anchor),
            Op::OfferHelp { value, anchor } => rec.phase is OfferHelp && self.owns(id, value)
                && self.anchored(id, anchor) && self.found(id, anchor),
            Op::OfferSwing { anchor, .. } => rec.phase is OfferSwing && self.anchored(id, anchor)
                && self.chain.handles()[anchor + 1 - self.base@] == rec.node,
            Op::TakeLoad => rec.phase is TakeLoad,
            Op::TakeProbe { anchor } => rec.phase is TakeProbe && self.anchored(id, anchor),
            Op::TakeSwing { anchor } => rec.phase is TakeSwing && self.anchored(id, anchor)
                && self.found(id, anchor),
        }
    }

    /// The reserved node `h` belongs to an enqueue that has yet to link it.
    spec fn owned(&self, h: usize) -> bool {
        let o = self.owners@[h];
        &&& 0 <= o < self.model@.ops.len()
        &&& self.model@.ops[o].is_unlinked()
        &&& self.records@[o].node == h
    }

    spec fn sound(&self) -> bool {
        let m = self.model@;
        let b = self.base@;
        &&& self.chain.wf()
        &&& m.inv()
        &&& b <= m.front
        &&& b <= m.back
        &&& self.chain.handles().len() == m.offered.len() + 1 - b
        &&& self.chain.head_at() == m.front - b
        &&& self.chain.tail_at() == m.back - b
        &&& self.chain.values() == m.contents()
        &&& self.records@.len() == m.ops.len()
        &&& forall|id: int| 0 <= id < m.ops.len() ==> #[trigger] self.coupled(id)
        &&& forall|h: usize| #[trigger]
            self.chain.reserved().contains_key(h) ==> self.owned(h)
        &&& self.chain.reserved().dom().len() + m.offered.len() == m.submitted.len()
    }

    /// The queue stands for a state that the protocol can reach, every
    /// operation in flight holds handles of nodes that are still linked, and
    /// where no operation is in flight no node is left behind the head
    /// pointer.
    pub closed spec fn wf(&self) -> bool {
        &&& self.sound()
        &&& self.model@.quiescent() ==> self.base@ == self.model@.front
    }

    /// A well-formed queue stands for a state that the protocol can reach.
    pub proof fn lemma_wf(&self)
        requires
            self.wf(),
        ensures
            self.model().inv(),
            self@ == self.model().contents(),
            self.model().quiescent() ==> self.retired() == 0,
    {
    }

    /// Where no operation is in flight, the tail pointer names the last node,
    /// no node is left behind the head pointer, and no node is reserved: the
    /// nodes in use are the sentinel and one for each value in the queue.
    pub proof fn lemma_at_rest(&self)
        requires
            self.wf(),
            self.model().quiescent(),
        ensures
            self.model().back == self.model().offered.len(),
            self.retired() == 0,
            self.model().unlinked() == 0,
    {
        let m = self.model@;
        lemma_unlinked(m);
        if m.back < m.offered.len() {
            let w = choose|w: int| m.swings_last(w);
            assert(m.ops[w] is Vacant);
        }
    }

    /// An empty queue: one sentinel, no operation in flight.
    pub fn new() -> (queue: Self)
        ensures
            queue.wf(),
            queue.model() == Model::<T>::init(),
            queue@ == Seq::<T>::empty(),
            queue.retired() == 0,
    {
        let queue = LockFreeQueue {
            chain: Chain::new(),
            records: Vec::new(),
            model: Ghost(Model::init()),
            base: Ghost(0),
            owners: Ghost(Map::empty()),
        };
        proof {
            lemma_init_inv::<T>();
        }
        queue
    }

    /// Whether the queue holds no value.
    pub fn is_empty(&self) -> (empty: bool)
        requires
            self.wf(),
        ensures
            empty == (self@.len() == 0),
    {
        self.chain.is_bare()
    }

    /// Whether slot `id` holds an operation.
    pub fn in_flight(&self, id: usize) -> (busy: bool)
        requires
            self.wf(),
        ensures
            busy == self.model().in_flight(id as int),
    {
        if id < self.records.len() {
            assert(self.coupled(id as int));
            match self.records[id].phase {
                Phase::Vacant => false,
                _ => true,
            }
        } else {
            false
        }
    }

    /// The first slot that can take a new operation.
    fn vacancy(&self) -> (id: usize)
        requires
            self.sound(),
        ensures
            self.model@.first_fit(id as int),
    {
        let mut i: usize = 0;
        while i < self.records.len()
            invariant
                self.sound(),
                i <= self.records@.len(),
                forall|j: int| 0 <= j < i ==> !(#[trigger] self.model@.ops[j] is Vacant),
            decreases self.records@.len() - i,
        {
            assert(self.coupled(i as int));
            match self.records[i].phase {
                Phase::Vacant => {
                    return i;
                },
                _ => {},
            }
            i = i + 1;
        }
        i
    }

    /// Puts a record into slot `id`.
    fn seat(&mut self, id: usize, record: Record)
        requires
            id <= old(self).records@.len(),
        ensures
            final(self).records@ == if id == old(self).records@.len() {
                old(self).records@.push(record)
            } else {
                old(self).records@.update(id as int, record)
            },
            final(self).chain == old(self).chain,
            final(self).model == old(self).model,
            final(self).base == old(self).base,
            final(self).owners == old(self).owners,
    {
        if id == self.records.len() {
            self.records.push(record);
        } else {
            self.records[id] = record;
        }
    }

    /// Starts an enqueue of `data`: takes a node for it from the arena and
    /// returns the slot in which the operation stands.
    pub fn begin_offer(&mut self, data: T) -> (id: usize)
        requires
            old(self).wf(),
        ensures
            final(self).wf(),
            old(self).model().first_fit(id as int),
            final(self).model() == old(self).model().begin_offer(id as int, data),
            final(self).retired() == old(self).retired(),
    {
        let id = self.vacancy();
        let node = self.chain.reserve(data);
        self.seat(id, Record { phase: Phase::OfferLoad, node, anchor: 0, next: 0 });
        proof {
            let before = old(self).model@;
            lemma_begin_offer_inv(before, id as int, data);
            self.model = Ghost(before.begin_offer(id as int, data));
            self.owners = Ghost(self.owners@.insert(node, id as int));
            old(self).chain.lemma_wf();
            assert forall|j: int|
                0 <= j < self.model@.ops.len() implies #[trigger] self.coupled(j) by {
                if j != id {
                    assert(old(self).coupled(j));
                    if old(self).model@.ops[j].is_unlinked() {
                        assert(old(self).records@[j].node != node);
                    }
                }
            }
        }
        id
    }

    /// Starts a dequeue and returns the slot in which the operation stands.
    pub fn begin_take(&mut self) -> (id: usize)
        requires
            old(self).wf(),
        ensures
            final(self).wf(),
            old(self).model().first_fit(id as int),
            final(self).model() == old(self).model().begin_take(id as int),
            final(self).retired() == old(self).retired(),
    {
        let id = self.vacancy();
        self.seat(id, Record { phase: Phase::TakeLoad, node: 0, anchor: 0, next: 0 });
        proof {
            let before = old(self).model@;
            lemma_begin_take_inv(before, id as int);
            self.model = Ghost(before.begin_take(id as int));
            assert forall|j: int|
                0 <= j < self.model@.ops.len() implies #[trigger] self.coupled(j) by {
                if j != id {
                    assert(old(self).coupled(j));
                }
            }
        }
        id
    }

    /// The queue is what `before` becomes by the next atomic action of the
    /// operation in slot `id`.
    spec fn stepped(&self, before: &Self, id: int) -> bool {
        &&& self.wf()
        &&& self.model@ == before.model@.advance(id)
        &&& self.retired() == if self.model@.quiescent() {
            0
        } else {
            before.retired() + self.model@.front - before.model@.front
        }
    }

    /// An atomic action of slot `id` that leaves the other records, the
    /// linked nodes and the reserved nodes of the other enqueues alone keeps
    /// the other slots coupled and every reserved node owned.
    proof fn lemma_frame(pre: Self, post: Self, id: int)
        requires
            pre.sound(),
            post.model@.inv(),
            0 <= id < pre.model@.ops.len(),
            post.base@ == pre.base@,
            post.owners@ == pre.owners@,
            post.records@.len() == pre.records@.len(),
            post.model@.ops.len() == pre.model@.ops.len(),
            forall|j: int|
                0 <= j < pre.records@.len() && j != id ==> post.records@[j] == pre.records@[j]
                    && post.model@.ops[j] == pre.model@.ops[j],
            post.records@[id].node == pre.records@[id].node,
            pre.chain.handles().len() <= post.chain.handles().len(),
            forall|i: int|
                0 <= i < pre.chain.handles().len() ==> post.chain.handles()[i]
                    == pre.chain.handles()[i],
            post.chain.reserved() == if pre.model@.ops[id].is_unlinked()
                && !post.model@.ops[id].is_unlinked() {
                pre.chain.reserved().remove(pre.records@[id].node)
            } else {
                pre.chain.reserved()
            },
            post.model@.ops[id].is_unlinked() ==> pre.model@.ops[id].is_unlinked(),
        ensures
            forall|j: int| 0 <= j < post.records@.len() && j != id ==> #[trigger] post.coupled(j),
            forall|h: usize| #[trigger]
                post.chain.reserved().contains_key(h) ==> post.owned(h),
    {
        assert(pre.coupled(id));
        assert forall|j: int|
            0 <= j < post.records@.len() && j != id implies #[trigger] post.coupled(j) by {
            assert(pre.coupled(j));
            assert(pre.model@.op_inv(pre.model@.ops[j]));
        }
    }

    /// Whether no operation is in flight.
    fn idle(&self) -> (idle: bool)
        requires
            self.sound(),
        ensures
            idle == self.model@.quiescent(),
    {
        let mut i: usize = 0;
        while i < self.records.len()
            invariant
                self.sound(),
                i <= self.records@.len(),
                forall|j: int| 0 <= j < i ==> #[trigger] self.model@.ops[j] is Vacant,
            decreases self.records@.len() - i,
        {
            assert(self.coupled(i as int));
            match self.records[i].phase {
                Phase::Vacant => {},
                _ => {
                    return false;
                },
            }
            i = i + 1;
        }
        true
    }

    /// Where no operation is in flight, gives the nodes that the head pointer
    /// has left behind back to the arena.
    fn settle(&mut self)
        requires
            old(self).sound(),
        ensures
            final(self).wf(),
            final(self).model() == old(self).model(),
            final(self).base@ == if old(self).model@.quiescent() {
                old(self).model@.front
            } else {
                old(self).base@
            },
    {
        if self.idle() {
            proof {
                let m = self.model@;
                if m.back < m.offered.len() {
                    let w = choose|w: int| m.swings_last(w);
                    assert(m.ops[w] is Vacant);
                }
            }
            self.chain.recycle();
            proof {
                self.base = Ghost(self.model@.front);
                assert forall|id: int|
                    0 <= id < self.model@.ops.len() implies #[trigger] self.coupled(id) by {
                    assert(old(self).coupled(id));
                }
            }
        }
    }

    /// The enqueue in slot `id` reads the tail pointer.
    fn offer_load(&mut self, id: usize)
        requires
            old(self).wf(),
            0 <= id < old(self).model@.ops.len(),
            old(self).model@.ops[id as int] is OfferLoad,
        ensures
            final(self).stepped(old(self), id as int),
    {
        let tail = self.chain.tail();
        self.records[id].anchor = tail;
        self.records[id].phase = Phase::OfferProbe;
        proof {
            assert(old(self).coupled(id as int));
            lemma_advance_inv(old(self).model@, id as int);
            self.model = Ghost(old(self).model@.advance(id as int));
            Self::lemma_frame(*old(self), *self, id as int);
        }
    }

    /// The enqueue in slot `id` reads the link of its anchor.
    fn offer_probe(&mut self, id: usize)
        requires
            old(self).wf(),
            0 <= id < old(self).model@.ops.len(),
            old(self).model@.ops[id as int] is OfferProbe,
        ensures
            final(self).stepped(old(self), id as int),
    {
        let ghost at = old(self).model@.ops[id as int]->OfferProbe_anchor - old(self).base@;
        proof {
            assert(old(self).coupled(id as int));
        }
        match self.chain.next_of(self.records[id].anchor, Ghost(at)) {
            None => {
                self.records[id].phase = Phase::OfferLink;
            },
            Some(next) => {
                self.records[id].next = next;
                self.records[id].phase = Phase::OfferHelp;
            },
        }
        proof {
            lemma_advance_inv(old(self).model@, id as int);
            self.model = Ghost(old(self).model@.advance(id as int));
            Self::lemma_frame(*old(self), *self, id as int);
        }
    }

    /// The enqueue in slot `id` tries to link its node behind its anchor.
    fn offer_link(&mut self, id: usize)
        requires
            old(self).wf(),
            0 <= id < old(self).model@.ops.len(),
            old(self).model@.ops[id as int] is OfferLink,
        ensures
            final(self).stepped(old(self), id as int),
    {
        let ghost at = old(self).model@.ops[id as int]->OfferLink_anchor - old(self).base@;
        proof {
            assert(old(self).coupled(id as int));
        }
        if self.chain.link(self.records[id].anchor, Ghost(at), self.records[id].node) {
            self.records[id].phase = Phase::OfferSwing;
        } else {
            self.records[id].phase = Phase::OfferProbe;
        }
        proof {
            let before = old(self).model@;
            lemma_advance_inv(before, id as int);
            self.model = Ghost(before.advance(id as int));
            Self::lemma_frame(*old(self), *self, id as int);
            assert(self.chain.values() =~= self.model@.contents());
            old(self).chain.lemma_wf();
        }
    }

    /// The enqueue in slot `id` tries to move the tail pointer from its anchor to
    /// the node behind it, and starts over.
    fn offer_help(&mut self, id: usize)
        requires
            old(self).wf(),
            0 <= id < old(self).model@.ops.len(),
            old(self).model@.ops[id as int] is OfferHelp,
        ensures
            final(self).stepped(old(self), id as int),
    {
        let ghost at = old(self).model@.ops[id as int]->OfferHelp_anchor - old(self).base@;
        proof {
            assert(old(self).coupled(id as int));
        }
        self.chain.swing_tail(
            self.records[id].anchor,
            Ghost(at),
            self.records[id].next,
            Ghost(at + 1),
        );
        self.records[id].phase = Phase::OfferLoad;
        proof {
            lemma_advance_inv(old(self).model@, id as int);
            self.model = Ghost(old(self).model@.advance(id as int));
            Self::lemma_frame(*old(self), *self, id as int);
        }
    }

    /// The enqueue in slot `id` tries to move the tail pointer from its anchor to
    /// its own node, and returns.
    fn offer_swing(&mut self, id: usize)
        requires
            old(self).wf(),
            0 <= id < old(self).model@.ops.len(),
            old(self).model@.ops[id as int] is OfferSwing,
        ensures
            final(self).stepped(old(self), id as int),
    {
        let ghost at = old(self).model@.ops[id as int]->OfferSwing_anchor - old(self).base@;
        proof {
            assert(old(self).coupled(id as int));
        }
        self.chain.swing_tail(
            self.records[id].anchor,
            Ghost(at),
            self.records[id].node,
            Ghost(at + 1),
        );
        self.records[id].phase = Phase::Vacant;
        proof {
            lemma_advance_inv(old(self).model@, id as int);
            self.model = Ghost(old(self).model@.advance(id as int));
            Self::lemma_frame(*old(self), *self, id as int);
        }
        self.settle();
    }

    /// The dequeue in slot `id` reads the head pointer.
    fn take_load(&mut self, id: usize)
        requires
            old(self).wf(),
            0 <= id < old(self).model@.ops.len(),
            old(self).model@.ops[id as int] is TakeLoad,
        ensures
            final(self).stepped(old(self), id as int),
    {
        let head = self.chain.head();
        self.records[id].anchor = head;
        self.records[id].phase = Phase::TakeProbe;
        proof {
            lemma_advance_inv(old(self).model@, id as int);
            self.model = Ghost(old(self).model@.advance(id as int));
            Self::lemma_frame(*old(self), *self, id as int);
        }
    }

    /// The dequeue in slot `id` reads the link of its anchor, and returns with
    /// nothing where that link is empty.
    fn take_probe(&mut self, id: usize) -> (progress: Progress<T>)
        requires
            old(self).wf(),
            0 <= id < old(self).model@.ops.len(),
            old(self).model@.ops[id as int] is TakeProbe,
        ensures
            final(self).stepped(old(self), id as int),
            progress == old(self).model@.outcome(id as int),
    {
        let ghost at = old(self).model@.ops[id as int]->TakeProbe_anchor - old(self).base@;
        proof {
            assert(old(self).coupled(id as int));
        }
        match self.chain.next_of(self.records[id].anchor, Ghost(at)) {
            None => {
                self.records[id].phase = Phase::Vacant;
                proof {
                    lemma_advance_inv(old(self).model@, id as int);
                    self.model = Ghost(old(self).model@.advance(id as int));
                    Self::lemma_frame(*old(self), *self, id as int);
                }
                self.settle();
                Progress::Taken(None)
            },
            Some(next) => {
                self.records[id].next = next;
                self.records[id].phase = Phase::TakeSwing;
                proof {
                    lemma_advance_inv(old(self).model@, id as int);
                    self.model = Ghost(old(self).model@.advance(id as int));
                    Self::lemma_frame(*old(self), *self, id as int);
                }
                Progress::Pending
            },
        }
    }

    /// The dequeue in slot `id` tries to move the head pointer from its anchor to
    /// the node behind it, and returns with the value of that node where it
    /// succeeds.
    fn take_swing(&mut self, id: usize) -> (progress: Progress<T>)
        requires
            old(self).wf(),
            0 <= id < old(self).model@.ops.len(),
            old(self).model@.ops[id as int] is TakeSwing,
        ensures
            final(self).stepped(old(self), id as int),
            progress == old(self).model@.outcome(id as int),
    {
        let ghost at = old(self).model@.ops[id as int]->TakeSwing_anchor - old(self).base@;
        proof {
            assert(old(self).coupled(id as int));
        }
        match self.chain.swing_head(self.records[id].anchor, Ghost(at), self.records[id].next) {
            Some(value) => {
                self.records[id].phase = Phase::Vacant;
                proof {
                    lemma_advance_inv(old(self).model@, id as int);
                    self.model = Ghost(old(self).model@.advance(id as int));
                    Self::lemma_frame(*old(self), *self, id as int);
                    assert(self.chain.values() =~= self.model@.contents());
                }
                self.settle();
                Progress::Taken(Some(value))
            },
            None => {
                self.records[id].phase = Phase::TakeLoad;
                proof {
                    lemma_advance_inv(old(self).model@, id as int);
                    self.model = Ghost(old(self).model@.advance(id as int));
                    Self::lemma_frame(*old(self), *self, id as int);
                }
                Progress::Pending
            },
        }
    }

    /// Performs the next atomic action of the operation in slot `id`: one
    /// read or one compare-and-swap on the head pointer, the tail pointer or a
    /// link, as the protocol prescribes for the state that the operation is
    /// in. Where the slot holds no operation, nothing happens.
    pub fn step(&mut self, id: usize) -> (progress: Progress<T>)
        requires
            old(self).wf(),
        ensures
            final(self).wf(),
            old(self).model().in_flight(id as int) ==> final(self).model() == old(
                self
            ).model().advance(id as int) && progress == old(self).model().outcome(id as int),
            !old(self).model().in_flight(id as int) ==> final(self).model() == old(self).model()
                && progress is Pending,
            final(self).retired() == if final(self).model().quiescent() {
                0
            } else {
                old(self).retired() + final(self).model().front - old(self).model().front
            },
    {
        if id >= self.records.len() {
            return Progress::Pending;
        }
        assert(self.coupled(id as int));
        match self.records[id].phase {
            Phase::Vacant => Progress::Pending,
            Phase::OfferLoad => {
                self.offer_load(id);
                Progress::Pending
            },
            Phase::OfferProbe => {
                self.offer_probe(id);
                Progress::Pending
            },
            Phase::OfferLink => {
                self.offer_link(id);
                Progress::Pending
            },
            Phase::OfferHelp => {
                self.offer_help(id);
                Progress::Pending
            },
            Phase::OfferSwing => {
                self.offer_swing(id);
                Progress::Offered
            },
            Phase::TakeLoad => {
                self.take_load(id);
                Progress::Pending
            },
            Phase::TakeProbe => self.take_probe(id),
            Phase::TakeSwing => self.take_swing(id),
        }
    }

    /// What holds while the enqueue of `data` in slot `id`, started in the
    /// state `start`, runs with no other operation moving.
    spec fn offering(m: Model<T>, start: Model<T>, id: int, data: T) -> bool {
        let begun = start.begin_offer(id, data);
        &&& m.front == start.front
        &&& m.submitted == begun.submitted
        &&& m.ops.len() == begun.ops.len()
        &&& forall|j: int| 0 <= j < m.ops.len() && j != id ==> m.ops[j] == begun.ops[j]
        &&& match m.ops[id] {
            Op::OfferLoad { value } => value == data && m.offered == start.offered,
            Op::OfferProbe { value, .. } => value == data && m.offered == start.offered,
            Op::OfferLink { value, .. } => value == data && m.offered == start.offered,
            Op::OfferHelp { value, .. } => value == data && m.offered == start.offered,
            Op::OfferSwing { value, anchor } => value == data && m.offered
                == start.offered.push(data) && anchor + 1 == m.offered.len(),
            _ => false,
        }
    }

    /// What holds while the dequeue in slot `id`, started in the state
    /// `start`, runs with no other operation moving.
    spec fn taking(m: Model<T>, start: Model<T>, id: int) -> bool {
        let begun = start.begin_take(id);
        &&& m.offered == start.offered
        &&& m.front == start.front
        &&& m.back == start.back
        &&& m.submitted == start.submitted
        &&& m.ops.len() == begun.ops.len()
        &&& forall|j: int| 0 <= j < m.ops.len() && j != id ==> m.ops[j] == begun.ops[j]
        &&& match m.ops[id] {
            Op::TakeLoad => true,
            Op::TakeProbe { anchor } => anchor == m.front,
            Op::TakeSwing { anchor } => anchor == m.front,
            _ => false,
        }
    }

    /// Enqueues `data`: starts an enqueue and performs its atomic actions to
    /// the end while every other operation in flight stands still.
    ///
    /// The value becomes the newest of the queue, the tail pointer ends on its
    /// node, and the operations in flight keep their state.
    pub fn offer(&mut self, data: T)
        requires
            old(self).wf(),
        ensures
            final(self).wf(),
            final(self)@ == old(self)@.push(data),
            final(self).model().offered == old(self).model().offered.push(data),
            final(self).model().front == old(self).model().front,
            final(self).model().back == final(self).model().offered.len(),
            final(self).model().submitted == old(self).model().submitted.insert(data),
            exists|id: int| #[trigger]
                old(self).model().first_fit(id) && final(self).model().ops == old(
                    self
                ).model().place(id, Op::Vacant),
            final(self).retired() == if final(self).model().quiescent() {
                0
            } else {
                old(self).retired()
            },
    {
        let ghost start = self.model@;
        let ghost value = data;
        let ghost retired = self.retired();
        let id = self.begin_offer(data);
        loop
            invariant_except_break
                self.model@.in_flight(id as int),
                Self::offering(self.model@, start, id as int, value),
                self.retired() == retired,
            invariant
                self.wf(),
                start.inv(),
                start.first_fit(id as int),
            ensures
                self@ == start.contents().push(value),
                self.model@.offered == start.offered.push(value),
                self.model@.front == start.front,
                self.model@.back == self.model@.offered.len(),
                self.model@.submitted == start.submitted.insert(value),
                self.model@.ops == start.place(id as int, Op::Vacant),
                self.retired() == if self.model@.quiescent() {
                    0
                } else {
                    retired
                },
            decreases self.model@.effort(id as int),
        {
            proof {
                lemma_advance_effort(self.model@, id as int);
            }
            match self.step(id) {
                Progress::Pending => {},
                _ => {
                    break ;
                },
            }
        }
    }

    /// Dequeues: starts a dequeue and performs its atomic actions to the end
    /// while every other operation in flight stands still.
    ///
    /// Returns the oldest value, which leaves the queue, or `None` where the
    /// queue holds no value; the operations in flight keep their state.
    pub fn take(&mut self) -> (taken: Option<T>)
        requires
            old(self).wf(),
        ensures
            final(self).wf(),
            old(self)@.len() == 0 ==> taken is None && final(self)@ == old(self)@,
            old(self)@.len() > 0 ==> taken == Some(old(self)@[0]) && final(self)@ == old(
                self
            )@.skip(1),
            taken is None ==> final(self)@.len() == 0,
            final(self).model().offered == old(self).model().offered,
            final(self).model().front == old(self).model().front + if taken is Some {
                1nat
            } else {
                0nat
            },
            final(self).model().back == old(self).model().back,
            final(self).model().submitted == old(self).model().submitted,
            exists|id: int| #[trigger]
                old(self).model().first_fit(id) && final(self).model().ops == old(
                    self
                ).model().place(id, Op::Vacant),
            final(self).retired() == if final(self).model().quiescent() {
                0
            } else {
                old(self).retired() + if taken is Some {
                    1nat
                } else {
                    0nat
                }
            },
    {
        let ghost start = self.model@;
        let ghost retired = self.retired();
        let id = self.begin_take();
        let mut taken: Option<T> = None;
        loop
            invariant_except_break
                self.model@.in_flight(id as int),
                Self::taking(self.model@, start, id as int),
                self.retired() == retired,
                taken is None,
            invariant
                self.wf(),
                start.inv(),
                start.first_fit(id as int),
            ensures
                start.contents().len() == 0 ==> taken is None && self@ == start.contents(),
                start.contents().len() > 0 ==> taken == Some(start.contents()[0]) && self@
                    == start.contents().skip(1),
                self.model@.offered == start.offered,
                self.model@.front == start.front + if taken is Some {
                    1nat
                } else {
                    0nat
                },
                self.model@.back == start.back,
                self.model@.submitted == start.submitted,
                self.model@.ops == start.place(id as int, Op::Vacant),
                self.retired() == if self.model@.quiescent() {
                    0
                } else {
                    retired + if taken is Some {
                        1nat
                    } else {
                        0nat
                    }
                },
            decreases self.model@.effort(id as int),
        {
            proof {
                lemma_advance_effort(self.model@, id as int);
            }
            match self.step(id) {
                Progress::Taken(value) => {
                    taken = value;
                    break ;
                },
                _ => {},
            }
        }
        taken
    }

    /// Counts the nodes that are in use: the sentinel, one for each value in
    /// the queue, those that the head pointer has left behind, and those of
    /// enqueues that have yet to link theirs.
    pub fn node_count(&self) -> (count: usize)
        requires
            self.wf(),
        ensures
            count == 1 + self@.len() + self.retired() + self.model().unlinked(),
    {
        proof {
            self.chain.lemma_wf();
            lemma_unlinked(self.model@);
        }
        self.chain.count_in_use()
    }

    /// Takes the queue apart: walks the chain from the sentinel to the last
    /// node, releases every node on the way, and returns how many there were.
    pub fn teardown(self) -> (released: usize)
        requires
            self.wf(),
        ensures
            released == self@.len() + 1,
    {
        self.chain.release()
    }
}

} // verus!
