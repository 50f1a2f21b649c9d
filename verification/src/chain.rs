//! The shared memory of the queue: an arena of nodes, the chain linked
//! through it, the head and tail pointers, and the atomic actions on them.
//!
//! A node is taken from the arena when an enqueue starts, linked behind the
//! last node by a compare-and-swap on that node's link, left behind by the
//! head pointer when its successor becomes the sentinel, and given back to the
//! arena only when no operation can still hold its handle.
use crate::node::Node;
use vstd::prelude::*;

verus! {

pub struct Chain<T> {
    nodes: Vec<Node<T>>,
    head: usize,
    tail: usize,
    /// Handles of the nodes that are in no use.
    free: Vec<usize>,
    /// Handles of the nodes that the head pointer has left behind.
    limbo: Vec<usize>,
    handles: Ghost<Seq<usize>>,
    head_at: Ghost<int>,
    tail_at: Ghost<int>,
    values: Ghost<Seq<T>>,
    reserved: Ghost<Map<usize, T>>,
}

impl<T> Chain<T> {
    /// The handles of the linked nodes that were not given back to the arena,
    /// in the order of linking.
    pub closed spec fn handles(&self) -> Seq<usize> {
        self.handles@
    }

    /// The index in `handles` of the node that the head pointer names.
    pub closed spec fn head_at(&self) -> int {
        self.head_at@
    }

    /// The index in `handles` of the node that the tail pointer names.
    pub closed spec fn tail_at(&self) -> int {
        self.tail_at@
    }

    /// The payloads of the nodes behind the sentinel, in the order of linking.
    pub closed spec fn values(&self) -> Seq<T> {
        self.values@
    }

    /// The nodes that are taken from the arena and not linked, each with its
    /// payload.
    pub closed spec fn reserved(&self) -> Map<usize, T> {
        self.reserved@
    }

    /// The number of nodes of the arena that are linked or reserved.
    pub closed spec fn in_use(&self) -> nat {
        (self.nodes@.len() - self.free@.len()) as nat
    }

    spec fn linked_ok(&self) -> bool {
        let hs = self.handles@;
        &&& hs.len() >= 1
        &&& 0 <= self.head_at@ < hs.len()
        &&& 0 <= self.tail_at@ < hs.len()
        &&& self.head == hs[self.head_at@]
        &&& self.tail == hs[self.tail_at@]
        &&& forall|i: int| 0 <= i < hs.len() ==> #[trigger] hs[i] < self.nodes@.len()
        &&& forall|i: int, j: int| 0 <= i < j < hs.len() ==> #[trigger] hs[i] != #[trigger] hs[j]
        &&& forall|i: int|
            0 <= i < hs.len() - 1 ==> (#[trigger] self.nodes@[hs[i] as int]).next == Some(
                hs[i + 1],
            )
        &&& self.nodes@[hs.last() as int].next is None
        &&& self.values@.len() == hs.len() - 1 - self.head_at@
        &&& forall|k: int|
            0 <= k < self.values@.len() ==> self.nodes@[hs[self.head_at@ + 1 + k] as int].payload
                == Some(#[trigger] self.values@[k])
        &&& self.limbo@ == hs.take(self.head_at@)
    }

    spec fn pool_ok(&self) -> bool {
        let hs = self.handles@;
        &&& forall|k: int|
            0 <= k < self.free@.len() ==> #[trigger] self.free@[k] < self.nodes@.len()
                && !self.reserved@.contains_key(self.free@[k])
        &&& forall|k: int, i: int|
            0 <= k < self.free@.len() && 0 <= i < hs.len() ==> #[trigger] self.free@[k]
                != #[trigger] hs[i]
        &&& forall|a: int, b: int|
            0 <= a < b < self.free@.len() ==> #[trigger] self.free@[a] != #[trigger] self.free@[b]
        &&& forall|h: usize| #[trigger]
            self.reserved@.contains_key(h) ==> h < self.nodes@.len()
                && self.nodes@[h as int].payload == Some(self.reserved@[h])
                && self.nodes@[h as int].next is None
        &&& forall|i: int| 0 <= i < hs.len() ==> !self.reserved@.contains_key(#[trigger] hs[i])
        &&& self.reserved@.dom().finite()
        &&& hs.len() + self.free@.len() + self.reserved@.dom().len() == self.nodes@.len()
    }

    /// The chain is a list without a cycle that ends in an unlinked node, both
    /// pointers name nodes of it, and every node of the arena is in exactly
    /// one use: linked, reserved or free.
    pub closed spec fn wf(&self) -> bool {
        self.linked_ok() && self.pool_ok()
    }

    /// What the well-formedness of a chain says of its public model.
    pub proof fn lemma_wf(&self)
        requires
            self.wf(),
        ensures
            0 <= self.head_at() < self.handles().len(),
            0 <= self.tail_at() < self.handles().len(),
            self.values().len() == self.handles().len() - 1 - self.head_at(),
            forall|i: int, j: int|
                0 <= i < j < self.handles().len() ==> self.handles()[i] != self.handles()[j],
            forall|i: int|
                0 <= i < self.handles().len() ==> !self.reserved().contains_key(
                    #[trigger] self.handles()[i],
                ),
            self.reserved().dom().finite(),
            self.in_use() == self.handles().len() + self.reserved().dom().len(),
    {
    }

    /// A chain of one sentinel.
    pub fn new() -> (chain: Self)
        ensures
            chain.wf(),
            chain.handles().len() == 1,
            chain.head_at() == 0,
            chain.tail_at() == 0,
            chain.values() == Seq::<T>::empty(),
            chain.reserved() == Map::<usize, T>::empty(),
    {
        let mut nodes: Vec<Node<T>> = Vec::new();
        nodes.push(Node::new(None));
        let chain = Chain {
            nodes,
            head: 0,
            tail: 0,
            free: Vec::new(),
            limbo: Vec::new(),
            handles: Ghost(Seq::empty().push(0usize)),
            head_at: Ghost(0),
            tail_at: Ghost(0),
            values: Ghost(Seq::empty()),
            reserved: Ghost(Map::empty()),
        };
        assert(chain.limbo@ =~= chain.handles@.take(0));
        chain
    }

    /// Takes a node from the arena and puts `value` into it.
    pub fn reserve(&mut self, value: T) -> (h: usize)
        requires
            old(self).wf(),
        ensures
            final(self).wf(),
            !old(self).reserved().contains_key(h),
            final(self).reserved() == old(self).reserved().insert(h, value),
            final(self).handles() == old(self).handles(),
            final(self).head_at() == old(self).head_at(),
            final(self).tail_at() == old(self).tail_at(),
            final(self).values() == old(self).values(),
    {
        let h = match self.free.pop() {
            Some(h) => {
                self.nodes[h].payload = Some(value);
                self.nodes[h].next = None;
                h
            },
            None => {
                self.nodes.push(Node::new(Some(value)));
                self.nodes.len() - 1
            },
        };
        proof {
            self.reserved = Ghost(self.reserved@.insert(h, value));
        }
        h
    }

    /// Reads the head pointer.
    pub fn head(&self) -> (h: usize)
        requires
            self.wf(),
        ensures
            h == self.handles()[self.head_at()],
    {
        self.head
    }

    /// Reads the tail pointer.
    pub fn tail(&self) -> (h: usize)
        requires
            self.wf(),
        ensures
            h == self.handles()[self.tail_at()],
    {
        self.tail
    }

    /// Reads the link of the node `h`, which is number `i` of the chain.
    pub fn next_of(&self, h: usize, Ghost(i): Ghost<int>) -> (next: Option<usize>)
        requires
            self.wf(),
            0 <= i < self.handles().len(),
            self.handles()[i] == h,
        ensures
            next == if i == self.handles().len() - 1 {
                None
            } else {
                Some(self.handles()[i + 1])
            },
    {
        self.nodes[h].next
    }

    /// Compare-and-swap on the link of the node `h`, which is number `i` of
    /// the chain: where that link is empty, it is set to the reserved node
    /// `node`, which thereby becomes the last node of the chain.
    pub fn link(&mut self, h: usize, Ghost(i): Ghost<int>, node: usize) -> (linked: bool)
        requires
            old(self).wf(),
            0 <= i < old(self).handles().len(),
            old(self).handles()[i] == h,
            old(self).reserved().contains_key(node),
        ensures
            final(self).wf(),
            linked == (i == old(self).handles().len() - 1),
            final(self).head_at() == old(self).head_at(),
            final(self).tail_at() == old(self).tail_at(),
            linked ==> final(self).handles() == old(self).handles().push(node)
                && final(self).values() == old(self).values().push(old(self).reserved()[node])
                && final(self).reserved() == old(self).reserved().remove(node),
            !linked ==> final(self).handles() == old(self).handles() && final(self).values()
                == old(self).values() && final(self).reserved() == old(self).reserved(),
    {
        if self.nodes[h].next.is_none() {
            self.nodes[h].next = Some(node);
            proof {
                let hs = old(self).handles@;
                let value = old(self).reserved@[node];
                self.handles = Ghost(hs.push(node));
                self.values = Ghost(old(self).values@.push(value));
                self.reserved = Ghost(old(self).reserved@.remove(node));
                assert(self.limbo@ =~= self.handles@.take(self.head_at@));
            }
            true
        } else {
            false
        }
    }

    /// Compare-and-swap on the tail pointer: where it names `expect`, which is
    /// number `i` of the chain, it is set to `new`, which is number `j`.
    pub fn swing_tail(
        &mut self,
        expect: usize,
        Ghost(i): Ghost<int>,
        new: usize,
        Ghost(j): Ghost<int>,
    )
        requires
            old(self).wf(),
            0 <= i < old(self).handles().len(),
            old(self).handles()[i] == expect,
            0 <= j < old(self).handles().len(),
            old(self).handles()[j] == new,
        ensures
            final(self).wf(),
            final(self).tail_at() == if old(self).tail_at() == i {
                j
            } else {
                old(self).tail_at()
            },
            final(self).handles() == old(self).handles(),
            final(self).head_at() == old(self).head_at(),
            final(self).values() == old(self).values(),
            final(self).reserved() == old(self).reserved(),
    {
        if self.tail == expect {
            self.tail = new;
            proof {
                self.tail_at = Ghost(j);
            }
        }
    }

    /// Compare-and-swap on the head pointer: where it names `expect`, which is
    /// number `i` of the chain, it is set to the node `new` behind it. That
    /// node becomes the sentinel and gives its payload away; `expect` is left
    /// behind.
    pub fn swing_head(
        &mut self,
        expect: usize,
        Ghost(i): Ghost<int>,
        new: usize,
    ) -> (taken: Option<T>)
        requires
            old(self).wf(),
            0 <= i < old(self).handles().len() - 1,
            old(self).handles()[i] == expect,
            old(self).handles()[i + 1] == new,
        ensures
            final(self).wf(),
            final(self).handles() == old(self).handles(),
            final(self).tail_at() == old(self).tail_at(),
            final(self).reserved() == old(self).reserved(),
            old(self).head_at() == i ==> taken == Some(old(self).values()[0])
                && final(self).head_at() == i + 1 && final(self).values() == old(
                self
            ).values().skip(1),
            old(self).head_at() != i ==> taken is None && final(self).head_at() == old(
                self
            ).head_at() && final(self).values() == old(self).values(),
    {
        if self.head == expect {
            self.head = new;
            let taken = self.nodes[new].payload.take();
            self.limbo.push(expect);
            proof {
                let hs = self.handles@;
                self.head_at = Ghost(i + 1);
                self.values = Ghost(old(self).values@.skip(1));
                assert(self.limbo@ =~= hs.take(i + 1));
            }
            taken
        } else {
            None
        }
    }

    /// Gives the nodes that the head pointer has left behind back to the
    /// arena. After this no handle of such a node may be used.
    pub fn recycle(&mut self)
        requires
            old(self).wf(),
            old(self).head_at() <= old(self).tail_at(),
        ensures
            final(self).wf(),
            final(self).handles() == old(self).handles().skip(old(self).head_at()),
            final(self).head_at() == 0,
            final(self).tail_at() == old(self).tail_at() - old(self).head_at(),
            final(self).values() == old(self).values(),
            final(self).reserved() == old(self).reserved(),
    {
        self.free.append(&mut self.limbo);
        proof {
            let hs = old(self).handles@;
            let at = old(self).head_at@;
            self.handles = Ghost(hs.skip(at));
            self.head_at = Ghost(0);
            self.tail_at = Ghost(old(self).tail_at@ - at);
            assert(self.limbo@ =~= self.handles@.take(0));
        }
    }

    /// Counts the nodes of the arena that are linked or reserved.
    pub fn count_in_use(&self) -> (count: usize)
        requires
            self.wf(),
        ensures
            count == self.in_use(),
    {
        self.nodes.len() - self.free.len()
    }

    /// Whether no node stands behind the sentinel.
    pub fn is_bare(&self) -> (bare: bool)
        requires
            self.wf(),
        ensures
            bare == (self.values().len() == 0),
    {
        self.nodes[self.head].next.is_none()
    }

    /// Walks the chain from the sentinel to the last node, releases each node
    /// on the way, and returns how many there were.
    pub fn release(self) -> (count: usize)
        requires
            self.wf(),
        ensures
            count == self.values().len() + 1,
    {
        let mut chain = self;
        let mut count: usize = 1;
        let mut node = chain.head;
        let ghost hs = chain.handles@;
        let ghost start = chain.head_at@;
        loop
            invariant
                hs == self.handles@,
                start == self.head_at@,
                self.wf(),
                chain.nodes.len() == self.nodes.len(),
                forall|h: int|
                    0 <= h < chain.nodes@.len() ==> (#[trigger] chain.nodes@[h]).next
                        == self.nodes@[h].next,
                1 <= count <= hs.len() - start,
                node == hs[start + count - 1],
            ensures
                count == hs.len() - start,
            decreases hs.len() - start - count,
        {
            let _ = chain.nodes[node].payload.take();
            match chain.nodes[node].next {
                Some(next) => {
                    node = next;
                    count = count + 1;
                },
                None => {
                    break ;
                },
            }
        }
        count
    }
}

} // verus!
