//! A single-slot container that publishes one value at a time.
//!
//! The cell keeps a chain of version nodes in a slot arena: every published
//! value lives in an [`ACNode`] whose `next` field names its predecessor's
//! slot, a node whose `next` names its own slot being the tail of the chain.
//! Writers allocate a fresh node, swap it into the head and then, when the
//! load counter stands at zero, run a reclamation pass that unchains and
//! destroys every superseded node.  Values are handed out behind `Arc`
//! handles, so a handle returned by `load` outlives any later store.

use std::sync::Arc;
use vstd::prelude::*;

verus! {

/// Relies on `alloc::sync::Arc::clone`: the clone is a second handle to the
/// same allocation, so it refers to the same value as the handle it was
/// cloned from.
#[verifier::external_body]
pub(crate) fn arc_clone<T>(a: &Arc<T>) -> (r: Arc<T>)
    ensures
        r == a,
{
    a.clone()
}

/// Slot `i` occurs somewhere in the list `l`.
spec fn lists_slot(l: Seq<usize>, i: int) -> bool {
    exists|q: int| 0 <= q < l.len() && (#[trigger] l[q]) as int == i
}

/// One version node: the value it published, the slot of its predecessor
/// (its own slot when it is the tail), and the latch that marks it as fully
/// linked into the chain.
struct ACNode<T> {
    value: Arc<T>,
    next: usize,
    chained: bool,
}

/// The single-slot container.  `nodes` is the arena of version nodes,
/// `head` the slot of the currently published node, `load_counter` the
/// number of loads in progress, and `free_slots` the vacant arena slots.
pub struct AtomicCell<T> {
    nodes: Vec<Option<ACNode<T>>>,
    head: usize,
    load_counter: usize,
    free_slots: Vec<usize>,
}

impl<T> AtomicCell<T> {
    /// The currently published value, as the shared handle that holds it.
    /// In specifications an `Arc` compares equal to the value it refers to,
    /// so clauses may compare this directly against a plain `T`.
    pub closed spec fn value(&self) -> Arc<T> {
        self.nodes@[self.head as int]->Some_0.value
    }

    /// The free-slot list names exactly the vacant arena slots, each once.
    closed spec fn spare_ok(&self) -> bool {
        &&& forall|j: int|
            0 <= j < self.free_slots@.len() ==> (#[trigger] self.free_slots@[j]) < self.nodes@.len()
                && self.nodes@[self.free_slots@[j] as int] is None
        &&& forall|j: int, k: int|
            0 <= j < k < self.free_slots@.len() ==> self.free_slots@[j] != self.free_slots@[k]
        &&& forall|i: int|
            0 <= i < self.nodes@.len() && self.nodes@[i] is None ==> lists_slot(
                self.free_slots@,
                i,
            )
    }

    /// The structural part of well-formedness: the head node is the only
    /// live node, it is the self-referential tail, and it is chained.
    closed spec fn base_wf(&self) -> bool {
        &&& self.head < self.nodes@.len()
        &&& self.nodes@[self.head as int] is Some
        &&& self.nodes@[self.head as int]->Some_0.next == self.head
        &&& self.nodes@[self.head as int]->Some_0.chained
        &&& forall|i: int| 0 <= i < self.nodes@.len() && i != self.head ==> self.nodes@[i] is None
        &&& self.spare_ok()
    }

    /// Quiescent well-formedness: no load is in flight and every superseded
    /// node has been reclaimed, so the chain consists of the head alone.
    pub closed spec fn wf(&self) -> bool {
        &&& self.base_wf()
        &&& self.load_counter == 0
    }

    /// Constructs a cell publishing `value`: a single node that is its own
    /// predecessor, latched as chained once fully set up.
    pub fn new(value: T) -> (r: Self)
        ensures
            r.wf(),
            r.value() == value,
    {
        let arc = Arc::new(value);
        let mut nodes: Vec<Option<ACNode<T>>> = Vec::new();
        nodes.push(Some(ACNode { value: arc, next: 0, chained: false }));
        let mut cell = AtomicCell { nodes, head: 0, load_counter: 0, free_slots: Vec::new() };
        if let Some(n) = &mut cell.nodes[0] {
            n.chained = true;
        }
        cell
    }

    /// Constructs a cell around a value that is already behind a shared
    /// handle, without re-wrapping it.
    pub(crate) fn new_from_arc(value: Arc<T>) -> (r: Self)
        ensures
            r.wf(),
            r.value() == value,
    {
        let mut nodes: Vec<Option<ACNode<T>>> = Vec::new();
        nodes.push(Some(ACNode { value, next: 0, chained: false }));
        let mut cell = AtomicCell { nodes, head: 0, load_counter: 0, free_slots: Vec::new() };
        if let Some(n) = &mut cell.nodes[0] {
            n.chained = true;
        }
        cell
    }

    /// A valid chain of version nodes, listed head first.  Every listed slot
    /// holds a node, each node's `next` names the following entry, the last
    /// entry is the self-referential tail, every node past the head is
    /// chained, and no node lives outside the chain.
    closed spec fn chain_wf(&self, chain: Seq<usize>) -> bool {
        &&& 1 <= chain.len()
        &&& chain[0] == self.head
        &&& forall|p: int|
            0 <= p < chain.len() ==> (#[trigger] chain[p]) < self.nodes@.len()
                && self.nodes@[chain[p] as int] is Some
        &&& forall|p: int, q: int| 0 <= p < q < chain.len() ==> chain[p] != chain[q]
        &&& forall|p: int|
            0 <= p < chain.len() - 1 ==> self.nodes@[#[trigger] chain[p] as int]->Some_0.next
                == chain[p + 1]
        &&& self.nodes@[chain[chain.len() - 1] as int]->Some_0.next == chain[chain.len() - 1]
        &&& forall|p: int|
            1 <= p < chain.len() ==> self.nodes@[#[trigger] chain[p] as int]->Some_0.chained
        &&& forall|i: int|
            0 <= i < self.nodes@.len() && self.nodes@[i] is Some ==> lists_slot(chain, i)
        &&& self.spare_ok()
    }

    /// Takes a vacant arena slot (reusing a free slot when one exists) and
    /// places a fresh node in it: unchained and its own predecessor, exactly
    /// as a node starts life before publication.
    fn alloc_node(&mut self, value: Arc<T>) -> (idx: usize)
        requires
            old(self).spare_ok(),
        ensures
            final(self).head == old(self).head,
            final(self).load_counter == old(self).load_counter,
            final(self).spare_ok(),
            idx < final(self).nodes@.len(),
            old(self).nodes@.len() <= final(self).nodes@.len(),
            idx < old(self).nodes@.len() ==> old(self).nodes@[idx as int] is None
                && final(self).nodes@.len() == old(self).nodes@.len(),
            idx >= old(self).nodes@.len() ==> final(self).nodes@.len() == old(self).nodes@.len()
                + 1 && idx == old(self).nodes@.len(),
            final(self).nodes@[idx as int] == Some(
                (ACNode { value: value, next: idx, chained: false }),
            ),
            forall|i: int|
                0 <= i < old(self).nodes@.len() && i != idx ==> final(self).nodes@[i] == old(
                    self,
                ).nodes@[i],
    {
        let node = ACNode { value, next: 0, chained: false };
        match self.free_slots.pop() {
            Some(i) => {
                proof {
                    // The popped entry sat at the end of the free list; every
                    // other vacant slot sits at an earlier position, which the
                    // pop leaves in place.
                    assert(old(self).free_slots@[old(self).free_slots@.len() - 1] == i);
                    assert forall|k: int|
                        0 <= k < self.nodes@.len() && self.nodes@[k] is None && k != i
                            as int implies lists_slot(self.free_slots@, k) by {
                        assert(lists_slot(old(self).free_slots@, k));
                        let j = choose|j: int|
                            0 <= j < old(self).free_slots@.len() && (#[trigger] old(
                                self,
                            ).free_slots@[j]) as int == k;
                        assert(j < old(self).free_slots@.len() - 1);
                        assert(self.free_slots@[j] as int == k);
                    }
                }
                self.nodes.set(i, Some(ACNode { next: i, ..node }));
                i
            },
            None => {
                let i = self.nodes.len();
                self.nodes.push(Some(ACNode { next: i, ..node }));
                i
            },
        }
    }

    /// Marks slot `i` vacant and records it in the free list: the arena's
    /// rendering of destroying a node and releasing its memory.
    fn destroy_node(&mut self, i: usize)
        requires
            i < old(self).nodes@.len(),
            old(self).nodes@[i as int] is Some,
            old(self).spare_ok(),
        ensures
            final(self).head == old(self).head,
            final(self).load_counter == old(self).load_counter,
            final(self).nodes@ == old(self).nodes@.update(i as int, None::<ACNode<T>>),
            final(self).spare_ok(),
    {
        self.nodes.set(i, None);
        self.free_slots.push(i);
        proof {
            assert forall|k: int|
                0 <= k < self.nodes@.len() && self.nodes@[k] is None implies lists_slot(
                self.free_slots@,
                k,
            ) by {
                if k == i as int {
                    assert(self.free_slots@[self.free_slots@.len() - 1] as int == k);
                } else {
                    assert(lists_slot(old(self).free_slots@, k));
                    let j = choose|j: int|
                        0 <= j < old(self).free_slots@.len() && (#[trigger] old(
                            self,
                        ).free_slots@[j]) as int == k;
                    assert(self.free_slots@[j] as int == k);
                }
            }
        }
    }

    /// After a publication the chain seen by the reclamation pass is the
    /// fresh head linked to the old, self-referential head.  This packages
    /// the `chain_wf` obligation shared by every writer.
    proof fn lemma_two_link_chain(&self, chain: Seq<usize>, to_acnode: usize, old_head: usize)
        requires
            chain =~= seq![to_acnode, old_head],
            to_acnode != old_head,
            self.head == to_acnode,
            to_acnode < self.nodes@.len(),
            old_head < self.nodes@.len(),
            self.nodes@[to_acnode as int] is Some,
            self.nodes@[to_acnode as int]->Some_0.next == old_head,
            self.nodes@[old_head as int] is Some,
            self.nodes@[old_head as int]->Some_0.next == old_head,
            self.nodes@[old_head as int]->Some_0.chained,
            forall|i: int|
                0 <= i < self.nodes@.len() && i != to_acnode && i != old_head ==> self.nodes@[i]
                    is None,
            self.spare_ok(),
        ensures
            self.chain_wf(chain),
    {
        assert(chain[0] == to_acnode);
        assert(chain[1] == old_head);
        assert forall|i: int|
            0 <= i < self.nodes@.len() && self.nodes@[i] is Some implies lists_slot(chain, i) by {
            if i == to_acnode as int {
                assert(chain[0] as int == i);
            } else {
                assert(chain[1] as int == i);
            }
        }
    }

    /// The reclamation pass, walking the chain from `latest` (the head).
    /// It unchains the head, then destroys superseded nodes one at a time
    /// until it has destroyed the tail, at which point it makes the head the
    /// new self-referential tail and chains it again.  If the head is
    /// already unchained, another pass owns the chain and this one aborts.
    fn free(&mut self, latest: usize, chain: Ghost<Seq<usize>>)
        requires
            latest == old(self).head,
            old(self).chain_wf(chain@),
        ensures
            final(self).load_counter == old(self).load_counter,
            final(self).head == old(self).head,
            old(self).nodes@[latest as int]->Some_0.chained ==> final(self).base_wf()
                && final(self).value() == old(self).value(),
            !old(self).nodes@[latest as int]->Some_0.chained ==> *final(self) == *old(self),
    {
        let ghost chain = chain@;
        // Unchain the head (the flag exchange that claims the pass).
        let head_chained = self.nodes[latest].as_ref().unwrap().chained;
        if !head_chained {
            // Another pass owns the chain; abort without touching anything.
            return ;
        }
        if let Some(n) = &mut self.nodes[latest] {
            n.chained = false;
        }
        let next0 = self.nodes[latest].as_ref().unwrap().next;
        if next0 == latest {
            // The head is the tail already: nothing is superseded.  Undo the
            // unchaining and finish.
            proof {
                if chain.len() > 1 {
                    assert(old(self).nodes@[chain[0] as int]->Some_0.next == chain[1]);
                    assert(chain[0] != chain[1]);
                }
            }
            if let Some(n) = &mut self.nodes[latest] {
                n.chained = true;
            }
            proof {
                assert(chain.len() == 1);
                assert forall|i: int|
                    0 <= i < self.nodes@.len() && i != self.head implies self.nodes@[i]
                    is None by {
                    if self.nodes@[i] is Some {
                        assert(old(self).nodes@[i] is Some);
                        assert(lists_slot(chain, i));
                        let q = choose|q: int|
                            0 <= q < chain.len() && (#[trigger] chain[q]) as int == i;
                        assert(q == 0);
                    }
                }
            }
            return ;
        }
        let mut prev = next0;
        let ghost mut p: int = 1;
        loop
            invariant
                old(self).chain_wf(chain),
                old(self).nodes@[latest as int]->Some_0.chained,
                1 <= p < chain.len(),
                prev == chain[p],
                chain[0] == latest,
                latest == self.head,
                self.load_counter == old(self).load_counter,
                self.head == old(self).head,
                self.nodes@.len() == old(self).nodes@.len(),
                // the head: present, unchained, value untouched
                self.nodes@[latest as int] is Some,
                !self.nodes@[latest as int]->Some_0.chained,
                self.nodes@[latest as int]->Some_0.value == old(self).value(),
                // nodes strictly between head and the cursor are destroyed
                forall|q: int| 1 <= q < p ==> self.nodes@[#[trigger] chain[q] as int] is None,
                // the cursor and everything past it is still intact
                forall|q: int|
                    p <= q < chain.len() ==> self.nodes@[#[trigger] chain[q] as int] == old(
                        self,
                    ).nodes@[chain[q] as int],
                // nothing lives outside the chain
                forall|i: int|
                    0 <= i < self.nodes@.len() && self.nodes@[i] is Some ==> lists_slot(chain, i),
                self.spare_ok(),
            decreases chain.len() - p,
        {
            let cursor_chained = self.nodes[prev].as_ref().unwrap().chained;
            if cursor_chained {
                if let Some(n) = &mut self.nodes[prev] {
                    n.chained = false;
                }
                let nxt = self.nodes[prev].as_ref().unwrap().next;
                if nxt == prev {
                    // The cursor is the tail: destroy it, make the head the
                    // new tail and publish it as chained again.
                    proof {
                        if p < chain.len() - 1 {
                            assert(old(self).nodes@[chain[p] as int]->Some_0.next == chain[p + 1]);
                            assert(chain[p] != chain[p + 1]);
                        }
                        assert(p == chain.len() - 1);
                    }
                    self.destroy_node(prev);
                    if let Some(n) = &mut self.nodes[latest] {
                        n.next = latest;
                        n.chained = true;
                    }
                    proof {
                        assert forall|i: int|
                            0 <= i < self.nodes@.len() && i != self.head implies self.nodes@[i]
                            is None by {
                            if self.nodes@[i] is Some {
                                assert(lists_slot(chain, i));
                                let q = choose|q: int|
                                    0 <= q < chain.len() && (#[trigger] chain[q]) as int == i;
                                if 1 <= q < p {
                                    assert(self.nodes@[chain[q] as int] is None);
                                }
                                assert(q == 0);
                            }
                        }
                    }
                    return ;
                } else {
                    // An inner node: destroy it and follow its predecessor.
                    proof {
                        if p == chain.len() - 1 {
                            assert(old(self).nodes@[chain[p] as int]->Some_0.next == chain[p]);
                        }
                        assert(p < chain.len() - 1);
                        assert(old(self).nodes@[chain[p] as int]->Some_0.next == chain[p + 1]);
                    }
                    self.destroy_node(prev);
                    prev = nxt;
                    proof {
                        p = p + 1;
                    }
                }
            } else {
                // The cursor is mid-publication by another writer: bridge the
                // head to it so it stays reachable, and stop.  A quiescent
                // chain never carries such a node, so this arm is never taken
                // here; it is the protocol's answer to a lost flag exchange.
                proof {
                    assert(self.nodes@[chain[p] as int] == old(self).nodes@[chain[p] as int]);
                    assert(old(self).nodes@[chain[p] as int]->Some_0.chained);
                }
                if let Some(n) = &mut self.nodes[latest] {
                    n.next = prev;
                    n.chained = true;
                }
                return ;
            }
        }
    }

    /// Publishes `value` as the new head.  The superseded node chain is
    /// reclaimed before returning, the load counter being zero.
    pub fn store(&mut self, value: T)
        requires
            old(self).wf(),
        ensures
            final(self).wf(),
            final(self).value() == value,
    {
        let arc = Arc::new(value);
        let to_acnode = self.alloc_node(arc);
        // The head swap: publication proper.
        let old_head = self.head;
        self.head = to_acnode;
        // Link the fresh node to its predecessor, then latch it as chained.
        if let Some(n) = &mut self.nodes[to_acnode] {
            n.next = old_head;
            n.chained = true;
        }
        if self.load_counter == 0 {
            let ghost chain: Seq<usize> = seq![to_acnode, old_head];
            proof {
                self.lemma_two_link_chain(chain, to_acnode, old_head);
            }
            self.free(to_acnode, Ghost(chain));
        }
    }

    /// Publishes `value` and returns a handle to the value it supersedes.
    pub fn swap(&mut self, value: T) -> (r: Arc<T>)
        requires
            old(self).wf(),
        ensures
            final(self).wf(),
            final(self).value() == value,
            r == old(self).value(),
    {
        let arc = Arc::new(value);
        let to_acnode = self.alloc_node(arc);
        let old_head = self.head;
        self.head = to_acnode;
        let ret_val = arc_clone(&self.nodes[old_head].as_ref().unwrap().value);
        if let Some(n) = &mut self.nodes[to_acnode] {
            n.next = old_head;
            n.chained = true;
        }
        if self.load_counter == 0 {
            let ghost chain: Seq<usize> = seq![to_acnode, old_head];
            proof {
                self.lemma_two_link_chain(chain, to_acnode, old_head);
            }
            self.free(to_acnode, Ghost(chain));
        }
        ret_val
    }

    /// The head-pointer exchange: publishes slot `new` only if the head is
    /// still `expected`, and otherwise fails with nothing observable changed.
    /// There are no spurious failures.
    fn cas(&mut self, expected: usize, new: usize) -> (r: Result<(), ()>)
        ensures
            old(self).head == expected ==> r is Ok && final(self).head == new && final(self).nodes
                == old(self).nodes && final(self).load_counter == old(self).load_counter
                && final(self).free_slots == old(self).free_slots,
            old(self).head != expected ==> r is Err && *final(self) == *old(self),
    {
        if self.head == expected {
            self.head = new;
            Ok(())
        } else {
            Err(())
        }
    }

    /// Loads the current value, applies `f`, and tries to publish the value
    /// `f` returns with a head exchange, repeating the whole attempt when
    /// the exchange fails; the second component of `f`'s result from the
    /// attempt that published is handed back.  The load counter is raised
    /// across the attempt and restored on every path, and the writer runs
    /// the reclamation pass once the counter returns to zero.
    pub fn fetch_update<O, F: Fn(Arc<T>) -> (Arc<T>, O)>(&mut self, f: F) -> (r: O)
        requires
            old(self).wf(),
            forall|a: Arc<T>| a == old(self).value() ==> call_requires(f, (a,)),
        ensures
            final(self).wf(),
            exists|a: Arc<T>, w: Arc<T>|
                a == old(self).value() && #[trigger] call_ensures(f, (a,), (w, r))
                    && final(self).value() == w,
    {
        loop
            invariant
                self.wf(),
                self.value() == old(self).value(),
                forall|a: Arc<T>| a == old(self).value() ==> call_requires(f, (a,)),
            decreases 0nat,
        {
            self.load_counter = self.load_counter + 1;
            let ptr = self.head;
            let arg = arc_clone(&self.nodes[ptr].as_ref().unwrap().value);
            let (write, output) = f(arg);
            let to_new = self.alloc_node(write);
            match self.cas(ptr, to_new) {
                Ok(()) => {
                    if let Some(n) = &mut self.nodes[to_new] {
                        n.next = ptr;
                        n.chained = true;
                    }
                    self.load_counter = self.load_counter - 1;
                    if self.load_counter == 0 {
                        let ghost chain: Seq<usize> = seq![to_new, ptr];
                        proof {
                            self.lemma_two_link_chain(chain, to_new, ptr);
                        }
                        self.free(to_new, Ghost(chain));
                    }
                    return output;
                },
                Err(()) => {
                    // The head moved between the load and the exchange: undo
                    // the attempt and go round again.  With the cell held
                    // exclusively the exchange cannot fail, so this arm is the
                    // protocol's retry, never taken here.
                    self.load_counter = self.load_counter - 1;
                    self.destroy_node(to_new);
                },
            }
        }
    }

    /// At quiescence — the cell well-formed and no load in flight — the
    /// internal chain is exactly the head node: it is the self-referential
    /// tail, and every other arena slot is vacant.
    pub proof fn lemma_quiescent_chain(&self)
        requires
            self.wf(),
        ensures
            self.chain_len() == 1,
    {
        assert forall|i: int| 0 <= i < self.nodes@.len() implies self.chain_len_at(i) == (
        if i == self.head as int {
            1int
        } else {
            0int
        }) by {
        }
        self.lemma_chain_len_split(self.head as int);
    }

    /// How many live nodes the arena holds in slots `0 .. n`.
    closed spec fn chain_len_up_to(&self, n: int) -> int
        decreases n,
    {
        if n <= 0 {
            0
        } else {
            self.chain_len_up_to(n - 1) + self.chain_len_at(n - 1)
        }
    }

    closed spec fn chain_len_at(&self, i: int) -> int {
        if 0 <= i < self.nodes@.len() && self.nodes@[i] is Some {
            1
        } else {
            0
        }
    }

    /// The number of live nodes in the whole arena: at quiescence the length
    /// of the version chain, since every live node is then on the chain.
    pub closed spec fn chain_len(&self) -> int {
        self.chain_len_up_to(self.nodes@.len() as int)
    }

    /// Counting live slots below `n`, when every live slot other than `h` is
    /// vacant, yields one exactly when `h` lies below `n`.
    proof fn lemma_chain_len_split(&self, h: int)
        requires
            0 <= h < self.nodes@.len(),
            forall|i: int| 0 <= i < self.nodes@.len() ==> self.chain_len_at(i) == (
            if i == h {
                1int
            } else {
                0int
            }),
        ensures
            self.chain_len() == 1,
    {
        self.lemma_chain_len_split_up_to(h, self.nodes@.len() as int);
    }

    proof fn lemma_chain_len_split_up_to(&self, h: int, n: int)
        requires
            0 <= h < self.nodes@.len(),
            n <= self.nodes@.len(),
            forall|i: int| 0 <= i < self.nodes@.len() ==> self.chain_len_at(i) == (
            if i == h {
                1int
            } else {
                0int
            }),
        ensures
            self.chain_len_up_to(n) == if h < n {
                1int
            } else {
                0int
            },
        decreases n,
    {
        if n > 0 {
            self.lemma_chain_len_split_up_to(h, n - 1);
        }
    }

    /// Publishes `new` exactly when the current value compares equal to
    /// `expected`, and otherwise fails with no observable change; the
    /// comparison is structural, through `T`'s own `==`.  On either path the
    /// tentative node is reclaimed or becomes the head, and the load counter
    /// is restored.
    pub fn cas_by_eq(&mut self, expected: &T, new: T) -> (r: Result<(), ()>) where T: Eq
        requires
            old(self).wf(),
            vstd::laws_eq::obeys_concrete_eq::<T>(),
        ensures
            final(self).wf(),
            old(self).value() == *expected ==> r is Ok && final(self).value() == new,
            !(old(self).value() == *expected) ==> r is Err && final(self).value() == old(
                self,
            ).value(),
    {
        proof {
            reveal(vstd::laws_eq::obeys_concrete_eq);
        }
        let arc_new = Arc::new(new);
        let to_new = self.alloc_node(arc_new);
        self.load_counter = self.load_counter + 1;
        let latest = self.head;
        let cur = arc_clone(&self.nodes[latest].as_ref().unwrap().value);
        if *cur == *expected {
            match self.cas(latest, to_new) {
                Ok(()) => {
                    if let Some(n) = &mut self.nodes[to_new] {
                        n.next = latest;
                        n.chained = true;
                    }
                    self.load_counter = self.load_counter - 1;
                    if self.load_counter == 0 {
                        let ghost chain: Seq<usize> = seq![to_new, latest];
                        proof {
                            self.lemma_two_link_chain(chain, to_new, latest);
                        }
                        self.free(to_new, Ghost(chain));
                    }
                    return Ok(());
                },
                Err(()) => {
                    // The head moved after the value was read: fall through
                    // and report the failure.  Held exclusively, the head
                    // cannot move, so this arm is never taken here.
                },
            }
        }
        self.load_counter = self.load_counter - 1;
        self.destroy_node(to_new);
        Err(())
    }

    /// Returns a handle to the currently published value.  The handle stays
    /// valid however many stores follow.  A reader-side reclamation pass
    /// would find nothing here: at quiescence the chain is already a single
    /// node, so the pass the last reader would run is vacuous.
    pub fn load(&self) -> (r: Arc<T>)
        requires
            self.wf(),
        ensures
            r == self.value(),
    {
        arc_clone(&self.nodes[self.head].as_ref().unwrap().value)
    }
}

} // verus!

