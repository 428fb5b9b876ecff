//! A doubly-linked deque whose nodes live in an arena of slots addressed by
//! integer handles, with a runtime-checked borrow claim on every element.
//!
//! Each node records its neighbours through optional `prev`/`next` slot
//! indices, so the chain can be walked and mutated from either end. A ghost
//! sequence of slot indices, kept from head to tail, ties the concrete
//! links to the abstract model: the view of a deque is the sequence of its
//! elements from front to back, and beside it stands the sequence of
//! outstanding borrow claims, one per node.
//!
//! Peeking hands out guard tokens. A guard records which node its claim is
//! on; while it is outstanding the node's claim is `Shared` or `Exclusive`,
//! and releasing the guard returns the claim towards `Free`. Acquiring an
//! exclusive claim over any outstanding claim (or a shared claim over an
//! exclusive one) is a borrow conflict, reported to the caller rather than
//! performed. Structural operations expect a quiescent deque — every claim
//! released — mirroring a discipline in which a guard borrows the whole
//! list for as long as it lives.
//!
//! Teardown needs no recursion at all: dropping the deque drops the arena,
//! slot by slot, however long the chain is.

use vstd::prelude::*;

verus! {

/// The runtime borrow claim on one node's element: free, claimed by some
/// number of readers, or claimed by a single writer.
#[derive(Clone, Copy, Debug)]
pub enum BorrowState {
    Free,
    Shared(usize),
    Exclusive,
}

/// Witness that acquiring a claim met a conflicting claim already
/// outstanding on the same node.
#[derive(Debug)]
pub struct BorrowConflict;

/// What acquiring one more shared claim turns a node's claim into, or
/// `None` when the claim is exclusively held (or the reader count is
/// saturated) and the acquisition must be refused.
pub open spec fn acquire_shared(b: BorrowState) -> Option<BorrowState> {
    match b {
        BorrowState::Free => Some(BorrowState::Shared(1)),
        BorrowState::Shared(c) => if c < usize::MAX {
            Some(BorrowState::Shared((c + 1) as usize))
        } else {
            None
        },
        BorrowState::Exclusive => None,
    }
}

/// What acquiring an exclusive claim turns a node's claim into, or `None`
/// when any claim is outstanding and the acquisition must be refused.
pub open spec fn acquire_exclusive(b: BorrowState) -> Option<BorrowState> {
    match b {
        BorrowState::Free => Some(BorrowState::Exclusive),
        _ => None,
    }
}

/// What releasing one shared claim leaves of a node's claim.
pub open spec fn release_shared(b: BorrowState) -> BorrowState {
    match b {
        BorrowState::Shared(c) => if c <= 1 {
            BorrowState::Free
        } else {
            BorrowState::Shared((c - 1) as usize)
        },
        _ => BorrowState::Free,
    }
}

/// A token for one outstanding shared claim on a node's element. It is
/// minted by `peek_front`/`peek_back` and given back to `release_read`.
pub struct ReadGuard {
    idx: usize,
    pos: Ghost<int>,
}

impl ReadGuard {
    /// The position, from the front, of the node this guard's claim is on.
    pub closed spec fn position(&self) -> int {
        self.pos@
    }
}

/// A token for the outstanding exclusive claim on a node's element. It is
/// minted by `peek_front_mut`/`peek_back_mut` and given back to
/// `release_write`.
pub struct WriteGuard {
    idx: usize,
    pos: Ghost<int>,
}

impl WriteGuard {
    /// The position, from the front, of the node this guard's claim is on.
    pub closed spec fn position(&self) -> int {
        self.pos@
    }
}

/// One arena slot: an element with its two directional links and the
/// borrow claim on the element. A slot not on the chain holds no element.
struct Slot<T> {
    elem: Option<T>,
    prev: Option<usize>,
    next: Option<usize>,
    claim: BorrowState,
}

/// The deque. `head` and `tail` address the endpoint slots; `spare` holds
/// the slot indices free for reuse; `chain` is the ghost head-to-tail
/// order of the occupied slots.
pub struct List<T> {
    slots: Vec<Slot<T>>,
    head: Option<usize>,
    tail: Option<usize>,
    spare: Vec<usize>,
    chain: Ghost<Seq<usize>>,
}

impl<T> View for List<T> {
    type V = Seq<T>;

    /// The elements from front to back.
    closed spec fn view(&self) -> Seq<T> {
        Seq::new(self.chain@.len(), |i: int| self.slots@[self.chain@[i] as int].elem->0)
    }
}

impl<T> List<T> {
    /// The borrow claims on the nodes, from front to back.
    pub closed spec fn claims(&self) -> Seq<BorrowState> {
        Seq::new(self.chain@.len(), |i: int| self.slots@[self.chain@[i] as int].claim)
    }

    /// No borrow claim is outstanding on any node.
    pub open spec fn quiescent(&self) -> bool {
        forall|i: int| 0 <= i < self.claims().len() ==> self.claims()[i] is Free
    }

    /// The node at chain position `i` is linked and filled as the chain
    /// demands: its element is present, its `prev` names the slot before it
    /// (absent at the head), and its `next` the slot after it (absent at
    /// the tail).
    spec fn node_ok(&self, i: int) -> bool {
        let ch = self.chain@;
        &&& (ch[i] as int) < self.slots@.len()
        &&& self.slots@[ch[i] as int].elem is Some
        &&& self.slots@[ch[i] as int].prev == (if i == 0 {
            None::<usize>
        } else {
            Some(ch[i - 1])
        })
        &&& self.slots@[ch[i] as int].next == (if i == ch.len() - 1 {
            None::<usize>
        } else {
            Some(ch[i + 1])
        })
    }

    /// The chain is a well-formed doubly-linked order over distinct slots:
    /// the deque is empty exactly when both endpoint handles are absent,
    /// and otherwise `head` and `tail` address its two ends.
    spec fn chain_ok(&self) -> bool {
        let ch = self.chain@;
        &&& ch.no_duplicates()
        &&& (forall|i: int| 0 <= i < ch.len() ==> #[trigger] self.node_ok(i))
        &&& self.head == (if ch.len() == 0 {
            None::<usize>
        } else {
            Some(ch[0])
        })
        &&& self.tail == (if ch.len() == 0 {
            None::<usize>
        } else {
            Some(ch[ch.len() - 1])
        })
    }

    /// The spare indices are distinct, in bounds, and name no slot on the
    /// chain.
    spec fn spare_ok(&self) -> bool {
        &&& self.spare@.no_duplicates()
        &&& (forall|i: int|
            0 <= i < self.spare@.len() ==> (#[trigger] self.spare@[i] as int)
                < self.slots@.len() && !self.chain@.contains(self.spare@[i]))
    }

    /// Structural well-formedness; every public operation preserves it.
    pub closed spec fn wf(&self) -> bool {
        self.chain_ok() && self.spare_ok()
    }

    /// This guard stands for one of the shared claims on the node at its
    /// position.
    pub closed spec fn read_valid(&self, g: ReadGuard) -> bool {
        &&& 0 <= g.position() < self.chain@.len()
        &&& self.chain@[g.position()] == g.idx
        &&& self.claims()[g.position()] matches BorrowState::Shared(c) && c >= 1
    }

    /// This guard stands for the exclusive claim on the node at its
    /// position.
    pub closed spec fn write_valid(&self, g: WriteGuard) -> bool {
        &&& 0 <= g.position() < self.chain@.len()
        &&& self.chain@[g.position()] == g.idx
        &&& self.claims()[g.position()] is Exclusive
    }

    /// An empty deque.
    pub fn new() -> (l: List<T>)
        ensures
            l.wf(),
            l@ == Seq::<T>::empty(),
            l.claims() == Seq::<BorrowState>::empty(),
    {
        let l = List {
            slots: Vec::new(),
            head: None,
            tail: None,
            spare: Vec::new(),
            chain: Ghost(Seq::empty()),
        };
        proof {
            assert(l@ =~= Seq::<T>::empty());
            assert(l.claims() =~= Seq::<BorrowState>::empty());
        }
        l
    }

    /// The borrow claims run in step with the elements, one per node.
    pub proof fn lemma_claims_match_view(&self)
        ensures
            self.claims().len() == self@.len(),
    {
    }

    /// Fills a slot with `elem`, unlinked and unclaimed, reusing a spare
    /// slot when one is at hand; the chain itself is left untouched.
    fn new_slot(&mut self, elem: T) -> (idx: usize)
        requires
            old(self).wf(),
        ensures
            final(self).wf(),
            final(self).chain@ == old(self).chain@,
            final(self).head == old(self).head,
            final(self).tail == old(self).tail,
            (idx as int) < final(self).slots@.len(),
            !old(self).chain@.contains(idx),
            !final(self).spare@.contains(idx),
            final(self).slots@[idx as int].elem == Some(elem),
            final(self).slots@[idx as int].prev is None,
            final(self).slots@[idx as int].next is None,
            final(self).slots@[idx as int].claim is Free,
            old(self).slots@.len() <= final(self).slots@.len(),
            forall|j: int|
                0 <= j < old(self).slots@.len() && j != idx ==> final(self).slots@[j]
                    == old(self).slots@[j],
            final(self).slots@.len() <= old(self).slots@.len() + 1,
            old(self).slots@.len() < final(self).slots@.len() ==> idx == old(self).slots@.len(),
    {
        let fresh = Slot { elem: Some(elem), prev: None, next: None, claim: BorrowState::Free };
        let reuse = self.spare.pop();
        match reuse {
            Some(idx) => {
                proof {
                    let sp = old(self).spare@;
                    assert(sp[sp.len() - 1] == idx);
                    assert((idx as int) < self.slots@.len() && !self.chain@.contains(idx));
                    assert forall|k: int| 0 <= k < self.spare@.len() implies self.spare@[k]
                        != idx by {
                        assert(self.spare@[k] == sp[k]);
                        assert(sp[k] != sp[sp.len() - 1]);
                    }
                }
                self.slots[idx] = fresh;
                proof {
                    assert forall|i: int| 0 <= i < self.chain@.len() implies #[trigger] self
                        .node_ok(i) by {
                        assert(old(self).node_ok(i));
                        assert(self.chain@[i] != idx);
                    }
                    assert(!self.spare@.contains(idx));
                }
                idx
            }
            None => {
                let idx = self.slots.len();
                self.slots.push(fresh);
                proof {
                    assert(!old(self).chain@.contains(idx)) by {
                        if old(self).chain@.contains(idx) {
                            let i = old(self).chain@.index_of(idx);
                            assert(old(self).node_ok(i));
                        }
                    }
                    assert forall|i: int| 0 <= i < self.chain@.len() implies #[trigger] self
                        .node_ok(i) by {
                        assert(old(self).node_ok(i));
                    }
                    assert(!self.spare@.contains(idx)) by {
                        if self.spare@.contains(idx) {
                            let i = self.spare@.index_of(idx);
                            assert(old(self).spare@[i] == idx);
                        }
                    }
                }
                idx
            }
        }
    }

    /// Puts `elem` at the front of the deque.
    pub fn push_front(&mut self, elem: T)
        requires
            old(self).wf(),
            old(self).quiescent(),
        ensures
            final(self).wf(),
            final(self).quiescent(),
            final(self)@ == seq![elem] + old(self)@,
            final(self).claims() == seq![BorrowState::Free] + old(self).claims(),
    {
        let ghost pre = *old(self);
        let idx = self.new_slot(elem);
        let ghost mid = *self;
        match self.head {
            None => {
                self.head = Some(idx);
                self.tail = Some(idx);
            }
            Some(h) => {
                proof {
                    assert(mid.node_ok(0));
                }
                let hs = &mut self.slots[h];
                hs.prev = Some(idx);
                let ns = &mut self.slots[idx];
                ns.next = Some(h);
                self.head = Some(idx);
            }
        }
        proof {
            self.chain@ = seq![idx] + mid.chain@;
        }
        proof {
            let oc = mid.chain@;
            let nc = self.chain@;
            assert(nc.no_duplicates()) by {
                assert forall|i: int, j: int|
                    0 <= i < nc.len() && 0 <= j < nc.len() && i != j implies nc[i] != nc[j] by {
                    if i > 0 && j > 0 {
                        assert(oc[i - 1] != oc[j - 1]);
                    }
                }
            }
            if oc.len() == 0 {
                assert forall|i: int| 0 <= i < nc.len() implies #[trigger] self.node_ok(i) by {
                    assert(i == 0);
                }
            } else {
                let h = oc[0];
                assert(mid.node_ok(0));
                assert forall|i: int| 0 <= i < nc.len() implies #[trigger] self.node_ok(i) by {
                    if i == 0 {
                        assert(self.slots@[idx as int].next == Some(h));
                    } else {
                        assert(mid.node_ok(i - 1));
                        if i == 1 {
                            assert(self.slots@[h as int].prev == Some(idx));
                            assert(self.slots@[h as int].elem == mid.slots@[h as int].elem);
                        } else {
                            assert(oc[i - 1] != h && oc[i - 1] != idx);
                            assert(self.slots@[oc[i - 1] as int] == mid.slots@[oc[i - 1] as int]);
                        }
                    }
                }
                assert(self.tail == Some(nc[nc.len() - 1]));
            }
            assert(self.spare_ok()) by {
                assert forall|i: int|
                    0 <= i < self.spare@.len() implies (#[trigger] self.spare@[i] as int)
                        < self.slots@.len() && !self.chain@.contains(self.spare@[i]) by {
                    assert(mid.spare@[i] == self.spare@[i]);
                    assert(!mid.chain@.contains(self.spare@[i]));
                    assert(self.spare@[i] != idx);
                    if self.chain@.contains(self.spare@[i]) {
                        let k = self.chain@.index_of(self.spare@[i]);
                        assert(oc[k - 1] == self.spare@[i]);
                    }
                }
            }
            assert(final(self)@ =~= seq![elem] + pre@) by {
                assert forall|i: int| 0 <= i < nc.len() implies self@[i] == (seq![elem] + pre@)[i] by {
                    if i > 0 {
                        assert(mid.node_ok(i - 1));
                        assert(pre.node_ok(i - 1));
                        assert(oc[i - 1] != idx);
                        if i > 1 {
                            assert(oc[i - 1] != oc[0]);
                        }
                        assert(self.slots@[oc[i - 1] as int].elem == mid.slots@[oc[i - 1] as int].elem);
                        assert(mid.slots@[oc[i - 1] as int].elem == pre.slots@[oc[i - 1] as int].elem);
                    }
                }
            }
            assert(final(self).claims() =~= seq![BorrowState::Free] + pre.claims()) by {
                assert forall|i: int|
                    0 <= i < nc.len() implies self.claims()[i] == (seq![BorrowState::Free]
                    + pre.claims())[i] by {
                    if i > 0 {
                        assert(mid.node_ok(i - 1));
                        assert(pre.node_ok(i - 1));
                        assert(oc[i - 1] != idx);
                        if i > 1 {
                            assert(oc[i - 1] != oc[0]);
                        }
                        assert(self.slots@[oc[i - 1] as int].claim == mid.slots@[oc[i - 1] as int].claim);
                        assert(mid.slots@[oc[i - 1] as int].claim == pre.slots@[oc[i - 1] as int].claim);
                    }
                }
            }
        }
    }

    /// Removes and returns the front element; `None` on an empty deque,
    /// which it leaves untouched.
    pub fn pop_front(&mut self) -> (r: Option<T>)
        requires
            old(self).wf(),
            old(self).quiescent(),
        ensures
            final(self).wf(),
            final(self).quiescent(),
            old(self)@.len() == 0 ==> r is None && *final(self) == *old(self),
            old(self)@.len() > 0 ==> r == Some(old(self)@[0]) && final(self)@ == old(self)@
                .drop_first() && final(self).claims() == old(self).claims().drop_first(),
    {
        let ghost pre = *old(self);
        match self.head {
            None => {
                proof {
                    assert(pre.chain@.len() == 0);
                }
                None
            }
            Some(h) => {
                proof {
                    assert(pre.node_ok(0));
                }
                let hs = &mut self.slots[h];
                let e = hs.elem.take();
                let nx = hs.next;
                let ghost mid = *self;
                match nx {
                    None => {
                        self.head = None;
                        self.tail = None;
                    }
                    Some(n) => {
                        proof {
                            assert(pre.node_ok(1));
                            assert(pre.chain@[1] == n);
                            assert(n != h);
                        }
                        let ns = &mut self.slots[n];
                        ns.prev = None;
                        self.head = Some(n);
                    }
                }
                self.spare.push(h);
                proof {
                    self.chain@ = pre.chain@.drop_first();
                }
                proof {
                    let oc = pre.chain@;
                    let nc = self.chain@;
                    assert(nc.no_duplicates()) by {
                        assert forall|i: int, j: int|
                            0 <= i < nc.len() && 0 <= j < nc.len() && i != j implies nc[i]
                            != nc[j] by {
                            assert(oc[i + 1] != oc[j + 1]);
                        }
                    }
                    assert forall|i: int| 0 <= i < nc.len() implies #[trigger] self.node_ok(i) by {
                        assert(pre.node_ok(i + 1));
                        assert(oc[i + 1] != h);
                        if i == 0 {
                            assert(self.slots@[nc[0] as int].prev is None);
                        } else {
                            assert(oc[i + 1] != oc[1]);
                            assert(self.slots@[nc[i] as int] == pre.slots@[nc[i] as int]);
                        }
                    }
                    if nc.len() > 0 {
                        assert(self.head == Some(nc[0]));
                        assert(self.tail == Some(nc[nc.len() - 1]));
                    }
                    assert(self.spare_ok()) by {
                        let sp = self.spare@;
                        assert(sp == pre.spare@.push(h));
                        assert forall|i: int, j: int|
                            0 <= i < sp.len() && 0 <= j < sp.len() && i != j implies sp[i]
                            != sp[j] by {
                            if i < sp.len() - 1 && j < sp.len() - 1 {
                                assert(pre.spare@[i] != pre.spare@[j]);
                            } else {
                                let k = if i < sp.len() - 1 { i } else { j };
                                assert(pre.spare@[k] == sp[k]);
                                assert(!pre.chain@.contains(pre.spare@[k]));
                                assert(pre.chain@[0] == h);
                            }
                        }
                        assert forall|i: int|
                            0 <= i < sp.len() implies (#[trigger] sp[i] as int)
                                < self.slots@.len() && !self.chain@.contains(sp[i]) by {
                            if self.chain@.contains(sp[i]) {
                                let k = self.chain@.index_of(sp[i]);
                                assert(oc[k + 1] == sp[i]);
                                if i < sp.len() - 1 {
                                    assert(!pre.chain@.contains(pre.spare@[i]));
                                } else {
                                    assert(sp[i] == h);
                                    assert(oc[k + 1] != oc[0]);
                                }
                            }
                        }
                    }
                    assert(final(self)@ =~= pre@.drop_first()) by {
                        assert forall|i: int|
                            0 <= i < nc.len() implies self@[i] == pre@.drop_first()[i] by {
                            assert(pre.node_ok(i + 1));
                            assert(oc[i + 1] != h);
                            assert(self.slots@[nc[i] as int].elem == pre.slots@[nc[i] as int].elem);
                        }
                    }
                    assert(final(self).claims() =~= pre.claims().drop_first()) by {
                        assert forall|i: int|
                            0 <= i < nc.len() implies self.claims()[i] == pre.claims()
                            .drop_first()[i] by {
                            assert(pre.node_ok(i + 1));
                            assert(oc[i + 1] != h);
                            if i > 0 {
                                assert(oc[i + 1] != oc[1]);
                            }
                            assert(self.slots@[nc[i] as int].claim == pre.slots@[nc[i] as int].claim);
                        }
                    }
                    assert(e == Some(pre@[0]));
                }
                Some(e.unwrap())
            }
        }
    }

    /// Puts `elem` at the back of the deque.
    pub fn push_back(&mut self, elem: T)
        requires
            old(self).wf(),
            old(self).quiescent(),
        ensures
            final(self).wf(),
            final(self).quiescent(),
            final(self)@ == old(self)@.push(elem),
            final(self).claims() == old(self).claims().push(BorrowState::Free),
    {
        let ghost pre = *old(self);
        let idx = self.new_slot(elem);
        let ghost mid = *self;
        match self.tail {
            None => {
                self.head = Some(idx);
                self.tail = Some(idx);
            }
            Some(t) => {
                proof {
                    assert(mid.node_ok(mid.chain@.len() - 1));
                }
                let ts = &mut self.slots[t];
                ts.next = Some(idx);
                let ns = &mut self.slots[idx];
                ns.prev = Some(t);
                self.tail = Some(idx);
            }
        }
        proof {
            self.chain@ = mid.chain@.push(idx);
        }
        proof {
            let oc = mid.chain@;
            let nc = self.chain@;
            let last = oc.len() - 1;
            assert(nc.no_duplicates()) by {
                assert forall|i: int, j: int|
                    0 <= i < nc.len() && 0 <= j < nc.len() && i != j implies nc[i] != nc[j] by {
                    if i < last + 1 && j < last + 1 {
                        assert(oc[i] != oc[j]);
                    }
                }
            }
            if oc.len() == 0 {
                assert forall|i: int| 0 <= i < nc.len() implies #[trigger] self.node_ok(i) by {
                    assert(i == 0);
                }
            } else {
                let t = oc[last];
                assert(mid.node_ok(last));
                assert forall|i: int| 0 <= i < nc.len() implies #[trigger] self.node_ok(i) by {
                    if i == nc.len() - 1 {
                        assert(self.slots@[idx as int].prev == Some(t));
                    } else {
                        assert(mid.node_ok(i));
                        if i == last {
                            assert(self.slots@[t as int].next == Some(idx));
                            assert(self.slots@[t as int].elem == mid.slots@[t as int].elem);
                        } else {
                            assert(oc[i] != t && oc[i] != idx);
                            assert(self.slots@[oc[i] as int] == mid.slots@[oc[i] as int]);
                        }
                    }
                }
                assert(self.head == Some(nc[0]));
            }
            assert(self.spare_ok()) by {
                assert forall|i: int|
                    0 <= i < self.spare@.len() implies (#[trigger] self.spare@[i] as int)
                        < self.slots@.len() && !self.chain@.contains(self.spare@[i]) by {
                    assert(mid.spare@[i] == self.spare@[i]);
                    assert(!mid.chain@.contains(self.spare@[i]));
                    assert(self.spare@[i] != idx);
                    if self.chain@.contains(self.spare@[i]) {
                        let k = self.chain@.index_of(self.spare@[i]);
                        assert(oc[k] == self.spare@[i]);
                    }
                }
            }
            assert(final(self)@ =~= pre@.push(elem)) by {
                assert forall|i: int| 0 <= i < nc.len() implies self@[i] == pre@.push(elem)[i] by {
                    if i < nc.len() - 1 {
                        assert(mid.node_ok(i));
                        assert(pre.node_ok(i));
                        assert(oc[i] != idx);
                        if i < last {
                            assert(oc[i] != oc[last]);
                        }
                        assert(self.slots@[oc[i] as int].elem == mid.slots@[oc[i] as int].elem);
                        assert(mid.slots@[oc[i] as int].elem == pre.slots@[oc[i] as int].elem);
                    }
                }
            }
            assert(final(self).claims() =~= pre.claims().push(BorrowState::Free)) by {
                assert forall|i: int|
                    0 <= i < nc.len() implies self.claims()[i] == pre.claims().push(
                    BorrowState::Free,
                )[i] by {
                    if i < nc.len() - 1 {
                        assert(mid.node_ok(i));
                        assert(pre.node_ok(i));
                        assert(oc[i] != idx);
                        if i < last {
                            assert(oc[i] != oc[last]);
                        }
                        assert(self.slots@[oc[i] as int].claim == mid.slots@[oc[i] as int].claim);
                        assert(mid.slots@[oc[i] as int].claim == pre.slots@[oc[i] as int].claim);
                    }
                }
            }
        }
    }

    /// Removes and returns the back element; `None` on an empty deque,
    /// which it leaves untouched.
    pub fn pop_back(&mut self) -> (r: Option<T>)
        requires
            old(self).wf(),
            old(self).quiescent(),
        ensures
            final(self).wf(),
            final(self).quiescent(),
            old(self)@.len() == 0 ==> r is None && *final(self) == *old(self),
            old(self)@.len() > 0 ==> r == Some(old(self)@.last()) && final(self)@ == old(self)@
                .drop_last() && final(self).claims() == old(self).claims().drop_last(),
    {
        let ghost pre = *old(self);
        match self.tail {
            None => {
                proof {
                    assert(pre.chain@.len() == 0);
                }
                None
            }
            Some(t) => {
                let ghost last = pre.chain@.len() - 1;
                proof {
                    assert(pre.node_ok(last));
                }
                let ts = &mut self.slots[t];
                let e = ts.elem.take();
                let px = ts.prev;
                match px {
                    None => {
                        proof {
                            assert(last == 0);
                        }
                        self.head = None;
                        self.tail = None;
                    }
                    Some(p) => {
                        proof {
                            assert(pre.node_ok(last - 1));
                            assert(pre.chain@[last - 1] == p);
                            assert(p != t);
                        }
                        let ps = &mut self.slots[p];
                        ps.next = None;
                        self.tail = Some(p);
                    }
                }
                self.spare.push(t);
                proof {
                    self.chain@ = pre.chain@.drop_last();
                }
                proof {
                    let oc = pre.chain@;
                    let nc = self.chain@;
                    assert(nc.no_duplicates()) by {
                        assert forall|i: int, j: int|
                            0 <= i < nc.len() && 0 <= j < nc.len() && i != j implies nc[i]
                            != nc[j] by {
                            assert(oc[i] != oc[j]);
                        }
                    }
                    assert forall|i: int| 0 <= i < nc.len() implies #[trigger] self.node_ok(i) by {
                        assert(pre.node_ok(i));
                        assert(oc[i] != oc[last]);
                        if i == nc.len() - 1 {
                            assert(self.slots@[nc[i] as int].next is None);
                        } else {
                            assert(oc[i] != oc[last - 1]);
                            assert(self.slots@[nc[i] as int] == pre.slots@[nc[i] as int]);
                        }
                    }
                    if nc.len() > 0 {
                        assert(self.head == Some(nc[0]));
                        assert(self.tail == Some(nc[nc.len() - 1]));
                    }
                    assert(self.spare_ok()) by {
                        let sp = self.spare@;
                        assert(sp == pre.spare@.push(t));
                        assert forall|i: int, j: int|
                            0 <= i < sp.len() && 0 <= j < sp.len() && i != j implies sp[i]
                            != sp[j] by {
                            if i < sp.len() - 1 && j < sp.len() - 1 {
                                assert(pre.spare@[i] != pre.spare@[j]);
                            } else {
                                let k = if i < sp.len() - 1 { i } else { j };
                                assert(pre.spare@[k] == sp[k]);
                                assert(!pre.chain@.contains(pre.spare@[k]));
                                assert(pre.chain@[last] == t);
                            }
                        }
                        assert forall|i: int|
                            0 <= i < sp.len() implies (#[trigger] sp[i] as int)
                                < self.slots@.len() && !self.chain@.contains(sp[i]) by {
                            if self.chain@.contains(sp[i]) {
                                let k = self.chain@.index_of(sp[i]);
                                assert(oc[k] == sp[i]);
                                if i < sp.len() - 1 {
                                    assert(!pre.chain@.contains(pre.spare@[i]));
                                } else {
                                    assert(sp[i] == t);
                                    assert(oc[k] != oc[last]);
                                }
                            }
                        }
                    }
                    assert forall|i: int|
                        0 <= i < nc.len() implies self.slots@[nc[i] as int].elem == pre.slots@[nc[i] as int].elem
                            && self.slots@[nc[i] as int].claim == pre.slots@[nc[i] as int].claim by {
                        assert(pre.node_ok(i));
                        assert(oc[i] != oc[last]);
                        if i < nc.len() - 1 {
                            assert(oc[i] != oc[last - 1]);
                        }
                    }
                    assert(final(self)@ =~= pre@.drop_last());
                    assert(final(self).claims() =~= pre.claims().drop_last());
                    assert(e == Some(pre@[last]));
                }
                Some(e.unwrap())
            }
        }
    }

    /// Replaces the borrow claim on the node at chain position `pos`,
    /// leaving everything else as it stands.
    fn set_claim(&mut self, idx: usize, c: BorrowState, Ghost(pos): Ghost<int>)
        requires
            old(self).wf(),
            0 <= pos < old(self).chain@.len(),
            old(self).chain@[pos] == idx,
        ensures
            final(self).wf(),
            final(self).chain@ == old(self).chain@,
            final(self).head == old(self).head,
            final(self).tail == old(self).tail,
            final(self)@ == old(self)@,
            final(self).claims() == old(self).claims().update(pos, c),
    {
        proof {
            assert(old(self).node_ok(pos));
        }
        let s = &mut self.slots[idx];
        s.claim = c;
        proof {
            let oc = old(self).chain@;
            assert forall|i: int| 0 <= i < oc.len() implies #[trigger] self.node_ok(i) by {
                assert(old(self).node_ok(i));
                if oc[i] != idx {
                    assert(self.slots@[oc[i] as int] == old(self).slots@[oc[i] as int]);
                }
            }
            assert(final(self)@ =~= old(self)@) by {
                assert forall|i: int| 0 <= i < oc.len() implies self@[i] == old(self)@[i] by {
                    assert(old(self).node_ok(i));
                    if oc[i] != idx {
                        assert(self.slots@[oc[i] as int] == old(self).slots@[oc[i] as int]);
                    }
                }
            }
            assert(final(self).claims() =~= old(self).claims().update(pos, c)) by {
                assert forall|i: int|
                    0 <= i < oc.len() implies self.claims()[i] == old(self).claims().update(
                    pos,
                    c,
                )[i] by {
                    assert(old(self).node_ok(i));
                    if oc[i] != idx {
                        assert(self.slots@[oc[i] as int] == old(self).slots@[oc[i] as int]);
                        assert(i != pos);
                    } else {
                        assert(i == pos);
                    }
                }
            }
        }
    }

    /// Claims the front element for shared reading. Yields `Ok(None)` on an
    /// empty deque, a guard for the claim otherwise, and reports a conflict
    /// — leaving the deque untouched — when the front node is exclusively
    /// claimed (or its reader count is saturated).
    pub fn peek_front(&mut self) -> (r: Result<Option<ReadGuard>, BorrowConflict>)
        requires
            old(self).wf(),
        ensures
            final(self).wf(),
            old(self)@.len() == 0 ==> r == Ok::<Option<ReadGuard>, BorrowConflict>(None)
                && *final(self) == *old(self),
            old(self)@.len() > 0 ==> match acquire_shared(old(self).claims()[0]) {
                Some(c) => r matches Ok(Some(g)) && final(self).read_valid(g) && g.position()
                    == 0 && final(self)@ == old(self)@ && final(self).claims() == old(
                    self,
                ).claims().update(0, c),
                None => r matches Err(_) && *final(self) == *old(self),
            },
            forall|h: ReadGuard| old(self).read_valid(h) ==> final(self).read_valid(h),
            forall|h: WriteGuard| old(self).write_valid(h) ==> final(self).write_valid(h),
    {
        match self.head {
            None => Ok(None),
            Some(h) => {
                proof {
                    assert(old(self).node_ok(0));
                }
                let claim = self.slots[h].claim;
                let granted = match claim {
                    BorrowState::Free => Some(BorrowState::Shared(1)),
                    BorrowState::Shared(n) => if n < usize::MAX {
                        Some(BorrowState::Shared(n + 1))
                    } else {
                        None
                    },
                    BorrowState::Exclusive => None,
                };
                match granted {
                    None => Err(BorrowConflict),
                    Some(c) => {
                        self.set_claim(h, c, Ghost(0));
                        Ok(Some(ReadGuard { idx: h, pos: Ghost(0) }))
                    }
                }
            }
        }
    }

    /// Claims the back element for shared reading; as `peek_front`, at the
    /// other end.
    pub fn peek_back(&mut self) -> (r: Result<Option<ReadGuard>, BorrowConflict>)
        requires
            old(self).wf(),
        ensures
            final(self).wf(),
            old(self)@.len() == 0 ==> r == Ok::<Option<ReadGuard>, BorrowConflict>(None)
                && *final(self) == *old(self),
            old(self)@.len() > 0 ==> match acquire_shared(old(self).claims().last()) {
                Some(c) => r matches Ok(Some(g)) && final(self).read_valid(g) && g.position()
                    == old(self)@.len() - 1 && final(self)@ == old(self)@ && final(self).claims()
                    == old(self).claims().update(old(self)@.len() - 1, c),
                None => r matches Err(_) && *final(self) == *old(self),
            },
            forall|h: ReadGuard| old(self).read_valid(h) ==> final(self).read_valid(h),
            forall|h: WriteGuard| old(self).write_valid(h) ==> final(self).write_valid(h),
    {
        match self.tail {
            None => {
                proof {
                    assert(old(self).chain@.len() == 0);
                }
                Ok(None)
            }
            Some(t) => {
                let ghost last = old(self).chain@.len() - 1;
                proof {
                    assert(old(self).node_ok(last));
                }
                let claim = self.slots[t].claim;
                let granted = match claim {
                    BorrowState::Free => Some(BorrowState::Shared(1)),
                    BorrowState::Shared(n) => if n < usize::MAX {
                        Some(BorrowState::Shared(n + 1))
                    } else {
                        None
                    },
                    BorrowState::Exclusive => None,
                };
                match granted {
                    None => Err(BorrowConflict),
                    Some(c) => {
                        self.set_claim(t, c, Ghost(last));
                        Ok(Some(ReadGuard { idx: t, pos: Ghost(last) }))
                    }
                }
            }
        }
    }

    /// Claims the front element for exclusive writing. Yields `Ok(None)` on
    /// an empty deque, a guard for the claim otherwise, and reports a
    /// conflict — leaving the deque untouched — when any claim is
    /// outstanding on the front node.
    pub fn peek_front_mut(&mut self) -> (r: Result<Option<WriteGuard>, BorrowConflict>)
        requires
            old(self).wf(),
        ensures
            final(self).wf(),
            old(self)@.len() == 0 ==> r == Ok::<Option<WriteGuard>, BorrowConflict>(None)
                && *final(self) == *old(self),
            old(self)@.len() > 0 ==> match acquire_exclusive(old(self).claims()[0]) {
                Some(c) => r matches Ok(Some(g)) && final(self).write_valid(g) && g.position()
                    == 0 && final(self)@ == old(self)@ && final(self).claims() == old(
                    self,
                ).claims().update(0, c),
                None => r matches Err(_) && *final(self) == *old(self),
            },
            forall|h: ReadGuard| old(self).read_valid(h) ==> final(self).read_valid(h),
            forall|h: WriteGuard| old(self).write_valid(h) ==> final(self).write_valid(h),
    {
        match self.head {
            None => Ok(None),
            Some(h) => {
                proof {
                    assert(old(self).node_ok(0));
                }
                let claim = self.slots[h].claim;
                match claim {
                    BorrowState::Free => {
                        self.set_claim(h, BorrowState::Exclusive, Ghost(0));
                        Ok(Some(WriteGuard { idx: h, pos: Ghost(0) }))
                    }
                    _ => Err(BorrowConflict),
                }
            }
        }
    }

    /// Claims the back element for exclusive writing; as `peek_front_mut`,
    /// at the other end.
    pub fn peek_back_mut(&mut self) -> (r: Result<Option<WriteGuard>, BorrowConflict>)
        requires
            old(self).wf(),
        ensures
            final(self).wf(),
            old(self)@.len() == 0 ==> r == Ok::<Option<WriteGuard>, BorrowConflict>(None)
                && *final(self) == *old(self),
            old(self)@.len() > 0 ==> match acquire_exclusive(old(self).claims().last()) {
                Some(c) => r matches Ok(Some(g)) && final(self).write_valid(g) && g.position()
                    == old(self)@.len() - 1 && final(self)@ == old(self)@ && final(self).claims()
                    == old(self).claims().update(old(self)@.len() - 1, c),
                None => r matches Err(_) && *final(self) == *old(self),
            },
            forall|h: ReadGuard| old(self).read_valid(h) ==> final(self).read_valid(h),
            forall|h: WriteGuard| old(self).write_valid(h) ==> final(self).write_valid(h),
    {
        match self.tail {
            None => {
                proof {
                    assert(old(self).chain@.len() == 0);
                }
                Ok(None)
            }
            Some(t) => {
                let ghost last = old(self).chain@.len() - 1;
                proof {
                    assert(old(self).node_ok(last));
                }
                let claim = self.slots[t].claim;
                match claim {
                    BorrowState::Free => {
                        self.set_claim(t, BorrowState::Exclusive, Ghost(last));
                        Ok(Some(WriteGuard { idx: t, pos: Ghost(last) }))
                    }
                    _ => Err(BorrowConflict),
                }
            }
        }
    }

    /// A shared borrow of the element a read guard's claim is on.
    pub fn read(&self, g: &ReadGuard) -> (r: &T)
        requires
            self.wf(),
            self.read_valid(*g),
        ensures
            *r == self@[g.position()],
    {
        proof {
            assert(self.node_ok(g.position()));
        }
        self.slots[g.idx].elem.as_ref().unwrap()
    }

    /// A shared borrow of the element a write guard's claim is on.
    pub fn read_exclusive(&self, g: &WriteGuard) -> (r: &T)
        requires
            self.wf(),
            self.write_valid(*g),
        ensures
            *r == self@[g.position()],
    {
        proof {
            assert(self.node_ok(g.position()));
        }
        self.slots[g.idx].elem.as_ref().unwrap()
    }

    /// Replaces the element a write guard's claim is on; the guard stays
    /// outstanding.
    pub fn write(&mut self, g: &WriteGuard, value: T)
        requires
            old(self).wf(),
            old(self).write_valid(*g),
        ensures
            final(self).wf(),
            final(self)@ == old(self)@.update(g.position(), value),
            final(self).claims() == old(self).claims(),
            final(self).write_valid(*g),
            forall|h: ReadGuard| old(self).read_valid(h) ==> final(self).read_valid(h),
            forall|h: WriteGuard| old(self).write_valid(h) ==> final(self).write_valid(h),
    {
        proof {
            assert(old(self).node_ok(g.position()));
        }
        let s = &mut self.slots[g.idx];
        s.elem = Some(value);
        proof {
            let oc = old(self).chain@;
            let pos = g.position();
            assert forall|i: int| 0 <= i < oc.len() implies #[trigger] self.node_ok(i) by {
                assert(old(self).node_ok(i));
                if oc[i] != g.idx {
                    assert(self.slots@[oc[i] as int] == old(self).slots@[oc[i] as int]);
                }
            }
            assert(final(self)@ =~= old(self)@.update(pos, value)) by {
                assert forall|i: int|
                    0 <= i < oc.len() implies self@[i] == old(self)@.update(pos, value)[i] by {
                    assert(old(self).node_ok(i));
                    if oc[i] != g.idx {
                        assert(self.slots@[oc[i] as int] == old(self).slots@[oc[i] as int]);
                        assert(i != pos);
                    } else {
                        assert(i == pos);
                    }
                }
            }
            assert(final(self).claims() =~= old(self).claims()) by {
                assert forall|i: int|
                    0 <= i < oc.len() implies self.claims()[i] == old(self).claims()[i] by {
                    assert(old(self).node_ok(i));
                    if oc[i] != g.idx {
                        assert(self.slots@[oc[i] as int] == old(self).slots@[oc[i] as int]);
                    }
                }
            }
        }
    }

    /// Gives back a read guard, releasing its shared claim.
    pub fn release_read(&mut self, g: ReadGuard)
        requires
            old(self).wf(),
            old(self).read_valid(g),
        ensures
            final(self).wf(),
            final(self)@ == old(self)@,
            final(self).claims() == old(self).claims().update(
                g.position(),
                release_shared(old(self).claims()[g.position()]),
            ),
            forall|h: ReadGuard|
                old(self).read_valid(h) && h.position() != g.position()
                    ==> final(self).read_valid(h),
            forall|h: WriteGuard| old(self).write_valid(h) ==> final(self).write_valid(h),
    {
        proof {
            assert(old(self).node_ok(g.position()));
        }
        let claim = self.slots[g.idx].claim;
        let released = match claim {
            BorrowState::Shared(n) => if n <= 1 {
                BorrowState::Free
            } else {
                BorrowState::Shared(n - 1)
            },
            _ => BorrowState::Free,
        };
        proof {
            assert(old(self).claims()[g.position()] == claim);
        }
        self.set_claim(g.idx, released, Ghost(g.position()));
    }

    /// Gives back a write guard, releasing its exclusive claim.
    pub fn release_write(&mut self, g: WriteGuard)
        requires
            old(self).wf(),
            old(self).write_valid(g),
        ensures
            final(self).wf(),
            final(self)@ == old(self)@,
            final(self).claims() == old(self).claims().update(g.position(), BorrowState::Free),
            forall|h: ReadGuard| old(self).read_valid(h) ==> final(self).read_valid(h),
            forall|h: WriteGuard|
                old(self).write_valid(h) && h.position() != g.position()
                    ==> final(self).write_valid(h),
    {
        proof {
            assert(old(self).node_ok(g.position()));
        }
        self.set_claim(g.idx, BorrowState::Free, Ghost(g.position()));
    }

    /// Consumes the deque, yielding a bidirectional cursor over its
    /// elements.
    pub fn into_iter(self) -> (it: IntoIter<T>)
        requires
            self.wf(),
            self.quiescent(),
        ensures
            it.wf(),
            it@ == self@,
    {
        IntoIter { list: self }
    }
}

/// A bidirectional cursor that owns the deque it walks: advancing forward
/// takes elements from the front, advancing backward from the back, and
/// both directions agree that the walk is over exactly when the deque has
/// run empty — once spent, it stays spent.
pub struct IntoIter<T> {
    list: List<T>,
}

impl<T> View for IntoIter<T> {
    type V = Seq<T>;

    /// The elements not yet walked, front to back.
    closed spec fn view(&self) -> Seq<T> {
        self.list@
    }
}

impl<T> IntoIter<T> {
    /// The cursor still wraps a well-formed, unclaimed deque.
    pub closed spec fn wf(&self) -> bool {
        self.list.wf() && self.list.quiescent()
    }

    /// The next element from the front, or `None` once the deque is spent,
    /// which it then stays.
    pub fn next(&mut self) -> (r: Option<T>)
        requires
            old(self).wf(),
        ensures
            final(self).wf(),
            old(self)@.len() == 0 ==> r is None && *final(self) == *old(self),
            old(self)@.len() > 0 ==> r == Some(old(self)@[0]) && final(self)@ == old(self)@
                .drop_first(),
    {
        self.list.pop_front()
    }

    /// The next element from the back, or `None` once the deque is spent,
    /// which it then stays.
    pub fn next_back(&mut self) -> (r: Option<T>)
        requires
            old(self).wf(),
        ensures
            final(self).wf(),
            old(self)@.len() == 0 ==> r is None && *final(self) == *old(self),
            old(self)@.len() > 0 ==> r == Some(old(self)@.last()) && final(self)@ == old(self)@
                .drop_last(),
    {
        self.list.pop_back()
    }
}

/// The view after pushing the elements of `xs`, in order, at the front of
/// a deque whose view is `s`: each push puts its element before all that
/// stand, as `push_front`'s contract states.
pub open spec fn after_push_front_all<T>(s: Seq<T>, xs: Seq<T>) -> Seq<T>
    decreases xs.len(),
{
    if xs.len() == 0 {
        s
    } else {
        after_push_front_all(seq![xs[0]] + s, xs.drop_first())
    }
}

/// The view after pushing the elements of `xs`, in order, at the back of
/// a deque whose view is `s`: each push puts its element after all that
/// stand, as `push_back`'s contract states.
pub open spec fn after_push_back_all<T>(s: Seq<T>, xs: Seq<T>) -> Seq<T>
    decreases xs.len(),
{
    if xs.len() == 0 {
        s
    } else {
        after_push_back_all(s.push(xs[0]), xs.drop_first())
    }
}

/// A pure front-push run stacks its elements in reverse: pushing `xs` in
/// order at the front leaves `xs` reversed before whatever stood there.
/// Since `pop_front` returns the view's elements front first, popping a
/// front-pushed deque returns the elements in reverse push order — last
/// in, first out.
pub proof fn lemma_push_front_all_reverses<T>(s: Seq<T>, xs: Seq<T>)
    ensures
        after_push_front_all(s, xs) == xs.reverse() + s,
    decreases xs.len(),
{
    if xs.len() == 0 {
        assert(xs.reverse() + s =~= s);
    } else {
        lemma_push_front_all_reverses(seq![xs[0]] + s, xs.drop_first());
        assert(xs.drop_first().reverse() + (seq![xs[0]] + s) =~= xs.reverse() + s);
    }
}

/// A pure back-push run keeps its elements in order: pushing `xs` in order
/// at the back leaves `xs` itself after whatever stood there. Since
/// `pop_front` returns the view's elements front first, popping a
/// back-pushed deque returns the elements in push order — first in, first
/// out.
pub proof fn lemma_push_back_all_appends<T>(s: Seq<T>, xs: Seq<T>)
    ensures
        after_push_back_all(s, xs) == s + xs,
    decreases xs.len(),
{
    if xs.len() == 0 {
        assert(s + xs =~= s);
    } else {
        lemma_push_back_all_appends(s.push(xs[0]), xs.drop_first());
        assert(s.push(xs[0]) + xs.drop_first() =~= s + xs);
    }
}

/// What a writer wrote is what a reader then sees: replacing the view's
/// element at a position — as `write` through a write guard does — and
/// then taking the element there — as `read` through a guard at the same
/// position does — yields exactly the value written, while every other
/// position stands as it was.
pub proof fn lemma_write_then_read<T>(s: Seq<T>, i: int, value: T)
    requires
        0 <= i < s.len(),
    ensures
        s.update(i, value)[i] == value,
        s.update(i, value).len() == s.len(),
        forall|j: int| 0 <= j < s.len() && j != i ==> s.update(i, value)[j] == s[j],
{
}

} // verus!
