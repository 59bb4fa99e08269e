//! A log on a doubly linked list, open at both ends.
//!
//! The nodes live in an arena and link to each other by index; a slot that a
//! removal leaves vacant is used again by a later append.

use crate::slots::{lemma_distinct_bound, lemma_vacate, store, vacant_ok};
use vstd::prelude::*;

verus! {

/// A slot of the arena: a value and the indices of the slots behind it and
/// before it, or nothing while the slot is vacant.
struct Node<T> {
    value: Option<T>,
    next: Option<usize>,
    prev: Option<usize>,
}

impl<T> Node<T> {
    fn new(value: T) -> (node: Node<T>)
        ensures
            node.value == Some(value),
            node.next is None,
            node.prev is None,
    {
        Node { value: Some(value), next: None, prev: None }
    }
}

/// A log that takes and gives values at both ends. Its view is the sequence of
/// its values from the front to the back.
pub struct BetterTransactionLog<T> {
    /// The slots, vacant ones among them.
    nodes: Vec<Node<T>>,
    /// The vacant slots.
    free: Vec<usize>,
    /// The slot of the value at the front.
    head: Option<usize>,
    /// The slot of the value at the back.
    tail: Option<usize>,
    /// The number of values. The methods of the log keep it; whoever writes to
    /// it gives up `wf`.
    pub length: u64,
    /// The slots in use, from the head to the tail.
    order: Ghost<Seq<int>>,
}

/// The slots in `order` are distinct and filled, neighbours link to each
/// other, the first one has none before it and the last one none after it.
spec fn chain_ok<T>(nodes: Seq<Node<T>>, order: Seq<int>) -> bool {
    &&& order.no_duplicates()
    &&& forall|k: int|
        0 <= k < order.len() ==> 0 <= #[trigger] order[k] < nodes.len() && nodes[order[k]].value
            is Some
    &&& forall|j: int, k: int|
        0 <= j && j + 1 == k && k < order.len() ==> {
            &&& nodes[#[trigger] order[j]].next == Some(#[trigger] order[k] as usize)
            &&& nodes[order[k]].prev == Some(order[j] as usize)
        }
    &&& order.len() > 0 ==> nodes[order.first()].prev is None && nodes[order.last()].next is None
}

/// The values of the slots in `order`.
spec fn values_of<T>(nodes: Seq<Node<T>>, order: Seq<int>) -> Seq<T> {
    Seq::new(order.len(), |k: int| nodes[order[k]].value.unwrap())
}

impl<T> View for BetterTransactionLog<T> {
    type V = Seq<T>;

    /// The values from the front to the back.
    closed spec fn view(&self) -> Seq<T> {
        values_of(self.nodes@, self.order@)
    }
}

impl<T> BetterTransactionLog<T> {
    /// The number that the field `length` holds.
    pub closed spec fn len(&self) -> nat {
        self.length as nat
    }

    /// The links lead from the head through every value to the tail and back,
    /// and `length` counts the values.
    pub closed spec fn wf(&self) -> bool {
        &&& chain_ok(self.nodes@, self.order@)
        &&& vacant_ok(self.free@, self.order@, self.nodes.len() as int)
        &&& self.length == self.order@.len()
        &&& self.head == if self.order@.len() > 0 {
            Some(self.order@[0] as usize)
        } else {
            None
        }
        &&& self.tail == if self.order@.len() > 0 {
            Some(self.order@.last() as usize)
        } else {
            None
        }
    }

    /// In a well-formed log `length` counts the values.
    pub proof fn lemma_shape(&self)
        requires
            self.wf(),
        ensures
            self.len() == self@.len(),
    {
    }

    /// An empty log.
    pub fn new_empty() -> (log: Self)
        ensures
            log.wf(),
            log@ == Seq::<T>::empty(),
            log.len() == 0,
    {
        BetterTransactionLog {
            nodes: Vec::new(),
            free: Vec::new(),
            head: None,
            tail: None,
            length: 0,
            order: Ghost(Seq::empty()),
        }
    }

    /// Puts `value` before the front.
    pub fn append_fwd(&mut self, value: T)
        requires
            old(self).wf(),
        ensures
            final(self).wf(),
            final(self)@ == seq![value] + old(self)@,
            final(self).len() == old(self).len() + 1,
    {
        let mut new_head = Node::new(value);
        new_head.next = self.head;
        let idx = store(&mut self.nodes, &mut self.free, new_head);
        match self.head {
            Some(old_head) => {
                self.nodes[old_head].prev = Some(idx);
            },
            None => {
                self.tail = Some(idx);
            },
        }
        proof {
            let before = self.order@;
            let after = seq![idx as int] + before;
            self.order@ = after;
            assert forall|k: int| 0 <= k < before.len() implies #[trigger] before[k] != idx by {
                if old(self).free@.len() > 0 {
                    assert(old(self).free@.last() != before[k]);
                }
            }
            assert forall|k: int| 0 < k < after.len() implies #[trigger] after[k] == before[k
                - 1] by {}
            assert forall|j: int, k: int| 0 <= j && j + 1 == k && k < after.len() implies {
                &&& self.nodes[#[trigger] after[j]].next == Some(#[trigger] after[k] as usize)
                &&& self.nodes[after[k]].prev == Some(after[j] as usize)
            } by {
                assert(after[k] == before[k - 1]);
                if j > 0 {
                    assert(after[j] == before[j - 1]);
                    assert(before[k - 1] != before.first());
                    assert(old(self).nodes[before[j - 1]].next == Some(before[k - 1] as usize));
                }
            }
            assert forall|j: int, k: int|
                0 <= j < self.free@.len() && 0 <= k < after.len() implies #[trigger] self.free@[j]
                != #[trigger] after[k] by {
                assert(self.free@[j] == old(self).free@[j]);
                if k > 0 {
                    assert(old(self).free@[j] != before[k - 1]);
                }
            }
            lemma_distinct_bound(after, self.nodes.len() as int);
        }
        self.length += 1;
        self.head = Some(idx);
        proof {
            assert forall|k: int| 0 < k < self@.len() implies self@[k] == old(self)@[k - 1] by {
                assert(self.order@[k] == old(self).order@[k - 1]);
            }
            assert(self@ =~= seq![value] + old(self)@);
        }
    }

    /// Puts `value` behind the back.
    pub fn append_bwd(&mut self, value: T)
        requires
            old(self).wf(),
        ensures
            final(self).wf(),
            final(self)@ == old(self)@.push(value),
            final(self).len() == old(self).len() + 1,
    {
        let mut new_tail = Node::new(value);
        new_tail.prev = self.tail;
        let idx = store(&mut self.nodes, &mut self.free, new_tail);
        match self.tail {
            Some(old_tail) => {
                self.nodes[old_tail].next = Some(idx);
            },
            None => {
                self.head = Some(idx);
            },
        }
        proof {
            let before = self.order@;
            let after = before.push(idx as int);
            self.order@ = after;
            assert forall|k: int| 0 <= k < before.len() implies #[trigger] before[k] != idx by {
                if old(self).free@.len() > 0 {
                    assert(old(self).free@.last() != before[k]);
                }
            }
            assert forall|j: int, k: int| 0 <= j && j + 1 == k && k < after.len() implies {
                &&& self.nodes[#[trigger] after[j]].next == Some(#[trigger] after[k] as usize)
                &&& self.nodes[after[k]].prev == Some(after[j] as usize)
            } by {
                assert(after[j] == before[j]);
                if k < before.len() {
                    assert(after[k] == before[k]);
                    assert(before[j] != before.last());
                    assert(old(self).nodes[before[j]].next == Some(before[k] as usize));
                }
            }
            lemma_distinct_bound(after, self.nodes.len() as int);
        }
        self.length += 1;
        self.tail = Some(idx);
        assert(self@ =~= old(self)@.push(value));
    }

    /// Removes the value at the front and returns it; returns nothing when the
    /// log is empty.
    pub fn pop_fwd(&mut self) -> (r: Option<T>)
        requires
            old(self).wf(),
        ensures
            final(self).wf(),
            old(self)@.len() == 0 ==> r is None && final(self)@ == old(self)@ && final(self).len()
                == old(self).len(),
            old(self)@.len() > 0 ==> r == Some(old(self)@[0]) && final(self)@ == old(
                self,
            )@.drop_first() && final(self).len() == old(self).len() - 1,
    {
        match self.head {
            Some(old_head) => {
                let ghost before = self.order@;
                let value = self.nodes[old_head].value.take();
                match self.nodes[old_head].next.take() {
                    Some(next) => {
                        proof {
                            assert(before.len() > 1 && before[1] == next) by {
                                if before.len() > 1 {
                                    assert(old(self).nodes[before[0]].next == Some(
                                        before[1] as usize,
                                    ));
                                }
                            }
                        }
                        self.nodes[next].prev = None;
                        self.head = Some(next);
                    },
                    None => {
                        proof {
                            assert(before.len() == 1) by {
                                if before.len() > 1 {
                                    assert(old(self).nodes[before[0]].next == Some(
                                        before[1] as usize,
                                    ));
                                }
                            }
                        }
                        self.head = None;
                        self.tail = None;
                    },
                }
                self.length -= 1;
                self.free.push(old_head);
                proof {
                    let after = before.drop_first();
                    self.order@ = after;
                    assert forall|k: int| 0 <= k < after.len() implies #[trigger] after[k]
                        == before[k + 1] && after[k] != old_head by {}
                    assert forall|j: int, k: int| 0 <= j && j + 1 == k && k < after.len() implies {
                        &&& self.nodes[#[trigger] after[j]].next == Some(
                            #[trigger] after[k] as usize,
                        )
                        &&& self.nodes[after[k]].prev == Some(after[j] as usize)
                    } by {
                        assert(old(self).nodes[before[j + 1]].next == Some(before[k + 1] as usize));
                        assert(before[k + 1] != before[1]);
                    }
                    assert forall|k: int| 0 <= k < after.len() implies before.contains(
                        #[trigger] after[k],
                    ) by {
                        assert(before[k + 1] == after[k]);
                    }
                    lemma_vacate(
                        old(self).free@,
                        before,
                        after,
                        old_head,
                        self.nodes.len() as int,
                    );
                    assert(self@ =~= old(self)@.drop_first());
                }
                value
            },
            None => None,
        }
    }

    /// Removes the value at the back and returns it; returns nothing when the
    /// log is empty.
    pub fn pop_bwd(&mut self) -> (r: Option<T>)
        requires
            old(self).wf(),
        ensures
            final(self).wf(),
            old(self)@.len() == 0 ==> r is None && final(self)@ == old(self)@ && final(self).len()
                == old(self).len(),
            old(self)@.len() > 0 ==> r == Some(old(self)@.last()) && final(self)@ == old(
                self,
            )@.drop_last() && final(self).len() == old(self).len() - 1,
    {
        match self.tail {
            Some(old_tail) => {
                let ghost before = self.order@;
                let ghost gone = before.len() - 1;
                let value = self.nodes[old_tail].value.take();
                match self.nodes[old_tail].prev.take() {
                    Some(prev) => {
                        proof {
                            assert(before.len() > 1 && before[gone - 1] == prev) by {
                                if before.len() > 1 {
                                    assert(old(self).nodes[before[gone - 1]].next == Some(
                                        before[gone] as usize,
                                    ));
                                }
                            }
                        }
                        self.nodes[prev].next = None;
                        self.tail = Some(prev);
                    },
                    None => {
                        proof {
                            assert(before.len() == 1) by {
                                if before.len() > 1 {
                                    assert(old(self).nodes[before[gone - 1]].next == Some(
                                        before[gone] as usize,
                                    ));
                                }
                            }
                        }
                        self.head = None;
                        self.tail = None;
                    },
                }
                self.length -= 1;
                self.free.push(old_tail);
                proof {
                    let after = before.drop_last();
                    self.order@ = after;
                    assert forall|k: int| 0 <= k < after.len() implies #[trigger] after[k]
                        == before[k] && after[k] != old_tail by {}
                    assert forall|j: int, k: int| 0 <= j && j + 1 == k && k < after.len() implies {
                        &&& self.nodes[#[trigger] after[j]].next == Some(
                            #[trigger] after[k] as usize,
                        )
                        &&& self.nodes[after[k]].prev == Some(after[j] as usize)
                    } by {
                        assert(old(self).nodes[before[j]].next == Some(before[k] as usize));
                        assert(before[j] != before[gone - 1]);
                    }
                    assert forall|k: int| 0 <= k < after.len() implies before.contains(
                        #[trigger] after[k],
                    ) by {
                        assert(before[k] == after[k]);
                    }
                    lemma_vacate(
                        old(self).free@,
                        before,
                        after,
                        old_tail,
                        self.nodes.len() as int,
                    );
                    assert(self@ =~= old(self)@.drop_last());
                }
                value
            },
            None => None,
        }
    }

    /// The value at the front, if there is one.
    pub fn peek_fwd(&self) -> (r: Option<&T>)
        requires
            self.wf(),
        ensures
            r == if self@.len() > 0 {
                Some(&self@[0])
            } else {
                None
            },
    {
        match self.head {
            Some(head) => self.nodes[head].value.as_ref(),
            None => None,
        }
    }

    /// The value at the back, if there is one.
    pub fn peek_bwd(&self) -> (r: Option<&T>)
        requires
            self.wf(),
        ensures
            r == if self@.len() > 0 {
                Some(&self@.last())
            } else {
                None
            },
    {
        match self.tail {
            Some(tail) => self.nodes[tail].value.as_ref(),
            None => None,
        }
    }

    /// A cursor that starts at the back.
    pub fn back_iter(self) -> (it: ListIterator<T>)
        requires
            self.wf(),
        ensures
            it.wf(),
            it.items() == self@,
            it.position() == if self@.len() > 0 {
                Some(self@.len() - 1)
            } else {
                None
            },
    {
        let ghost at = if self.order@.len() > 0 {
            Some(self.order@.len() - 1)
        } else {
            None
        };
        ListIterator::new(self.nodes, self.tail, self.order, Ghost(at))
    }

    /// A cursor that starts at the front.
    pub fn iter(self) -> (it: ListIterator<T>)
        requires
            self.wf(),
        ensures
            it.wf(),
            it.items() == self@,
            it.position() == if self@.len() > 0 {
                Some(0int)
            } else {
                None
            },
    {
        let ghost at = if self.order@.len() > 0 {
            Some(0int)
        } else {
            None
        };
        ListIterator::new(self.nodes, self.head, self.order, Ghost(at))
    }
}

/// A cursor on the values of a log; it can step towards the back and towards
/// the front.
pub struct ListIterator<T> {
    nodes: Vec<Node<T>>,
    current: Option<usize>,
    order: Ghost<Seq<int>>,
    at: Ghost<Option<int>>,
}

impl<T> ListIterator<T> {
    /// The values from the front to the back.
    pub closed spec fn items(&self) -> Seq<T> {
        values_of(self.nodes@, self.order@)
    }

    /// The index in `items()` of the value under the cursor; nothing once the
    /// cursor has left the list.
    pub closed spec fn position(&self) -> Option<int> {
        self.at@
    }

    /// The links pass through every value, and the cursor is on the slot of
    /// its position.
    pub closed spec fn wf(&self) -> bool {
        &&& chain_ok(self.nodes@, self.order@)
        &&& match self.at@ {
            Some(p) => 0 <= p < self.order@.len() && self.current == Some(self.order@[p] as usize),
            None => self.current is None,
        }
    }

    /// In a well-formed cursor the position is an index of `items()`.
    pub proof fn lemma_position(&self)
        requires
            self.wf(),
        ensures
            self.position() matches Some(p) ==> 0 <= p < self.items().len(),
    {
    }

    fn new(
        nodes: Vec<Node<T>>,
        start_at: Option<usize>,
        Ghost(order): Ghost<Seq<int>>,
        Ghost(at): Ghost<Option<int>>,
    ) -> (it: ListIterator<T>)
        ensures
            it.nodes == nodes,
            it.current == start_at,
            it.order@ == order,
            it.at@ == at,
    {
        ListIterator { nodes, current: start_at, order: Ghost(order), at: Ghost(at) }
    }
}

impl<T: Clone> ListIterator<T> {
    /// Yields a clone of the value under the cursor and moves the cursor one
    /// value towards the back.
    pub fn next(&mut self) -> (r: Option<T>)
        requires
            old(self).wf(),
        ensures
            final(self).wf(),
            final(self).items() == old(self).items(),
            match old(self).position() {
                Some(p) => {
                    &&& r matches Some(v) && cloned(old(self).items()[p], v)
                    &&& final(self).position() == if p + 1 < old(self).items().len() {
                        Some(p + 1)
                    } else {
                        None
                    }
                },
                None => r is None && final(self).position() is None,
            },
    {
        match self.current {
            Some(current) => {
                let result = self.nodes[current].value.clone();
                self.current = self.nodes[current].next;
                proof {
                    let p = self.at@.unwrap();
                    assert(0 <= self.order@[p] < self.nodes.len());
                    assert(self.order@[p] == current);
                    if p + 1 < self.order@.len() {
                        assert(0 <= self.order@[p + 1] < self.nodes.len());
                        assert(self.nodes[self.order@[p]].next == Some(
                            self.order@[p + 1] as usize,
                        ));
                        self.at@ = Some(p + 1);
                    } else {
                        self.at@ = None;
                    }
                }
                result
            },
            None => None,
        }
    }

    /// Yields a clone of the value under the cursor and moves the cursor one
    /// value towards the front.
    pub fn next_back(&mut self) -> (r: Option<T>)
        requires
            old(self).wf(),
        ensures
            final(self).wf(),
            final(self).items() == old(self).items(),
            match old(self).position() {
                Some(p) => {
                    &&& r matches Some(v) && cloned(old(self).items()[p], v)
                    &&& final(self).position() == if p > 0 {
                        Some(p - 1)
                    } else {
                        None
                    }
                },
                None => r is None && final(self).position() is None,
            },
    {
        match self.current {
            Some(current) => {
                let result = self.nodes[current].value.clone();
                self.current = self.nodes[current].prev;
                proof {
                    let p = self.at@.unwrap();
                    assert(0 <= self.order@[p] < self.nodes.len());
                    assert(self.order@[p] == current);
                    if p > 0 {
                        assert(0 <= self.order@[p - 1] < self.nodes.len());
                        assert(self.nodes[self.order@[p]].prev == Some(
                            self.order@[p - 1] as usize,
                        ));
                        self.at@ = Some(p - 1);
                    } else {
                        self.at@ = None;
                    }
                }
                result
            },
            None => None,
        }
    }
}

impl<T: Clone> Clone for BetterTransactionLog<T> {
    /// A log of its own that holds a clone of each value, in the same order.
    fn clone(&self) -> (copy: Self)
        ensures
            self.wf() ==> {
                &&& copy.wf()
                &&& copy.len() == self.len()
                &&& copy@.len() == self@.len()
                &&& forall|i: int| 0 <= i < self@.len() ==> cloned(#[trigger] self@[i], copy@[i])
            },
    {
        let mut nodes: Vec<Node<T>> = Vec::new();
        let mut i: usize = 0;
        while i < self.nodes.len()
            invariant
                i <= self.nodes.len(),
                nodes.len() == i,
                forall|k: int|
                    0 <= k < i ==> {
                        &&& (#[trigger] nodes[k]).next == self.nodes[k].next
                        &&& nodes[k].prev == self.nodes[k].prev
                        &&& nodes[k].value is Some == self.nodes[k].value is Some
                        &&& nodes[k].value is Some ==> cloned(
                            self.nodes[k].value.unwrap(),
                            nodes[k].value.unwrap(),
                        )
                    },
            decreases self.nodes.len() - i,
        {
            let node = &self.nodes[i];
            nodes.push(Node { value: node.value.clone(), next: node.next, prev: node.prev });
            i += 1;
        }
        let copy = BetterTransactionLog {
            nodes,
            free: self.free.clone(),
            head: self.head,
            tail: self.tail,
            length: self.length,
            order: Ghost(self.order@),
        };
        proof {
            if self.wf() {
                assert(copy.free@ =~= self.free@);
                assert forall|i: int| 0 <= i < self@.len() implies cloned(
                    #[trigger] self@[i],
                    copy@[i],
                ) by {
                    assert(0 <= self.order@[i] < self.nodes.len());
                }
            }
        }
        copy
    }
}

} // verus!
