//! A first-in, first-out log on a singly linked list.
//!
//! The nodes live in an arena and link to each other by index; a slot that a
//! removal leaves vacant is used again by a later append.

use crate::slots::{lemma_distinct_bound, lemma_vacate, store, vacant_ok};
use vstd::prelude::*;

verus! {

/// A slot of the arena: a value and the index of the slot behind it, or
/// nothing while the slot is vacant.
struct Node<T> {
    value: Option<T>,
    next: Option<usize>,
}

impl<T> Node<T> {
    fn new(value: T) -> (node: Node<T>)
        ensures
            node.value == Some(value),
            node.next is None,
    {
        Node { value: Some(value), next: None }
    }
}

/// A first-in, first-out log. Its view is the sequence of its values from the
/// oldest to the newest.
pub struct TransactionLog<T> {
    /// The slots, vacant ones among them.
    nodes: Vec<Node<T>>,
    /// The vacant slots.
    free: Vec<usize>,
    /// The slot of the oldest value.
    head: Option<usize>,
    /// The slot of the newest value.
    tail: Option<usize>,
    /// The number of values. The methods of the log keep it; whoever writes to
    /// it gives up `wf`.
    pub length: u64,
    /// The slots in use, from the head to the tail.
    order: Ghost<Seq<int>>,
}

/// The slots in `order` are distinct and filled, each links to the one after
/// it, and the last one links to none.
spec fn chain_ok<T>(nodes: Seq<Node<T>>, order: Seq<int>) -> bool {
    &&& order.no_duplicates()
    &&& forall|k: int|
        0 <= k < order.len() ==> 0 <= #[trigger] order[k] < nodes.len() && nodes[order[k]].value
            is Some
    &&& forall|j: int, k: int|
        0 <= j && j + 1 == k && k < order.len() ==> nodes[#[trigger] order[j]].next == Some(
            #[trigger] order[k] as usize,
        )
    &&& order.len() > 0 ==> nodes[order.last()].next is None
}

impl<T> View for TransactionLog<T> {
    type V = Seq<T>;

    /// The values from the oldest to the newest.
    closed spec fn view(&self) -> Seq<T> {
        Seq::new(self.order@.len(), |k: int| self.nodes[self.order@[k]].value.unwrap())
    }
}

impl<T> TransactionLog<T> {
    /// The number that the field `length` holds.
    pub closed spec fn len(&self) -> nat {
        self.length as nat
    }

    /// The links lead from the head through every value to the tail, and
    /// `length` counts the values.
    pub closed spec fn wf(&self) -> bool {
        &&& chain_ok(self.nodes@, self.order@)
        &&& vacant_ok(self.free@, self.order@, self.nodes.len() as int)
        &&& self.length == self.order@.len()
        &&& self.head == if self.order@.len() > 0 {
            Some(self.order@[0] as usize)
        } else {
            None
        }
        &&& self.tail == if self.order@.len() > 0 {
            Some(self.order@.last() as usize)
        } else {
            None
        }
    }

    /// In a well-formed log `length` counts the values.
    pub proof fn lemma_shape(&self)
        requires
            self.wf(),
        ensures
            self.len() == self@.len(),
    {
    }

    /// An empty log.
    pub fn new_empty() -> (log: Self)
        ensures
            log.wf(),
            log@ == Seq::<T>::empty(),
            log.len() == 0,
    {
        TransactionLog {
            nodes: Vec::new(),
            free: Vec::new(),
            head: None,
            tail: None,
            length: 0,
            order: Ghost(Seq::empty()),
        }
    }

    /// Appends `value` behind the newest value.
    pub fn append(&mut self, value: T)
        requires
            old(self).wf(),
        ensures
            final(self).wf(),
            final(self)@ == old(self)@.push(value),
            final(self).len() == old(self).len() + 1,
    {
        let idx = store(&mut self.nodes, &mut self.free, Node::new(value));
        match self.tail {
            Some(old) => {
                self.nodes[old].next = Some(idx);
            },
            None => {
                self.head = Some(idx);
            },
        }
        proof {
            let before = self.order@;
            let after = before.push(idx as int);
            self.order@ = after;
            assert forall|k: int| 0 <= k < before.len() implies #[trigger] before[k] != idx by {
                if old(self).free@.len() > 0 {
                    assert(old(self).free@.last() != before[k]);
                }
            }
            assert forall|j: int, k: int|
                0 <= j && j + 1 == k && k < after.len() implies self.nodes[
                #[trigger] after[j]].next == Some(#[trigger] after[k] as usize) by {
                assert(after[j] == before[j]);
                if k < before.len() {
                    assert(after[k] == before[k]);
                    assert(before[j] != before.last());
                }
            }
            lemma_distinct_bound(after, self.nodes.len() as int);
        }
        self.length += 1;
        self.tail = Some(idx);
        assert(self@ =~= old(self)@.push(value));
    }

    /// Removes the oldest value and returns it; returns nothing when the log is
    /// empty.
    pub fn pop(&mut self) -> (r: Option<T>)
        requires
            old(self).wf(),
        ensures
            final(self).wf(),
            old(self)@.len() == 0 ==> r is None && final(self)@ == old(self)@ && final(self).len()
                == old(self).len(),
            old(self)@.len() > 0 ==> r == Some(old(self)@[0]) && final(self)@ == old(
                self,
            )@.drop_first() && final(self).len() == old(self).len() - 1,
    {
        match self.head {
            Some(head) => {
                let ghost before = self.order@;
                let value = self.nodes[head].value.take();
                match self.nodes[head].next.take() {
                    Some(next) => {
                        proof {
                            assert(before.len() > 1 && before[1] == next) by {
                                if before.len() > 1 {
                                    assert(old(self).nodes[before[0]].next == Some(
                                        before[1] as usize,
                                    ));
                                }
                            }
                        }
                        self.head = Some(next);
                    },
                    None => {
                        proof {
                            assert(before.len() == 1) by {
                                if before.len() > 1 {
                                    assert(old(self).nodes[before[0]].next == Some(
                                        before[1] as usize,
                                    ));
                                }
                            }
                        }
                        self.head = None;
                        self.tail = None;
                    },
                }
                self.length -= 1;
                self.free.push(head);
                proof {
                    let after = before.drop_first();
                    self.order@ = after;
                    assert forall|k: int| 0 <= k < after.len() implies #[trigger] after[k]
                        == before[k + 1] && after[k] != head by {}
                    assert forall|j: int, k: int|
                        0 <= j && j + 1 == k && k < after.len() implies self.nodes[
                        #[trigger] after[j]].next == Some(#[trigger] after[k] as usize) by {
                        assert(old(self).nodes[before[j + 1]].next == Some(before[k + 1] as usize));
                    }
                    assert forall|k: int| 0 <= k < after.len() implies before.contains(
                        #[trigger] after[k],
                    ) by {
                        assert(before[k + 1] == after[k]);
                    }
                    lemma_vacate(
                        old(self).free@,
                        before,
                        after,
                        head,
                        self.nodes.len() as int,
                    );
                    assert(self@ =~= old(self)@.drop_first());
                }
                value
            },
            None => None,
        }
    }
}

impl<T: Clone> Clone for TransactionLog<T> {
    /// A log of its own that holds a clone of each value, in the same order.
    fn clone(&self) -> (copy: Self)
        ensures
            self.wf() ==> {
                &&& copy.wf()
                &&& copy.len() == self.len()
                &&& copy@.len() == self@.len()
                &&& forall|i: int| 0 <= i < self@.len() ==> cloned(#[trigger] self@[i], copy@[i])
            },
    {
        let mut nodes: Vec<Node<T>> = Vec::new();
        let mut i: usize = 0;
        while i < self.nodes.len()
            invariant
                i <= self.nodes.len(),
                nodes.len() == i,
                forall|k: int|
                    0 <= k < i ==> {
                        &&& (#[trigger] nodes[k]).next == self.nodes[k].next
                        &&& nodes[k].value is Some == self.nodes[k].value is Some
                        &&& nodes[k].value is Some ==> cloned(
                            self.nodes[k].value.unwrap(),
                            nodes[k].value.unwrap(),
                        )
                    },
            decreases self.nodes.len() - i,
        {
            let node = &self.nodes[i];
            nodes.push(Node { value: node.value.clone(), next: node.next });
            i += 1;
        }
        let copy = TransactionLog {
            nodes,
            free: self.free.clone(),
            head: self.head,
            tail: self.tail,
            length: self.length,
            order: Ghost(self.order@),
        };
        proof {
            if self.wf() {
                assert(copy.free@ =~= self.free@);
                assert forall|i: int| 0 <= i < self@.len() implies cloned(
                    #[trigger] self@[i],
                    copy@[i],
                ) by {
                    assert(0 <= self.order@[i] < self.nodes.len());
                }
            }
        }
        copy
    }
}

} // verus!
