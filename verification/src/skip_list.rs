//! An append-only log of key/value entries with skip-list lookup.
//!
//! The entries live in an arena in the order of their arrival. Each entry has a
//! tower of forward links, one per level that it takes part in; a link holds the
//! arena index of the next entry on that level.

use crate::order::{le, lemma_strictly_sorted, lt, sorted, strictly_sorted, total_order};
use vstd::prelude::*;

verus! {

/// An entry with its tower: `next[l]` is the arena index of the next entry on
/// level `l`.
struct Node<K, V> {
    key: K,
    value: V,
    next: Vec<Option<usize>>,
}

/// An append-only log of key/value entries. Its view is the sequence of the
/// entries in the order in which they were appended.
pub struct BestTransactionLog<K, V> {
    /// The entries in the order of their arrival.
    nodes: Vec<Node<K, V>>,
    /// The first entry, which takes part in every level.
    head: Option<usize>,
    /// For each level, the last entry that takes part in it.
    tails: Vec<Option<usize>>,
    /// The highest level that a tower can reach.
    max_level: usize,
    /// The number of entries. The methods of the log keep it; whoever writes to
    /// it gives up `wf`.
    pub length: u64,
}

impl<K, V> Node<K, V> {
    fn new(next: Vec<Option<usize>>, key: K, value: V) -> (node: Self)
        ensures
            node.next == next,
            node.key == key,
            node.value == value,
    {
        Node { next, key, value }
    }
}

/// The link of entry `i` on level `l` leads to the nearest later entry that has
/// that level, and is empty when there is none.
spec fn link_ok<K, V>(nodes: Seq<Node<K, V>>, i: int, l: int) -> bool {
    match nodes[i].next[l] {
        Some(j) => {
            &&& i < j < nodes.len()
            &&& l < nodes[j as int].next.len()
            &&& forall|k: int| i < k < j ==> (#[trigger] nodes[k]).next.len() <= l
        },
        None => forall|k: int| i < k < nodes.len() ==> (#[trigger] nodes[k]).next.len() <= l,
    }
}

/// Every tower has between one and `max_level + 1` levels, the first entry has
/// all of them, and every link is in order.
spec fn arena_ok<K, V>(nodes: Seq<Node<K, V>>, max_level: int) -> bool {
    &&& forall|i: int|
        0 <= i < nodes.len() ==> 1 <= (#[trigger] nodes[i]).next.len() <= max_level + 1
    &&& nodes.len() > 0 ==> nodes[0].next.len() == max_level + 1
    &&& forall|i: int, l: int|
        0 <= i < nodes.len() && 0 <= l < nodes[i].next.len() ==> #[trigger] link_ok(nodes, i, l)
}

/// `tail` is the last entry that has level `l`.
spec fn tail_ok<K, V>(nodes: Seq<Node<K, V>>, l: int, tail: Option<usize>) -> bool {
    match tail {
        Some(t) => {
            &&& t < nodes.len()
            &&& l < nodes[t as int].next.len()
            &&& forall|k: int| t < k < nodes.len() ==> (#[trigger] nodes[k]).next.len() <= l
        },
        None => nodes.len() == 0,
    }
}

/// The key and the value of each node.
spec fn entries_of<K, V>(nodes: Seq<Node<K, V>>) -> Seq<(K, V)> {
    Seq::new(nodes.len(), |i: int| (nodes[i].key, nodes[i].value))
}

/// The number of levels of each node.
spec fn heights_of<K, V>(nodes: Seq<Node<K, V>>) -> Seq<nat> {
    Seq::new(nodes.len(), |i: int| nodes[i].next.len() as nat)
}

/// The entries at position `from` and later whose tower has level `l`, in
/// their order.
pub open spec fn level_from<K, V>(
    entries: Seq<(K, V)>,
    heights: Seq<nat>,
    l: nat,
    from: int,
) -> Seq<(K, V)>
    decreases entries.len() - from,
{
    if from < 0 || from >= entries.len() {
        Seq::empty()
    } else if l < heights[from] {
        seq![entries[from]] + level_from(entries, heights, l, from + 1)
    } else {
        level_from(entries, heights, l, from + 1)
    }
}

/// The keys of the entries.
pub open spec fn keys_of<K, V>(entries: Seq<(K, V)>) -> Seq<K> {
    entries.map_values(|e: (K, V)| e.0)
}

/// `b` holds the keys of `a` in the same order, each with a clone of its value.
pub open spec fn cloned_entries<K, V: Clone>(a: Seq<(K, V)>, b: Seq<(K, V)>) -> bool {
    &&& a.len() == b.len()
    &&& forall|i: int|
        0 <= i < a.len() ==> (#[trigger] a[i]).0 == b[i].0 && cloned(a[i].1, b[i].1)
}

impl<K, V> View for BestTransactionLog<K, V> {
    type V = Seq<(K, V)>;

    /// The entries in the order in which they were appended.
    closed spec fn view(&self) -> Seq<(K, V)> {
        entries_of(self.nodes@)
    }
}

impl<K, V> BestTransactionLog<K, V> {
    /// The highest level that a tower can reach.
    pub closed spec fn max_level(&self) -> nat {
        self.max_level as nat
    }

    /// For each entry, the number of levels of its tower.
    pub closed spec fn heights(&self) -> Seq<nat> {
        heights_of(self.nodes@)
    }

    /// The entries that take part in level `l`, in the order in which they were
    /// appended.
    pub open spec fn level_view(&self, l: nat) -> Seq<(K, V)> {
        level_from(self@, self.heights(), l, 0)
    }

    /// The keys in the order in which they were appended.
    pub open spec fn keys(&self) -> Seq<K> {
        keys_of(self@)
    }

    /// The number that the field `length` holds.
    pub closed spec fn len(&self) -> nat {
        self.length as nat
    }

    /// Entry `i` takes part in level `l`.
    pub open spec fn on_level(&self, i: int, l: nat) -> bool {
        0 <= i < self.heights().len() && l < self.heights()[i]
    }

    /// Some entry has the key `key`.
    pub open spec fn contains_key(&self, key: K) -> bool {
        exists|i: int| 0 <= i < self@.len() && (#[trigger] self@[i]).0 == key
    }

    /// `s` is the level at which a lookup starts: the highest one on which an
    /// entry other than the first takes part, and 0 when there is no such level.
    pub open spec fn is_start_level(&self, s: nat) -> bool {
        &&& s <= self.max_level()
        &&& forall|i: int| 0 < i < self@.len() ==> (#[trigger] self.heights()[i]) <= s + 1
        &&& s > 0 ==> exists|i: int| 0 < i < self@.len() && #[trigger] self.on_level(i, s)
    }

    /// A lookup of `key` that starts at level `s` ends at entry `i` on level `l`:
    /// the entry has the key, no later entry of that level has it, and no entry
    /// of the level above, if a lookup visits that level, has it.
    pub open spec fn hit_at(&self, key: K, i: int, s: nat, l: nat) -> bool {
        &&& self.is_start_level(s)
        &&& l <= s
        &&& 0 <= i < self@.len()
        &&& self@[i].0 == key
        &&& self.on_level(i, l)
        &&& forall|j: int|
            i < j < self@.len() && self.on_level(j, l) ==> (#[trigger] self@[j]).0 != key
        &&& l < s ==> forall|j: int|
            0 <= j < self@.len() && self.on_level(j, l + 1) ==> (#[trigger] self@[j]).0 != key
    }

    /// Entry `i` is the one that a lookup of `key` yields.
    pub open spec fn hit(&self, key: K, i: int) -> bool {
        exists|s: nat, l: nat| #[trigger] self.hit_at(key, i, s, l)
    }

    /// The links and the tail table agree with the towers, and `length` counts
    /// the entries.
    pub closed spec fn wf(&self) -> bool {
        &&& self.tails.len() == self.max_level + 1
        &&& self.length == self.nodes.len()
        &&& self.head == (if self.nodes.len() > 0 {
            Some(0usize)
        } else {
            None
        })
        &&& arena_ok(self.nodes@, self.max_level as int)
        &&& forall|l: int|
            0 <= l <= self.max_level ==> #[trigger] tail_ok(self.nodes@, l, self.tails[l])
    }

    /// An empty log whose towers can reach level `max_level`.
    pub fn new_empty(max_level: usize) -> (log: Self)
        requires
            max_level < usize::MAX,
        ensures
            log.wf(),
            log@ == Seq::<(K, V)>::empty(),
            log.heights() == Seq::<nat>::empty(),
            log.max_level() == max_level,
            log.len() == 0,
    {
        BestTransactionLog {
            nodes: Vec::new(),
            head: None,
            tails: vec![None; max_level + 1],
            max_level,
            length: 0,
        }
    }

    /// Appends an entry whose tower reaches level `level`; the first entry of a
    /// log gets the full tower whatever `level` is. On every level of the tower
    /// the entry is linked behind the last entry of that level.
    pub fn append_with_level(&mut self, key: K, value: V, level: usize)
        requires
            old(self).wf(),
            level <= old(self).max_level(),
        ensures
            final(self).wf(),
            final(self)@ == old(self)@.push((key, value)),
            final(self).heights() == old(self).heights().push(
                if old(self)@.len() == 0 {
                    old(self).max_level() + 1
                } else {
                    (level + 1) as nat
                },
            ),
            final(self).max_level() == old(self).max_level(),
            final(self).len() == old(self).len() + 1,
    {
        let level = 1 + if self.head.is_none() {
            self.max_level
        } else {
            level
        };
        let idx = self.nodes.len();
        self.nodes.push(Node::new(vec![None; level], key, value));
        let ghost before = old(self).nodes@;
        for i in 0..level
            invariant
                level <= self.max_level + 1,
                old(self).wf(),
                before == old(self).nodes@,
                idx == before.len(),
                idx == 0 ==> level == self.max_level + 1,
                self.max_level == old(self).max_level,
                self.head == old(self).head,
                self.length == old(self).length,
                self.tails.len() == self.max_level + 1,
                self.nodes.len() == idx + 1,
                self.nodes[idx as int].key == key,
                self.nodes[idx as int].value == value,
                self.nodes[idx as int].next.len() == level,
                forall|l: int| 0 <= l < level ==> self.nodes[idx as int].next[l] == None::<usize>,
                forall|k: int|
                    0 <= k < idx ==> {
                        &&& (#[trigger] self.nodes[k]).key == before[k].key
                        &&& self.nodes[k].value == before[k].value
                        &&& self.nodes[k].next.len() == before[k].next.len()
                    },
                forall|k: int, l: int|
                    0 <= k < idx && 0 <= l < i && l < self.nodes[k].next.len()
                        ==> #[trigger] link_ok(self.nodes@, k, l),
                forall|k: int, l: int|
                    0 <= k < idx && i <= l < self.nodes[k].next.len()
                        ==> #[trigger] self.nodes[k].next[l] == before[k].next[l],
                forall|l: int| 0 <= l < i ==> self.tails[l] == Some(idx),
                forall|l: int| i <= l <= self.max_level ==> self.tails[l] == old(self).tails[l],
        {
            let ghost prev = self.nodes@;
            proof {
                assert(tail_ok(before, i as int, old(self).tails[i as int]));
            }
            if let Some(last) = self.tails[i] {
                self.nodes[last].next[i] = Some(idx);
            }
            self.tails[i] = Some(idx);
            proof {
                assert forall|k: int, l: int|
                    0 <= k < idx && 0 <= l < i + 1 && l < self.nodes[k].next.len()
                    implies #[trigger] link_ok(self.nodes@, k, l) by {
                    if l < i {
                        assert(link_ok(prev, k, l));
                    } else {
                        assert(link_ok(before, k, l));
                    }
                }
            }
        }
        proof {
            assert forall|k: int, l: int|
                0 <= k < self.nodes.len() && 0 <= l < self.nodes[k].next.len()
                implies #[trigger] link_ok(self.nodes@, k, l) by {
                if k < idx && l >= level {
                    assert(link_ok(before, k, l));
                }
            }
            assert forall|l: int| 0 <= l <= self.max_level implies #[trigger] tail_ok(
                self.nodes@,
                l,
                self.tails[l],
            ) by {
                if l >= level {
                    assert(tail_ok(before, l, old(self).tails[l]));
                }
            }
        }
        if self.head.is_none() {
            self.head = Some(idx);
        }
        self.length += 1;
    }
}

/// One fair coin flip, drawn by `rand::random`. Nothing is claimed of the
/// outcome.
#[verifier::external_body]
fn coin_flip() -> bool {
    rand::random::<bool>()
}

impl<K: PartialOrd + Copy, V: Clone> BestTransactionLog<K, V> {
    /// Appends an entry. The first entry of a log gets the full tower; any other
    /// gets a tower whose top level is the number of coin flips that came up
    /// heads in a row, `max_level` at most.
    ///
    /// The key is meant to be at least every key appended before. The log does
    /// not test this: it links the entry behind the last one in any case, and
    /// `find` promises to find every key only while the keys are sorted.
    pub fn append(&mut self, key: K, value: V)
        requires
            old(self).wf(),
        ensures
            final(self).wf(),
            final(self)@ == old(self)@.push((key, value)),
            final(self).heights().len() == old(self).heights().len() + 1,
            final(self).heights().drop_last() == old(self).heights(),
            1 <= final(self).heights().last() <= old(self).max_level() + 1,
            old(self)@.len() == 0 ==> final(self).heights().last() == old(self).max_level() + 1,
            final(self).max_level() == old(self).max_level(),
            final(self).len() == old(self).len() + 1,
    {
        let level = if self.head.is_none() {
            self.max_level
        } else {
            self.get_level()
        };
        self.append_with_level(key, value, level);
    }

    /// Counts coin flips until one comes up tails or `max_level` is reached.
    fn get_level(&self) -> (n: usize)
        ensures
            n <= self.max_level(),
    {
        let mut n: usize = 0;
        while climbs(coin_flip(), n, self.max_level)
            invariant
                n <= self.max_level,
            decreases self.max_level - n,
        {
            n += 1;
        }
        n
    }

    /// Looks `key` up, starting at the first entry on the highest level that
    /// holds another entry and descending level by level. On each level the
    /// lookup moves on while the next key is at most `key`, and it ends at the
    /// first level on which it stops at an entry with the key `key`.
    ///
    /// A value that comes back is a clone of the value of an entry with that
    /// key. While the keys are sorted, a key that the log holds is found, and
    /// `hit` says which of several entries with that key it is.
    pub fn find(&self, key: K) -> (r: Option<V>)
        requires
            self.wf(),
        ensures
            self@.len() == 0 ==> r is None,
            total_order::<K>() ==> (r matches Some(v) ==> exists|i: int|
                0 <= i < self@.len() && (#[trigger] self@[i]).0 == key && cloned(self@[i].1, v)),
            total_order::<K>() && sorted(self.keys()) ==> match r {
                Some(v) => exists|i: int| #[trigger] self.hit(key, i) && cloned(self@[i].1, v),
                None => !self.contains_key(key),
            },
            total_order::<K>() && strictly_sorted(self.keys()) ==> forall|i: int|
                0 <= i < self@.len() && (#[trigger] self@[i]).0 == key ==> (r matches Some(v)
                    && cloned(self@[i].1, v)),
    {
        match self.head {
            None => None,
            Some(head) => {
                let ghost good = total_order::<K>() && sorted(self.keys());
                proof {
                    if total_order::<K>() && strictly_sorted(self.keys()) {
                        lemma_strictly_sorted(self.keys());
                    }
                }
                let mut start_level = self.max_level;
                while start_level > 0 && self.nodes[head].next[start_level].is_none()
                    invariant
                        self.wf(),
                        head == 0,
                        self.nodes.len() > 0,
                        start_level <= self.max_level,
                        forall|k: int|
                            0 < k < self.nodes.len() ==> (#[trigger] self.nodes[k]).next.len()
                                <= start_level + 1,
                    decreases start_level,
                {
                    proof {
                        assert(link_ok(self.nodes@, 0, start_level as int));
                    }
                    start_level -= 1;
                }
                proof {
                    if start_level > 0 {
                        assert(link_ok(self.nodes@, 0, start_level as int));
                        let j = self.nodes[0].next[start_level as int].unwrap() as int;
                        assert(self.on_level(j, start_level as nat));
                    }
                }
                let mut n = head;
                let mut level = start_level + 1;
                while level > 0
                    invariant
                        self.wf(),
                        good == (total_order::<K>() && sorted(self.keys())),
                        self.is_start_level(start_level as nat),
                        n < self.nodes.len(),
                        level <= start_level + 1 <= self.max_level + 1,
                        level <= self.nodes[n as int].next.len(),
                        good ==> n == 0 || le(self.nodes[n as int].key, key),
                        good ==> forall|k: int|
                            n < k < self.nodes.len() && level < (#[trigger] self.nodes[k]).next.len()
                                ==> !le(self.nodes[k].key, key),
                        good && level <= start_level ==> forall|k: int|
                            0 <= k < self.nodes.len() && level < (#[trigger] self.nodes[k]).next.len()
                                ==> self.nodes[k].key != key,
                    decreases level,
                {
                    level -= 1;
                    loop
                        invariant
                            self.wf(),
                            good == (total_order::<K>() && sorted(self.keys())),
                            n < self.nodes.len(),
                            level < self.nodes[n as int].next.len(),
                            good ==> n == 0 || le(self.nodes[n as int].key, key),
                            good ==> forall|k: int|
                                n < k < self.nodes.len() && (#[trigger] self.nodes[k]).next.len()
                                    > level + 1 ==> !le(self.nodes[k].key, key),
                        ensures
                            good ==> forall|k: int|
                                n < k < self.nodes.len() && (#[trigger] self.nodes[k]).next.len()
                                    > level ==> !le(self.nodes[k].key, key),
                        decreases self.nodes.len() - n,
                    {
                        proof {
                            assert(link_ok(self.nodes@, n as int, level as int));
                        }
                        match self.nodes[n].next[level] {
                            Some(next) if self.nodes[next].key <= key => {
                                n = next;
                            },
                            _ => {
                                proof {
                                    if good {
                                        self.lemma_nothing_beyond(n as int, level as int, key);
                                    }
                                }
                                break ;
                            },
                        }
                    }
                    if self.nodes[n].key == key {
                        let v = self.nodes[n].value.clone();
                        proof {
                            if total_order::<K>() {
                                assert(self@[n as int].0 == key);
                            }
                            if good {
                                assert(self.hit_at(
                                    key,
                                    n as int,
                                    start_level as nat,
                                    level as nat,
                                ));
                                assert(self.hit(key, n as int));
                            }
                            if total_order::<K>() && strictly_sorted(self.keys()) {
                                lemma_strictly_sorted(self.keys());
                                assert forall|i: int|
                                    0 <= i < self@.len() && (#[trigger] self@[i]).0 == key implies i
                                    == n by {
                                    assert(self.keys()[i] == self.keys()[n as int]);
                                }
                            }
                        }
                        return Some(v);
                    }
                    proof {
                        if good {
                            assert forall|k: int|
                                0 <= k < self.nodes.len() && (#[trigger] self.nodes[k]).next.len()
                                    > level implies self.nodes[k].key != key by {
                                if k < n {
                                    assert(self.keys()[k] == self.nodes[k].key);
                                    assert(self.keys()[n as int] == self.nodes[n as int].key);
                                }
                            }
                        }
                    }
                }
                None
            },
        }
    }

    /// Where the walk along level `l` stops at entry `n`, no later entry of that
    /// level has a key that is at most `key`.
    proof fn lemma_nothing_beyond(&self, n: int, l: int, key: K)
        requires
            self.wf(),
            total_order::<K>(),
            sorted(self.keys()),
            0 <= n < self.nodes.len(),
            0 <= l < self.nodes[n].next.len(),
            match self.nodes[n].next[l] {
                Some(j) => !le(self.nodes[j as int].key, key),
                None => true,
            },
        ensures
            forall|k: int|
                n < k < self.nodes.len() && (#[trigger] self.nodes[k]).next.len() > l ==> !le(
                    self.nodes[k].key,
                    key,
                ),
    {
        assert(link_ok(self.nodes@, n, l));
        assert forall|k: int|
            n < k < self.nodes.len() && (#[trigger] self.nodes[k]).next.len() > l implies !le(
            self.nodes[k].key,
            key,
        ) by {
            let j = self.nodes[n].next[l].unwrap() as int;
            assert(self.keys()[j] == self.nodes[j].key);
            assert(self.keys()[k] == self.nodes[k].key);
        }
    }
}

/// Whether a tower that has reached level `level` goes one level higher after
/// a coin flip: it does when the coin came up heads and the tower is below
/// `max_level`.
pub fn climbs(heads: bool, level: usize, max_level: usize) -> (up: bool)
    ensures
        up == (heads && level < max_level),
{
    heads && level < max_level
}

/// `copy` holds the nodes of `nodes` with the same keys and links, each with a
/// clone of its value.
spec fn cloned_nodes<K, V: Clone>(nodes: Seq<Node<K, V>>, copy: Seq<Node<K, V>>) -> bool {
    &&& copy.len() == nodes.len()
    &&& forall|k: int|
        0 <= k < nodes.len() ==> {
            &&& (#[trigger] copy[k]).key == nodes[k].key
            &&& cloned(nodes[k].value, copy[k].value)
            &&& copy[k].next@ == nodes[k].next@
        }
}

fn clone_nodes<K: Copy, V: Clone>(nodes: &Vec<Node<K, V>>) -> (copy: Vec<Node<K, V>>)
    ensures
        cloned_nodes(nodes@, copy@),
{
    let mut copy: Vec<Node<K, V>> = Vec::new();
    let mut i: usize = 0;
    while i < nodes.len()
        invariant
            i <= nodes.len(),
            cloned_nodes(nodes@.take(i as int), copy@),
        decreases nodes.len() - i,
    {
        let node = &nodes[i];
        copy.push(Node::new(node.next.clone(), node.key, node.value.clone()));
        i += 1;
    }
    assert(nodes@.take(nodes.len() as int) =~= nodes@);
    copy
}

impl<K: Copy, V: Clone> Clone for BestTransactionLog<K, V> {
    /// A log of its own with the same keys and towers, each entry with a clone
    /// of its value.
    fn clone(&self) -> (copy: Self)
        ensures
            self.wf() ==> {
                &&& copy.wf()
                &&& cloned_entries(self@, copy@)
                &&& copy.heights() == self.heights()
                &&& copy.max_level() == self.max_level()
                &&& copy.len() == self.len()
            },
    {
        let copy = BestTransactionLog {
            nodes: clone_nodes(&self.nodes),
            head: self.head,
            tails: self.tails.clone(),
            max_level: self.max_level,
            length: self.length,
        };
        proof {
            if self.wf() {
                assert(copy.tails@ =~= self.tails@);
                assert(copy.heights() =~= self.heights());
                assert forall|k: int, l: int|
                    0 <= k < copy.nodes.len() && 0 <= l < copy.nodes[k].next.len()
                    implies #[trigger] link_ok(copy.nodes@, k, l) by {
                    assert(link_ok(self.nodes@, k, l));
                }
                assert forall|l: int| 0 <= l <= copy.max_level implies #[trigger] tail_ok(
                    copy.nodes@,
                    l,
                    copy.tails[l],
                ) by {
                    assert(tail_ok(self.nodes@, l, self.tails[l]));
                }
            }
        }
        copy
    }
}

/// Walks one level of a log, from the first entry on.
pub struct ListIterator<K, V> {
    nodes: Vec<Node<K, V>>,
    current: Option<usize>,
    level: usize,
}

/// Entries that do not take part in level `l` add nothing to it.
proof fn lemma_level_skip<K, V>(entries: Seq<(K, V)>, heights: Seq<nat>, l: nat, a: int, b: int)
    requires
        0 <= a <= b <= entries.len(),
        forall|k: int| a <= k < b ==> heights[k] <= l,
    ensures
        level_from(entries, heights, l, a) == level_from(entries, heights, l, b),
    decreases b - a,
{
    if a < b {
        lemma_level_skip(entries, heights, l, a + 1, b);
    }
}

/// Where every tower has the lowest level, that level holds every entry.
proof fn lemma_level_zero_from<K, V>(entries: Seq<(K, V)>, heights: Seq<nat>, from: int)
    requires
        0 <= from <= entries.len(),
        forall|k: int| from <= k < entries.len() ==> heights[k] >= 1,
    ensures
        level_from(entries, heights, 0, from) == entries.subrange(from, entries.len() as int),
    decreases entries.len() - from,
{
    if from < entries.len() {
        lemma_level_zero_from(entries, heights, from + 1);
    }
}

/// Cloning the values of the entries clones the values of every level.
proof fn lemma_level_cloned<K, V: Clone>(
    a: Seq<(K, V)>,
    b: Seq<(K, V)>,
    heights: Seq<nat>,
    l: nat,
    from: int,
)
    requires
        cloned_entries(a, b),
        0 <= from <= a.len(),
    ensures
        cloned_entries(level_from(a, heights, l, from), level_from(b, heights, l, from)),
    decreases a.len() - from,
{
    if from < a.len() {
        lemma_level_cloned(a, b, heights, l, from + 1);
    }
}

impl<K, V> ListIterator<K, V> {
    /// The links of the level that is walked are in order, and the position is
    /// an entry of that level.
    pub closed spec fn wf(&self) -> bool {
        &&& forall|i: int|
            0 <= i < self.nodes.len() && self.level < (#[trigger] self.nodes[i]).next.len()
                ==> link_ok(self.nodes@, i, self.level as int)
        &&& match self.current {
            Some(c) => c < self.nodes.len() && self.level < self.nodes[c as int].next.len(),
            None => true,
        }
    }

    /// The entries that are still to come.
    pub closed spec fn remaining(&self) -> Seq<(K, V)> {
        match self.current {
            Some(c) => level_from(
                entries_of(self.nodes@),
                heights_of(self.nodes@),
                self.level as nat,
                c as int,
            ),
            None => Seq::empty(),
        }
    }

    fn new(nodes: Vec<Node<K, V>>, start_at: Option<usize>, level: usize) -> (it: Self)
        ensures
            it.nodes == nodes,
            it.current == start_at,
            it.level == level,
    {
        ListIterator { nodes, current: start_at, level }
    }
}

impl<K: Copy, V: Clone> ListIterator<K, V> {
    /// Yields the next entry of the level, with a clone of its value, and moves
    /// on along the link of that level.
    pub fn next(&mut self) -> (r: Option<(K, V)>)
        requires
            old(self).wf(),
        ensures
            final(self).wf(),
            match r {
                Some(e) => {
                    &&& old(self).remaining().len() > 0
                    &&& e.0 == old(self).remaining()[0].0
                    &&& cloned(old(self).remaining()[0].1, e.1)
                    &&& final(self).remaining() == old(self).remaining().drop_first()
                },
                None => old(self).remaining().len() == 0 && final(self).remaining().len() == 0,
            },
    {
        match self.current {
            Some(c) => {
                let node = &self.nodes[c];
                let result = (node.key, node.value.clone());
                let following = node.next[self.level];
                proof {
                    let entries = entries_of(self.nodes@);
                    let heights = heights_of(self.nodes@);
                    let l = self.level as nat;
                    let stop = match following {
                        Some(j) => j as int,
                        None => self.nodes.len() as int,
                    };
                    lemma_level_skip(entries, heights, l, c + 1, stop);
                }
                self.current = following;
                Some(result)
            },
            None => None,
        }
    }
}

impl<K: PartialOrd + Copy, V: Clone> BestTransactionLog<K, V> {
    /// Walks level `level` of a copy of the log; the values that come out are
    /// clones of clones.
    pub fn iter_level(&self, level: usize) -> (it: ListIterator<K, V>)
        requires
            self.wf(),
            level <= self.max_level(),
        ensures
            it.wf(),
            cloned_entries(self.level_view(level as nat), it.remaining()),
    {
        let nodes = clone_nodes(&self.nodes);
        proof {
            assert forall|k: int|
                0 <= k < nodes.len() && level < (#[trigger] nodes[k]).next.len() implies link_ok(
                nodes@,
                k,
                level as int,
            ) by {
                assert(link_ok(self.nodes@, k, level as int));
            }
            assert(heights_of(nodes@) =~= heights_of(self.nodes@));
            lemma_level_cloned(
                entries_of(self.nodes@),
                entries_of(nodes@),
                self.heights(),
                level as nat,
                0,
            );
        }
        ListIterator::new(nodes, self.head, level)
    }

    /// The keys of each level, from level `max_level` down to level 0; no level
    /// at all for an empty log.
    pub fn keys_by_level(&self) -> (rows: Vec<Vec<K>>)
        requires
            self.wf(),
        ensures
            rows.len() == if self@.len() == 0 {
                0
            } else {
                self.max_level() + 1
            },
            forall|r: int|
                0 <= r < rows.len() ==> (#[trigger] rows[r])@ == keys_of(
                    self.level_view((self.max_level() - r) as nat),
                ),
    {
        let mut rows: Vec<Vec<K>> = Vec::new();
        if let Some(head) = self.head {
            let mut level = self.max_level + 1;
            while level > 0
                invariant
                    self.wf(),
                    self.head == Some(head),
                    level <= self.max_level + 1,
                    rows.len() == self.max_level + 1 - level,
                    forall|r: int|
                        0 <= r < rows.len() ==> (#[trigger] rows[r])@ == keys_of(
                            self.level_view((self.max_level() - r) as nat),
                        ),
                decreases level,
            {
                level -= 1;
                let ghost all = self.level_view(level as nat);
                let mut row: Vec<K> = Vec::new();
                let mut current = Some(head);
                while current.is_some()
                    invariant
                        self.wf(),
                        level <= self.max_level,
                        all == self.level_view(level as nat),
                        match current {
                            Some(c) => {
                                &&& c < self.nodes.len()
                                &&& level < self.nodes[c as int].next.len()
                                &&& row@ + keys_of(
                                    level_from(self@, self.heights(), level as nat, c as int),
                                ) == keys_of(all)
                            },
                            None => row@ == keys_of(all),
                        },
                    decreases
                            match current {
                                Some(c) => self.nodes.len() - c,
                                None => 0,
                            },
                {
                    let c = current.unwrap();
                    proof {
                        let l = level as nat;
                        assert(link_ok(self.nodes@, c as int, level as int));
                        let stop = match self.nodes[c as int].next[level as int] {
                            Some(j) => j as int,
                            None => self.nodes.len() as int,
                        };
                        lemma_level_skip(self@, self.heights(), l, c + 1, stop);
                        let rest = level_from(self@, self.heights(), l, stop);
                        let here = self@[c as int];
                        assert(level_from(self@, self.heights(), l, c as int) == seq![here] + rest);
                        assert(row@.push(here.0) + keys_of(rest) =~= row@ + keys_of(
                            seq![here] + rest,
                        ));
                    }
                    row.push(self.nodes[c].key);
                    current = self.nodes[c].next[level];
                }
                rows.push(row);
            }
        }
        rows
    }

    /// Walks the whole log in the order in which the entries were appended.
    pub fn into_iter(self) -> (it: ListIterator<K, V>)
        requires
            self.wf(),
        ensures
            it.wf(),
            it.remaining() == self@,
    {
        proof {
            lemma_level_zero_from(self@, self.heights(), 0);
        }
        ListIterator::new(self.nodes, self.head, 0)
    }
}

/// An entry is among those of a level from `from` on exactly when it stands at
/// a later position whose tower has that level.
proof fn lemma_level_members<K, V>(
    entries: Seq<(K, V)>,
    heights: Seq<nat>,
    l: nat,
    from: int,
    e: (K, V),
)
    requires
        0 <= from <= entries.len(),
    ensures
        level_from(entries, heights, l, from).contains(e) <==> exists|i: int|
            from <= i < entries.len() && l < heights[i] && #[trigger] entries[i] == e,
    decreases entries.len() - from,
{
    let here = level_from(entries, heights, l, from);
    if from < entries.len() {
        lemma_level_members(entries, heights, l, from + 1, e);
        let rest = level_from(entries, heights, l, from + 1);
        if l < heights[from] {
            assert(here == seq![entries[from]] + rest);
            if here.contains(e) {
                let j = choose|j: int| 0 <= j < here.len() && here[j] == e;
                if j > 0 {
                    assert(rest[j - 1] == e);
                    assert(rest.contains(e));
                } else {
                    assert(entries[from] == e);
                }
            }
            if exists|i: int|
                from <= i < entries.len() && l < heights[i] && #[trigger] entries[i] == e {
                let i = choose|i: int|
                    from <= i < entries.len() && l < heights[i] && #[trigger] entries[i] == e;
                if i == from {
                    assert(here[0] == e);
                } else {
                    assert(entries[i] == e);
                    assert(rest.contains(e));
                    let j = choose|j: int| 0 <= j < rest.len() && rest[j] == e;
                    assert(here[j + 1] == e);
                }
            }
        } else {
            if exists|i: int|
                from <= i < entries.len() && l < heights[i] && #[trigger] entries[i] == e {
                let i = choose|i: int|
                    from <= i < entries.len() && l < heights[i] && #[trigger] entries[i] == e;
                assert(entries[i] == e);
            }
        }
    } else {
        assert(here =~= Seq::<(K, V)>::empty());
    }
}

impl<K, V> BestTransactionLog<K, V> {
    /// In a well-formed log `length` counts the entries, and every entry has a
    /// tower of at least one and at most `max_level + 1` levels.
    pub proof fn lemma_shape(&self)
        requires
            self.wf(),
        ensures
            self.len() == self@.len(),
            self.heights().len() == self@.len(),
            forall|i: int|
                0 <= i < self@.len() ==> 1 <= (#[trigger] self.heights()[i]) <= self.max_level()
                    + 1,
    {
    }

    /// An entry that takes part in a level takes part in every level below it.
    pub proof fn lemma_tower(&self, i: int, l: nat, below: nat)
        requires
            self.on_level(i, l),
            below <= l,
        ensures
            self.on_level(i, below),
    {
    }

    /// What a walk of a level yields, a walk of any level below it yields too.
    pub proof fn lemma_tower_entries(&self, l: nat, below: nat, e: (K, V))
        requires
            self.wf(),
            below <= l,
            self.level_view(l).contains(e),
        ensures
            self.level_view(below).contains(e),
    {
        lemma_level_members(self@, self.heights(), l, 0, e);
        lemma_level_members(self@, self.heights(), below, 0, e);
        let i = choose|i: int|
            0 <= i < self@.len() && l < self.heights()[i] && #[trigger] self@[i] == e;
        assert(below < self.heights()[i] && self@[i] == e);
    }

    /// A lookup of a key yields one entry at most.
    pub proof fn lemma_hit_determined(&self, key: K, i: int, j: int)
        requires
            self.hit(key, i),
            self.hit(key, j),
        ensures
            i == j,
    {
        let (s, l) = choose|s: nat, l: nat| #[trigger] self.hit_at(key, i, s, l);
        let (t, m) = choose|t: nat, m: nat| #[trigger] self.hit_at(key, j, t, m);
        if s < t {
            let k = choose|k: int| 0 < k < self@.len() && #[trigger] self.on_level(k, t);
            assert(self.heights()[k] <= s + 1);
        }
        if t < s {
            let k = choose|k: int| 0 < k < self@.len() && #[trigger] self.on_level(k, s);
            assert(self.heights()[k] <= t + 1);
        }
        if l < m {
            assert(self.on_level(j, l + 1));
            assert(self@[j].0 == key);
        }
        if m < l {
            assert(self.on_level(i, m + 1));
            assert(self@[i].0 == key);
        }
        if i < j {
            assert(self@[j].0 == key);
        }
        if j < i {
            assert(self@[i].0 == key);
        }
    }

    /// The first entry takes part in every level up to `max_level`, and is the
    /// first that a walk of such a level yields.
    pub proof fn lemma_first_entry(&self, l: nat)
        requires
            self.wf(),
            self@.len() > 0,
            l <= self.max_level(),
        ensures
            self.on_level(0, l),
            self.level_view(l).len() > 0,
            self.level_view(l)[0] == self@[0],
    {
    }

    /// The lowest level holds every entry, in the order in which they were
    /// appended.
    pub proof fn lemma_level_zero(&self)
        requires
            self.wf(),
        ensures
            self.level_view(0) == self@,
    {
        lemma_level_zero_from(self@, self.heights(), 0);
    }
}

/// The entries of a level of sorted entries are sorted.
proof fn lemma_level_sorted_from<K: PartialOrd, V>(
    entries: Seq<(K, V)>,
    heights: Seq<nat>,
    l: nat,
    from: int,
)
    requires
        sorted(keys_of(entries)),
        0 <= from <= entries.len(),
    ensures
        sorted(keys_of(level_from(entries, heights, l, from))),
    decreases entries.len() - from,
{
    if from < entries.len() {
        lemma_level_sorted_from(entries, heights, l, from + 1);
        let rest = level_from(entries, heights, l, from + 1);
        if l < heights[from] {
            let here = seq![entries[from]] + rest;
            assert forall|i: int, j: int| 0 <= i <= j < here.len() implies le(
                #[trigger] keys_of(here)[i],
                #[trigger] keys_of(here)[j],
            ) by {
                if i == 0 && j > 0 {
                    lemma_level_members(entries, heights, l, from + 1, rest[j - 1]);
                    assert(rest.contains(rest[j - 1]));
                    let k = choose|k: int|
                        from + 1 <= k < entries.len() && l < heights[k] && #[trigger] entries[k]
                            == rest[j - 1];
                    assert(le(keys_of(entries)[from], keys_of(entries)[k]));
                } else if i == 0 {
                    assert(le(keys_of(entries)[from], keys_of(entries)[from]));
                } else {
                    assert(le(keys_of(rest)[i - 1], keys_of(rest)[j - 1]));
                }
            }
        }
    }
}

impl<K: PartialOrd, V> BestTransactionLog<K, V> {
    /// A walk of any level of a sorted log meets the keys in rising order.
    pub proof fn lemma_level_sorted(&self, l: nat)
        requires
            sorted(self.keys()),
        ensures
            sorted(keys_of(self.level_view(l))),
    {
        lemma_level_sorted_from(self@, self.heights(), l, 0);
    }

    /// A sorted log holds no key that lies strictly between two neighbouring
    /// keys.
    pub proof fn lemma_absent_between(&self, i: int, key: K)
        requires
            total_order::<K>(),
            sorted(self.keys()),
            0 <= i,
            i + 1 < self@.len(),
            lt(self@[i].0, key),
            lt(key, self@[i + 1].0),
        ensures
            !self.contains_key(key),
    {
        assert forall|j: int| 0 <= j < self@.len() implies (#[trigger] self@[j]).0 != key by {
            assert(self.keys()[j] == self@[j].0);
            assert(self.keys()[i] == self@[i].0);
            assert(self.keys()[i + 1] == self@[i + 1].0);
            if j <= i {
                assert(le(self.keys()[j], self.keys()[i]));
            } else {
                assert(le(self.keys()[i + 1], self.keys()[j]));
            }
        }
    }

    /// A sorted log holds no key above its last one.
    pub proof fn lemma_absent_above(&self, key: K)
        requires
            total_order::<K>(),
            sorted(self.keys()),
            self@.len() > 0 ==> lt(self@.last().0, key),
        ensures
            !self.contains_key(key),
    {
        assert forall|j: int| 0 <= j < self@.len() implies (#[trigger] self@[j]).0 != key by {
            let last = self@.len() - 1;
            assert(self.keys()[j] == self@[j].0);
            assert(self.keys()[last] == self@[last].0);
            assert(le(self.keys()[j], self.keys()[last]));
        }
    }

    /// In a log whose keys grow strictly, a lookup of the key of an entry
    /// yields that entry and no other.
    pub proof fn lemma_round_trip(&self, i: int, j: int)
        requires
            total_order::<K>(),
            strictly_sorted(self.keys()),
            0 <= i < self@.len(),
            self.hit(self@[i].0, j),
        ensures
            j == i,
    {
        lemma_strictly_sorted(self.keys());
        let key = self@[i].0;
        let (s, l) = choose|s: nat, l: nat| #[trigger] self.hit_at(key, j, s, l);
        assert(self.keys()[i] == self.keys()[j]);
    }
}

} // verus!
