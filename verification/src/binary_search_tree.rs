//! A registry of devices on an unbalanced binary search tree, keyed by the
//! device id. A device goes to the left of every device whose id is at most its
//! own, so that a walk from left to right meets the ids in falling order.

use crate::order::{le, lt, total_order};
use vstd::prelude::*;
use vstd::std_specs::cmp::{PartialEqSpec, PartialEqSpecImpl};

verus! {

/// A device: the id by which the registry finds it, its address and its path.
#[derive(Debug)]
pub struct IoTDevice<I, A> {
    pub id: I,
    pub address: A,
    pub path: A,
}

impl<I, A> IoTDevice<I, A> {
    /// A device with the given id, whose address and path are what `address`
    /// and `path` convert into.
    pub fn new(id: I, address: impl Into<A>, path: impl Into<A>) -> (device: IoTDevice<I, A>)
        ensures
            device.id == id,
            call_ensures(Into::<A>::into, (address,), device.address),
            call_ensures(Into::<A>::into, (path,), device.path),
    {
        IoTDevice { id, address: address.into(), path: path.into() }
    }
}

impl<I: Clone, A: Clone> Clone for IoTDevice<I, A> {
    /// A device whose fields are clones of the fields of this one.
    fn clone(&self) -> (device: Self)
        ensures
            cloned(self.id, device.id),
            cloned(self.address, device.address),
            cloned(self.path, device.path),
    {
        IoTDevice { id: self.id.clone(), address: self.address.clone(), path: self.path.clone() }
    }
}

impl<I: PartialEq, A: PartialEq> PartialEq for IoTDevice<I, A> {
    /// Two devices are equal when their ids and their addresses are; the paths
    /// are not compared.
    fn eq(&self, other: &Self) -> (r: bool) {
        self.id == other.id && self.address == other.address
    }
}

impl<I: PartialEq, A: PartialEq> PartialEqSpecImpl for IoTDevice<I, A> {
    open spec fn obeys_eq_spec() -> bool {
        I::obeys_eq_spec() && A::obeys_eq_spec()
    }

    open spec fn eq_spec(&self, other: &Self) -> bool {
        self.id.eq_spec(&other.id) && self.address.eq_spec(&other.address)
    }
}

/// A device with the devices of greater or equal id to its left and those of
/// smaller id to its right.
struct Node<I, A> {
    dev: IoTDevice<I, A>,
    left: Option<Box<Node<I, A>>>,
    right: Option<Box<Node<I, A>>>,
}

impl<I, A> Node<I, A> {
    fn new(dev: IoTDevice<I, A>) -> (tree: Option<Box<Node<I, A>>>)
        ensures
            tree == Some(Box::new(Node { dev, left: None, right: None })),
    {
        Some(Box::new(Node { dev, left: None, right: None }))
    }
}

/// A registry of devices. Its view is the sequence of the devices in the order
/// of a walk, which is the falling order of their ids.
pub struct DeviceRegistry<I, A> {
    root: Option<Box<Node<I, A>>>,
    /// The number of devices. The methods of the registry keep it; whoever
    /// writes to it gives up `wf`.
    pub length: usize,
}

/// The devices of a tree from left to right.
spec fn in_order<I, A>(tree: Option<Box<Node<I, A>>>) -> Seq<IoTDevice<I, A>>
    decreases tree,
{
    match tree {
        Some(n) => in_order(n.left) + seq![n.dev] + in_order(n.right),
        None => Seq::empty(),
    }
}

/// At every node the ids to the left are at least the id of the node, and the
/// ids to the right are below it.
spec fn search_ordered<I: PartialOrd, A>(tree: Option<Box<Node<I, A>>>) -> bool
    decreases tree,
{
    match tree {
        Some(n) => {
            &&& search_ordered(n.left)
            &&& search_ordered(n.right)
            &&& forall|k: int|
                0 <= k < in_order(n.left).len() ==> le(
                    n.dev.id,
                    (#[trigger] in_order(n.left)[k]).id,
                )
            &&& forall|k: int|
                0 <= k < in_order(n.right).len() ==> lt(
                    (#[trigger] in_order(n.right)[k]).id,
                    n.dev.id,
                )
        },
        None => true,
    }
}

/// `p` is where a device with the id `id` enters the devices `devices`: behind
/// all those with a greater id and before all the others.
pub open spec fn is_slot<I: PartialOrd, A>(devices: Seq<IoTDevice<I, A>>, id: I, p: int) -> bool {
    &&& 0 <= p <= devices.len()
    &&& forall|k: int| 0 <= k < p ==> lt(id, (#[trigger] devices[k]).id)
    &&& forall|k: int| p <= k < devices.len() ==> le((#[trigger] devices[k]).id, id)
}

/// A device enters at one position only.
pub proof fn lemma_slot_determined<I: PartialOrd, A>(
    devices: Seq<IoTDevice<I, A>>,
    id: I,
    p: int,
    q: int,
)
    requires
        total_order::<I>(),
        is_slot(devices, id, p),
        is_slot(devices, id, q),
    ensures
        p == q,
{
    if p < q {
        assert(lt(id, devices[p].id) && le(devices[p].id, id));
    }
    if q < p {
        assert(lt(id, devices[q].id) && le(devices[q].id, id));
    }
}

/// `j` is the last position in `devices` of a device with the id `id`.
pub open spec fn is_last_with_id<I, A>(devices: Seq<IoTDevice<I, A>>, id: I, j: int) -> bool {
    &&& 0 <= j < devices.len()
    &&& devices[j].id == id
    &&& forall|k: int| j < k < devices.len() ==> (#[trigger] devices[k]).id != id
}

impl<I, A> View for DeviceRegistry<I, A> {
    type V = Seq<IoTDevice<I, A>>;

    /// The devices in the order of a walk: from left to right through the
    /// tree.
    closed spec fn view(&self) -> Seq<IoTDevice<I, A>> {
        in_order(self.root)
    }
}

impl<I: PartialOrd, A> DeviceRegistry<I, A> {
    /// The number that the field `length` holds.
    pub closed spec fn len(&self) -> nat {
        self.length as nat
    }

    /// `length` counts the devices, and the tree is a search tree if the ids
    /// are totally ordered.
    pub closed spec fn wf(&self) -> bool {
        &&& self.length == in_order(self.root).len()
        &&& total_order::<I>() ==> search_ordered(self.root)
    }

    /// In a well-formed registry `length` counts the devices.
    pub proof fn lemma_shape(&self)
        requires
            self.wf(),
        ensures
            self.len() == self@.len(),
    {
    }

    /// A walk of a well-formed registry meets the ids in falling order.
    pub proof fn lemma_falling(&self)
        requires
            self.wf(),
            total_order::<I>(),
        ensures
            forall|i: int, j: int|
                0 <= i <= j < self@.len() ==> le(
                    (#[trigger] self@[j]).id,
                    (#[trigger] self@[i]).id,
                ),
    {
        lemma_in_order_falling(self.root);
    }
}

/// The devices of a search tree stand in falling order of their ids.
proof fn lemma_in_order_falling<I: PartialOrd, A>(tree: Option<Box<Node<I, A>>>)
    requires
        total_order::<I>(),
        search_ordered(tree),
    ensures
        forall|i: int, j: int|
            0 <= i <= j < in_order(tree).len() ==> le(
                (#[trigger] in_order(tree)[j]).id,
                (#[trigger] in_order(tree)[i]).id,
            ),
    decreases tree,
{
    match tree {
        Some(n) => {
            lemma_in_order_falling(n.left);
            lemma_in_order_falling(n.right);
            let l = in_order(n.left);
            let r = in_order(n.right);
            let all = in_order(tree);
            assert(all == l + seq![n.dev] + r);
            assert forall|i: int, j: int| 0 <= i <= j < all.len() implies le(
                (#[trigger] all[j]).id,
                (#[trigger] all[i]).id,
            ) by {
                let a = all[i].id;
                let b = all[j].id;
                assert(le(n.dev.id, n.dev.id) || le(n.dev.id, n.dev.id));
                if j < l.len() {
                    assert(all[i] == l[i] && all[j] == l[j]);
                } else if i > l.len() {
                    assert(all[i] == r[i - l.len() - 1] && all[j] == r[j - l.len() - 1]);
                } else {
                    // a is on the left or is the node, b is the node or on the right
                    if i < l.len() {
                        assert(all[i] == l[i]);
                        assert(le(n.dev.id, a));
                    } else {
                        assert(a == n.dev.id);
                    }
                    if j > l.len() {
                        assert(all[j] == r[j - l.len() - 1]);
                        assert(lt(b, n.dev.id));
                        assert(le(b, n.dev.id));
                    } else {
                        assert(b == n.dev.id);
                    }
                    assert(le(b, n.dev.id) && le(n.dev.id, a));
                }
            }
        },
        None => {},
    }
}

/// Entering the left part at `p` is entering the whole at `p`; entering the
/// right part at `q` is entering the whole behind the left part and `here`.
proof fn lemma_insert_beside<T>(left: Seq<T>, here: T, right: Seq<T>, item: T, p: int, q: int)
    requires
        0 <= p <= left.len(),
        0 <= q <= right.len(),
    ensures
        (left + seq![here] + right).insert(p, item) == left.insert(p, item) + seq![here] + right,
        (left + seq![here] + right).insert(left.len() + 1 + q, item) == left + seq![here]
            + right.insert(q, item),
{
    let all = left + seq![here] + right;
    assert(all.insert(p, item) =~= left.insert(p, item) + seq![here] + right);
    assert(all.insert(left.len() + 1 + q, item) =~= left + seq![here] + right.insert(q, item));
}

/// A device that goes to the left of `here` enters the whole at its position
/// on the left, and the left part stays at least `here`.
proof fn lemma_slot_left<I: PartialOrd, A>(
    left: Seq<IoTDevice<I, A>>,
    here: IoTDevice<I, A>,
    right: Seq<IoTDevice<I, A>>,
    device: IoTDevice<I, A>,
    p: int,
)
    requires
        total_order::<I>(),
        is_slot(left, device.id, p),
        le(here.id, device.id),
        forall|k: int| 0 <= k < left.len() ==> le(here.id, (#[trigger] left[k]).id),
        forall|k: int| 0 <= k < right.len() ==> lt((#[trigger] right[k]).id, here.id),
    ensures
        is_slot(left + seq![here] + right, device.id, p),
        forall|k: int|
            0 <= k < left.insert(p, device).len() ==> le(
                here.id,
                (#[trigger] left.insert(p, device)[k]).id,
            ),
{
    let all = left + seq![here] + right;
    assert forall|k: int| p <= k < all.len() implies le((#[trigger] all[k]).id, device.id) by {
        if k < left.len() {
            assert(all[k] == left[k]);
        } else if k > left.len() {
            assert(all[k] == right[k - left.len() - 1]);
            assert(lt(all[k].id, here.id));
            assert(le(all[k].id, here.id));
        }
    }
    assert forall|k: int| 0 <= k < p implies lt(device.id, (#[trigger] all[k]).id) by {
        assert(all[k] == left[k]);
    }
    let grown = left.insert(p, device);
    assert forall|k: int| 0 <= k < grown.len() implies le(here.id, (#[trigger] grown[k]).id) by {
        if k < p {
            assert(grown[k] == left[k]);
        } else if k > p {
            assert(grown[k] == left[k - 1]);
        }
    }
}

/// A device that goes to the right of `here` enters the whole behind `here`,
/// at its position on the right, and the right part stays below `here`.
proof fn lemma_slot_right<I: PartialOrd, A>(
    left: Seq<IoTDevice<I, A>>,
    here: IoTDevice<I, A>,
    right: Seq<IoTDevice<I, A>>,
    device: IoTDevice<I, A>,
    q: int,
)
    requires
        total_order::<I>(),
        is_slot(right, device.id, q),
        !le(here.id, device.id),
        forall|k: int| 0 <= k < left.len() ==> le(here.id, (#[trigger] left[k]).id),
        forall|k: int| 0 <= k < right.len() ==> lt((#[trigger] right[k]).id, here.id),
    ensures
        is_slot(left + seq![here] + right, device.id, left.len() + 1 + q),
        forall|k: int|
            0 <= k < right.insert(q, device).len() ==> lt(
                (#[trigger] right.insert(q, device)[k]).id,
                here.id,
            ),
{
    let all = left + seq![here] + right;
    let p = left.len() + 1 + q;
    assert(le(here.id, device.id) || le(device.id, here.id));
    assert(lt(device.id, here.id));
    assert forall|k: int| 0 <= k < p implies lt(device.id, (#[trigger] all[k]).id) by {
        if k < left.len() {
            assert(all[k] == left[k]);
            assert(le(here.id, all[k].id));
            assert(le(device.id, all[k].id));
        } else if k > left.len() {
            assert(all[k] == right[k - left.len() - 1]);
        }
    }
    assert forall|k: int| p <= k < all.len() implies le((#[trigger] all[k]).id, device.id) by {
        assert(all[k] == right[k - left.len() - 1]);
    }
    let grown = right.insert(q, device);
    assert forall|k: int| 0 <= k < grown.len() implies lt((#[trigger] grown[k]).id, here.id) by {
        if k < q {
            assert(grown[k] == right[k]);
        } else if k > q {
            assert(grown[k] == right[k - 1]);
        }
    }
}

/// The device at a node is the last one with its id.
proof fn lemma_last_here<I: PartialOrd, A>(
    left: Seq<IoTDevice<I, A>>,
    here: IoTDevice<I, A>,
    right: Seq<IoTDevice<I, A>>,
)
    requires
        total_order::<I>(),
        forall|k: int| 0 <= k < right.len() ==> lt((#[trigger] right[k]).id, here.id),
    ensures
        is_last_with_id(left + seq![here] + right, here.id, left.len() as int),
{
    let all = left + seq![here] + right;
    assert(all[left.len() as int] == here);
    assert forall|k: int| left.len() < k < all.len() implies (#[trigger] all[k]).id != here.id by {
        assert(all[k] == right[k - left.len() - 1]);
        assert(lt(all[k].id, here.id));
    }
}

/// An id above the id of a node is found on the left of the node or nowhere.
proof fn lemma_last_left<I: PartialOrd, A>(
    left: Seq<IoTDevice<I, A>>,
    here: IoTDevice<I, A>,
    right: Seq<IoTDevice<I, A>>,
    id: I,
)
    requires
        total_order::<I>(),
        lt(here.id, id),
        forall|k: int| 0 <= k < right.len() ==> lt((#[trigger] right[k]).id, here.id),
    ensures
        forall|j: int|
            is_last_with_id(left, id, j) ==> #[trigger] is_last_with_id(
                left + seq![here] + right,
                id,
                j,
            ),
        (forall|k: int| 0 <= k < left.len() ==> (#[trigger] left[k]).id != id) ==> forall|k: int|
            0 <= k < (left + seq![here] + right).len() ==> (#[trigger] (left + seq![here]
                + right)[k]).id != id,
{
    let all = left + seq![here] + right;
    assert forall|k: int| left.len() <= k < all.len() implies (#[trigger] all[k]).id != id by {
        if k > left.len() {
            assert(all[k] == right[k - left.len() - 1]);
            assert(lt(all[k].id, here.id));
            assert(le(all[k].id, id));
        }
    }
    assert forall|j: int| is_last_with_id(left, id, j) implies #[trigger] is_last_with_id(
        all,
        id,
        j,
    ) by {
        assert(all[j] == left[j]);
        assert forall|k: int| j < k < all.len() implies (#[trigger] all[k]).id != id by {
            if k < left.len() {
                assert(all[k] == left[k]);
            }
        }
    }
    if forall|k: int| 0 <= k < left.len() ==> (#[trigger] left[k]).id != id {
        assert forall|k: int| 0 <= k < all.len() implies (#[trigger] all[k]).id != id by {
            if k < left.len() {
                assert(all[k] == left[k]);
            }
        }
    }
}

/// An id below the id of a node is found on the right of the node or nowhere.
proof fn lemma_last_right<I: PartialOrd, A>(
    left: Seq<IoTDevice<I, A>>,
    here: IoTDevice<I, A>,
    right: Seq<IoTDevice<I, A>>,
    id: I,
)
    requires
        total_order::<I>(),
        lt(id, here.id),
        forall|k: int| 0 <= k < left.len() ==> le(here.id, (#[trigger] left[k]).id),
    ensures
        forall|j: int|
            is_last_with_id(right, id, j) ==> #[trigger] is_last_with_id(
                left + seq![here] + right,
                id,
                left.len() + 1 + j,
            ),
        (forall|k: int| 0 <= k < right.len() ==> (#[trigger] right[k]).id != id) ==> forall|k: int|
            0 <= k < (left + seq![here] + right).len() ==> (#[trigger] (left + seq![here]
                + right)[k]).id != id,
{
    let all = left + seq![here] + right;
    let offset = left.len() + 1;
    assert forall|k: int| 0 <= k < offset implies (#[trigger] all[k]).id != id by {
        if k < left.len() {
            assert(all[k] == left[k]);
            assert(le(here.id, all[k].id));
        }
    }
    assert forall|j: int| is_last_with_id(right, id, j) implies #[trigger] is_last_with_id(
        all,
        id,
        offset + j,
    ) by {
        assert(all[offset + j] == right[j]);
        assert forall|k: int| offset + j < k < all.len() implies (#[trigger] all[k]).id != id by {
            assert(all[k] == right[k - offset]);
        }
    }
    if forall|k: int| 0 <= k < right.len() ==> (#[trigger] right[k]).id != id {
        assert forall|k: int| 0 <= k < all.len() implies (#[trigger] all[k]).id != id by {
            if k >= offset {
                assert(all[k] == right[k - offset]);
            }
        }
    }
}

impl<I: PartialOrd + Clone, A: Clone> DeviceRegistry<I, A> {
    /// An empty registry.
    pub fn new_empty() -> (registry: DeviceRegistry<I, A>)
        ensures
            registry.wf(),
            registry@ == Seq::<IoTDevice<I, A>>::empty(),
            registry.len() == 0,
    {
        DeviceRegistry { root: None, length: 0 }
    }

    /// Adds `device`. In the order of a walk it enters at some position `p`;
    /// where the ids are totally ordered that is the one behind all devices with
    /// a greater id and before all the others.
    pub fn add(&mut self, device: IoTDevice<I, A>)
        requires
            old(self).wf(),
            old(self).len() < usize::MAX,
        ensures
            final(self).wf(),
            final(self).len() == old(self).len() + 1,
            exists|p: int|
                {
                    &&& 0 <= p <= old(self)@.len()
                    &&& final(self)@ == #[trigger] old(self)@.insert(p, device)
                    &&& total_order::<I>() ==> is_slot(old(self)@, device.id, p)
                },
    {
        self.length += 1;
        let root = self.root.take();
        self.root = self.add_rec(root, device);
        proof {
            let before = old(self)@;
            let p = choose|p: int|
                {
                    &&& 0 <= p <= before.len()
                    &&& in_order(self.root) == #[trigger] before.insert(p, device)
                    &&& total_order::<I>() ==> is_slot(before, device.id, p)
                };
            assert(self@ == before.insert(p, device));
        }
    }

    fn add_rec(&self, node: Option<Box<Node<I, A>>>, device: IoTDevice<I, A>) -> (r: Option<
        Box<Node<I, A>>,
    >)
        requires
            total_order::<I>() ==> search_ordered(node),
        ensures
            total_order::<I>() ==> search_ordered(r),
            exists|p: int|
                {
                    &&& 0 <= p <= in_order(node).len()
                    &&& in_order(r) == #[trigger] in_order(node).insert(p, device)
                    &&& total_order::<I>() ==> is_slot(in_order(node), device.id, p)
                },
        decreases node,
    {
        match node {
            Some(mut n) => {
                let ghost left = in_order(n.left);
                let ghost right = in_order(n.right);
                let ghost here = n.dev;
                if n.dev.id <= device.id {
                    n.left = self.add_rec(n.left, device);
                    proof {
                        let p = choose|p: int|
                            {
                                &&& 0 <= p <= left.len()
                                &&& in_order(n.left) == #[trigger] left.insert(p, device)
                                &&& total_order::<I>() ==> is_slot(left, device.id, p)
                            };
                        assert(in_order(node) == left + seq![here] + right);
                        lemma_insert_beside(left, here, right, device, p, 0);
                        if total_order::<I>() {
                            lemma_slot_left(left, here, right, device, p);
                        }
                    }
                } else {
                    n.right = self.add_rec(n.right, device);
                    proof {
                        let q = choose|q: int|
                            {
                                &&& 0 <= q <= right.len()
                                &&& in_order(n.right) == #[trigger] right.insert(q, device)
                                &&& total_order::<I>() ==> is_slot(right, device.id, q)
                            };
                        assert(in_order(node) == left + seq![here] + right);
                        lemma_insert_beside(left, here, right, device, 0, q);
                        if total_order::<I>() {
                            lemma_slot_right(left, here, right, device, q);
                        }
                    }
                }
                Some(n)
            },
            None => {
                let r = Node::new(device);
                proof {
                    assert(in_order(r) =~= in_order(node).insert(0, device));
                    assert(in_order(r.unwrap().left).len() == 0);
                }
                r
            },
        }
    }

    /// Looks up the device that was added first with the id `id`: of the
    /// devices with that id, the last that a walk meets.
    pub fn find(&self, id: I) -> (r: Option<IoTDevice<I, A>>)
        requires
            self.wf(),
        ensures
            self@.len() == 0 ==> r is None,
            total_order::<I>() ==> match r {
                Some(d) => exists|j: int| #[trigger]
                    is_last_with_id(self@, id, j) && cloned(self@[j], d),
                None => forall|j: int| 0 <= j < self@.len() ==> (#[trigger] self@[j]).id != id,
            },
    {
        let r = self.find_r(&self.root, id);
        proof {
            if total_order::<I>() && r is Some {
                let d = r.unwrap();
                let j = choose|j: int| #[trigger]
                    is_last_with_id(in_order(self.root), id, j) && cloned(
                        in_order(self.root)[j],
                        d,
                    );
                assert(is_last_with_id(self@, id, j) && cloned(self@[j], d));
            }
        }
        r
    }

    fn find_r(&self, node: &Option<Box<Node<I, A>>>, id: I) -> (r: Option<IoTDevice<I, A>>)
        requires
            total_order::<I>() ==> search_ordered(*node),
        ensures
            in_order(*node).len() == 0 ==> r is None,
            total_order::<I>() ==> match r {
                Some(d) => exists|j: int| #[trigger]
                    is_last_with_id(in_order(*node), id, j) && cloned(in_order(*node)[j], d),
                None => forall|j: int|
                    0 <= j < in_order(*node).len() ==> (#[trigger] in_order(*node)[j]).id != id,
            },
        decreases node,
    {
        match node {
            Some(n) => {
                let ghost left = in_order(n.left);
                let ghost right = in_order(n.right);
                assert(in_order(*node) == left + seq![n.dev] + right);
                if n.dev.id == id {
                    let d = n.dev.clone();
                    proof {
                        if total_order::<I>() {
                            lemma_last_here(left, n.dev, right);
                        }
                    }
                    Some(d)
                } else if n.dev.id < id {
                    let r = self.find_r(&n.left, id);
                    proof {
                        if total_order::<I>() {
                            lemma_last_left(left, n.dev, right, id);
                            if r is Some {
                                let j = choose|j: int| #[trigger]
                                    is_last_with_id(left, id, j) && cloned(left[j], r.unwrap());
                                assert(is_last_with_id(in_order(*node), id, j));
                            }
                        }
                    }
                    r
                } else {
                    let r = self.find_r(&n.right, id);
                    proof {
                        if total_order::<I>() {
                            assert(!lt(n.dev.id, id));
                            assert(le(n.dev.id, id) || le(id, n.dev.id));
                            lemma_last_right(left, n.dev, right, id);
                            if r is Some {
                                let j = choose|j: int| #[trigger]
                                    is_last_with_id(right, id, j) && cloned(right[j], r.unwrap());
                                assert(is_last_with_id(in_order(*node), id, left.len() + 1 + j));
                            }
                        }
                    }
                    r
                }
            },
            None => None,
        }
    }

    /// Calls `callback` on every device, in the order of a walk from left to
    /// right through the tree.
    pub fn walk(&self, callback: impl Fn(&IoTDevice<I, A>) -> ())
        requires
            forall|d: &IoTDevice<I, A>| call_requires(callback, (d,)),
        ensures
            forall|j: int|
                0 <= j < self@.len() ==> call_ensures(callback, (&#[trigger] self@[j],), ()),
    {
        self.walk_in_order(&self.root, &callback)
    }

    fn walk_in_order(&self, node: &Option<Box<Node<I, A>>>, callback: &impl Fn(&IoTDevice<I, A>))
        requires
            forall|d: &IoTDevice<I, A>| call_requires(*callback, (d,)),
        ensures
            forall|j: int|
                0 <= j < in_order(*node).len() ==> call_ensures(
                    *callback,
                    (&#[trigger] in_order(*node)[j],),
                    (),
                ),
        decreases node,
    {
        if let Some(n) = node {
            self.walk_in_order(&n.left, callback);
            callback(&n.dev);
            self.walk_in_order(&n.right, callback);
            proof {
                let left = in_order(n.left);
                let right = in_order(n.right);
                let all = in_order(*node);
                assert forall|j: int| 0 <= j < all.len() implies call_ensures(
                    *callback,
                    (&#[trigger] all[j],),
                    (),
                ) by {
                    if j < left.len() {
                        assert(all[j] == left[j]);
                    } else if j > left.len() {
                        assert(all[j] == right[j - left.len() - 1]);
                    }
                }
            }
        }
    }
}

} // verus!
