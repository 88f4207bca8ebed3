//! The container: a node arena threaded as a doubly-linked chain, and the slot
//! table that maps each key to the arena location of its node.

use crate::model::{
    distinct_keys, has_key, moved_front, position, pushed, removed, replaced, value_of,
    without_last,
};
use crate::slot_table::{
    slab_clear, slab_get, slab_get_mut, slab_insert, slab_len, slab_new, slab_shrink_to_fit,
    slab_try_remove, slots, vacant,
};
use slab::Slab;
use vstd::prelude::*;

verus! {

/// The arena location of the hand, the anchor node of the chain.
const HAND: usize = 0;

/// One node of the chain, as it is stored in the arena. Its links are arena
/// locations: `next` is absent at the tail, `prev` is absent only while the
/// node is not part of a chain.
pub struct Node<T> {
    prev: Option<usize>,
    next: Option<usize>,
    key: usize,
    data: Option<T>,
}

impl<T> Node<T> {
    /// The payload the node carries; the hand carries none.
    pub closed spec fn payload(self) -> Option<T> {
        self.data
    }

    /// The slot-table key the node is registered under.
    pub closed spec fn slot_key(self) -> usize {
        self.key
    }

    /// True of a node that is linked to nothing.
    pub closed spec fn detached(self) -> bool {
        self.prev is None && self.next is None
    }

    /// A detached node that carries `data`.
    #[inline]
    pub fn new(data: T) -> (node: Self)
        ensures
            node.payload() == Some(data),
            node.slot_key() == 0,
            node.detached(),
    {
        Node { prev: None, next: None, key: 0, data: Some(data) }
    }

    /// Gives up the node and returns its payload.
    #[inline]
    pub fn into_inner(self) -> (data: Option<T>)
        ensures
            data == self.payload(),
    {
        self.data
    }
}

impl<T> Default for Node<T> {
    /// A detached node without payload: the shape of a hand.
    fn default() -> (node: Self)
        ensures
            node.payload() is None,
            node.slot_key() == 0,
            node.detached(),
    {
        Node { prev: None, next: None, key: 0, data: None }
    }
}

/// `Vec::shrink_to_fit`: the capacity shrinks as far as it can; the elements
/// stay as they are.
#[verifier::external_body]
fn vec_shrink_to_fit<T>(v: &mut Vec<T>)
    ensures
        final(v)@ == old(v)@,
{
    v.shrink_to_fit()
}

/// The arena location of the element at position `i` of `order`. Every
/// position outside the chain stands for the hand.
spec fn loc_at(m: Map<usize, usize>, order: Seq<usize>, i: int) -> usize {
    if 0 <= i < order.len() {
        m[order[i]]
    } else {
        HAND
    }
}

/// The forward link that leads to position `i`: absent past the tail.
spec fn fwd(m: Map<usize, usize>, order: Seq<usize>, i: int) -> Option<usize> {
    if 0 <= i < order.len() {
        Some(loc_at(m, order, i))
    } else {
        None
    }
}

/// The node of position `i` sits at a proper arena location other than
/// `hole`, carries its key and a payload, and is linked to both neighbours.
spec fn node_ok<T>(
    m: Map<usize, usize>,
    nodes: Seq<Node<T>>,
    order: Seq<usize>,
    hole: usize,
    i: int,
) -> bool {
    let l = loc_at(m, order, i) as int;
    &&& 1 <= l < nodes.len()
    &&& l != hole
    &&& nodes[l].key == order[i]
    &&& nodes[l].data is Some
    &&& nodes[l].prev == Some(loc_at(m, order, i - 1))
    &&& nodes[l].next == fwd(m, order, i + 1)
}

/// The hand has no payload, leads forward to the front and back to the tail
/// (to itself when the chain is empty).
spec fn hand_ok<T>(m: Map<usize, usize>, nodes: Seq<Node<T>>, order: Seq<usize>) -> bool {
    &&& nodes.len() >= 1
    &&& nodes[HAND as int].data is None
    &&& nodes[HAND as int].prev == Some(loc_at(m, order, order.len() - 1))
    &&& nodes[HAND as int].next == fwd(m, order, 0)
}

/// The node at arena location `j` is registered in the slot table under its
/// own key.
spec fn back_ok<T>(m: Map<usize, usize>, nodes: Seq<Node<T>>, j: int) -> bool {
    m.dom().contains(nodes[j].key) && m[nodes[j].key] == j
}

/// The slot table holds exactly the keys of `order`, each once.
spec fn keys_ok(m: Map<usize, usize>, order: Seq<usize>) -> bool {
    &&& m.dom().finite()
    &&& order.no_duplicates()
    &&& forall|k: usize| m.dom().contains(k) <==> order.contains(k)
}

/// Slot table, arena and order describe one chain. `hole` is an arena
/// location that holds no live node; 0 says that there is none.
spec fn chain_ok<T>(
    m: Map<usize, usize>,
    nodes: Seq<Node<T>>,
    order: Seq<usize>,
    hole: usize,
) -> bool {
    &&& keys_ok(m, order)
    &&& hand_ok(m, nodes, order)
    &&& nodes.len() == order.len() + (if hole == HAND { 1int } else { 2int })
    &&& hole < nodes.len()
    &&& forall|i: int| 0 <= i < order.len() ==> #[trigger] node_ok(m, nodes, order, hole, i)
    &&& forall|j: int| 1 <= j < nodes.len() && j != hole ==> #[trigger] back_ok(m, nodes, j)
}

/// The pairs that slot table, arena and order stand for, front to back.
spec fn pairs<T>(m: Map<usize, usize>, nodes: Seq<Node<T>>, order: Seq<usize>) -> Seq<(usize, T)> {
    Seq::new(order.len(), |i: int| (order[i], nodes[loc_at(m, order, i) as int].data.unwrap()))
}

/// A doubly-linked sequence of values, each addressed by a stable key that is
/// assigned when the value is pushed and may be reused once it is removed.
pub struct LURLinked<T> {
    map: Slab<usize>,
    nodes: Vec<Node<T>>,
    order: Ghost<Seq<usize>>,
}

impl<T> View for LURLinked<T> {
    type V = Seq<(usize, T)>;

    /// The `(key, value)` pairs of the container, front to back.
    closed spec fn view(&self) -> Seq<(usize, T)> {
        pairs(slots(self.map), self.nodes@, self.order@)
    }
}

impl<T> Default for LURLinked<T> {
    /// An empty container.
    fn default() -> (list: Self)
        ensures
            list.wf(),
            list@ == Seq::<(usize, T)>::empty(),
            list.next_key() == 0,
    {
        let mut hand = Node::default();
        hand.prev = Some(HAND);
        let mut nodes = Vec::new();
        nodes.push(hand);
        let list = LURLinked { map: slab_new(), nodes, order: Ghost(Seq::empty()) };
        assert(list@ =~= Seq::<(usize, T)>::empty());
        list
    }
}

impl<T> LURLinked<T> {
    /// Slot table and chain agree on one set of live nodes.
    pub closed spec fn inv(&self) -> bool {
        chain_ok(slots(self.map), self.nodes@, self.order@, HAND)
    }

    /// The key that the next push will hand out. It is 0 in an empty
    /// container that never held a value or was cleared, and after a removal
    /// it is the key that was removed last.
    pub closed spec fn next_key(&self) -> usize {
        vacant(self.map)
    }

    /// The container is well formed; its keys are then distinct.
    pub open spec fn wf(&self) -> bool {
        self.inv() && distinct_keys(self@)
    }

    /// An empty container.
    pub fn new() -> (list: Self)
        ensures
            list.wf(),
            list@ == Seq::<(usize, T)>::empty(),
            list.next_key() == 0,
    {
        Self::default()
    }

    /// The number of values in the container.
    #[inline]
    pub fn len(&self) -> (n: usize)
        requires
            self.wf(),
        ensures
            n == self@.len(),
    {
        proof {
            lemma_count(slots(self.map), self.order@);
        }
        slab_len(&self.map)
    }

    /// True if the container holds no value.
    #[inline]
    pub fn is_empty(&self) -> (empty: bool)
        requires
            self.wf(),
        ensures
            empty == (self@.len() == 0),
    {
        self.len() == 0
    }

    /// Places `datum` in front of all other values and returns the key that
    /// now stands for it: the next key, which no other value of the
    /// container has.
    #[inline]
    pub fn push(&mut self, datum: T) -> (key: usize)
        requires
            old(self).wf(),
        ensures
            final(self).wf(),
            key == old(self).next_key(),
            !has_key(old(self)@, key),
            final(self)@ == pushed(old(self)@, key, datum),
    {
        let ghost m0 = slots(self.map);
        let ghost nodes0 = self.nodes@;
        let ghost order0 = self.order@;
        let mut node = Node::new(datum);
        let loc = self.nodes.len();
        let key = slab_insert(&mut self.map, loc);
        node.key = key;
        node.prev = Some(HAND);
        let front = self.nodes[HAND].next;
        proof {
            lemma_absent_key(m0, nodes0, order0, key);
            if order0.len() > 0 {
                assert(node_ok(m0, nodes0, order0, HAND, 0));
            }
        }
        match front {
            Some(next) => {
                self.nodes[next].prev = Some(loc);
                node.next = Some(next);
            },
            None => {
                self.nodes[HAND].prev = Some(loc);
            },
        }
        self.nodes[HAND].next = Some(loc);
        self.nodes.push(node);
        self.order = Ghost(seq![key] + order0);
        proof {
            lemma_link_front(m0, nodes0, order0, key, self.nodes@);
            lemma_pairs_distinct(slots(self.map), self.nodes@, self.order@);
        }
        key
    }

    /// Takes the node at `loc`, which the chain no longer reaches, out of the
    /// arena. The node at the end of the arena moves into its place, so the
    /// arena stays dense; links and slot table follow it.
    fn release(&mut self, loc: usize) -> (node: Node<T>)
        requires
            chain_ok(slots(old(self).map), old(self).nodes@, old(self).order@, loc),
            loc != HAND,
        ensures
            chain_ok(slots(final(self).map), final(self).nodes@, final(self).order@, HAND),
            final(self).order@ == old(self).order@,
            final(self)@ == old(self)@,
            final(self).next_key() == old(self).next_key(),
            node == old(self).nodes@[loc as int],
    {
        let ghost m0 = slots(self.map);
        let ghost nodes0 = self.nodes@;
        let ghost order = self.order@;
        let last = self.nodes.len() - 1;
        if loc != last {
            let moved_key = self.nodes[last].key;
            proof {
                lemma_live(m0, nodes0, order, loc, last as int);
            }
            let prev = self.nodes[last].prev.unwrap();
            let next = self.nodes[last].next;
            self.nodes[prev].next = Some(loc);
            match next {
                Some(n) => {
                    self.nodes[n].prev = Some(loc);
                },
                None => {
                    self.nodes[HAND].prev = Some(loc);
                },
            }
            match slab_get_mut(&mut self.map, moved_key) {
                Some(slot) => {
                    *slot = loc;
                },
                None => {},
            }
        }
        let node = self.nodes.swap_remove(loc);
        proof {
            lemma_release(m0, nodes0, order, loc, slots(self.map), self.nodes@);
        }
        node
    }

    /// Takes the value under `key` out of the container and returns it; the
    /// key is then the next key. A key that stands for no value changes
    /// nothing and gives `None`. The order of the other values stays as it
    /// was.
    #[inline]
    pub fn remove(&mut self, key: usize) -> (value: Option<T>)
        requires
            old(self).wf(),
        ensures
            final(self).wf(),
            value == value_of(old(self)@, key),
            final(self)@ == removed(old(self)@, key),
            final(self).next_key() == (if has_key(old(self)@, key) {
                key
            } else {
                old(self).next_key()
            }),
    {
        let ghost m0 = slots(self.map);
        let ghost nodes0 = self.nodes@;
        let ghost order0 = self.order@;
        match slab_try_remove(&mut self.map, key) {
            Some(loc) => {
                let ghost at = order0.index_of(key);
                proof {
                    lemma_present_key(m0, nodes0, order0, key);
                    lemma_neighbours(m0, nodes0, order0, HAND, at);
                }
                let prev = self.nodes[loc].prev.unwrap();
                let next = self.nodes[loc].next;
                match next {
                    Some(n) => {
                        self.nodes[n].prev = Some(prev);
                    },
                    None => {
                        self.nodes[HAND].prev = Some(prev);
                    },
                }
                self.nodes[prev].next = next;
                self.order = Ghost(order0.remove(at));
                proof {
                    lemma_unlink(m0, nodes0, order0, at, self.nodes@);
                }
                let node = self.release(loc);
                proof {
                    lemma_pairs_distinct(slots(self.map), self.nodes@, self.order@);
                }
                node.into_inner()
            },
            None => {
                proof {
                    lemma_absent_key(m0, nodes0, order0, key);
                    assert(slots(self.map) =~= m0);
                }
                None
            },
        }
    }

    /// Makes the value under `key` the front of the container and hands the
    /// key back; the other values keep their order. A key that stands for no
    /// value changes nothing and gives `None`, and so does nothing but hand
    /// the key back where its value is the front already.
    #[inline]
    pub fn move_front(&mut self, key: usize) -> (moved: Option<usize>)
        requires
            old(self).wf(),
        ensures
            final(self).wf(),
            moved == (if has_key(old(self)@, key) {
                Some(key)
            } else {
                None
            }),
            final(self)@ == moved_front(old(self)@, key),
            final(self).next_key() == old(self).next_key(),
    {
        let ghost m = slots(self.map);
        let ghost nodes0 = self.nodes@;
        let ghost order0 = self.order@;
        match slab_get(&self.map, key) {
            Some(slot) => {
                let loc = *slot;
                let ghost at = order0.index_of(key);
                proof {
                    lemma_present_key(m, nodes0, order0, key);
                    lemma_neighbours(m, nodes0, order0, HAND, at);
                    lemma_neighbours(m, nodes0, order0, HAND, 0);
                }
                let prev = self.nodes[loc].prev.unwrap();
                if prev != HAND {
                    let next = self.nodes[loc].next;
                    let front = self.nodes[HAND].next.unwrap();
                    match next {
                        Some(n) => {
                            self.nodes[n].prev = Some(prev);
                        },
                        None => {
                            self.nodes[HAND].prev = Some(prev);
                        },
                    }
                    self.nodes[prev].next = next;
                    self.nodes[front].prev = Some(loc);
                    self.nodes[loc].prev = Some(HAND);
                    self.nodes[loc].next = Some(front);
                    self.nodes[HAND].next = Some(loc);
                    self.order = Ghost(seq![key] + order0.remove(at));
                    proof {
                        lemma_promote(m, nodes0, order0, at, self.nodes@);
                        lemma_pairs_distinct(m, self.nodes@, self.order@);
                    }
                } else {
                    proof {
                        assert(at == 0);
                        assert(self@ =~= moved_front(self@, key));
                    }
                }
                Some(key)
            },
            None => {
                proof {
                    lemma_absent_key(m, nodes0, order0, key);
                }
                None
            },
        }
    }

    /// Takes the last value, the one that was pushed or moved to the front
    /// longest ago, out of the container and returns it; its key is then the
    /// next key. `None` if the container is empty.
    #[inline]
    pub fn remove_last(&mut self) -> (value: Option<T>)
        requires
            old(self).wf(),
        ensures
            final(self).wf(),
            value == (if old(self)@.len() > 0 {
                Some(old(self)@.last().1)
            } else {
                None
            }),
            final(self)@ == without_last(old(self)@),
            final(self).next_key() == (if old(self)@.len() > 0 {
                old(self)@.last().0
            } else {
                old(self).next_key()
            }),
    {
        if !self.is_empty() {
            let ghost n = self.order@.len() as int;
            proof {
                assert(node_ok(slots(self.map), self.nodes@, self.order@, HAND, n - 1));
                lemma_at(slots(self.map), self.nodes@, self.order@, n - 1);
                assert(self@.remove(n - 1) =~= self@.drop_last());
            }
            let tail = self.nodes[HAND].prev.unwrap();
            let key = self.nodes[tail].key;
            self.remove(key)
        } else {
            None
        }
    }

    /// Takes every value out of the container. All keys handed out so far
    /// stand for nothing afterwards, and keys are handed out from 0 again.
    #[inline]
    pub fn clear(&mut self)
        requires
            old(self).wf(),
        ensures
            final(self).wf(),
            final(self)@ == Seq::<(usize, T)>::empty(),
            final(self).next_key() == 0,
    {
        self.nodes.truncate(1);
        self.nodes[HAND].next = None;
        self.nodes[HAND].prev = Some(HAND);
        slab_clear(&mut self.map);
        self.order = Ghost(Seq::empty());
        proof {
            assert(self@ =~= Seq::<(usize, T)>::empty());
        }
    }

    /// The value under `key`, if the key stands for one.
    #[inline]
    pub fn get(&self, key: usize) -> (value: Option<&T>)
        requires
            self.wf(),
        ensures
            match value {
                Some(v) => value_of(self@, key) == Some(*v),
                None => value_of(self@, key) is None,
            },
    {
        let ghost m = slots(self.map);
        match slab_get(&self.map, key) {
            Some(slot) => {
                proof {
                    lemma_present_key(m, self.nodes@, self.order@, key);
                }
                self.nodes[*slot].data.as_ref()
            },
            None => {
                proof {
                    lemma_absent_key(m, self.nodes@, self.order@, key);
                }
                None
            },
        }
    }

    /// Exclusive access to the value under `key`, if the key stands for one.
    /// What is written through it replaces that value in place.
    #[inline]
    pub fn get_mut(&mut self, key: usize) -> (value: Option<&mut T>)
        requires
            old(self).wf(),
        ensures
            final(self).wf(),
            final(self).next_key() == old(self).next_key(),
            match value {
                Some(v) => value_of(old(self)@, key) == Some(*v) && final(self)@ == replaced(
                    old(self)@,
                    key,
                    *final(v),
                ),
                None => value_of(old(self)@, key) is None && final(self)@ == old(self)@,
            },
    {
        let ghost m = slots(self.map);
        let ghost nodes0 = self.nodes@;
        let ghost order = self.order@;
        match slab_get(&self.map, key) {
            Some(slot) => {
                let loc = *slot;
                let ghost at = order.index_of(key);
                proof {
                    lemma_present_key(m, nodes0, order, key);
                    assert forall|node: Node<T>| same_but_payload(node, nodes0[loc as int]) implies {
                        let nodes1 = #[trigger] nodes0.update(loc as int, node);
                        &&& chain_ok(m, nodes1, order, HAND)
                        &&& distinct_keys(pairs(m, nodes1, order))
                        &&& pairs(m, nodes1, order) == replaced(
                            pairs(m, nodes0, order),
                            key,
                            node.data.unwrap(),
                        )
                    } by {
                        lemma_rewrite(m, nodes0, order, at, node);
                    }
                }
                self.nodes[loc].data.as_mut()
            },
            None => {
                proof {
                    lemma_absent_key(m, nodes0, order, key);
                }
                None
            },
        }
    }

    /// Gives unused storage back; values, order and keys stay as they are.
    /// Which key the next push hands out may change.
    #[inline]
    pub fn shrink_to_fit(&mut self)
        requires
            old(self).wf(),
        ensures
            final(self).wf(),
            final(self)@ == old(self)@,
    {
        slab_shrink_to_fit(&mut self.map);
        vec_shrink_to_fit(&mut self.nodes);
    }

    /// The key of the front value, if there is one.
    pub(crate) fn front_key(&self) -> (key: Option<usize>)
        requires
            self.wf(),
        ensures
            key == (if self@.len() > 0 {
                Some(self@.first().0)
            } else {
                None
            }),
    {
        proof {
            if self.order@.len() > 0 {
                assert(node_ok(slots(self.map), self.nodes@, self.order@, HAND, 0));
            }
        }
        match self.nodes[HAND].next {
            Some(loc) => Some(self.nodes[loc].key),
            None => None,
        }
    }

    /// The pair that the node at `loc` stands for, with exclusive access to
    /// its value.
    pub(crate) fn entry_mut(&mut self, loc: usize, Ghost(i): Ghost<int>) -> (pair: (usize, &mut T))
        requires
            old(self).wf(),
            0 <= i < old(self)@.len(),
            loc == old(self).loc(i),
        ensures
            pair.0 == old(self)@[i].0,
            *pair.1 == old(self)@[i].1,
            final(self).wf(),
            final(self)@ == old(self)@.update(i, (pair.0, *final(pair.1))),
            final(self).next_key() == old(self).next_key(),
            forall|j: int| final(self).loc(j) == old(self).loc(j),
    {
        let ghost m = slots(self.map);
        let ghost nodes0 = self.nodes@;
        let ghost order = self.order@;
        proof {
            assert(node_ok(m, nodes0, order, HAND, i));
            lemma_at(m, nodes0, order, i);
            assert forall|node: Node<T>| same_but_payload(node, nodes0[loc as int]) implies {
                let nodes1 = #[trigger] nodes0.update(loc as int, node);
                &&& chain_ok(m, nodes1, order, HAND)
                &&& distinct_keys(pairs(m, nodes1, order))
                &&& pairs(m, nodes1, order) == pairs(m, nodes0, order).update(
                    i,
                    (order[i], node.data.unwrap()),
                )
            } by {
                lemma_rewrite(m, nodes0, order, i, node);
            }
        }
        let node = &mut self.nodes[loc];
        (node.key, node.data.as_mut().unwrap())
    }

    /// The arena location of position `i`; the hand's for every position
    /// outside the chain.
    pub(crate) closed spec fn loc(&self, i: int) -> usize {
        loc_at(slots(self.map), self.order@, i)
    }

    /// The arena location of the hand, where a cursor starts.
    pub(crate) fn hand(&self) -> (loc: usize)
        ensures
            loc == self.loc(-1),
            loc == self.loc(self@.len() as int),
    {
        HAND
    }

    /// The location that follows `loc` toward the back, if `loc` is not the
    /// tail's.
    pub(crate) fn after(&self, loc: usize, Ghost(i): Ghost<int>) -> (next: Option<usize>)
        requires
            self.wf(),
            -1 <= i < self@.len(),
            loc == self.loc(i),
        ensures
            next == (if i + 1 < self@.len() {
                Some(self.loc(i + 1))
            } else {
                None
            }),
    {
        proof {
            if i >= 0 {
                assert(node_ok(slots(self.map), self.nodes@, self.order@, HAND, i));
            }
        }
        self.nodes[loc].next
    }

    /// The location that precedes `loc` toward the front; from the hand's,
    /// that is the tail's.
    pub(crate) fn before(&self, loc: usize, Ghost(i): Ghost<int>) -> (prev: usize)
        requires
            self.wf(),
            0 <= i <= self@.len(),
            loc == self.loc(i),
        ensures
            prev == self.loc(i - 1),
    {
        proof {
            if i < self@.len() {
                assert(node_ok(slots(self.map), self.nodes@, self.order@, HAND, i));
            }
        }
        self.nodes[loc].prev.unwrap()
    }

    /// The pair that the node at `loc` stands for.
    pub(crate) fn entry(&self, loc: usize, Ghost(i): Ghost<int>) -> (pair: (usize, &T))
        requires
            self.wf(),
            0 <= i < self@.len(),
            loc == self.loc(i),
        ensures
            pair.0 == self@[i].0,
            *pair.1 == self@[i].1,
    {
        proof {
            assert(node_ok(slots(self.map), self.nodes@, self.order@, HAND, i));
        }
        let node = &self.nodes[loc];
        (node.key, node.data.as_ref().unwrap())
    }
}

/// A slot table that holds exactly the keys of a duplicate-free order has as
/// many associations as the order has keys.
proof fn lemma_count(m: Map<usize, usize>, order: Seq<usize>)
    requires
        keys_ok(m, order),
    ensures
        m.len() == order.len(),
{
    order.unique_seq_to_set();
    assert(order.to_set() =~= m.dom());
}

/// Two positions of a chain lie at two arena locations.
proof fn lemma_locs_distinct<T>(
    m: Map<usize, usize>,
    nodes: Seq<Node<T>>,
    order: Seq<usize>,
    hole: usize,
)
    requires
        chain_ok(m, nodes, order, hole),
    ensures
        forall|i: int, j: int|
            0 <= i < order.len() && 0 <= j < order.len() && i != j ==> #[trigger] loc_at(
                m,
                order,
                i,
            ) != #[trigger] loc_at(m, order, j),
{
    assert forall|i: int, j: int|
        0 <= i < order.len() && 0 <= j < order.len() && i != j implies #[trigger] loc_at(
        m,
        order,
        i,
    ) != #[trigger] loc_at(m, order, j) by {
        assert(node_ok(m, nodes, order, hole, i));
        assert(node_ok(m, nodes, order, hole, j));
    }
}

/// In a well-formed container, position `at` of the order is the position
/// of its key among the pairs.
proof fn lemma_at<T>(m: Map<usize, usize>, nodes: Seq<Node<T>>, order: Seq<usize>, at: int)
    requires
        order.no_duplicates(),
        0 <= at < order.len(),
    ensures
        has_key(pairs(m, nodes, order), order[at]),
        position(pairs(m, nodes, order), order[at]) == at,
{
    lemma_pairs_distinct(m, nodes, order);
    crate::model::lemma_position_unique(pairs(m, nodes, order), at);
}

/// A key that the slot table does not hold is the key of no pair.
proof fn lemma_absent_key<T>(
    m: Map<usize, usize>,
    nodes: Seq<Node<T>>,
    order: Seq<usize>,
    key: usize,
)
    requires
        keys_ok(m, order),
        !m.dom().contains(key),
    ensures
        !order.contains(key),
        !has_key(pairs(m, nodes, order), key),
{
    let s = pairs(m, nodes, order);
    if has_key(s, key) {
        let i = position(s, key);
        assert(order.contains(order[i]));
    }
}

/// A key that the slot table holds is the key of one pair, whose position is
/// that of the key in the order and whose node lies where the slot table
/// says.
proof fn lemma_present_key<T>(
    m: Map<usize, usize>,
    nodes: Seq<Node<T>>,
    order: Seq<usize>,
    key: usize,
)
    requires
        chain_ok(m, nodes, order, HAND),
        m.dom().contains(key),
    ensures
        order.contains(key),
        0 <= order.index_of(key) < order.len(),
        order[order.index_of(key)] == key,
        loc_at(m, order, order.index_of(key)) == m[key],
        node_ok(m, nodes, order, HAND, order.index_of(key)),
        has_key(pairs(m, nodes, order), key),
        position(pairs(m, nodes, order), key) == order.index_of(key),
{
    assert(order.contains(key));
    let at = order.index_of(key);
    lemma_at(m, nodes, order, at);
    assert(node_ok(m, nodes, order, HAND, at));
}

/// The node of position `at` and its two neighbours lie at three proper
/// places of the arena, the hand's included.
proof fn lemma_neighbours<T>(
    m: Map<usize, usize>,
    nodes: Seq<Node<T>>,
    order: Seq<usize>,
    hole: usize,
    at: int,
)
    requires
        chain_ok(m, nodes, order, hole),
        0 <= at < order.len(),
    ensures
        node_ok(m, nodes, order, hole, at),
        loc_at(m, order, at - 1) < nodes.len(),
        loc_at(m, order, at + 1) < nodes.len(),
        loc_at(m, order, at - 1) != loc_at(m, order, at),
        loc_at(m, order, at + 1) != loc_at(m, order, at),
        at + 1 < order.len() ==> loc_at(m, order, at + 1) >= 1,
        at > 0 ==> loc_at(m, order, at - 1) >= 1,
{
    assert(node_ok(m, nodes, order, hole, at));
    if at > 0 {
        assert(node_ok(m, nodes, order, hole, at - 1));
    }
    if at + 1 < order.len() {
        assert(node_ok(m, nodes, order, hole, at + 1));
    }
    lemma_locs_distinct(m, nodes, order, hole);
}

/// What the arena holds at location `j` once `node` has been linked in
/// between the hand and the front and appended to the arena.
spec fn fronted<T>(nodes: Seq<Node<T>>, node: Node<T>, j: int) -> Node<T> {
    let front = nodes[HAND as int].next;
    if j == nodes.len() {
        Node { prev: Some(HAND), next: front, key: node.key, data: node.data }
    } else {
        Node {
            prev: if leads_to(front, j) || (front is None && j == HAND) {
                Some(nodes.len() as usize)
            } else {
                nodes[j].prev
            },
            next: if j == HAND {
                Some(nodes.len() as usize)
            } else {
                nodes[j].next
            },
            key: nodes[j].key,
            data: nodes[j].data,
        }
    }
}

/// Linking a node with a new key in behind the hand gives the chain in which
/// that key comes first and the other keys follow in their order.
proof fn lemma_link_front<T>(
    m0: Map<usize, usize>,
    nodes0: Seq<Node<T>>,
    order0: Seq<usize>,
    key: usize,
    nodes1: Seq<Node<T>>,
)
    requires
        chain_ok(m0, nodes0, order0, HAND),
        !m0.dom().contains(key),
        nodes0.len() <= usize::MAX,
        nodes1.len() == nodes0.len() + 1,
        nodes1.last().key == key,
        nodes1.last().data is Some,
        forall|j: int| 0 <= j < nodes1.len() ==> #[trigger] nodes1[j] == fronted(
            nodes0,
            nodes1.last(),
            j,
        ),
    ensures
        chain_ok(m0.insert(key, nodes0.len() as usize), nodes1, seq![key] + order0, HAND),
        pairs(m0.insert(key, nodes0.len() as usize), nodes1, seq![key] + order0) == pushed(
            pairs(m0, nodes0, order0),
            key,
            nodes1.last().data.unwrap(),
        ),
{
    let loc = nodes0.len() as usize;
    let m1 = m0.insert(key, loc);
    let order1 = seq![key] + order0;
    let node = nodes1.last();
    lemma_absent_key(m0, nodes0, order0, key);
    lemma_locs_distinct(m0, nodes0, order0, HAND);
    if order0.len() > 0 {
        assert(node_ok(m0, nodes0, order0, HAND, 0));
        assert(node_ok(m0, nodes0, order0, HAND, order0.len() - 1));
    }
    assert forall|i: int| 0 <= i < order1.len() implies loc_at(m1, order1, i) == (if i == 0 {
        loc
    } else {
        loc_at(m0, order0, i - 1)
    }) by {
        if i > 0 {
            assert(order0.contains(order0[i - 1]));
        }
    }
    assert forall|i: int| 0 <= i < order1.len() implies #[trigger] node_ok(
        m1,
        nodes1,
        order1,
        HAND,
        i,
    ) by {
        let l = loc_at(m1, order1, i) as int;
        if i > 0 {
            assert(node_ok(m0, nodes0, order0, HAND, i - 1));
        }
        assert(nodes1[l] == fronted(nodes0, node, l));
    }
    assert forall|j: int| 1 <= j < nodes1.len() implies #[trigger] back_ok(m1, nodes1, j) by {
        assert(nodes1[j] == fronted(nodes0, node, j));
        if j < loc {
            assert(back_ok(m0, nodes0, j));
        }
    }
    assert(nodes1[0] == fronted(nodes0, node, 0));
    assert(hand_ok(m1, nodes1, order1));
    assert(order1.no_duplicates());
    assert forall|k: usize| m1.dom().contains(k) <==> order1.contains(k) by {
        if order1.contains(k) {
            let i = choose|i: int| 0 <= i < order1.len() && order1[i] == k;
            if i > 0 {
                assert(order0.contains(order0[i - 1]));
            }
        }
        if m1.dom().contains(k) {
            if k == key {
                assert(order1[0] == k);
            } else {
                assert(order0.contains(k));
                let i = choose|i: int| 0 <= i < order0.len() && order0[i] == k;
                assert(order1[i + 1] == k);
            }
        }
    }
    let s1 = pairs(m1, nodes1, order1);
    let expected = pushed(pairs(m0, nodes0, order0), key, node.data.unwrap());
    assert forall|i: int| 0 <= i < order1.len() implies s1[i] == expected[i] by {
        let l = loc_at(m1, order1, i) as int;
        if i > 0 {
            assert(node_ok(m0, nodes0, order0, HAND, i - 1));
        }
        assert(nodes1[l] == fronted(nodes0, node, l));
    }
    assert(s1 =~= expected);
}

/// What the arena holds at location `j` once the node at `loc` has been
/// taken out of its place in the chain: its two neighbours lead to each
/// other, and the node itself is as it was.
spec fn unlinked<T>(nodes: Seq<Node<T>>, loc: usize, j: int) -> Node<T> {
    let cur = nodes[loc as int];
    Node {
        prev: if leads_to(cur.next, j) || (cur.next is None && j == HAND) {
            cur.prev
        } else {
            nodes[j].prev
        },
        next: if leads_to(cur.prev, j) {
            cur.next
        } else {
            nodes[j].next
        },
        key: nodes[j].key,
        data: nodes[j].data,
    }
}

/// Taking the node of position `at` out of the chain, and its key out of the
/// slot table, gives the chain of the other keys in their order, with a hole
/// in the arena where that node lies.
proof fn lemma_unlink<T>(
    m0: Map<usize, usize>,
    nodes0: Seq<Node<T>>,
    order0: Seq<usize>,
    at: int,
    nodes1: Seq<Node<T>>,
)
    requires
        chain_ok(m0, nodes0, order0, HAND),
        0 <= at < order0.len(),
        nodes1.len() == nodes0.len(),
        forall|j: int|
            0 <= j < nodes1.len() ==> #[trigger] nodes1[j] == unlinked(
                nodes0,
                loc_at(m0, order0, at),
                j,
            ),
    ensures
        chain_ok(m0.remove(order0[at]), nodes1, order0.remove(at), loc_at(m0, order0, at)),
        pairs(m0.remove(order0[at]), nodes1, order0.remove(at)) == pairs(
            m0,
            nodes0,
            order0,
        ).remove(at),
        nodes1[loc_at(m0, order0, at) as int].data == Some(pairs(m0, nodes0, order0)[at].1),
{
    let loc = loc_at(m0, order0, at);
    let m1 = m0.remove(order0[at]);
    let order1 = order0.remove(at);
    let old_of = |i: int| if i < at { i } else { i + 1 };
    assert(order1.len() == order0.len() - 1);
    lemma_remove_keys(m0, order0, at);
    lemma_locs_distinct(m0, nodes0, order0, HAND);
    lemma_neighbours(m0, nodes0, order0, HAND, at);
    lemma_neighbours(m0, nodes0, order0, HAND, 0);
    lemma_neighbours(m0, nodes0, order0, HAND, order0.len() - 1);
    assert forall|i: int| 0 <= i < order1.len() implies loc_at(m1, order1, i) == loc_at(
        m0,
        order0,
        old_of(i),
    ) by {}
    assert forall|i: int| 0 <= i < order1.len() implies #[trigger] node_ok(
        m1,
        nodes1,
        order1,
        loc,
        i,
    ) by {
        let o = old_of(i);
        lemma_neighbours(m0, nodes0, order0, HAND, o);
        let l = loc_at(m1, order1, i) as int;
        assert(nodes1[l] == unlinked(nodes0, loc, l));
    }
    assert forall|j: int| 1 <= j < nodes1.len() && j != loc implies #[trigger] back_ok(
        m1,
        nodes1,
        j,
    ) by {
        assert(nodes1[j] == unlinked(nodes0, loc, j));
        assert(back_ok(m0, nodes0, j));
    }
    assert(nodes1[0] == unlinked(nodes0, loc, 0));
    assert(nodes1[loc as int] == unlinked(nodes0, loc, loc as int));
    assert(hand_ok(m1, nodes1, order1));
    let s1 = pairs(m1, nodes1, order1);
    let expected = pairs(m0, nodes0, order0).remove(at);
    assert forall|i: int| 0 <= i < order1.len() implies s1[i] == expected[i] by {
        let o = old_of(i);
        assert(node_ok(m0, nodes0, order0, HAND, o));
        let l = loc_at(m1, order1, i) as int;
        assert(nodes1[l] == unlinked(nodes0, loc, l));
    }
    assert(s1 =~= expected);
}

/// Taking one key out of order and slot table leaves the two in agreement.
proof fn lemma_remove_keys(m: Map<usize, usize>, order: Seq<usize>, at: int)
    requires
        keys_ok(m, order),
        0 <= at < order.len(),
    ensures
        keys_ok(m.remove(order[at]), order.remove(at)),
{
    let m1 = m.remove(order[at]);
    let order1 = order.remove(at);
    assert forall|k: usize| m1.dom().contains(k) <==> order1.contains(k) by {
        if order1.contains(k) {
            let i = choose|i: int| 0 <= i < order1.len() && order1[i] == k;
            let o = if i < at { i } else { i + 1 };
            assert(order[o] == k);
            assert(order.contains(k));
        }
        if m1.dom().contains(k) {
            assert(order.contains(k));
            let o = choose|o: int| 0 <= o < order.len() && order[o] == k;
            let i = if o < at { o } else { o - 1 };
            assert(order1[i] == k);
        }
    }
}

/// Every arena location but the hand's and the hole is the location of one
/// position of the chain.
proof fn lemma_live<T>(
    m: Map<usize, usize>,
    nodes: Seq<Node<T>>,
    order: Seq<usize>,
    hole: usize,
    j: int,
)
    requires
        chain_ok(m, nodes, order, hole),
        1 <= j < nodes.len(),
        j != hole,
    ensures
        order.contains(nodes[j].key),
        0 <= order.index_of(nodes[j].key) < order.len(),
        loc_at(m, order, order.index_of(nodes[j].key)) == j,
        node_ok(m, nodes, order, hole, order.index_of(nodes[j].key)),
        nodes[j].prev is Some,
        nodes[j].prev.unwrap() < nodes.len(),
        hole != HAND ==> nodes[j].prev.unwrap() != hole,
        nodes[j].prev.unwrap() != j,
        nodes[j].next matches Some(n) ==> 1 <= n < nodes.len() && n != hole && n != j,
{
    assert(back_ok(m, nodes, j));
    let k = nodes[j].key;
    assert(order.contains(k));
    let at = order.index_of(k);
    assert(node_ok(m, nodes, order, hole, at));
    lemma_locs_distinct(m, nodes, order, hole);
    if at > 0 {
        assert(node_ok(m, nodes, order, hole, at - 1));
    }
    if at + 1 < order.len() {
        assert(node_ok(m, nodes, order, hole, at + 1));
    }
}

/// True of a link that leads to arena location `j`.
spec fn leads_to(link: Option<usize>, j: int) -> bool {
    link matches Some(l) && l == j
}

/// What the arena holds at location `j` once the node at its end has moved
/// into the hole: the links that led to the end now lead to the hole.
spec fn refilled<T>(nodes: Seq<Node<T>>, hole: usize, j: int) -> Node<T> {
    let last = nodes.len() - 1;
    let moved = nodes[last];
    let base = if j == hole { moved } else { nodes[j] };
    if hole == last {
        base
    } else {
        Node {
            prev: if leads_to(moved.next, j) || (moved.next is None && j == HAND) {
                Some(hole)
            } else {
                base.prev
            },
            next: if leads_to(moved.prev, j) {
                Some(hole)
            } else {
                base.next
            },
            key: base.key,
            data: base.data,
        }
    }
}

/// Moving the node at the end of the arena into the hole gives a chain
/// without hole that stands for the same pairs.
proof fn lemma_release<T>(
    m0: Map<usize, usize>,
    nodes0: Seq<Node<T>>,
    order: Seq<usize>,
    hole: usize,
    m1: Map<usize, usize>,
    nodes1: Seq<Node<T>>,
)
    requires
        chain_ok(m0, nodes0, order, hole),
        hole != HAND,
        m1 == (if hole == nodes0.len() - 1 {
            m0
        } else {
            m0.insert(nodes0.last().key, hole)
        }),
        nodes1.len() == nodes0.len() - 1,
        forall|j: int| 0 <= j < nodes1.len() ==> #[trigger] nodes1[j] == refilled(nodes0, hole, j),
    ensures
        chain_ok(m1, nodes1, order, 0),
        pairs(m1, nodes1, order) == pairs(m0, nodes0, order),
{
    let last = nodes0.len() - 1;
    if hole != last {
        lemma_live(m0, nodes0, order, hole, last);
        lemma_locs_distinct(m0, nodes0, order, hole);
        let moved_key = nodes0[last].key;
        let at = order.index_of(moved_key);
        if at > 0 {
            assert(node_ok(m0, nodes0, order, hole, at - 1));
        }
        if at + 1 < order.len() {
            assert(node_ok(m0, nodes0, order, hole, at + 1));
        }
        assert(m1.dom() =~= m0.dom());
        assert forall|i: int| 0 <= i < order.len() implies loc_at(m1, order, i) == (if i == at {
            hole
        } else {
            loc_at(m0, order, i)
        }) by {}
        assert forall|i: int| 0 <= i < order.len() implies #[trigger] node_ok(
            m1,
            nodes1,
            order,
            0,
            i,
        ) by {
            assert(node_ok(m0, nodes0, order, hole, i));
            if i > 0 {
                assert(node_ok(m0, nodes0, order, hole, i - 1));
            }
            if i + 1 < order.len() {
                assert(node_ok(m0, nodes0, order, hole, i + 1));
            }
            let l = loc_at(m1, order, i) as int;
            assert(nodes1[l] == refilled(nodes0, hole, l));
        }
        assert forall|j: int| 1 <= j < nodes1.len() implies #[trigger] back_ok(m1, nodes1, j) by {
            assert(nodes1[j] == refilled(nodes0, hole, j));
            if j != hole {
                assert(back_ok(m0, nodes0, j));
            }
        }
        assert(nodes1[0] == refilled(nodes0, hole, 0));
        if order.len() > 0 {
            assert(node_ok(m0, nodes0, order, hole, order.len() - 1));
            assert(node_ok(m0, nodes0, order, hole, 0));
        }
        assert(hand_ok(m1, nodes1, order));
        assert forall|i: int| 0 <= i < order.len() implies pairs(m1, nodes1, order)[i] == pairs(
            m0,
            nodes0,
            order,
        )[i] by {
            assert(node_ok(m0, nodes0, order, hole, i));
            let l = loc_at(m1, order, i) as int;
            assert(nodes1[l] == refilled(nodes0, hole, l));
        }
    } else {
        assert forall|i: int| 0 <= i < order.len() implies #[trigger] node_ok(
            m1,
            nodes1,
            order,
            0,
            i,
        ) by {
            assert(node_ok(m0, nodes0, order, hole, i));
            let l = loc_at(m1, order, i) as int;
            assert(nodes1[l] == refilled(nodes0, hole, l));
        }
        assert forall|j: int| 1 <= j < nodes1.len() implies #[trigger] back_ok(m1, nodes1, j) by {
            assert(nodes1[j] == refilled(nodes0, hole, j));
            assert(back_ok(m0, nodes0, j));
        }
        assert(nodes1[0] == refilled(nodes0, hole, 0));
        assert forall|i: int| 0 <= i < order.len() implies pairs(m1, nodes1, order)[i] == pairs(
            m0,
            nodes0,
            order,
        )[i] by {
            assert(node_ok(m0, nodes0, order, hole, i));
            let l = loc_at(m1, order, i) as int;
            assert(nodes1[l] == refilled(nodes0, hole, l));
        }
    }
    assert(pairs(m1, nodes1, order) =~= pairs(m0, nodes0, order));
}

/// What the arena holds at location `j` once the node at `loc` has been
/// taken out of its place in the chain and linked in behind the hand.
spec fn promoted<T>(nodes: Seq<Node<T>>, loc: usize, j: int) -> Node<T> {
    let cur = nodes[loc as int];
    let front = nodes[HAND as int].next.unwrap();
    Node {
        prev: if j == loc {
            Some(HAND)
        } else if j == front {
            Some(loc)
        } else if leads_to(cur.next, j) || (cur.next is None && j == HAND) {
            cur.prev
        } else {
            nodes[j].prev
        },
        next: if j == loc {
            Some(front)
        } else if j == HAND {
            Some(loc)
        } else if leads_to(cur.prev, j) {
            cur.next
        } else {
            nodes[j].next
        },
        key: nodes[j].key,
        data: nodes[j].data,
    }
}

/// Relinking the node of position `at`, which is not the front, behind the
/// hand gives the chain in which its key comes first and the other keys
/// keep their order.
proof fn lemma_promote<T>(
    m: Map<usize, usize>,
    nodes0: Seq<Node<T>>,
    order0: Seq<usize>,
    at: int,
    nodes1: Seq<Node<T>>,
)
    requires
        chain_ok(m, nodes0, order0, HAND),
        1 <= at < order0.len(),
        nodes1.len() == nodes0.len(),
        forall|j: int|
            0 <= j < nodes1.len() ==> #[trigger] nodes1[j] == promoted(
                nodes0,
                loc_at(m, order0, at),
                j,
            ),
    ensures
        chain_ok(m, nodes1, seq![order0[at]] + order0.remove(at), HAND),
        pairs(m, nodes1, seq![order0[at]] + order0.remove(at)) == seq![
            pairs(m, nodes0, order0)[at],
        ] + pairs(m, nodes0, order0).remove(at),
{
    let n = order0.len() as int;
    let loc = loc_at(m, order0, at);
    let order1 = seq![order0[at]] + order0.remove(at);
    let old_of = |i: int| if i == 0 { at } else if i <= at { i - 1 } else { i };
    lemma_locs_distinct(m, nodes0, order0, HAND);
    assert(node_ok(m, nodes0, order0, HAND, at));
    assert(node_ok(m, nodes0, order0, HAND, at - 1));
    assert(node_ok(m, nodes0, order0, HAND, 0));
    assert(node_ok(m, nodes0, order0, HAND, n - 1));
    if at + 1 < n {
        assert(node_ok(m, nodes0, order0, HAND, at + 1));
    }
    assert forall|i: int| 0 <= i < n implies order1[i] == order0[old_of(i)] && loc_at(
        m,
        order1,
        i,
    ) == loc_at(m, order0, old_of(i)) by {}
    assert(order1.no_duplicates());
    assert forall|k: usize| m.dom().contains(k) <==> order1.contains(k) by {
        if order1.contains(k) {
            let i = choose|i: int| 0 <= i < order1.len() && order1[i] == k;
            assert(order0[old_of(i)] == k);
            assert(order0.contains(k));
        }
        if m.dom().contains(k) {
            assert(order0.contains(k));
            let o = choose|o: int| 0 <= o < order0.len() && order0[o] == k;
            let i = if o == at { 0 } else if o < at { o + 1 } else { o };
            assert(order1[i] == k);
        }
    }
    assert forall|i: int| 0 <= i < n implies #[trigger] node_ok(m, nodes1, order1, HAND, i) by {
        let o = old_of(i);
        assert(node_ok(m, nodes0, order0, HAND, o));
        if o > 0 {
            assert(node_ok(m, nodes0, order0, HAND, o - 1));
        }
        if o + 1 < n {
            assert(node_ok(m, nodes0, order0, HAND, o + 1));
        }
        let l = loc_at(m, order1, i) as int;
        assert(nodes1[l] == promoted(nodes0, loc, l));
    }
    assert forall|j: int| 1 <= j < nodes1.len() implies #[trigger] back_ok(m, nodes1, j) by {
        assert(nodes1[j] == promoted(nodes0, loc, j));
        assert(back_ok(m, nodes0, j));
    }
    assert(nodes1[0] == promoted(nodes0, loc, 0));
    assert(hand_ok(m, nodes1, order1));
    let s1 = pairs(m, nodes1, order1);
    let s0 = pairs(m, nodes0, order0);
    assert forall|i: int| 0 <= i < n implies s1[i] == (seq![s0[at]] + s0.remove(at))[i] by {
        let o = old_of(i);
        assert(node_ok(m, nodes0, order0, HAND, o));
        let l = loc_at(m, order1, i) as int;
        assert(nodes1[l] == promoted(nodes0, loc, l));
    }
    assert(s1 =~= seq![s0[at]] + s0.remove(at));
}

/// True of a node that carries a payload and has the key and the links of
/// `other`.
spec fn same_but_payload<T>(node: Node<T>, other: Node<T>) -> bool {
    &&& node.data is Some
    &&& node.key == other.key
    &&& node.prev == other.prev
    &&& node.next == other.next
}

/// Giving the node of position `at` another payload leaves the chain as it
/// is and replaces the value of that one pair.
proof fn lemma_rewrite<T>(
    m: Map<usize, usize>,
    nodes0: Seq<Node<T>>,
    order: Seq<usize>,
    at: int,
    node: Node<T>,
)
    requires
        chain_ok(m, nodes0, order, HAND),
        0 <= at < order.len(),
        same_but_payload(node, nodes0[loc_at(m, order, at) as int]),
    ensures
        chain_ok(m, nodes0.update(loc_at(m, order, at) as int, node), order, HAND),
        distinct_keys(pairs(m, nodes0.update(loc_at(m, order, at) as int, node), order)),
        pairs(m, nodes0.update(loc_at(m, order, at) as int, node), order) == replaced(
            pairs(m, nodes0, order),
            order[at],
            node.data.unwrap(),
        ),
{
    let nodes1 = nodes0.update(loc_at(m, order, at) as int, node);
    lemma_locs_distinct(m, nodes0, order, HAND);
    lemma_at(m, nodes0, order, at);
    assert(node_ok(m, nodes0, order, HAND, at));
    assert forall|i: int| 0 <= i < order.len() implies #[trigger] node_ok(
        m,
        nodes1,
        order,
        HAND,
        i,
    ) by {
        assert(node_ok(m, nodes0, order, HAND, i));
    }
    assert forall|j: int| 1 <= j < nodes1.len() implies #[trigger] back_ok(m, nodes1, j) by {
        assert(back_ok(m, nodes0, j));
    }
    let expected = pairs(m, nodes0, order).update(at, (order[at], node.data.unwrap()));
    assert forall|i: int| 0 <= i < order.len() implies pairs(m, nodes1, order)[i]
        == expected[i] by {
        assert(node_ok(m, nodes0, order, HAND, i));
    }
    assert(pairs(m, nodes1, order) =~= expected);
}

/// The pairs of a chain have distinct keys.
proof fn lemma_pairs_distinct<T>(m: Map<usize, usize>, nodes: Seq<Node<T>>, order: Seq<usize>)
    requires
        order.no_duplicates(),
    ensures
        distinct_keys(pairs(m, nodes, order)),
{
}

} // verus!
