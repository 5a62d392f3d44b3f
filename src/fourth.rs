//! A doubly-linked list whose nodes live in an arena and refer to their
//! neighbours by slot index. Each node is reachable from both neighbours and
//! from the list's ends, yet every slot has one owner (the arena), so the
//! links can be rewired without shared mutable ownership, and dropping the
//! list never recurses along the chain.
use vstd::prelude::*;

verus! {

struct Node<T> {
    elem: T,
    prev: Option<usize>,
    next: Option<usize>,
}

/// A doubly-linked list with insertion and removal at both ends.
pub struct List<T> {
    nodes: Vec<Option<Node<T>>>,
    free: Vec<usize>,
    head: Option<usize>,
    tail: Option<usize>,
    /// The slots of the list's nodes, from head to tail.
    order: Ghost<Seq<usize>>,
}

impl<T> List<T> {
    spec fn node(&self, k: int) -> Node<T> {
        self.nodes@[k].unwrap()
    }

    /// The slot `k` exists and holds a node.
    spec fn live(&self, k: int) -> bool {
        0 <= k < self.nodes@.len() && self.nodes@[k] is Some
    }

    spec fn free_ok(&self) -> bool {
        &&& forall|j: int| 0 <= j < self.free@.len() ==> {
            let k = #[trigger] self.free@[j];
            k < self.nodes@.len() && self.nodes@[k as int] is None
        }
        &&& forall|i: int, j: int|
            0 <= i < j < self.free@.len() ==> self.free@[i] != self.free@[j]
    }

    spec fn order_ok(&self) -> bool {
        let o = self.order@;
        let n = o.len();
        &&& forall|i: int| 0 <= i < n ==> self.live(#[trigger] o[i] as int)
        &&& forall|i: int, j: int| 0 <= i < j < n ==> o[i] != o[j]
        &&& forall|i: int|
            0 <= i < n ==> (#[trigger] self.node(o[i] as int)).prev == (if i == 0 {
                None
            } else {
                Some(o[i - 1])
            })
        &&& forall|i: int|
            0 <= i < n ==> (#[trigger] self.node(o[i] as int)).next == (if i == n - 1 {
                None
            } else {
                Some(o[i + 1])
            })
    }

    /// The well-formedness of the list: the nodes in `order` link to their
    /// neighbours in both directions, the head has no predecessor and the
    /// tail no successor, freed slots hold nothing, and an empty list holds
    /// no storage at all.
    pub closed spec fn wf(&self) -> bool {
        let o = self.order@;
        &&& self.order_ok()
        &&& self.free_ok()
        &&& self.head == (if o.len() == 0 { None } else { Some(o[0]) })
        &&& self.tail == (if o.len() == 0 { None } else { Some(o[o.len() - 1]) })
        &&& o.len() + self.free@.len() == self.nodes@.len()
        &&& o.len() == 0 ==> self.nodes@.len() == 0 && self.free@.len() == 0
    }

    /// The number of arena slots in use, live or freed.
    pub closed spec fn slots(&self) -> nat {
        self.nodes@.len()
    }
}

impl<T> View for List<T> {
    type V = Seq<T>;

    /// The elements from head to tail.
    closed spec fn view(&self) -> Seq<T> {
        Seq::new(self.order@.len(), |i: int| self.node(self.order@[i] as int).elem)
    }
}

impl<T> List<T> {
    pub fn new() -> (l: Self)
        ensures
            l.wf(),
            l@ == Seq::<T>::empty(),
            l.slots() == 0,
    {
        List { nodes: Vec::new(), free: Vec::new(), head: None, tail: None, order: Ghost(Seq::empty()) }
    }

    /// Rewires the backward link of the node in slot `k`.
    fn set_prev(&mut self, k: usize, v: Option<usize>)
        requires
            old(self).live(k as int),
        ensures
            final(self).nodes@ == old(self).nodes@.update(
                k as int,
                Some(Node { prev: v, ..old(self).node(k as int) }),
            ),
            final(self).free == old(self).free,
            final(self).head == old(self).head,
            final(self).tail == old(self).tail,
            final(self).order == old(self).order,
    {
        match &mut self.nodes[k] {
            Some(node) => node.prev = v,
            None => {},
        }
    }

    /// Rewires the forward link of the node in slot `k`.
    fn set_next(&mut self, k: usize, v: Option<usize>)
        requires
            old(self).live(k as int),
        ensures
            final(self).nodes@ == old(self).nodes@.update(
                k as int,
                Some(Node { next: v, ..old(self).node(k as int) }),
            ),
            final(self).free == old(self).free,
            final(self).head == old(self).head,
            final(self).tail == old(self).tail,
            final(self).order == old(self).order,
    {
        match &mut self.nodes[k] {
            Some(node) => node.next = v,
            None => {},
        }
    }

    /// Places `node` in a slot that held nothing, reusing a freed slot when
    /// there is one.
    fn place(&mut self, node: Node<T>) -> (k: usize)
        requires
            old(self).free_ok(),
        ensures
            k < final(self).nodes@.len(),
            final(self).nodes@[k as int] == Some(node),
            !old(self).live(k as int),
            forall|j: int| old(self).live(j) ==> final(self).nodes@[j] == old(self).nodes@[j],
            final(self).free_ok(),
            final(self).head == old(self).head,
            final(self).tail == old(self).tail,
            final(self).order == old(self).order,
            final(self).nodes@.len() + old(self).free@.len() == old(self).nodes@.len() + final(self).free@.len() + 1,
            old(self).nodes@.len() <= final(self).nodes@.len(),
    {
        match self.free.pop() {
            Some(k) => {
                self.nodes.set(k, Some(node));
                proof {
                    assert(old(self).free@[old(self).free@.len() - 1] == k);
                    assert forall|j: int| 0 <= j < self.free@.len() implies {
                        let f = #[trigger] self.free@[j];
                        f < self.nodes@.len() && self.nodes@[f as int] is None
                    } by {
                        assert(self.free@[j] == old(self).free@[j]);
                    }
                }
                k
            },
            None => {
                let k = self.nodes.len();
                self.nodes.push(Some(node));
                k
            },
        }
    }
}

impl<T> List<T> {
    pub fn push_front(&mut self, elem: T)
        requires
            old(self).wf(),
        ensures
            final(self).wf(),
            final(self)@ == seq![elem] + old(self)@,
    {
        let node = Node { elem: elem, prev: None, next: self.head };
        let k = self.place(node);
        let ghost o = self.order@;
        let ghost mid = self.nodes@;
        match self.head {
            Some(h) => {
                assert(self.live(h as int));
                self.set_prev(h, Some(k));
            },
            None => {
                self.tail = Some(k);
            },
        }
        self.head = Some(k);
        self.order = Ghost(seq![k] + o);
        proof {
            let n = self.order@;
            assert forall|i: int| 0 <= i < n.len() implies self.live(#[trigger] n[i] as int) by {
                if i > 0 {
                    assert(n[i] == o[i - 1]);
                }
            }
            assert forall|i: int, j: int| 0 <= i < j < n.len() implies n[i] != n[j] by {
                if i > 0 {
                    assert(n[i] == o[i - 1]);
                }
                assert(n[j] == o[j - 1]);
            }
            assert forall|i: int| 0 <= i < n.len() implies (#[trigger] self.node(n[i] as int)).prev == (if i == 0 {
                None
            } else {
                Some(n[i - 1])
            }) && self.node(n[i] as int).next == (if i == n.len() - 1 {
                None
            } else {
                Some(n[i + 1])
            }) && self.node(n[i] as int).elem == (seq![elem] + old(self)@)[i] by {
                if i == 0 {
                    if o.len() > 0 {
                        assert(old(self).live(o[0] as int));
                        assert(self.nodes@[k as int] == mid[k as int]);
                    }
                } else {
                    let m = o[i - 1];
                    assert(n[i] == m);
                    assert(old(self).live(m as int));
                    assert(mid[m as int] == old(self).nodes@[m as int]);
                    let on = old(self).node(m as int);
                    assert(on.next == (if i - 1 == o.len() - 1 { None } else { Some(o[i]) }));
                    assert(on.elem == old(self)@[i - 1]);
                    if i > 1 {
                        assert(m != o[0]);
                        assert(self.nodes@[m as int] == mid[m as int]);
                    } else {
                        assert(self.nodes@[m as int] == Some(Node { prev: Some(k), ..on }));
                    }
                }
            }
            assert(self@ =~= seq![elem] + old(self)@);
        }
    }

    pub fn push_back(&mut self, elem: T)
        requires
            old(self).wf(),
        ensures
            final(self).wf(),
            final(self)@ == old(self)@.push(elem),
    {
        let node = Node { elem: elem, prev: self.tail, next: None };
        let k = self.place(node);
        let ghost o = self.order@;
        let ghost mid = self.nodes@;
        match self.tail {
            Some(t) => {
                assert(self.live(t as int));
                self.set_next(t, Some(k));
            },
            None => {
                self.head = Some(k);
            },
        }
        self.tail = Some(k);
        self.order = Ghost(o.push(k));
        proof {
            let n = self.order@;
            let len = o.len();
            assert forall|i: int| 0 <= i < n.len() implies self.live(#[trigger] n[i] as int) by {
                if i < len {
                    assert(n[i] == o[i]);
                }
            }
            assert forall|i: int, j: int| 0 <= i < j < n.len() implies n[i] != n[j] by {
                assert(n[i] == o[i]);
                if j < len {
                    assert(n[j] == o[j]);
                }
            }
            assert forall|i: int| 0 <= i < n.len() implies (#[trigger] self.node(n[i] as int)).prev == (if i == 0 {
                None
            } else {
                Some(n[i - 1])
            }) && self.node(n[i] as int).next == (if i == n.len() - 1 {
                None
            } else {
                Some(n[i + 1])
            }) && self.node(n[i] as int).elem == old(self)@.push(elem)[i] by {
                if i == len {
                    if len > 0 {
                        assert(old(self).live(o[len - 1] as int));
                        assert(self.nodes@[k as int] == mid[k as int]);
                    }
                } else {
                    let m = o[i];
                    assert(n[i] == m);
                    assert(old(self).live(m as int));
                    assert(mid[m as int] == old(self).nodes@[m as int]);
                    let on = old(self).node(m as int);
                    assert(on.prev == (if i == 0 { None } else { Some(o[i - 1]) }));
                    assert(on.elem == old(self)@[i]);
                    if i < len - 1 {
                        assert(m != o[len - 1]);
                        assert(self.nodes@[m as int] == mid[m as int]);
                    } else {
                        assert(self.nodes@[m as int] == Some(Node { next: Some(k), ..on }));
                    }
                }
            }
            assert(self@ =~= old(self)@.push(elem));
        }
    }

    /// Takes the node out of slot `h` and puts the slot on the free list.
    fn release(&mut self, h: usize) -> (node: Node<T>)
        requires
            old(self).live(h as int),
            old(self).free_ok(),
        ensures
            node == old(self).node(h as int),
            final(self).nodes@ == old(self).nodes@.update(h as int, None),
            final(self).free@.len() == old(self).free@.len() + 1,
            final(self).free_ok(),
            final(self).head == old(self).head,
            final(self).tail == old(self).tail,
            final(self).order == old(self).order,
    {
        let slot = self.nodes[h].take();
        self.free.push(h);
        proof {
            assert forall|j: int| 0 <= j < self.free@.len() implies {
                let f = #[trigger] self.free@[j];
                f < self.nodes@.len() && self.nodes@[f as int] is None
            } by {
                if j < old(self).free@.len() {
                    assert(self.free@[j] == old(self).free@[j]);
                }
            }
            assert forall|i: int, j: int| 0 <= i < j < self.free@.len() implies self.free@[i] != self.free@[j] by {
                assert(self.free@[i] == old(self).free@[i]);
                if j < old(self).free@.len() {
                    assert(self.free@[j] == old(self).free@[j]);
                }
            }
        }
        slot.unwrap()
    }

    /// Gives up the arena's storage once no node is left in it.
    fn shrink_if_empty(&mut self)
        requires
            old(self).order_ok(),
            old(self).free_ok(),
            old(self).head.is_none() ==> old(self).order@.len() == 0,
        ensures
            final(self).order_ok(),
            final(self).free_ok(),
            final(self).head == old(self).head,
            final(self).tail == old(self).tail,
            final(self).order == old(self).order,
            final(self)@ == old(self)@,
            old(self).head.is_none() ==> final(self).nodes@.len() == 0 && final(self).free@.len() == 0,
            old(self).head.is_some() ==> final(self).nodes == old(self).nodes && final(self).free == old(self).free,
    {
        if self.head.is_none() {
            self.nodes = Vec::new();
            self.free = Vec::new();
            assert(self@ =~= old(self)@);
        }
    }

    pub fn pop_front(&mut self) -> (r: Option<T>)
        requires
            old(self).wf(),
        ensures
            final(self).wf(),
            old(self)@.len() == 0 ==> r.is_none() && final(self)@ == old(self)@,
            old(self)@.len() > 0 ==> r == Some(old(self)@[0]) && final(self)@ == old(self)@.drop_first(),
    {
        match self.head {
            None => None,
            Some(h) => {
                let ghost o = self.order@;
                let node = self.release(h);
                let ghost mid = self.nodes@;
                match node.next {
                    Some(s) => {
                        assert(s == o[1]);
                        assert(self.live(s as int));
                        self.set_prev(s, None);
                        self.head = Some(s);
                    },
                    None => {
                        self.head = None;
                        self.tail = None;
                    },
                }
                self.order = Ghost(o.drop_first());
                proof {
                    let n = self.order@;
                    assert forall|i: int| 0 <= i < n.len() implies self.live(#[trigger] n[i] as int)
                        && (#[trigger] self.node(n[i] as int)).prev == (if i == 0 {
                        None
                    } else {
                        Some(n[i - 1])
                    }) && self.node(n[i] as int).next == (if i == n.len() - 1 {
                        None
                    } else {
                        Some(n[i + 1])
                    }) && self.node(n[i] as int).elem == old(self)@.drop_first()[i] by {
                        let m = o[i + 1];
                        assert(n[i] == m);
                        assert(m != o[0]);
                        assert(old(self).live(m as int));
                        assert(mid[m as int] == old(self).nodes@[m as int]);
                        let on = old(self).node(m as int);
                        assert(on.next == (if i + 1 == o.len() - 1 { None } else { Some(o[i + 2]) }));
                        assert(on.elem == old(self)@[i + 1]);
                        if i > 0 {
                            assert(on.prev == Some(o[i]));
                            assert(self.nodes@[m as int] == mid[m as int]);
                        }
                    }
                    assert forall|i: int, j: int| 0 <= i < j < n.len() implies n[i] != n[j] by {
                        assert(n[i] == o[i + 1]);
                        assert(n[j] == o[j + 1]);
                    }
                    assert(self@ =~= old(self)@.drop_first());
                }
                self.shrink_if_empty();
                Some(node.elem)
            },
        }
    }

    pub fn pop_back(&mut self) -> (r: Option<T>)
        requires
            old(self).wf(),
        ensures
            final(self).wf(),
            old(self)@.len() == 0 ==> r.is_none() && final(self)@ == old(self)@,
            old(self)@.len() > 0 ==> r == Some(old(self)@.last()) && final(self)@ == old(self)@.drop_last(),
    {
        match self.tail {
            None => None,
            Some(t) => {
                let ghost o = self.order@;
                let ghost len = o.len();
                let node = self.release(t);
                let ghost mid = self.nodes@;
                match node.prev {
                    Some(p) => {
                        assert(p == o[len - 2]);
                        assert(self.live(p as int));
                        self.set_next(p, None);
                        self.tail = Some(p);
                    },
                    None => {
                        self.head = None;
                        self.tail = None;
                    },
                }
                self.order = Ghost(o.drop_last());
                proof {
                    let n = self.order@;
                    assert forall|i: int| 0 <= i < n.len() implies self.live(#[trigger] n[i] as int)
                        && (#[trigger] self.node(n[i] as int)).prev == (if i == 0 {
                        None
                    } else {
                        Some(n[i - 1])
                    }) && self.node(n[i] as int).next == (if i == n.len() - 1 {
                        None
                    } else {
                        Some(n[i + 1])
                    }) && self.node(n[i] as int).elem == old(self)@.drop_last()[i] by {
                        let m = o[i];
                        assert(n[i] == m);
                        assert(m != o[len - 1]);
                        assert(old(self).live(m as int));
                        assert(mid[m as int] == old(self).nodes@[m as int]);
                        let on = old(self).node(m as int);
                        assert(on.prev == (if i == 0 { None } else { Some(o[i - 1]) }));
                        assert(on.elem == old(self)@[i]);
                        if i < len - 2 {
                            assert(on.next == Some(o[i + 1]));
                            assert(self.nodes@[m as int] == mid[m as int]);
                        }
                    }
                    assert forall|i: int, j: int| 0 <= i < j < n.len() implies n[i] != n[j] by {
                        assert(n[i] == o[i]);
                        assert(n[j] == o[j]);
                    }
                    assert(self@ =~= old(self)@.drop_last());
                }
                self.shrink_if_empty();
                Some(node.elem)
            },
        }
    }

    pub fn peek_front(&self) -> (r: Option<&T>)
        requires
            self.wf(),
        ensures
            self@.len() == 0 ==> r.is_none(),
            self@.len() > 0 ==> r == Some(&self@[0]),
    {
        match self.head {
            Some(h) => {
                assert(self.live(self.order@[0] as int));
                match &self.nodes[h] {
                    Some(node) => Some(&node.elem),
                    None => None,
                }
            },
            None => None,
        }
    }

    pub fn peek_back(&self) -> (r: Option<&T>)
        requires
            self.wf(),
        ensures
            self@.len() == 0 ==> r.is_none(),
            self@.len() > 0 ==> r == Some(&self@.last()),
    {
        match self.tail {
            Some(t) => {
                assert(self.live(self.order@[self.order@.len() - 1] as int));
                match &self.nodes[t] {
                    Some(node) => Some(&node.elem),
                    None => None,
                }
            },
            None => None,
        }
    }

    /// Releases every node, one at a time from the head, detaching each
    /// before it is dropped; the walk takes one step per node and no
    /// recursion, however long the list. Afterwards the arena holds nothing.
    pub fn clear(&mut self)
        requires
            old(self).wf(),
        ensures
            final(self).wf(),
            final(self)@ == Seq::<T>::empty(),
            final(self).slots() == 0,
    {
        while self.head.is_some()
            invariant
                self.wf(),
            decreases self@.len(),
        {
            self.pop_front();
        }
    }
}

impl<T> List<T> {
    /// The elements met by following forward links from `cur`, for at most
    /// `fuel` nodes.
    spec fn walk_next(&self, cur: Option<usize>, fuel: nat) -> Seq<T>
        decreases fuel,
    {
        match cur {
            None => Seq::empty(),
            Some(k) => if fuel == 0 {
                Seq::empty()
            } else {
                seq![self.node(k as int).elem] + self.walk_next(self.node(k as int).next, (fuel - 1) as nat)
            },
        }
    }

    /// The elements met by following backward links from `cur`, for at most
    /// `fuel` nodes.
    spec fn walk_prev(&self, cur: Option<usize>, fuel: nat) -> Seq<T>
        decreases fuel,
    {
        match cur {
            None => Seq::empty(),
            Some(k) => if fuel == 0 {
                Seq::empty()
            } else {
                seq![self.node(k as int).elem] + self.walk_prev(self.node(k as int).prev, (fuel - 1) as nat)
            },
        }
    }

    /// The elements met walking forward from the head, one step per slot
    /// at most.
    pub closed spec fn forward(&self) -> Seq<T> {
        self.walk_next(self.head, self.nodes@.len())
    }

    /// The elements met walking backward from the tail, one step per slot
    /// at most.
    pub closed spec fn backward(&self) -> Seq<T> {
        self.walk_prev(self.tail, self.nodes@.len())
    }

    /// The head has no backward link and the tail no forward link.
    pub closed spec fn ends_open(&self) -> bool {
        &&& (self.head matches Some(h) ==> self.node(h as int).prev is None)
        &&& (self.tail matches Some(t) ==> self.node(t as int).next is None)
    }

    proof fn lemma_walk_next(&self, i: int, fuel: nat)
        requires
            self.wf(),
            0 <= i < self.order@.len(),
            fuel >= self.order@.len() - i,
        ensures
            self.walk_next(Some(self.order@[i]), fuel) == self@.subrange(i, self@.len() as int),
        decreases self.order@.len() - i,
    {
        let o = self.order@;
        let k = o[i];
        assert(self.node(k as int).next == (if i == o.len() - 1 { None } else { Some(o[i + 1]) }));
        assert(self@[i] == self.node(k as int).elem);
        assert(self.walk_next(Some(k), fuel) == seq![self@[i]] + self.walk_next(
            self.node(k as int).next,
            (fuel - 1) as nat,
        ));
        if i + 1 < o.len() {
            self.lemma_walk_next(i + 1, (fuel - 1) as nat);
        } else {
            assert(self.walk_next(None, (fuel - 1) as nat) == Seq::<T>::empty());
        }
        assert(self@.subrange(i, self@.len() as int) =~= seq![self@[i]] + self@.subrange(
            i + 1,
            self@.len() as int,
        ));
    }

    proof fn lemma_walk_prev(&self, i: int, fuel: nat)
        requires
            self.wf(),
            0 <= i < self.order@.len(),
            fuel >= i + 1,
        ensures
            self.walk_prev(Some(self.order@[i]), fuel) == self@.subrange(0, i + 1).reverse(),
        decreases i,
    {
        let o = self.order@;
        let k = o[i];
        assert(self.node(k as int).prev == (if i == 0 { None } else { Some(o[i - 1]) }));
        assert(self@[i] == self.node(k as int).elem);
        assert(self.walk_prev(Some(k), fuel) == seq![self@[i]] + self.walk_prev(
            self.node(k as int).prev,
            (fuel - 1) as nat,
        ));
        if i > 0 {
            self.lemma_walk_prev(i - 1, (fuel - 1) as nat);
        } else {
            assert(self.walk_prev(None, (fuel - 1) as nat) == Seq::<T>::empty());
        }
        assert(self@.subrange(0, i + 1).reverse() =~= seq![self@[i]] + self@.subrange(0, i).reverse());
    }

    /// In a well-formed list the head has no predecessor, the tail has no
    /// successor, walking forward from the head visits the elements in
    /// order, and walking backward from the tail visits them in reverse.
    pub proof fn law_links_agree(&self)
        requires
            self.wf(),
        ensures
            self.ends_open(),
            self.forward() == self@,
            self.backward() == self@.reverse(),
    {
        let o = self.order@;
        let n = o.len();
        if n > 0 {
            assert(self.node(o[0] as int).prev is None);
            assert(self.node(o[n - 1] as int).next is None);
            self.lemma_walk_next(0, self.nodes@.len());
            assert(self@.subrange(0, n as int) =~= self@);
            self.lemma_walk_prev(n - 1, self.nodes@.len());
        } else {
            assert(self@ =~= Seq::<T>::empty());
            assert(self@.reverse() =~= Seq::<T>::empty());
        }
    }
}

/// The list after `push_front` of each element of `xs`, first to last.
pub open spec fn pushed_front<T>(s: Seq<T>, xs: Seq<T>) -> Seq<T>
    decreases xs.len(),
{
    if xs.len() == 0 {
        s
    } else {
        pushed_front(seq![xs[0]] + s, xs.drop_first())
    }
}

/// What `n` calls of `pop_front` on a list holding `s` return, in the order
/// they return it (the calls on an empty list return nothing).
pub open spec fn popped_front<T>(s: Seq<T>, n: nat) -> Seq<T>
    decreases n,
{
    if n == 0 || s.len() == 0 {
        Seq::empty()
    } else {
        seq![s[0]] + popped_front(s.drop_first(), (n - 1) as nat)
    }
}

proof fn lemma_pushed_front<T>(s: Seq<T>, xs: Seq<T>)
    ensures
        pushed_front(s, xs) == xs.reverse() + s,
    decreases xs.len(),
{
    if xs.len() > 0 {
        lemma_pushed_front(seq![xs[0]] + s, xs.drop_first());
        assert(xs.drop_first().reverse() + (seq![xs[0]] + s) =~= xs.reverse() + s);
    }
}

proof fn lemma_popped_front<T>(p: Seq<T>, rest: Seq<T>)
    ensures
        popped_front(p + rest, p.len()) == p,
    decreases p.len(),
{
    if p.len() > 0 {
        assert((p + rest).drop_first() =~= p.drop_first() + rest);
        lemma_popped_front(p.drop_first(), rest);
        assert(seq![p[0]] + p.drop_first() =~= p);
    }
}

/// The front of the list is a stack: after pushing the elements of `xs` at
/// the front, as many pops from the front return them in reverse order of
/// pushing, whatever the list held before.
pub proof fn law_front_is_lifo<T>(s: Seq<T>, xs: Seq<T>)
    ensures
        popped_front(pushed_front(s, xs), xs.len()) == xs.reverse(),
{
    lemma_pushed_front(s, xs);
    lemma_popped_front(xs.reverse(), s);
}

/// Popping from an empty list returns nothing and leaves the list empty,
/// so any number of pops in a row on it keep returning nothing.
pub proof fn law_pop_empty_stays_empty<T>(n: nat)
    ensures
        popped_front(Seq::<T>::empty(), n) == Seq::<T>::empty(),
{
}

} // verus!
