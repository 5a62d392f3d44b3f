//! A finger deque made of two singly-linked stacks, one on each side of a
//! cursor. Stepping the cursor relocates whole nodes from one stack to the
//! other, so no node ever has more than one owner.
use vstd::prelude::*;

verus! {

type Link<T> = Option<Box<Node<T>>>;

struct Node<T> {
    elem: T,
    next: Link<T>,
}

/// The elements of a chain of nodes, from the given link onward.
spec fn link_elems<T>(link: Link<T>) -> Seq<T>
    decreases link,
{
    match link {
        None => Seq::empty(),
        Some(node) => seq![node.elem] + link_elems(node.next),
    }
}

/// A singly-linked stack with exclusive ownership of its nodes.
pub struct Stack<T> {
    head: Link<T>,
}

impl<T> View for Stack<T> {
    type V = Seq<T>;

    /// The elements from the top of the stack down.
    closed spec fn view(&self) -> Seq<T> {
        link_elems(self.head)
    }
}

impl<T> Stack<T> {
    pub fn new() -> (s: Self)
        ensures
            s@ == Seq::<T>::empty(),
    {
        Stack { head: None }
    }

    pub fn push(&mut self, elem: T)
        ensures
            final(self)@ == seq![elem] + old(self)@,
    {
        let new_node = Box::new(Node { elem: elem, next: None });
        self.push_node(new_node);
    }

    fn push_node(&mut self, mut node: Box<Node<T>>)
        ensures
            final(self)@ == seq![node.elem] + old(self)@,
    {
        node.next = self.head.take();
        self.head = Some(node);
    }

    pub fn pop(&mut self) -> (r: Option<T>)
        ensures
            old(self)@.len() == 0 ==> r.is_none() && final(self)@ == old(self)@,
            old(self)@.len() > 0 ==> r == Some(old(self)@[0]) && final(self)@ == old(self)@.drop_first(),
    {
        match self.pop_node() {
            Some(node) => Some(node.elem),
            None => None,
        }
    }

    fn pop_node(&mut self) -> (r: Option<Box<Node<T>>>)
        ensures
            old(self)@.len() == 0 ==> r.is_none() && final(self)@ == old(self)@,
            old(self)@.len() > 0 ==> r.is_some() && r.unwrap().elem == old(self)@[0]
                && r.unwrap().next.is_none() && final(self)@ == old(self)@.drop_first(),
    {
        match self.head.take() {
            Some(mut node) => {
                self.head = node.next.take();
                Some(node)
            },
            None => None,
        }
    }

    pub fn peek(&self) -> (r: Option<&T>)
        ensures
            self@.len() == 0 ==> r.is_none(),
            self@.len() > 0 ==> r == Some(&self@[0]),
    {
        match &self.head {
            Some(node) => Some(&node.elem),
            None => None,
        }
    }

    pub fn peek_mut(&mut self) -> (r: Option<&mut T>)
        ensures
            old(self)@.len() == 0 ==> r.is_none() && final(self)@ == old(self)@,
            old(self)@.len() > 0 ==> r.is_some() && *r.unwrap() == old(self)@[0]
                && final(self)@ == old(self)@.update(0, *final(r.unwrap())),
    {
        match &mut self.head {
            Some(node) => Some(&mut node.elem),
            None => None,
        }
    }
}

impl<T> Drop for Stack<T> {
    /// Releases the nodes one at a time from the top, so that dropping a
    /// tall stack never recurses along the chain.
    fn drop(&mut self)
        ensures
            final(self)@ == Seq::<T>::empty(),
        opens_invariants none
        no_unwind
    {
        let mut cur: Link<T> = None;
        core::mem::swap(&mut cur, &mut self.head);
        loop
            decreases link_elems(cur).len(),
        {
            match cur {
                Some(node) => {
                    let Node { elem: _, next } = *node;
                    cur = next;
                },
                None => break,
            }
        }
    }
}

/// A sequence with a cursor, held as two stacks: `left` holds the elements
/// before the cursor, nearest first, and `right` the elements after it,
/// nearest first.
pub struct List<T> {
    left: Stack<T>,
    right: Stack<T>,
}

/// The elements of a deque read from left to right, given both sides read
/// from the cursor outward.
pub open spec fn joined<T>(left: Seq<T>, right: Seq<T>) -> Seq<T> {
    left.reverse() + right
}

impl<T> List<T> {
    /// The elements left of the cursor, nearest to the cursor first.
    pub closed spec fn left(&self) -> Seq<T> {
        self.left@
    }

    /// The elements right of the cursor, nearest to the cursor first.
    pub closed spec fn right(&self) -> Seq<T> {
        self.right@
    }

    /// The whole sequence, read from left to right.
    pub open spec fn elems(&self) -> Seq<T> {
        joined(self.left(), self.right())
    }

    pub fn new() -> (l: Self)
        ensures
            l.left() == Seq::<T>::empty(),
            l.right() == Seq::<T>::empty(),
    {
        List { left: Stack::new(), right: Stack::new() }
    }

    pub fn push_left(&mut self, elem: T)
        ensures
            final(self).left() == seq![elem] + old(self).left(),
            final(self).right() == old(self).right(),
    {
        self.left.push(elem)
    }

    pub fn push_right(&mut self, elem: T)
        ensures
            final(self).left() == old(self).left(),
            final(self).right() == seq![elem] + old(self).right(),
    {
        self.right.push(elem)
    }

    pub fn pop_left(&mut self) -> (r: Option<T>)
        ensures
            final(self).right() == old(self).right(),
            old(self).left().len() == 0 ==> r.is_none() && final(self).left() == old(self).left(),
            old(self).left().len() > 0 ==> r == Some(old(self).left()[0])
                && final(self).left() == old(self).left().drop_first(),
    {
        self.left.pop()
    }

    pub fn pop_right(&mut self) -> (r: Option<T>)
        ensures
            final(self).left() == old(self).left(),
            old(self).right().len() == 0 ==> r.is_none() && final(self).right() == old(self).right(),
            old(self).right().len() > 0 ==> r == Some(old(self).right()[0])
                && final(self).right() == old(self).right().drop_first(),
    {
        self.right.pop()
    }

    pub fn peek_left(&self) -> (r: Option<&T>)
        ensures
            self.left().len() == 0 ==> r.is_none(),
            self.left().len() > 0 ==> r == Some(&self.left()[0]),
    {
        self.left.peek()
    }

    pub fn peek_right(&self) -> (r: Option<&T>)
        ensures
            self.right().len() == 0 ==> r.is_none(),
            self.right().len() > 0 ==> r == Some(&self.right()[0]),
    {
        self.right.peek()
    }

    pub fn peek_left_mut(&mut self) -> (r: Option<&mut T>)
        ensures
            final(self).right() == old(self).right(),
            old(self).left().len() == 0 ==> r.is_none() && final(self).left() == old(self).left(),
            old(self).left().len() > 0 ==> r.is_some() && *r.unwrap() == old(self).left()[0]
                && final(self).left() == old(self).left().update(0, *final(r.unwrap())),
    {
        self.left.peek_mut()
    }

    pub fn peek_right_mut(&mut self) -> (r: Option<&mut T>)
        ensures
            final(self).left() == old(self).left(),
            old(self).right().len() == 0 ==> r.is_none() && final(self).right() == old(self).right(),
            old(self).right().len() > 0 ==> r.is_some() && *r.unwrap() == old(self).right()[0]
                && final(self).right() == old(self).right().update(0, *final(r.unwrap())),
    {
        self.right.peek_mut()
    }

    /// Moves the cursor one place left, relocating the node next to it to
    /// the right stack; returns whether there was a node to move.
    pub fn go_left(&mut self) -> (moved: bool)
        ensures
            moved == (old(self).left().len() > 0),
            !moved ==> final(self).left() == old(self).left() && final(self).right() == old(self).right(),
            moved ==> final(self).left() == old(self).left().drop_first()
                && final(self).right() == seq![old(self).left()[0]] + old(self).right(),
            final(self).elems() == old(self).elems(),
    {
        let moved = match self.left.pop_node() {
            Some(node) => {
                self.right.push_node(node);
                true
            },
            None => false,
        };
        proof {
            if moved {
                lemma_joined_shift(final(self).left(), old(self).left()[0], final(self).right());
            }
        }
        moved
    }

    /// Moves the cursor one place right, relocating the node next to it to
    /// the left stack; returns whether there was a node to move.
    pub fn go_right(&mut self) -> (moved: bool)
        ensures
            moved == (old(self).right().len() > 0),
            !moved ==> final(self).left() == old(self).left() && final(self).right() == old(self).right(),
            moved ==> final(self).right() == old(self).right().drop_first()
                && final(self).left() == seq![old(self).right()[0]] + old(self).left(),
            final(self).elems() == old(self).elems(),
    {
        let moved = match self.right.pop_node() {
            Some(node) => {
                self.left.push_node(node);
                true
            },
            None => false,
        };
        proof {
            if moved {
                lemma_joined_shift(old(self).left(), old(self).right()[0], final(self).right());
            }
        }
        moved
    }
}

/// Moving one element across the cursor leaves the sequence as it was.
proof fn lemma_joined_shift<T>(l: Seq<T>, x: T, r: Seq<T>)
    ensures
        joined(seq![x] + l, r) == joined(l, seq![x] + r),
{
    assert((seq![x] + l).reverse() =~= l.reverse().push(x));
    assert(joined(seq![x] + l, r) =~= joined(l, seq![x] + r));
}

/// One stack after pushing the elements of `s` onto it, first to last, as
/// `push_left` or `push_right` do one at a time.
pub open spec fn pushed<T>(stack: Seq<T>, s: Seq<T>) -> Seq<T>
    decreases s.len(),
{
    if s.len() == 0 {
        stack
    } else {
        pushed(seq![s[0]] + stack, s.drop_first())
    }
}

/// Both stacks after `n` steps that each move the top of `from` onto `to`,
/// as `go_left` (from the left stack) or `go_right` (from the right stack)
/// do; a step on an empty `from` changes nothing.
pub open spec fn stepped<T>(from: Seq<T>, to: Seq<T>, n: nat) -> (Seq<T>, Seq<T>)
    decreases n,
{
    if n == 0 || from.len() == 0 {
        (from, to)
    } else {
        stepped(from.drop_first(), seq![from[0]] + to, (n - 1) as nat)
    }
}

proof fn lemma_pushed<T>(stack: Seq<T>, s: Seq<T>)
    ensures
        pushed(stack, s) == s.reverse() + stack,
    decreases s.len(),
{
    if s.len() > 0 {
        lemma_pushed(seq![s[0]] + stack, s.drop_first());
        assert(s.drop_first().reverse() + (seq![s[0]] + stack) =~= s.reverse() + stack);
    }
}

proof fn lemma_stepped<T>(p: Seq<T>, rest: Seq<T>, to: Seq<T>)
    ensures
        stepped(p + rest, to, p.len()) == (rest, p.reverse() + to),
    decreases p.len(),
{
    if p.len() > 0 {
        assert((p + rest).drop_first() =~= p.drop_first() + rest);
        lemma_stepped(p.drop_first(), rest, seq![p[0]] + to);
        assert(p.drop_first().reverse() + (seq![p[0]] + to) =~= p.reverse() + to);
    }
}

/// Pushing the elements of `s` onto one side and then stepping the cursor
/// over all of them moves exactly those elements to the other side, where
/// they now read in push order (reversed once, not twice), and leaves what
/// was beneath them on the first side as it was.
pub proof fn law_push_then_step_across<T>(from: Seq<T>, to: Seq<T>, s: Seq<T>)
    ensures
        stepped(pushed(from, s), to, s.len()) == (from, s + to),
{
    lemma_pushed(from, s);
    lemma_stepped(s.reverse(), from, to);
    assert(s.reverse().reverse() =~= s);
}

} // verus!
