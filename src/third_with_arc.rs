//! An immutable singly-linked list whose nodes are shared between lists
//! through atomically counted references, so that lists (and their tails)
//! can be handed to several threads at once.
use std::sync::Arc;
use vstd::prelude::*;

verus! {

type Link<T> = Option<Arc<Node<T>>>;

struct Node<T> {
    elem: T,
    next: Link<T>,
}

/// The elements of a chain of nodes, from the given link onward.
spec fn link_elems<T>(link: Link<T>) -> Seq<T>
    decreases link,
{
    match link {
        None => Seq::empty(),
        Some(node) => seq![node.elem] + link_elems(node.next),
    }
}

/// Another handle to the same chain.
fn share_link<T>(link: &Link<T>) -> (r: Link<T>)
    ensures
        r == *link,
{
    match link {
        Some(a) => Some(Arc::clone(a)),
        None => None,
    }
}

/// An immutable list; every operation returns a new list that shares its
/// nodes with the old one.
pub struct List<T> {
    head: Link<T>,
}

impl<T> View for List<T> {
    type V = Seq<T>;

    /// The elements from the front.
    closed spec fn view(&self) -> Seq<T> {
        link_elems(self.head)
    }
}

impl<T> List<T> {
    pub fn new() -> (l: Self)
        ensures
            l@ == Seq::<T>::empty(),
    {
        List { head: None }
    }

    /// A list with `elem` in front of this list's elements.
    pub fn append(&self, elem: T) -> (l: List<T>)
        ensures
            l@ == seq![elem] + self@,
    {
        List { head: Some(Arc::new(Node { elem: elem, next: share_link(&self.head) })) }
    }

    /// The list without its first element; the tail of an empty list is
    /// empty.
    pub fn tail(&self) -> (l: List<T>)
        ensures
            self@.len() == 0 ==> l@ == Seq::<T>::empty(),
            self@.len() > 0 ==> l@ == self@.drop_first(),
    {
        match &self.head {
            Some(node) => List { head: share_link(&node.next) },
            None => List { head: None },
        }
    }

    pub fn head(&self) -> (r: Option<&T>)
        ensures
            self@.len() == 0 ==> r.is_none(),
            self@.len() > 0 ==> r == Some(&self@[0]),
    {
        match &self.head {
            Some(node) => Some(&node.elem),
            None => None,
        }
    }

    pub fn iter(&self) -> (it: Iter<'_, T>)
        ensures
            it@ == self@,
    {
        match &self.head {
            Some(node) => Iter { next: Some(&**node) },
            None => Iter { next: None },
        }
    }
}

/// Relies on Arc::into_inner: when `a` is the last handle to its
/// allocation the value comes back out of it; otherwise the handle is given
/// up without freeing the allocation and nothing comes back. Of several
/// handles given up this way at once, exactly one gets the value.
#[verifier::external_body]
fn take_if_sole<T>(a: Arc<T>) -> (r: Option<T>)
    ensures
        r matches Some(t) ==> t == *a,
    opens_invariants none
    no_unwind
{
    Arc::into_inner(a)
}

impl<T> Drop for List<T> {
    /// Releases the nodes that no other list shares, one at a time from the
    /// front, so that dropping a long list never recurses along the chain;
    /// the walk stops at the first node that another list still holds.
    fn drop(&mut self)
        ensures
            final(self)@ == Seq::<T>::empty(),
        opens_invariants none
        no_unwind
    {
        let mut cur: Link<T> = None;
        core::mem::swap(&mut cur, &mut self.head);
        loop
            decreases link_elems(cur).len(),
        {
            match cur {
                Some(node) => match take_if_sole(node) {
                    Some(n) => {
                        let Node { elem: _, next } = n;
                        cur = next;
                    },
                    None => break,
                },
                None => break,
            }
        }
    }
}

/// A walk over the elements of a list, front first.
pub struct Iter<'a, T> {
    next: Option<&'a Node<T>>,
}

impl<'a, T> View for Iter<'a, T> {
    type V = Seq<T>;

    /// The elements not yet handed out.
    closed spec fn view(&self) -> Seq<T> {
        match self.next {
            None => Seq::empty(),
            Some(node) => seq![node.elem] + link_elems(node.next),
        }
    }
}

impl<'a, T> Iter<'a, T> {
    pub fn next(&mut self) -> (r: Option<&'a T>)
        ensures
            old(self)@.len() == 0 ==> r.is_none() && final(self)@ == old(self)@,
            old(self)@.len() > 0 ==> r == Some(&old(self)@[0]) && final(self)@ == old(self)@.drop_first(),
    {
        match self.next {
            Some(node) => {
                self.next = match &node.next {
                    Some(n) => Some(&**n),
                    None => None,
                };
                Some(&node.elem)
            },
            None => None,
        }
    }
}

} // verus!
