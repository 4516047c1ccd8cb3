//! A stack kept as a singly linked list of owned nodes.
use vstd::prelude::*;

verus! {

struct StackNode<T> {
    elem: T,
    next: Option<Box<StackNode<T>>>,
}

/// The elements of a chain of nodes, bottom first.
spec fn chain_seq<T>(l: Option<Box<StackNode<T>>>) -> Seq<T>
    decreases l,
{
    match l {
        None => Seq::empty(),
        Some(n) => chain_seq(n.next).push(n.elem),
    }
}

/// A last-in, first-out stack.
pub struct Stack<T> {
    head: Option<Box<StackNode<T>>>,
}

impl<T> View for Stack<T> {
    type V = Seq<T>;

    /// The elements, bottom first: the top is the last one.
    closed spec fn view(&self) -> Seq<T> {
        chain_seq(self.head)
    }
}

impl<T> Stack<T> {
    /// An empty stack.
    pub fn new() -> (s: Self)
        ensures
            s@ == Seq::<T>::empty(),
    {
        Stack { head: None }
    }

    /// Puts `elem` on top.
    pub fn push(&mut self, elem: T)
        ensures
            final(self)@ == old(self)@.push(elem),
    {
        let next = self.head.take();
        self.head = Some(Box::new(StackNode { elem, next }));
    }

    /// Takes the top element off, if any.
    pub fn pop(&mut self) -> (r: Option<T>)
        ensures
            old(self)@.len() == 0 ==> r.is_none() && final(self)@ == old(self)@,
            old(self)@.len() > 0 ==> r == Some(old(self)@.last()) && final(self)@
                == old(self)@.drop_last(),
    {
        match self.head.take() {
            None => None,
            Some(node) => {
                let node = *node;
                self.head = node.next;
                proof {
                    assert(old(self)@.drop_last() =~= chain_seq(self.head));
                }
                Some(node.elem)
            },
        }
    }

    /// The top element, if any.
    pub fn peek(&self) -> (r: Option<&T>)
        ensures
            self@.len() == 0 ==> r.is_none(),
            self@.len() > 0 ==> r.is_some() && *r.unwrap() == self@.last(),
    {
        match &self.head {
            None => None,
            Some(node) => Some(&node.elem),
        }
    }

    /// The top element, to change in place, if any.
    pub fn peek_mut(&mut self) -> (r: Option<&mut T>)
        ensures
            old(self)@.len() == 0 ==> r.is_none() && final(self)@ == old(self)@,
            old(self)@.len() > 0 ==> r.is_some() && *r.unwrap() == old(self)@.last() && final(self)@
                == old(self)@.drop_last().push(*final(r.unwrap())),
    {
        match &mut self.head {
            None => None,
            Some(node) => Some(&mut node.elem),
        }
    }
}

} // verus!
