//! A double-ended queue kept as two stacks that face each other.
use vstd::prelude::*;

verus! {

/// A double-ended queue.
///
/// `front` holds the first elements with the very first one last; `back`
/// holds the rest in order.
pub struct Deque<T> {
    front: Vec<T>,
    back: Vec<T>,
}

impl<T> View for Deque<T> {
    type V = Seq<T>;

    /// The elements from front to back.
    closed spec fn view(&self) -> Seq<T> {
        self.front@.reverse() + self.back@
    }
}

impl<T> Deque<T> {
    /// An empty queue.
    pub fn new() -> (d: Self)
        ensures
            d@ == Seq::<T>::empty(),
    {
        let d = Deque { front: Vec::new(), back: Vec::new() };
        proof {
            assert(d@ =~= Seq::<T>::empty());
        }
        d
    }

    /// Puts `elem` before the first element.
    pub fn push_front(&mut self, elem: T)
        ensures
            final(self)@ == seq![elem] + old(self)@,
    {
        self.front.push(elem);
        proof {
            assert(self@ =~= seq![elem] + old(self)@);
        }
    }

    /// Puts `elem` after the last element.
    pub fn push_back(&mut self, elem: T)
        ensures
            final(self)@ == old(self)@.push(elem),
    {
        self.back.push(elem);
        proof {
            assert(self@ =~= old(self)@.push(elem));
        }
    }

    /// Takes the last element off, if any.
    pub fn pop_back(&mut self) -> (r: Option<T>)
        ensures
            old(self)@.len() == 0 ==> r.is_none() && final(self)@ == old(self)@,
            old(self)@.len() > 0 ==> r == Some(old(self)@.last()) && final(self)@
                == old(self)@.drop_last(),
    {
        if self.back.len() > 0 {
            let r = self.back.pop();
            proof {
                assert(self@ =~= old(self)@.drop_last());
            }
            r
        } else if self.front.len() > 0 {
            let r = self.front.remove(0);
            proof {
                assert(self@ =~= old(self)@.drop_last());
            }
            Some(r)
        } else {
            None
        }
    }

    /// Takes the first element off, if any.
    pub fn pop_front(&mut self) -> (r: Option<T>)
        ensures
            old(self)@.len() == 0 ==> r.is_none() && final(self)@ == old(self)@,
            old(self)@.len() > 0 ==> r == Some(old(self)@[0]) && final(self)@ == old(
                self,
            )@.subrange(1, old(self)@.len() as int),
    {
        if self.front.len() > 0 {
            let r = self.front.pop();
            proof {
                assert(self@ =~= old(self)@.subrange(1, old(self)@.len() as int));
            }
            r
        } else if self.back.len() > 0 {
            let r = self.back.remove(0);
            proof {
                assert(self@ =~= old(self)@.subrange(1, old(self)@.len() as int));
            }
            Some(r)
        } else {
            None
        }
    }

    /// The first element, if any.
    pub fn peek_front(&self) -> (r: Option<&T>)
        ensures
            self@.len() == 0 ==> r.is_none(),
            self@.len() > 0 ==> r.is_some() && *r.unwrap() == self@[0],
    {
        let nf = self.front.len();
        if nf > 0 {
            Some(&self.front[nf - 1])
        } else if self.back.len() > 0 {
            Some(&self.back[0])
        } else {
            None
        }
    }

    /// The last element, if any.
    pub fn peek_back(&self) -> (r: Option<&T>)
        ensures
            self@.len() == 0 ==> r.is_none(),
            self@.len() > 0 ==> r.is_some() && *r.unwrap() == self@.last(),
    {
        let nb = self.back.len();
        if nb > 0 {
            Some(&self.back[nb - 1])
        } else if self.front.len() > 0 {
            Some(&self.front[0])
        } else {
            None
        }
    }

    /// The last element, to change in place, if any.
    pub fn peek_back_mut(&mut self) -> (r: Option<&mut T>)
        ensures
            old(self)@.len() == 0 ==> r.is_none() && final(self)@ == old(self)@,
            old(self)@.len() > 0 ==> r.is_some() && *r.unwrap() == old(self)@.last() && final(self)@
                == old(self)@.update(old(self)@.len() - 1, *final(r.unwrap())),
    {
        let nb = self.back.len();
        let nf = self.front.len();
        if nb > 0 {
            Some(&mut self.back[nb - 1])
        } else if nf > 0 {
            Some(&mut self.front[0])
        } else {
            None
        }
    }

    /// The first element, to change in place, if any.
    pub fn peek_front_mut(&mut self) -> (r: Option<&mut T>)
        ensures
            old(self)@.len() == 0 ==> r.is_none() && final(self)@ == old(self)@,
            old(self)@.len() > 0 ==> r.is_some() && *r.unwrap() == old(self)@[0] && final(self)@
                == old(self)@.update(0, *final(r.unwrap())),
    {
        let nb = self.back.len();
        let nf = self.front.len();
        if nf > 0 {
            Some(&mut self.front[nf - 1])
        } else if nb > 0 {
            Some(&mut self.back[0])
        } else {
            None
        }
    }

    /// Turns the queue into a sequence to take from at both ends.
    pub fn into_iter(self) -> (it: IntoIter<T>)
        ensures
            it@ == self@,
    {
        IntoIter(self)
    }
}

/// The elements of a queue, to take from the front or the back.
pub struct IntoIter<T>(Deque<T>);

impl<T> View for IntoIter<T> {
    type V = Seq<T>;

    /// The elements not yet taken, from front to back.
    closed spec fn view(&self) -> Seq<T> {
        self.0@
    }
}

impl<T> IntoIter<T> {
    /// Takes the first element left, if any.
    pub fn next(&mut self) -> (r: Option<T>)
        ensures
            old(self)@.len() == 0 ==> r.is_none() && final(self)@ == old(self)@,
            old(self)@.len() > 0 ==> r == Some(old(self)@[0]) && final(self)@ == old(
                self,
            )@.subrange(1, old(self)@.len() as int),
    {
        self.0.pop_front()
    }

    /// Takes the last element left, if any.
    pub fn next_back(&mut self) -> (r: Option<T>)
        ensures
            old(self)@.len() == 0 ==> r.is_none() && final(self)@ == old(self)@,
            old(self)@.len() > 0 ==> r == Some(old(self)@.last()) && final(self)@
                == old(self)@.drop_last(),
    {
        self.0.pop_back()
    }
}

} // verus!
