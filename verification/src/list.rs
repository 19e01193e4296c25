//! A generic immutable cons list, viewed as a `Seq` of its elements.

use vstd::prelude::*;

verus! {

/// A singly linked list: either a cons cell or the empty list.
pub enum List<T> {
    Cons(T, Box<List<T>>),
    Nil,
}

/// The sequence of elements of `l`, front first.
pub open spec fn list_model<T>(l: List<T>) -> Seq<T>
    decreases l,
{
    match l {
        List::Cons(v, rest) => seq![v] + list_model(*rest),
        List::Nil => Seq::empty(),
    }
}

impl<T> View for List<T> {
    type V = Seq<T>;

    open spec fn view(&self) -> Seq<T> {
        list_model(*self)
    }
}

impl<T> List<T> {
    /// The empty list.
    pub fn new() -> (l: List<T>)
        ensures
            l@ == Seq::<T>::empty(),
    {
        List::Nil
    }

    /// Prepend `v`.
    pub fn push(self, v: T) -> (l: List<T>)
        ensures
            l@ == seq![v] + self@,
    {
        List::Cons(v, Box::new(self))
    }

    /// Split off the front element, if any.
    pub fn pop(self) -> (r: (Option<T>, List<T>))
        ensures
            self@.len() == 0 ==> r.0 is None && r.1@ == Seq::<T>::empty(),
            self@.len() > 0 ==> r.0 == Some(self@[0]) && r.1@ == self@.drop_first(),
    {
        match self {
            List::Cons(v, rest) => {
                proof {
                    assert((seq![v] + list_model(*rest)).drop_first() =~= list_model(*rest));
                }
                (Some(v), *rest)
            },
            List::Nil => (None, List::Nil),
        }
    }

    /// Append `v` at the back.
    pub fn append(self, v: T) -> (l: List<T>)
        ensures
            l@ == self@.push(v),
        decreases self,
    {
        match self {
            List::Cons(w, rest) => {
                let tail = rest.append(v);
                proof {
                    assert(seq![w] + self@.drop_first().push(v) =~= self@.push(v));
                }
                List::Cons(w, Box::new(tail))
            },
            List::Nil => {
                proof {
                    assert(seq![v] + Seq::<T>::empty() =~= Seq::<T>::empty().push(v));
                }
                List::Cons(v, Box::new(List::Nil))
            },
        }
    }

    /// Reverse the list.
    pub fn reverse(self) -> (l: List<T>)
        ensures
            l@ == self@.reverse(),
    {
        let ghost full = self@;
        let mut stack = List::new();
        let mut rest = self;
        loop
            invariant
                stack@.reverse() + rest@ == full,
            ensures
                stack@.reverse() == full,
            decreases rest@.len(),
        {
            let (popped, rest1) = rest.pop();
            match popped {
                None => {
                    proof {
                        assert(stack@.reverse() + rest@ =~= stack@.reverse());
                    }
                    rest = rest1;
                    break;
                },
                Some(v) => {
                    proof {
                        assert((seq![v] + stack@).reverse() =~= stack@.reverse().push(v));
                        assert(stack@.reverse().push(v) + rest@.drop_first() =~= stack@.reverse()
                            + rest@);
                    }
                    stack = stack.push(v);
                    rest = rest1;
                },
            }
        }
        proof {
            assert(stack@ =~= full.reverse());
        }
        stack
    }

    /// Concatenate `l` after `self`.
    pub fn concat(self, l: List<T>) -> (r: List<T>)
        ensures
            r@ == self@ + l@,
        decreases self,
    {
        match self {
            List::Nil => {
                proof {
                    assert(Seq::<T>::empty() + l@ =~= l@);
                }
                l
            },
            List::Cons(v, rest) => {
                let tail = rest.concat(l);
                proof {
                    assert(seq![v] + (self@.drop_first() + l@) =~= self@ + l@);
                }
                List::Cons(v, Box::new(tail))
            },
        }
    }
}

} // verus!
