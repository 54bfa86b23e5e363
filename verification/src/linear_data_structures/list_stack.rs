use vstd::prelude::*;

verus! {

/// One link of the list. The stack's `head` is a sentinel whose `value` stays
/// `None`; every reachable link after it carries a value.
#[derive(Debug, PartialEq)]
pub struct Node<T> {
    pub value: Option<T>,
    pub next: Option<Box<Node<T>>>,
}

impl<T: Clone> Clone for Node<T> {
    /// Copies the link and everything after it.
    fn clone(&self) -> (r: Self)
        decreases *self,
    {
        let value = match &self.value {
            Some(v) => Some(v.clone()),
            None => None,
        };
        let next = match &self.next {
            Some(b) => Some(Box::new((**b).clone())),
            None => None,
        };
        Node { value, next }
    }
}

/// A stack that keeps its elements in a singly linked list hanging off a
/// sentinel head node.
pub struct ListStack<T> {
    pub head: Node<T>,
}

/// Every link of the chain carries a value.
pub open spec fn chain_wf<T>(n: Option<Box<Node<T>>>) -> bool
    decreases n,
{
    match n {
        Option::None => true,
        Option::Some(b) => b.value is Some && chain_wf(b.next),
    }
}

/// The values stored along the chain, top of the stack first.
pub open spec fn chain_seq<T>(n: Option<Box<Node<T>>>) -> Seq<T>
    decreases n,
{
    match n {
        Option::None => Seq::empty(),
        Option::Some(b) => match b.value {
            Option::Some(v) => seq![v] + chain_seq(b.next),
            Option::None => chain_seq(b.next),
        },
    }
}

impl<T> View for ListStack<T> {
    type V = Seq<T>;

    /// The stored values, top of the stack first.
    open spec fn view(&self) -> Seq<T> {
        chain_seq(self.head.next)
    }
}

impl<T> ListStack<T> {
    /// The chain after the sentinel is well formed.
    pub open spec fn well_formed(self) -> bool {
        chain_wf(self.head.next)
    }

    /// Creates a new empty stack.
    pub fn new() -> (r: Self)
        ensures
            r.well_formed(),
            r@ == Seq::<T>::empty(),
    {
        ListStack { head: Node { value: None, next: None } }
    }

    /// Pushes a new value onto the top of the stack.
    pub fn push(&mut self, val: T)
        requires
            old(self).well_formed(),
        ensures
            final(self).well_formed(),
            final(self)@ == seq![val] + old(self)@,
    {
        if self.is_empty() {
            self.head.next = Some(Box::new(Node { value: Some(val), next: None }));
            proof {
                assert(self@ =~= seq![val] + old(self)@);
            }
        } else {
            let mut rest: Option<Box<Node<T>>> = None;
            core::mem::swap(&mut self.head.next, &mut rest);
            self.head.next = Some(Box::new(Node { value: Some(val), next: rest }));
            proof {
                assert(self@ =~= seq![val] + old(self)@);
            }
        }
    }

    /// Removes and returns the top element, or returns `None` on an empty
    /// stack.
    pub fn pop(&mut self) -> (r: Option<T>)
        requires
            old(self).well_formed(),
        ensures
            final(self).well_formed(),
            old(self)@.len() == 0 ==> r is None && final(self)@ == old(self)@,
            old(self)@.len() > 0 ==> r == Some(old(self)@[0]) && final(self)@ == old(
                self,
            )@.drop_first(),
    {
        if self.is_empty() {
            return None;
        }
        let mut taken: Option<Box<Node<T>>> = None;
        core::mem::swap(&mut self.head.next, &mut taken);
        let top = match taken {
            Some(b) => *b,
            None => {
                proof {
                    assert(false);
                }
                Node { value: None, next: None }
            },
        };
        self.head.next = top.next;
        proof {
            assert(self@ =~= old(self)@.drop_first());
        }
        top.value
    }

    /// True exactly when the stack holds no element.
    pub fn is_empty(&self) -> (r: bool)
        requires
            self.well_formed(),
        ensures
            r == (self@.len() == 0),
    {
        self.head.next.is_none()
    }
}

} // verus!
