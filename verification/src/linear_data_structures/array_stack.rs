use vstd::prelude::*;

verus! {

/// A stack that keeps its elements in a vector. `stack_pointer` counts the
/// live elements; slots above it are spares kept from earlier pops.
pub struct ArrayStack<T> {
    pub array: Vec<T>,
    pub stack_pointer: usize,
}

impl<T> View for ArrayStack<T> {
    type V = Seq<T>;

    /// The live elements, bottom of the stack first.
    open spec fn view(&self) -> Seq<T> {
        self.array@.subrange(0, self.stack_pointer as int)
    }
}

impl<T> ArrayStack<T> {
    /// The stack pointer never points past the backing vector.
    pub open spec fn well_formed(self) -> bool {
        self.stack_pointer <= self.array@.len()
    }

    /// Creates a new empty stack.
    pub fn new() -> (r: Self)
        ensures
            r.well_formed(),
            r@ == Seq::<T>::empty(),
    {
        let r = ArrayStack { array: Vec::new(), stack_pointer: 0 };
        proof {
            assert(r@ =~= Seq::<T>::empty());
        }
        r
    }

    /// Pushes a new value onto the stack, reusing a spare slot when one is
    /// there.
    pub fn push(&mut self, val: T)
        requires
            old(self).well_formed(),
        ensures
            final(self).well_formed(),
            final(self)@ == old(self)@.push(val),
    {
        if self.array.len() > self.stack_pointer {
            self.array.set(self.stack_pointer, val);
        } else {
            self.array.push(val);
        }
        let n = self.array.len();
        proof {
            assert(self.stack_pointer < n);
        }
        self.stack_pointer = self.stack_pointer + 1;
        proof {
            assert(self@ =~= old(self)@.push(val));
        }
    }

    /// Removes and returns the top element, or returns `None` on an empty
    /// stack.
    pub fn pop(&mut self) -> (r: Option<T>)
        requires
            old(self).well_formed(),
        ensures
            final(self).well_formed(),
            old(self)@.len() == 0 ==> r is None && final(self)@ == old(self)@,
            old(self)@.len() > 0 ==> r == Some(old(self)@.last()) && final(self)@ == old(
                self,
            )@.drop_last(),
    {
        if self.is_empty() {
            return None;
        }
        self.stack_pointer = self.stack_pointer - 1;
        let v = self.array.remove(self.stack_pointer);
        proof {
            assert(self@ =~= old(self)@.drop_last());
        }
        Some(v)
    }

    /// True exactly when the stack holds no element.
    pub fn is_empty(&self) -> (r: bool)
        requires
            self.well_formed(),
        ensures
            r == (self@.len() == 0),
    {
        self.stack_pointer == 0
    }
}

} // verus!
