//! The value stack: a growable last-in-first-out sequence of values, together
//! with the position and opcode that errors report.
use crate::error::StackError;
use vstd::prelude::*;

verus! {

/// A value stack and the machine state that goes with it while a program runs.
#[derive(Debug)]
pub struct Stack<T> {
    /// The values, bottom first.
    pub state: Vec<T>,
    /// The program counter: an offset into the byte program.
    pub idx: usize,
    /// The opcode fetched last.
    pub op: u8,
}

impl<T> View for Stack<T> {
    type V = Seq<T>;

    open spec fn view(&self) -> Seq<T> {
        self.state@
    }
}

impl<T: Copy> Stack<T> {
    /// An empty stack, with the program counter and opcode at zero.
    pub fn new() -> (r: Self)
        ensures
            r@ == Seq::<T>::empty(),
            r.idx == 0,
            r.op == 0,
    {
        Stack { state: Vec::new(), idx: 0, op: 0 }
    }

    /// A stack that holds the elements of `slice`, the first at the bottom.
    pub fn from(slice: &[T]) -> (r: Self)
        ensures
            r@ == slice@,
            r.idx == 0,
            r.op == 0,
    {
        let mut state: Vec<T> = Vec::new();
        let mut i: usize = 0;
        while i < slice.len()
            invariant
                i <= slice@.len(),
                state@ == slice@.subrange(0, i as int),
            decreases slice@.len() - i,
        {
            state.push(slice[i]);
            i = i + 1;
            assert(state@ =~= slice@.subrange(0, i as int));
        }
        assert(state@ =~= slice@);
        Stack { state, idx: 0, op: 0 }
    }

    /// Removes and returns the top element; on an empty stack, fails with
    /// `EmptyStack` at the current position and leaves the stack as it was.
    pub fn pop(&mut self) -> (r: Result<T, StackError>)
        ensures
            final(self).idx == old(self).idx,
            final(self).op == old(self).op,
            old(self)@.len() > 0 ==> {
                &&& r == Ok::<T, StackError>(old(self)@.last())
                &&& final(self)@ == old(self)@.drop_last()
            },
            old(self)@.len() == 0 ==> {
                &&& r matches Err(StackError::EmptyStack { idx, op })
                &&& idx == old(self).idx && op == old(self).op
                &&& final(self)@ == old(self)@
            },
    {
        match self.state.pop() {
            Some(item) => Ok(item),
            None => Err(StackError::EmptyStack { idx: self.idx, op: self.op }),
        }
    }

    /// Appends `item`. Fails with `ReserveError`, leaving the stack as it was,
    /// when the storage cannot grow by one element.
    pub fn push(&mut self, item: T) -> (r: Result<(), StackError>)
        ensures
            final(self).idx == old(self).idx,
            final(self).op == old(self).op,
            r is Ok ==> final(self)@ == old(self)@.push(item),
            r is Err ==> (r matches Err(StackError::ReserveError { .. })) && final(self)@ == old(self)@,
    {
        match self.state.try_reserve(1) {
            Ok(()) => {},
            Err(e) => {
                return Err(StackError::ReserveError { source: e });
            },
        }
        self.state.push(item);
        Ok(())
    }

    /// The top element, or `None` on an empty stack.
    pub fn peek(&self) -> (r: Option<&T>)
        ensures
            self@.len() > 0 ==> r == Some(&self@.last()),
            self@.len() == 0 ==> r is None,
    {
        self.state.last()
    }
}

impl<T: Copy> Default for Stack<T> {
    fn default() -> (r: Self)
        ensures
            r@ == Seq::<T>::empty(),
            r.idx == 0,
            r.op == 0,
    {
        Self::new()
    }
}

} // verus!
