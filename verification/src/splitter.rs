//! Index-based split borrowing over a slot arena.
//!
//! During batch creation, slot `i` must be written while earlier slots are
//! read as dependencies. The splitter fixes the current index and hands out
//! read access to every *other* slot, so no slot is ever exposed both
//! mutably and immutably in one step: the caller mutates only the current
//! slot, and every read through the splitter is checked against it.
use vstd::prelude::*;

verus! {

/// A view over a sequence of `len` slots of which `current` is being built.
#[derive(Clone, Copy, PartialEq, Eq, Structural, Debug)]
pub struct Splitter {
    len: usize,
    current: usize,
}

impl Splitter {
    /// The length of the sequence being split.
    pub closed spec fn seq_len(self) -> int {
        self.len as int
    }

    /// The index reserved for mutation.
    pub closed spec fn current_index(self) -> int {
        self.current as int
    }

    /// Splits a sequence of `len` slots at `current`. An index outside the
    /// sequence is a caller error and is rejected up front.
    pub fn new(len: usize, current: usize) -> (r: Splitter)
        requires
            current < len,
        ensures
            r.seq_len() == len,
            r.current_index() == current,
    {
        Splitter { len, current }
    }

    /// The checked form of `new`: yields nothing when the index does not
    /// name a slot of the sequence.
    pub fn try_new(len: usize, current: usize) -> (r: Option<Splitter>)
        ensures
            r is Some <==> current < len,
            r matches Some(s) ==> s.seq_len() == len && s.current_index() == current,
    {
        if current < len {
            Some(Splitter { len, current })
        } else {
            None
        }
    }

    /// Reads a slot other than the current one. Asking for the current
    /// slot, or for an index outside the sequence, is a caller error.
    pub fn read_other<'a, T>(&self, slots: &'a Vec<T>, index: usize) -> (r: &'a T)
        requires
            slots@.len() == self.seq_len(),
            index < self.seq_len(),
            index != self.current_index(),
        ensures
            *r == slots@[index as int],
    {
        &slots[index]
    }
}

} // verus!
