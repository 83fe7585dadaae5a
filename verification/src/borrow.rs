//! Runtime borrow accounting for a component column: many readers or one
//! writer, and a violating attempt fails at once instead of blocking.

use vstd::prelude::*;

verus! {

/// The error returned when a read or write borrow would violate
/// exclusivity.
#[derive(Clone, Copy, PartialEq, Eq, Structural, Debug)]
pub struct BorrowConflict;

/// Read/write borrow accounting of one cell.
#[derive(Clone, Copy, PartialEq, Eq, Structural, Debug)]
pub struct BorrowState {
    pub readers: usize,
    pub writer: bool,
}

impl BorrowState {
    pub fn new() -> (r: BorrowState)
        ensures
            r.readers == 0,
            !r.writer,
    {
        BorrowState { readers: 0, writer: false }
    }

    /// Acquires a shared borrow: succeeds exactly when no writer holds the
    /// cell, and then counts one more reader.
    pub fn try_read(&mut self) -> (r: Result<(), BorrowConflict>)
        requires
            old(self).readers < usize::MAX,
        ensures
            r is Ok <==> !old(self).writer,
            r is Ok ==> *final(self) == (BorrowState {
                readers: (old(self).readers + 1) as usize,
                writer: old(self).writer,
            }),
            r is Err ==> *final(self) == *old(self),
    {
        if self.writer {
            Err(BorrowConflict)
        } else {
            self.readers = self.readers + 1;
            Ok(())
        }
    }

    /// Acquires the exclusive borrow: succeeds exactly when the cell is not
    /// borrowed at all.
    pub fn try_write(&mut self) -> (r: Result<(), BorrowConflict>)
        ensures
            r is Ok <==> (!old(self).writer && old(self).readers == 0),
            r is Ok ==> *final(self) == (BorrowState { readers: 0, writer: true }),
            r is Err ==> *final(self) == *old(self),
    {
        if self.writer || self.readers > 0 {
            Err(BorrowConflict)
        } else {
            self.writer = true;
            Ok(())
        }
    }

    /// Releases one shared borrow.
    pub fn release_read(&mut self)
        requires
            old(self).readers > 0,
        ensures
            *final(self) == (BorrowState {
                readers: (old(self).readers - 1) as usize,
                writer: old(self).writer,
            }),
    {
        self.readers = self.readers - 1;
    }

    /// Releases the exclusive borrow.
    pub fn release_write(&mut self)
        requires
            old(self).writer,
        ensures
            *final(self) == (BorrowState { readers: old(self).readers, writer: false }),
    {
        self.writer = false;
    }
}

} // verus!
