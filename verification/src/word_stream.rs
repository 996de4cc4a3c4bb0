//! Cursors over a buffer of fixed-width machine words.
//!
//! `MemWordRead` reads words in order; `MemWordWrite` also overwrites the
//! word under the cursor.  Every operation says exactly what it returns and
//! how it moves the cursor, so the word-stream behaviour is pinned down:
//! reading from position `i` yields word `i` of the backing buffer, a write
//! at `i` replaces word `i` and nothing else, and an out-of-range seek
//! leaves the position unchanged.

use vstd::prelude::*;
use crate::Error;

verus! {

/// A read-only cursor over a buffer of `u64` words.
pub struct MemWordRead {
    data: Vec<u64>,
    position: usize,
}

impl MemWordRead {
    /// The words of the backing buffer.
    pub closed spec fn words(&self) -> Seq<u64> {
        self.data@
    }

    /// The cursor, in words.
    pub closed spec fn pos(&self) -> nat {
        self.position as nat
    }

    /// The cursor never runs past the end of the buffer.
    pub closed spec fn wf(&self) -> bool {
        self.position <= self.data.len()
    }

    pub fn new(data: Vec<u64>) -> (r: Self)
        ensures
            r.words() == data@,
            r.pos() == 0,
            r.wf(),
    {
        MemWordRead { data, position: 0 }
    }

    pub fn len(&self) -> (r: usize)
        ensures
            r == self.words().len(),
    {
        self.data.len()
    }

    pub fn get_position(&self) -> (r: usize)
        ensures
            r == self.pos(),
    {
        self.position
    }

    /// Seeks to `word_index`; an out-of-range index is refused and the
    /// position is left unchanged.
    pub fn set_position(&mut self, word_index: usize) -> (r: Result<(), Error>)
        requires
            old(self).wf(),
        ensures
            final(self).wf(),
            final(self).words() == old(self).words(),
            word_index < old(self).words().len() ==> r is Ok && final(self).pos() == word_index,
            word_index >= old(self).words().len() ==> r is Err && final(self).pos() == old(
                self,
            ).pos(),
    {
        if word_index < self.data.len() {
            self.position = word_index;
            Ok(())
        } else {
            Err(Error::BadInvariant)
        }
    }

    /// Returns the word under the cursor and advances; fails at the end of
    /// the buffer, leaving the state unchanged.
    pub fn read_next_word(&mut self) -> (r: Result<u64, Error>)
        requires
            old(self).wf(),
        ensures
            final(self).wf(),
            final(self).words() == old(self).words(),
            old(self).pos() < old(self).words().len() ==> r == Ok::<u64, Error>(
                old(self).words()[old(self).pos() as int],
            ) && final(self).pos() == old(self).pos() + 1,
            old(self).pos() >= old(self).words().len() ==> r is Err && final(self).pos() == old(
                self,
            ).pos(),
    {
        if self.position < self.data.len() {
            let w = self.data[self.position];
            self.position = self.position + 1;
            Ok(w)
        } else {
            Err(Error::BadInvariant)
        }
    }
}

/// A read/write cursor over a buffer of `u64` words.
pub struct MemWordWrite {
    data: Vec<u64>,
    position: usize,
}

impl MemWordWrite {
    /// The words of the backing buffer.
    pub closed spec fn words(&self) -> Seq<u64> {
        self.data@
    }

    /// The cursor, in words.
    pub closed spec fn pos(&self) -> nat {
        self.position as nat
    }

    /// The cursor never runs past the end of the buffer.
    pub closed spec fn wf(&self) -> bool {
        self.position <= self.data.len()
    }

    pub fn new(data: Vec<u64>) -> (r: Self)
        ensures
            r.words() == data@,
            r.pos() == 0,
            r.wf(),
    {
        MemWordWrite { data, position: 0 }
    }

    /// Hands the backing buffer back.
    pub fn into_inner(self) -> (r: Vec<u64>)
        ensures
            r@ == self.words(),
    {
        self.data
    }

    pub fn len(&self) -> (r: usize)
        ensures
            r == self.words().len(),
    {
        self.data.len()
    }

    pub fn get_position(&self) -> (r: usize)
        ensures
            r == self.pos(),
    {
        self.position
    }

    /// Seeks to `word_index`; an out-of-range index is refused and the
    /// position is left unchanged.
    pub fn set_position(&mut self, word_index: usize) -> (r: Result<(), Error>)
        requires
            old(self).wf(),
        ensures
            final(self).wf(),
            final(self).words() == old(self).words(),
            word_index < old(self).words().len() ==> r is Ok && final(self).pos() == word_index,
            word_index >= old(self).words().len() ==> r is Err && final(self).pos() == old(
                self,
            ).pos(),
    {
        if word_index < self.data.len() {
            self.position = word_index;
            Ok(())
        } else {
            Err(Error::BadInvariant)
        }
    }

    /// Returns the word under the cursor and advances; fails at the end of
    /// the buffer, leaving the state unchanged.
    pub fn read_next_word(&mut self) -> (r: Result<u64, Error>)
        requires
            old(self).wf(),
        ensures
            final(self).wf(),
            final(self).words() == old(self).words(),
            old(self).pos() < old(self).words().len() ==> r == Ok::<u64, Error>(
                old(self).words()[old(self).pos() as int],
            ) && final(self).pos() == old(self).pos() + 1,
            old(self).pos() >= old(self).words().len() ==> r is Err && final(self).pos() == old(
                self,
            ).pos(),
    {
        if self.position < self.data.len() {
            let w = self.data[self.position];
            self.position = self.position + 1;
            Ok(w)
        } else {
            Err(Error::BadInvariant)
        }
    }

    /// Overwrites the word under the cursor and advances; fails at the end
    /// of the buffer, leaving buffer and position unchanged.
    pub fn write_word(&mut self, word: u64) -> (r: Result<(), Error>)
        requires
            old(self).wf(),
        ensures
            final(self).wf(),
            old(self).pos() < old(self).words().len() ==> r is Ok && final(self).words() == old(
                self,
            ).words().update(old(self).pos() as int, word) && final(self).pos() == old(self).pos()
                + 1,
            old(self).pos() >= old(self).words().len() ==> r is Err && final(self).words() == old(
                self,
            ).words() && final(self).pos() == old(self).pos(),
    {
        if self.position < self.data.len() {
            self.data.set(self.position, word);
            self.position = self.position + 1;
            Ok(())
        } else {
            Err(Error::BadInvariant)
        }
    }
}

} // verus!
