//! The adapter that maps the seven logical BVGraph code slots to concrete
//! codes, using the default choice: γ for outdegrees, block and interval
//! data, unary for reference offsets, and ζ₃ for residuals.

use vstd::prelude::*;
use crate::bit_stream::{spec_unary, BitStreamRead};
use crate::codes::{spec_gamma, spec_zeta};
use crate::Error;

verus! {

/// Reads the seven BVGraph code slots with the default code choice.
pub struct DefaultCodesReader {
    reader: BitStreamRead,
}

impl DefaultCodesReader {
    /// The backing words of the bit stream.
    pub closed spec fn words(&self) -> Seq<u32> {
        self.reader.words()
    }

    /// The cursor, as an absolute bit offset.
    pub closed spec fn pos(&self) -> int {
        self.reader.pos()
    }

    pub closed spec fn wf(&self) -> bool {
        self.reader.wf()
    }

    pub fn new(reader: BitStreamRead) -> (r: Self)
        ensures
            r.words() == reader.words(),
            r.pos() == reader.pos(),
            r.wf() == reader.wf(),
    {
        DefaultCodesReader { reader }
    }

    pub fn get_position(&self) -> (r: usize)
        ensures
            r == self.pos(),
    {
        self.reader.get_position()
    }

    /// Seeks to an absolute bit offset; an offset past the end of the
    /// stream is refused and the position is left unchanged.
    pub fn set_position(&mut self, bit_index: usize) -> (r: Result<(), Error>)
        requires
            old(self).wf(),
        ensures
            final(self).wf(),
            final(self).words() == old(self).words(),
            bit_index <= old(self).words().len() * 32 ==> r is Ok && final(self).pos()
                == bit_index,
            bit_index > old(self).words().len() * 32 ==> r is Err && final(self).pos() == old(
                self,
            ).pos(),
    {
        self.reader.set_position(bit_index)
    }

    /// Reads the outdegree slot (γ).
    pub fn read_outdegree(&mut self) -> (r: Result<u64, Error>)
        requires
            old(self).wf(),
        ensures
            final(self).wf(),
            final(self).words() == old(self).words(),
            match spec_gamma(old(self).words(), old(self).pos()) {
                Some((v, p)) => r == Ok::<u64, Error>(v as u64) && v <= u64::MAX && final(self).pos() == p,
                None => r is Err,
            },
    {
        self.reader.read_gamma()
    }

    /// Reads the reference-offset slot (unary).
    pub fn read_reference_offset(&mut self) -> (r: Result<u64, Error>)
        requires
            old(self).wf(),
        ensures
            final(self).wf(),
            final(self).words() == old(self).words(),
            match spec_unary(old(self).words(), old(self).pos()) {
                Some((v, p)) => r == Ok::<u64, Error>(v as u64) && v <= u64::MAX && final(self).pos() == p,
                None => r is Err,
            },
    {
        self.reader.read_unary()
    }

    /// Reads the block-count slot (γ).
    pub fn read_block_count(&mut self) -> (r: Result<u64, Error>)
        requires
            old(self).wf(),
        ensures
            final(self).wf(),
            final(self).words() == old(self).words(),
            match spec_gamma(old(self).words(), old(self).pos()) {
                Some((v, p)) => r == Ok::<u64, Error>(v as u64) && v <= u64::MAX && final(self).pos() == p,
                None => r is Err,
            },
    {
        self.reader.read_gamma()
    }

    /// Reads one block-length slot (γ).
    pub fn read_blocks(&mut self) -> (r: Result<u64, Error>)
        requires
            old(self).wf(),
        ensures
            final(self).wf(),
            final(self).words() == old(self).words(),
            match spec_gamma(old(self).words(), old(self).pos()) {
                Some((v, p)) => r == Ok::<u64, Error>(v as u64) && v <= u64::MAX && final(self).pos() == p,
                None => r is Err,
            },
    {
        self.reader.read_gamma()
    }

    /// Reads the interval-count slot (γ).
    pub fn read_interval_count(&mut self) -> (r: Result<u64, Error>)
        requires
            old(self).wf(),
        ensures
            final(self).wf(),
            final(self).words() == old(self).words(),
            match spec_gamma(old(self).words(), old(self).pos()) {
                Some((v, p)) => r == Ok::<u64, Error>(v as u64) && v <= u64::MAX && final(self).pos() == p,
                None => r is Err,
            },
    {
        self.reader.read_gamma()
    }

    /// Reads the interval-start slot (γ).
    pub fn read_interval_start(&mut self) -> (r: Result<u64, Error>)
        requires
            old(self).wf(),
        ensures
            final(self).wf(),
            final(self).words() == old(self).words(),
            match spec_gamma(old(self).words(), old(self).pos()) {
                Some((v, p)) => r == Ok::<u64, Error>(v as u64) && v <= u64::MAX && final(self).pos() == p,
                None => r is Err,
            },
    {
        self.reader.read_gamma()
    }

    /// Reads the interval-length slot (γ).
    pub fn read_interval_len(&mut self) -> (r: Result<u64, Error>)
        requires
            old(self).wf(),
        ensures
            final(self).wf(),
            final(self).words() == old(self).words(),
            match spec_gamma(old(self).words(), old(self).pos()) {
                Some((v, p)) => r == Ok::<u64, Error>(v as u64) && v <= u64::MAX && final(self).pos() == p,
                None => r is Err,
            },
    {
        self.reader.read_gamma()
    }

    /// Reads the first-residual slot (ζ₃).
    pub fn read_first_residual(&mut self) -> (r: Result<u64, Error>)
        requires
            old(self).wf(),
        ensures
            final(self).wf(),
            final(self).words() == old(self).words(),
            match spec_zeta(old(self).words(), old(self).pos(), 3) {
                Some((v, p)) => r == Ok::<u64, Error>(v as u64) && v <= u64::MAX && final(self).pos() == p,
                None => r is Err,
            },
    {
        self.reader.read_zeta(3)
    }

    /// Reads a residual-gap slot (ζ₃).
    pub fn read_residual(&mut self) -> (r: Result<u64, Error>)
        requires
            old(self).wf(),
        ensures
            final(self).wf(),
            final(self).words() == old(self).words(),
            match spec_zeta(old(self).words(), old(self).pos(), 3) {
                Some((v, p)) => r == Ok::<u64, Error>(v as u64) && v <= u64::MAX && final(self).pos() == p,
                None => r is Err,
            },
    {
        self.reader.read_zeta(3)
    }
}

} // verus!
