//! The degree-only pass over a compressed graph: yields each node's
//! outdegree, decoding the same records as the sequential reader.
//!
//! Its contract names the same record specification as the successor
//! reader, so for every stream position the degree returned here equals
//! the length of the successor list decoded there: the two passes agree
//! by contract, record for record.

use vstd::prelude::*;
use crate::codes_reader::DefaultCodesReader;
use crate::reader_sequential::{spec_decode_prefix, spec_decode_record, WebgraphSequentialIter};
use crate::Error;

verus! {

/// An iterator over the outdegrees of the nodes of a compressed graph;
/// it needs no offsets, and can be used to synthesize them.
pub struct WebgraphDegreesIter {
    inner: WebgraphSequentialIter,
}

impl WebgraphDegreesIter {
    /// The backing words of the bit stream.
    pub closed spec fn words(&self) -> Seq<u32> {
        self.inner.words()
    }

    /// The lists of the records already passed.
    pub closed spec fn decoded_lists(&self) -> Seq<Seq<u64>> {
        self.inner.decoded_lists()
    }

    pub closed spec fn next_node(&self) -> int {
        self.inner.next_node()
    }

    pub closed spec fn num_nodes(&self) -> int {
        self.inner.num_nodes()
    }

    pub closed spec fn window(&self) -> nat {
        self.inner.window()
    }

    pub closed spec fn min_len(&self) -> nat {
        self.inner.min_len()
    }

    pub closed spec fn wf(&self) -> bool {
        self.inner.wf()
    }

    /// Builds an iterator at the start of the stream.
    pub fn new(
        codes_reader: DefaultCodesReader,
        min_interval_length: u64,
        compression_window: usize,
        number_of_nodes: usize,
    ) -> (r: Result<Self, Error>)
        requires
            codes_reader.wf(),
        ensures
            compression_window < usize::MAX ==> r is Ok,
            match r {
                Ok(it) => it.wf() && it.next_node() == 0 && it.num_nodes() == number_of_nodes
                    && it.window() == compression_window && it.min_len() == min_interval_length
                    && it.words() == codes_reader.words(),
                Err(_) => true,
            },
    {
        let inner = match WebgraphSequentialIter::new(
            codes_reader,
            min_interval_length,
            compression_window,
            number_of_nodes,
        ) {
            Ok(it) => it,
            Err(e) => {
                return Err(e);
            },
        };
        Ok(WebgraphDegreesIter { inner })
    }

    /// The cursor, as an absolute bit offset.
    pub closed spec fn pos(&self) -> int {
        self.inner.pos()
    }

    /// Returns the cursor; on a well-formed iterator this is exactly the
    /// end position of the decoded prefix, so collecting the positions
    /// before each record yields the `.offsets` contents.
    pub fn get_position(&self) -> (r: usize)
        ensures
            r == self.pos(),
            self.wf() ==> spec_decode_prefix(
                self.words(),
                self.window(),
                self.min_len(),
                self.next_node() as nat,
            ) == Some((self.decoded_lists(), r as int)),
    {
        self.inner.get_position()
    }

    pub fn get_number_of_nodes(&self) -> (r: usize)
        ensures
            r == self.num_nodes(),
    {
        self.inner.get_number_of_nodes()
    }

    /// Decodes the next record and returns its outdegree: exactly the
    /// length of the successor list that record denotes.
    pub fn next_degree(&mut self) -> (r: Result<u64, Error>)
        requires
            old(self).wf(),
            old(self).next_node() < old(self).num_nodes(),
        ensures
            match spec_decode_record(
                old(self).words(),
                spec_decode_prefix(
                    old(self).words(),
                    old(self).window(),
                    old(self).min_len(),
                    old(self).next_node() as nat,
                ).unwrap().1,
                old(self).next_node(),
                old(self).decoded_lists(),
                old(self).window(),
                old(self).min_len(),
            ) {
                Some((succ, p)) => {
                    &&& r == Ok::<u64, Error>(succ.len() as u64)
                    &&& final(self).wf()
                    &&& final(self).next_node() == old(self).next_node() + 1
                    &&& final(self).words() == old(self).words()
                    &&& final(self).num_nodes() == old(self).num_nodes()
                    &&& final(self).window() == old(self).window()
                    &&& final(self).min_len() == old(self).min_len()
                },
                None => r is Err,
            },
    {
        let succ = match self.inner.next_successors() {
            Ok(v) => v,
            Err(e) => {
                return Err(e);
            },
        };
        Ok(succ.len() as u64)
    }
}

} // verus!
