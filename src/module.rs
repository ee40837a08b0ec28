//! The memory module: compressed bytes bound to a metadata annotation.

use crate::{Compressor, Expander, StreamlinerError};
use vstd::prelude::*;

verus! {

/// What a memory module holds, as mathematical values.
pub struct ModuleView {
    pub compressed_data: Seq<u8>,
    pub metadata: Seq<char>,
}

/// Compressed context together with free-form metadata about it.
pub struct MemoryModule {
    pub(crate) compressed_data: Vec<u8>,
    pub(crate) metadata: String,
}

impl View for MemoryModule {
    type V = ModuleView;

    closed spec fn view(&self) -> ModuleView {
        ModuleView { compressed_data: self.compressed_data@, metadata: self.metadata@ }
    }
}

impl MemoryModule {
    /// Builds a module from parts.
    pub(crate) fn from_parts(compressed_data: Vec<u8>, metadata: String) -> (r: Self)
        ensures
            r@ == (ModuleView { compressed_data: compressed_data@, metadata: metadata@ }),
    {
        MemoryModule { compressed_data, metadata }
    }

    /// Compresses `context` with `compressor` into a module with empty
    /// metadata; fails exactly where the compressor fails, with its error, so
    /// never with an `infallible` compressor.
    pub fn new<C: Compressor>(context: &str, compressor: &C) -> (r: Result<Self, StreamlinerError>)
        ensures
            compressor.infallible() ==> r is Ok,
            r is Ok ==> r->Ok_0@ == (ModuleView {
                compressed_data: compressor.compressed_of(context@),
                metadata: Seq::empty(),
            }),
            r is Err ==> r->Err_0 is CompressionError,
    {
        match compressor.compress(context) {
            Ok(compressed_data) => Ok(MemoryModule { compressed_data, metadata: String::new() }),
            Err(e) => Err(e),
        }
    }

    /// Expands the module's compressed bytes with `expander`; the module is
    /// left as it is.
    pub fn expand<E: Expander>(&self, expander: &E) -> (r: Result<String, StreamlinerError>)
        ensures
            r is Ok <==> expander.expanded_of(self@.compressed_data) is Some,
            r is Ok ==> r->Ok_0@ == expander.expanded_of(self@.compressed_data)->0,
            r is Err ==> r->Err_0 is ExpansionError,
            r is Err ==> r->Err_0->ExpansionError_0@.len() > 0,
            forall|text: Seq<char>|
                expander.produced_from(self@.compressed_data, text) ==> (r is Ok && r->Ok_0@
                    == text),
    {
        expander.expand(self.compressed_data.as_slice())
    }

    /// The compressed bytes.
    pub fn compressed_data(&self) -> (r: &[u8])
        ensures
            r@ == self@.compressed_data,
    {
        self.compressed_data.as_slice()
    }

    /// The metadata annotation.
    pub fn metadata(&self) -> (r: &str)
        ensures
            r@ == self@.metadata,
    {
        self.metadata.as_str()
    }

    /// Replaces the metadata; the compressed bytes stay as they were.
    pub fn set_metadata(&mut self, metadata: String)
        ensures
            final(self)@.metadata == metadata@,
            final(self)@.compressed_data == old(self)@.compressed_data,
    {
        self.metadata = metadata;
    }
}

} // verus!
