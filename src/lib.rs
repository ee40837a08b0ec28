//! Compression of text contexts into memory modules that can be stored and
//! later expanded back into the original text.

use vstd::prelude::*;

pub mod compression;
pub mod module;
pub mod record;

pub use compression::{IdentityCompressor, IdentityExpander, ZlibCompressor, ZlibExpander};
pub use module::{MemoryModule, ModuleView};

verus! {

/// Error kinds of the codecs and of the module's text form; each carries a
/// human-readable cause.
#[derive(Debug, Clone, PartialEq, Eq)]
pub enum StreamlinerError {
    CompressionError(String),
    ExpansionError(String),
    SerializationError(String),
}

impl StreamlinerError {
    /// Human-readable description of the error.
    pub fn message(&self) -> (r: String)
        ensures
            r@ == match self {
                StreamlinerError::CompressionError(cause) => "Compression failed: "@ + cause@,
                StreamlinerError::ExpansionError(cause) => "Expansion failed: "@ + cause@,
                StreamlinerError::SerializationError(cause) => "Serialization error: "@ + cause@,
            },
    {
        let mut out = String::new();
        proof {
            reveal_strlit("Compression failed: ");
            reveal_strlit("Expansion failed: ");
            reveal_strlit("Serialization error: ");
        }
        match self {
            StreamlinerError::CompressionError(cause) => {
                out.append("Compression failed: ");
                out.append(cause.as_str());
            },
            StreamlinerError::ExpansionError(cause) => {
                out.append("Expansion failed: ");
                out.append(cause.as_str());
            },
            StreamlinerError::SerializationError(cause) => {
                out.append("Serialization error: ");
                out.append(cause.as_str());
            },
        }
        out
    }
}

/// A codec's compressing half: text in, bytes out.
pub trait Compressor {
    /// The bytes that compressing `text` yields.
    spec fn compressed_of(&self, text: Seq<char>) -> Seq<u8>;

    /// Whether compressing never fails.
    spec fn infallible(&self) -> bool;

    /// Compresses `context`; on success the bytes are `compressed_of(context)`,
    /// and a compressor that is `infallible` always succeeds.
    fn compress(&self, context: &str) -> (r: Result<Vec<u8>, StreamlinerError>)
        ensures
            self.infallible() ==> r is Ok,
            r is Ok ==> r->Ok_0@ == self.compressed_of(context@),
            r is Err ==> r->Err_0 is CompressionError,
    ;
}

/// A codec's expanding half: bytes in, text out.
pub trait Expander {
    /// The text that `data` expands to, or `None` where it cannot be expanded.
    spec fn expanded_of(&self, data: Seq<u8>) -> Option<Seq<char>>;

    /// Whether `data` is what the matching compressor made of `text`.
    spec fn produced_from(&self, data: Seq<u8>, text: Seq<char>) -> bool;

    /// Expands `compressed`: it succeeds exactly when `expanded_of` gives a
    /// text, and then returns that text; bytes that the matching compressor
    /// made of a text expand to that text. An error carries a non-empty cause.
    fn expand(&self, compressed: &[u8]) -> (r: Result<String, StreamlinerError>)
        ensures
            forall|text: Seq<char>|
                self.produced_from(compressed@, text) ==> (r is Ok && r->Ok_0@ == text),
            r is Ok <==> self.expanded_of(compressed@) is Some,
            r is Ok ==> r->Ok_0@ == self.expanded_of(compressed@)->0,
            r is Err ==> r->Err_0 is ExpansionError,
            r is Err ==> r->Err_0->ExpansionError_0@.len() > 0,
    ;
}

} // verus!
