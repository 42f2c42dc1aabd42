use vstd::prelude::*;

verus! {

/// The error taxonomy of the indexing core. Errors confined to one source
/// file (a parse or text-decode failure) make the engine skip that file;
/// snapshot errors surface to the caller.
#[derive(Debug)]
pub enum ContextMeshError {
    /// A source or snapshot file could not be read or written (raised by the
    /// surrounding program; the core itself performs no I/O).
    IoError(String),
    /// The syntax provider produced no tree for the file.
    ParseError(String),
    /// The requested language tag has no adapter registered.
    UnsupportedLanguage(String),
    /// Bytes were not valid UTF-8 where text was required.
    DecodeError(String),
    /// A snapshot could not be decoded.
    DeserializationError(String),
    /// No snapshot file exists yet (informational; callers create a new index).
    IndexNotFound(String),
    /// The clipboard could not be used (raised by the surrounding program).
    ClipboardError(String),
}

} // verus!
