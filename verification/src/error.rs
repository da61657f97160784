use vstd::prelude::*;

verus! {

/// Errors reported by the analysis engine.
///
/// Source text never fails to tokenize: malformed input degrades to
/// `Unknown` tokens. The variants below cover input classification and
/// the collaborator-facing conditions (file access, configuration).
#[derive(Debug, Clone, PartialEq, Eq)]
pub enum MccabreError {
    /// A file could not be read.
    FileRead { path: String, message: String },
    /// The input's language could not be determined from its extension.
    UnsupportedFileType(String),
    /// A configuration value could not be parsed.
    InvalidConfig(String),
    /// The scanning cursor would have moved past the end of the input.
    TokenizationError(String),
    /// Any other input/output failure.
    Io(String),
}

} // verus!
