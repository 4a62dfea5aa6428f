use vstd::prelude::*;

verus! {

/// `toml::de::Error`, the parser's own error type, carried through unread.
#[verifier::external_type_specification]
#[verifier::external_body]
pub struct ExTomlDeError(toml::de::Error);

/// Why an operation was abandoned.
#[derive(Debug)]
pub enum CliError {
    /// The text handed in is nested more deeply than a text is read at.
    Nesting,
    /// The text handed in is not a TOML document.
    Parse(toml::de::Error),
    /// The document is TOML but lacks what a manifest or a lock file must hold.
    Toml(String),
}

/// What an operation gives that can be abandoned.
pub type CliResult<T> = Result<T, CliError>;

} // verus!
