//! Cross-checking of DNS blocklists and allowlists: list text is
//! parsed into sets of domain names, blocklist source locations come
//! from a manifest document, and the loaded sets are compared: which
//! allowlist entries no blocklist covers, and which blocklists are
//! redundant subsets of others. Retrieval itself (file reads, HTTP)
//! belongs to the surrounding application; everything here is pure
//! and carries a proved contract.
pub mod analyzer;
pub mod domain_set;
pub mod loader;
pub mod manifest;
pub mod parser;
pub mod text;

use vstd::prelude::*;

verus! {

/// Classified failures while loading and parsing domain lists.
#[derive(Clone, Copy, Debug, PartialEq, Eq, Structural)]
pub enum DomainListError {
    /// A source resolved to zero usable domain entries.
    EmptyList,
    /// The manifest lacks the expected section markers or lists no sources.
    ReadmeError,
}

impl DomainListError {
    /// Human-readable description, as printed by the surrounding application.
    pub fn message(&self) -> (r: &'static str)
        ensures
            *self == DomainListError::EmptyList ==> r@ == "List is empty"@,
            *self == DomainListError::ReadmeError ==> r@ == "Couldn't read blacklists from README.md"@,
    {
        match self {
            DomainListError::EmptyList => "List is empty",
            DomainListError::ReadmeError => "Couldn't read blacklists from README.md",
        }
    }
}

} // verus!
