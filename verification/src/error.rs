use vstd::prelude::*;

verus! {

/// The failures of namespace validation.
#[derive(Debug, PartialEq, Eq)]
pub enum Error {
    InvalidNamespaceChars,
    InvalidNamespaceHyphens,
}

} // verus!
