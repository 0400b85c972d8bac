//! Records and errors of instance bootstrap. Loading the configuration
//! itself (environment variables, config files) is an external concern;
//! these are the values the core vocabulary speaks of.

use vstd::prelude::*;

verus! {

/// The marker record written once per identified instance.
#[derive(Debug)]
pub struct Initialize;

/// Failure while building a configuration.
#[derive(Debug)]
pub enum BuilderError {
    MissingVar(String),
    Serde(String),
}

impl BuilderError {
    /// The underlying message carried by this error.
    pub open spec fn internal_view(&self) -> Seq<char> {
        match self {
            BuilderError::MissingVar(v) => v@,
            BuilderError::Serde(v) => v@,
        }
    }
}

} // verus!
