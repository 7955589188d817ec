//! A client for an external dictionary service named in a configuration.

use crate::config::DictionaryConfig;
use crate::error::SbsError;
use vstd::prelude::*;

verus! {

/// Confirms words against one configured external dictionary.
pub struct DictionaryClient {
    config: DictionaryConfig,
}

impl DictionaryClient {
    /// The service this client speaks to.
    pub closed spec fn config(&self) -> DictionaryConfig {
        self.config
    }

    /// A client for the service that `config` names.
    pub fn new(config: DictionaryConfig) -> (r: DictionaryClient)
        ensures
            r.config() == config,
    {
        DictionaryClient { config }
    }

    /// Whether `word` is confirmed; this client confirms every word.
    pub fn validate(&self, word: &str) -> (r: Result<bool, SbsError>)
        ensures
            r matches Ok(b) && b,
    {
        Ok(true)
    }
}

} // verus!
