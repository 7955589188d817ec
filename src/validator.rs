//! The definition-lookup services that can confirm found words, and the
//! summary of a confirmation run.

use crate::error::SbsError;
use vstd::prelude::*;
use vstd::string::StringExecFns;

verus! {

/// A confirmed word, with a definition and a reference URL.
#[derive(Debug, Clone)]
pub struct WordEntry {
    pub word: String,
    pub definition: String,
    pub url: String,
}

/// The outcome of confirming a list of candidate words.
#[derive(Debug, Clone)]
pub struct ValidationSummary {
    pub candidates: usize,
    pub validated: usize,
    pub entries: Vec<WordEntry>,
}

impl ValidationSummary {
    /// The summary before any candidate has been looked up.
    pub fn start(candidates: usize) -> (s: ValidationSummary)
        ensures
            s.candidates == candidates,
            s.validated == 0,
            s.entries@ == Seq::<WordEntry>::empty(),
    {
        ValidationSummary { candidates, validated: 0, entries: Vec::new() }
    }

    /// Takes in the outcome of one lookup: a confirmed entry is kept and
    /// counted, a word that was not found or whose lookup failed is left out.
    pub fn record(&mut self, outcome: Option<WordEntry>)
        requires
            old(self).validated == old(self).entries@.len(),
            old(self).entries@.len() < old(self).candidates,
        ensures
            final(self).candidates == old(self).candidates,
            final(self).validated == final(self).entries@.len(),
            final(self).entries@ == match outcome {
                Some(e) => old(self).entries@.push(e),
                None => old(self).entries@,
            },
    {
        match outcome {
            Some(entry) => {
                self.entries.push(entry);
                self.validated = self.validated + 1;
            },
            None => {},
        }
    }
}

/// The supported definition-lookup services.
#[derive(Debug, Clone, Copy, PartialEq, Eq, Structural)]
pub enum ValidatorKind {
    FreeDictionary,
    MerriamWebster,
    Wordnik,
    Custom,
}

/// The kind that a command-line or configuration name selects.
pub open spec fn kind_named(s: Seq<char>) -> Option<ValidatorKind> {
    if s == "free-dictionary"@ {
        Some(ValidatorKind::FreeDictionary)
    } else if s == "merriam-webster"@ {
        Some(ValidatorKind::MerriamWebster)
    } else if s == "wordnik"@ {
        Some(ValidatorKind::Wordnik)
    } else if s == "custom"@ {
        Some(ValidatorKind::Custom)
    } else {
        None
    }
}

/// The name under which a kind is shown to people.
pub open spec fn display_name_of(k: ValidatorKind) -> Seq<char> {
    match k {
        ValidatorKind::FreeDictionary => "Free Dictionary"@,
        ValidatorKind::MerriamWebster => "Merriam-Webster"@,
        ValidatorKind::Wordnik => "Wordnik"@,
        ValidatorKind::Custom => "Custom"@,
    }
}

impl ValidatorKind {
    /// The name under which this kind is shown to people.
    pub fn display_name(&self) -> (r: &str)
        ensures
            r@ == display_name_of(*self),
    {
        match self {
            ValidatorKind::FreeDictionary => "Free Dictionary",
            ValidatorKind::MerriamWebster => "Merriam-Webster",
            ValidatorKind::Wordnik => "Wordnik",
            ValidatorKind::Custom => "Custom",
        }
    }

    /// The kind named `s`: `free-dictionary`, `merriam-webster`, `wordnik`
    /// or `custom`.
    pub fn from_name(s: &str) -> (r: Result<ValidatorKind, SbsError>)
        ensures
            match kind_named(s@) {
                Some(k) => r == Ok::<ValidatorKind, SbsError>(k),
                None => r matches Err(e) && e is ValidationError,
            },
    {
        let name = s.to_owned();
        if name == "free-dictionary".to_owned() {
            Ok(ValidatorKind::FreeDictionary)
        } else if name == "merriam-webster".to_owned() {
            Ok(ValidatorKind::MerriamWebster)
        } else if name == "wordnik".to_owned() {
            Ok(ValidatorKind::Wordnik)
        } else if name == "custom".to_owned() {
            Ok(ValidatorKind::Custom)
        } else {
            Err(SbsError::ValidationError(
                "Unknown validator: '".to_owned().concat(s).concat(
                    "'. Valid options: free-dictionary, merriam-webster, wordnik, custom",
                ),
            ))
        }
    }
}

impl ValidatorKind {
    /// Whether the service needs an API key: Merriam-Webster and Wordnik do.
    pub open spec fn needs_key(&self) -> bool {
        *self == ValidatorKind::MerriamWebster || *self == ValidatorKind::Wordnik
    }

    /// Whether the service needs a URL: a custom one does.
    pub open spec fn needs_url(&self) -> bool {
        *self == ValidatorKind::Custom
    }

    /// Checks that the settings a service of this kind needs are given.
    ///
    /// Fails with a validation error exactly when an API key is needed and
    /// missing, or a URL is needed and missing.
    pub fn check_settings(&self, api_key: Option<&str>, custom_url: Option<&str>) -> (r: Result<(), SbsError>)
        ensures
            (r is Err) <==> (self.needs_key() && api_key is None) || (self.needs_url() && custom_url is None),
            r matches Err(e) ==> e is ValidationError,
    {
        match self {
            ValidatorKind::FreeDictionary => Ok(()),
            ValidatorKind::MerriamWebster => {
                if api_key.is_none() {
                    return Err(SbsError::ValidationError(
                        "Merriam-Webster requires an API key (--api-key)".to_owned(),
                    ));
                }
                Ok(())
            },
            ValidatorKind::Wordnik => {
                if api_key.is_none() {
                    return Err(SbsError::ValidationError(
                        "Wordnik requires an API key (--api-key)".to_owned(),
                    ));
                }
                Ok(())
            },
            ValidatorKind::Custom => {
                if custom_url.is_none() {
                    return Err(SbsError::ValidationError(
                        "Custom validator requires a URL (--validator-url)".to_owned(),
                    ));
                }
                Ok(())
            },
        }
    }
}

impl std::str::FromStr for ValidatorKind {
    type Err = SbsError;

    fn from_str(s: &str) -> Result<ValidatorKind, SbsError> {
        ValidatorKind::from_name(s)
    }
}

} // verus!
