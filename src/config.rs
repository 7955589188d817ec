//! The settings of one solver run.

use crate::validator::ValidatorKind;
use vstd::prelude::*;

verus! {

/// The smallest word length a search accepts unless told otherwise.
pub const DEFAULT_MIN_LENGTH: usize = 4;

/// The letter-set size a configuration starts with.
pub const DEFAULT_SIZE: usize = 7;

/// An external dictionary service named in a configuration.
#[derive(Debug, Clone)]
pub struct DictionaryConfig {
    pub id: String,
    pub name: String,
    pub api: String,
}

/// The settings of one solver run: the puzzle (`letters`, `present` and
/// the bounds), where the words come from, and how the results are checked
/// and written.
#[derive(Debug, Clone)]
pub struct Config {
    pub letters: Option<String>,
    pub present: Option<String>,
    pub size: Option<usize>,
    pub minimal_word_length: Option<usize>,
    pub maximal_word_length: Option<usize>,
    pub output: Option<String>,
    pub repeats: Option<usize>,
    pub case_sensitive: Option<bool>,
    pub dictionary: String,
    pub external_dictionaries: Option<Vec<DictionaryConfig>>,
    pub validator: Option<ValidatorKind>,
    pub api_key: Option<String>,
    pub validator_url: Option<String>,
}

/// The path of the word list used when none is given.
pub fn default_dict_path() -> (r: String)
    ensures
        r@ == "data/dictionary.txt"@,
{
    "data/dictionary.txt".to_owned()
}

impl Config {
    /// The settings a configuration starts with: no puzzle, a letter-set
    /// size of seven, a minimal word length of four, no other bound, and the
    /// default word list.
    pub open spec fn is_initial(&self) -> bool {
        &&& self.letters is None
        &&& self.present is None
        &&& self.size == Some(DEFAULT_SIZE)
        &&& self.minimal_word_length == Some(DEFAULT_MIN_LENGTH)
        &&& self.maximal_word_length is None
        &&& self.output is None
        &&& self.repeats is None
        &&& self.case_sensitive is None
        &&& self.dictionary@ == "data/dictionary.txt"@
        &&& self.external_dictionaries is None
        &&& self.validator is None
        &&& self.api_key is None
        &&& self.validator_url is None
    }

    /// `self` and `other` agree on everything but the puzzle strings.
    pub open spec fn same_settings(&self, other: &Config) -> bool {
        &&& self.size == other.size
        &&& self.minimal_word_length == other.minimal_word_length
        &&& self.maximal_word_length == other.maximal_word_length
        &&& self.output == other.output
        &&& self.repeats == other.repeats
        &&& self.case_sensitive == other.case_sensitive
        &&& self.dictionary == other.dictionary
        &&& self.external_dictionaries == other.external_dictionaries
        &&& self.validator == other.validator
        &&& self.api_key == other.api_key
        &&& self.validator_url == other.validator_url
    }

    /// A configuration with the initial settings.
    pub fn new() -> (r: Config)
        ensures
            r.is_initial(),
    {
        Config {
            letters: None,
            present: None,
            size: Some(DEFAULT_SIZE),
            minimal_word_length: Some(DEFAULT_MIN_LENGTH),
            maximal_word_length: None,
            output: None,
            repeats: None,
            case_sensitive: None,
            dictionary: default_dict_path(),
            external_dictionaries: None,
            validator: None,
            api_key: None,
            validator_url: None,
        }
    }

    /// The same settings with the available letters set to `letters`.
    pub fn with_letters(self, letters: &str) -> (r: Config)
        ensures
            r.letters matches Some(l) && l@ == letters@,
            r.present == self.present,
            r.same_settings(&self),
    {
        let mut c = self;
        c.letters = Some(letters.to_owned());
        c
    }

    /// The same settings with the required letters set to `present`.
    pub fn with_present(self, present: &str) -> (r: Config)
        ensures
            r.present matches Some(p) && p@ == present@,
            r.letters == self.letters,
            r.same_settings(&self),
    {
        let mut c = self;
        c.present = Some(present.to_owned());
        c
    }
}

impl Default for Config {
    fn default() -> (r: Config)
        ensures
            r.is_initial(),
    {
        Config::new()
    }
}

} // verus!
