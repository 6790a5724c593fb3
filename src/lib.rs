//! A morphological affix-rule engine: a dictionary of base words tagged with
//! flags, a store of prefix and suffix rule groups keyed by flag, the
//! application of those rules to words, and an inverse index from inflected
//! forms back to their base words.
pub mod affix;
pub mod assoc;
pub mod dictionary;
pub mod full_index;
pub mod lookup;
pub mod pattern;
pub mod text;

pub use affix::{AffFile, AffixError, AffixKind, Rule, RuleGroup, anchored_pattern, rule_form};
pub use dictionary::Dictionary;
pub use full_index::{FullIndex, format_record, generate_full_dictionary, read_full_dictionary};
pub use lookup::{LookupResult, capitalize, resolve, resolve_flags};
