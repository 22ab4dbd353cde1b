//! Rewrites pixel lengths inside style declarations into root-relative
//! (rem) lengths, selectively, driven by glob-like property-name patterns
//! and selector exclusion rules.
//!
//! - `filter_prop_list` classifies raw property patterns into eight
//!   categories;
//! - `transform` holds the configuration, the compiled matcher, the
//!   selector exclusion check, the tree walk and the printer;
//! - `rewrite` scans one value text for pixel numbers while protecting
//!   quoted strings and `url(...)`/`var(...)` spans;
//! - `numeric` converts one pixel number exactly, in integer arithmetic;
//! - `ast` is the style-sheet tree and its mathematical views;
//! - `laws` states the matcher and scanner laws proved once for all
//!   inputs;
//! - `selector_regex` is the trusted boundary to the regex engine;
//! - `strutil` holds shared character-level helpers.

pub mod ast;
pub mod filter_prop_list;
pub mod laws;
pub mod numeric;
pub mod rewrite;
pub mod selector_regex;
pub mod strutil;
pub mod transform;
