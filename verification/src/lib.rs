//! Static analysis for a rule-based policy language.
//!
//! Given what a policy engine found in a source text, and a knowledge base
//! of the rules loaded so far, the library produces what an editor shows:
//! the errors of the parse, the signature and location of every rule, and
//! the calls that no known rule can answer. Nothing here parses or matches:
//! the engine's parse and its matcher's answers come in as plain data.
//!
//! - `sources`: origins, and the registry of source texts.
//! - `terms`, `rules`, `parser`: the statements of a parsed text.
//! - `kb`: the knowledge base, and loading and unloading files.
//! - `diagnostics`: parse errors and unmatched calls.
//! - `inspect`: signature, variables and location of each rule.
//! - `polar`: the analyzer that an editor talks to.
//! - `text`: slicing and joining of strings by characters.

pub mod diagnostics;
pub mod inspect;
pub mod kb;
pub mod parser;
pub mod polar;
pub mod rules;
pub mod sources;
pub mod terms;
pub mod text;
