//! Turns a table of localization strings into one nested tree per
//! language.
//!
//! A table row holds a dotted key (`home.header.title`) and one text per
//! language. `path` splits keys into segments, `builder` folds the rows of
//! one language into a tree, `merge` says what happens where two rows meet,
//! `canon` prunes a tree against the key paths that the table declares,
//! `table` puts the languages of a table together, and `json` renders the
//! result. `tree` holds the mathematical model that the contracts speak
//! of, `node` the executable tree, and `laws` what is proved of whole
//! tables.

pub mod builder;
pub mod canon;
pub mod json;
pub mod laws;
pub mod merge;
pub mod node;
pub mod path;
pub mod table;
pub mod tree;
