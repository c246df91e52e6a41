//! A CSS syntax parser.
//!
//! The text is normalized ([`source`]) and read into tokens ([`tokenizer`],
//! after the grammar in [`lexical`]). The tokens are kept with the place of
//! each and with the closing token of each block ([`token_list`]). A
//! delimited parser walks them ([`parser`]) and hands rules and
//! declarations to parsers that the caller supplies
//! ([`rules_and_declarations`]); those in [`syntax`] and
//! [`qualified_rules`] keep everything, as the component values of [`ast`]
//! that [`tree`] makes of the tokens.
//! Component values are written back as text by [`serializer`] and as JSON
//! by [`json`], and [`nth`] reads the `An+B` notation in them.
//!
//! A rule whose block is left open at the end of the text is an error of
//! that rule, as is an at-rule that ends with a bracket open in its
//! prelude.
//!
//! What is written is read back: [`reading`], [`round_trip`], [`token_laws`]
//! and [`tree_laws`] hold the proof for the tokens, [`value_laws`] for the
//! component values.

pub mod ast;
pub mod chars;
pub mod json;
pub mod lexical;
pub mod nth;
pub mod parser;
pub mod qualified_rules;
pub mod reading;
pub mod round_trip;
pub mod rules_and_declarations;
pub mod serializer;
pub mod source;
pub mod syntax;
pub mod token;
pub mod token_laws;
pub mod token_list;
pub mod tokenizer;
pub mod tree;
pub mod tree_laws;
pub mod value_laws;
