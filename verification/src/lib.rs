//! Parsing and serialization of EDI X12 interchanges (dialect 004010).
//!
//! An interchange is tokenized into tagged segments, the segments of each
//! transaction set are matched against a declarative loop grammar by a greedy,
//! one-token-lookahead engine, and the result is framed by the functional-group
//! and interchange envelopes. Serialization runs the same steps in reverse.
//!
//! Every executable function carries a contract stated over the mathematical
//! models in this crate, and the laws that connect parsing and serialization
//! are stated and proved as public proof functions.
//!
//! - [`bytes`], [`numeral`]: byte strings and decimal numerals.
//! - [`segment`], [`codec`]: segments, their text, and declared field shapes.
//! - [`header`], [`tokenizer`]: the interchange header and the tokenizer.
//! - [`grammar`], [`engine`], [`conformance`]: loop grammars, the loop
//!   engine, and the instances that it reads back unchanged.
//! - [`envelope`], [`v004010`]: the envelope assembler, the interchange, and
//!   the grammars of the transaction sets.
//! - [`laws`]: round trip, cardinality, optional absence, greedy repetition.
//! - [`util`]: comparison of interchanges by payload.

pub mod bytes;
pub mod codec;
pub mod conformance;
pub mod engine;
pub mod envelope;
pub mod error;
pub mod grammar;
pub mod header;
pub mod laws;
pub mod numeral;
pub mod segment;
pub mod tokenizer;
pub mod util;
pub mod v004010;
