//! **json_in_type** is a library for *very fast* JSON serialization.
//! It does only serialization, not parsing.
//!
//! A value writes its own JSON text into a byte sink: there is no tree of
//! generic JSON nodes in between. An object or a list whose shape is known
//! when the program is compiled is stored in a type made for it
//! ([`object::JSONObjectEntry`], [`list::JSONListElem`]), which takes no more
//! space than its values.
//!
//! # What is verified
//!
//! Every encodable type implements [`JSONValue`]. Its specification function
//! `json` gives the exact bytes of the value's JSON text, and `write_json`
//! is proved to append exactly those bytes to a [`Sink`]: see
//! [`sink::wrote`] for what is proved of every call, whether it goes through
//! or the sink fails.
//!
//! - [`base_types`]: `null`, booleans, integers, optional values, and
//!   floating-point numbers given by their bits. Every integer is read back
//!   from its text (`lemma_int_round_trip`); a number that is not finite is
//!   `null`.
//! - [`escape`], [`string`]: strings and characters. Every text is read back
//!   from its string literal (`lemma_string_round_trip`).
//! - [`list`], [`object`]: vectors, streams, hash maps, and the chains whose
//!   shape is part of their type. A chain and a vector of the same elements
//!   have the same text (`lemma_chain_matches_vec`,
//!   `lemma_chain_matches_pairs`). A stream that is written to a sink that
//!   fails loses no element (`list::JSONStream`).
//! - [`record`]: what the writer of a struct or of an enumeration emits.
//! - [`utils`]: a sink that takes text only.
//!
//! A type or a sink that is not verified can implement the traits too: it
//! leaves `obeys_json_spec` or `obeys_sink_spec` at its default, and nothing
//! is claimed of it.
pub mod base_types;
pub mod escape;
pub mod list;
pub mod object;
pub mod record;
pub mod sink;
pub mod string;
pub mod utils;
pub mod value;

pub use crate::sink::{Sink, SinkError};
pub use crate::value::{JSONValue, JSON};
