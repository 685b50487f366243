//! A verified interpreter for a self-modifying string-rewriting language.
//!
//! A program is a sequence over the four-symbol alphabet `{I, C, F, P}`.
//! The driver repeatedly parses a pattern and a template from the front of
//! the sequence, matches the pattern against the remainder, and splices a
//! replacement built from the template back in.  While parsing, a dedicated
//! escape form emits seven-symbol chunks on a side channel.

#![verifier::loop_isolation(false)]

pub mod codec;
pub mod dna;
pub mod engine;
pub mod grid;
pub mod parse;

pub use codec::asnat;
pub use codec::decode_nat;
pub use codec::protect;
pub use codec::quote;
pub use codec::try_protect;
pub use codec::Finish;
pub use dna::Base;
pub use dna::DNA;
pub use engine::matchreplace;
pub use engine::replace;
pub use engine::step;
pub use parse::consts;
pub use parse::pattern;
pub use parse::template;
pub use parse::PItem;
pub use parse::Pattern;
pub use parse::TItem;
pub use parse::Template;
