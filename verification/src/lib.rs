//! A compact, invertible grammar ("brex") for strings made of a literal
//! preamble/postamble plus repeated, delimiter-separated segments whose
//! variants share a stem and often differ only by a trailing integer.
//!
//! The encoder discovers repeated structure in a raw string and folds it
//! into the grammar model; the parser reads grammar text back into the
//! model; the expander re-linearizes the model into the concrete string.
//! Every operation carries an exact functional contract, and the laws
//! module proves how they compose: round trip, serialization fixpoint,
//! numeric merge correctness and order invariance.

pub mod alphabet;
pub mod decode;
pub mod encode;
pub mod hash;
pub mod laws;
pub mod models;
pub mod parse;
pub mod util;

pub use decode::decode;
pub use encode::encode;
pub use encode::EncodeError;
pub use models::brex::Brex;
pub use models::group::Group;
pub use models::numeric::Numeric;
pub use models::suffix::Suffix;
pub use util::split_inclusive_start;
pub use util::SplitInclusiveStart;
