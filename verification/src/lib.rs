//! Verified storage core of an RDF store for variation graphs: inline small
//! strings, string hashes, the compact encoding of RDF terms and its binary
//! serialization; quad stores over an ordered key-value backend and in
//! memory, with transactions, bulk loading and fresh blank nodes for loaded
//! documents, and the canonical forms that decide whether two in-memory
//! datasets are isomorphic; and the RDF view of a variation graph, generated
//! for quad patterns.

pub mod endian;
pub mod small_string;
pub mod str_hash;
pub mod numeric_encoder;
pub mod error;
pub mod binary_encoder;
pub mod utils;
pub mod syntax;
pub mod model;
pub mod xsd;
pub mod term_encoder;
pub mod backend;
pub mod store;
pub mod term_decoder;
pub mod transaction;
pub mod pattern;
pub mod text;
pub mod vg;
pub mod storage_generator;
pub mod memory;
pub mod bulk;
pub mod relabel;
pub mod isomorphism;
