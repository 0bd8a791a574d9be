//! Decoder for Hearts of Iron IV save files.
//!
//! A save is a nested key-value text. This crate turns its bytes into
//! tokens ([`lexer`]), the tokens into a tree ([`builder`], [`tree`]), the
//! tree into typed records ([`schema`], [`model`]), and then reconciles the
//! records with data that lives elsewhere in the same file ([`directory`],
//! [`reconcile`]). [`decode`] runs these steps in one pass, [`encode`] writes
//! a tree back as text, [`scan`] gathers facts from the raw text of a save,
//! and [`activity`] holds the policy by which a report picks countries and
//! events. [`laws`] states what holds of the decoder as a whole.
//!
//! Every function carries a contract, and Verus proves the function against
//! it. Four calls leave the crate: to `std::str::from_utf8`, to
//! `hoi4save::CountryTag::create`, to `hoi4save::Hoi4File::from_slice` and to
//! the `regex` crate. Their contracts are stated without proof, and the
//! documentation of each says what it claims.

pub mod activity;
pub mod builder;
pub mod decimal;
pub mod decode;
pub mod directory;
pub mod encode;
pub mod error;
pub mod laws;
pub mod lexer;
pub mod model;
pub mod reconcile;
pub mod scan;
pub mod schema;
pub mod tree;
