//! Core of a binary cache for build artifacts: the codecs of the artifact
//! metadata and its hashes, signature checking against trusted keys, storage
//! layout, and the pairing of uploaded halves.

pub mod backend;
pub mod error;
pub mod keyed;
pub mod models;
pub mod nixutils;
pub mod outside;
pub mod routes;
pub mod text;
pub mod upload;
