//! Conductor, reduction-tree and witness logic of the distributed prover.
//!
//! Everything in this crate is plain computation: it decides what to split,
//! dispatch, fold, name, hash and report. Moving bytes, spawning processes and
//! proving circuits is left to the binaries around it.

pub mod account_family_native;
pub mod account_family_tree;
pub mod big;
pub mod blob_binding;
pub mod blob_encode;
pub mod chunk_chain;
pub mod clock;
pub mod conductor;
pub mod coordinator;
pub mod digest;
pub mod empty_witness;
pub mod events;
pub mod hash;
pub mod kzg;
pub mod kzg_setup;
pub mod l5segment;
pub mod l6drive;
pub mod leaf_binding;
pub mod ordering;
pub mod polynomial;
pub mod prestate;
pub mod prestate_store;
pub mod prover_node;
pub mod report;
pub mod text;
pub mod text_map;
