//! The distributed-prover conductor: block queue, chunk dispatch, witness
//! resolution, proof store and the cross-machine fold.

pub mod storage;
pub mod fold;
pub mod queue;
pub mod witness;
pub mod dispatch;
pub mod base64;
pub mod json;
pub mod pubsub;
pub mod pubsub_native;
