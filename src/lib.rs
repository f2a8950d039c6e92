pub mod attestation;
pub mod bitfield;
pub mod codec;
pub mod duties;
pub mod epoch;
pub mod execution;
pub mod hashing;
pub mod inductor;
pub mod justification;
pub mod merkle;
pub mod offsets;
pub mod registry;
pub mod rpc;
pub mod shuffle;
pub mod ssz;
pub mod state;
pub mod state_root;
pub mod tree_hash_cache;
pub mod types;
pub mod validator_store;
