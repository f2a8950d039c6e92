use crate::types::{Attestation, Hash256};
use vstd::prelude::*;

verus! {

/// The RPC methods peers exchange, by wire id.
#[derive(Debug, PartialEq, Eq, Clone, Copy, Structural)]
pub enum RPCMethod {
    Hello,
    Goodbye,
    BeaconBlockRoots,
    BeaconBlockHeaders,
    BeaconBlockBodies,
    Unknown,
}

/// The method with wire id `id`; ids without a method are `Unknown`.
pub open spec fn method_of_id(id: u16) -> RPCMethod {
    if id == 0 {
        RPCMethod::Hello
    } else if id == 1 {
        RPCMethod::Goodbye
    } else if id == 10 {
        RPCMethod::BeaconBlockRoots
    } else if id == 11 {
        RPCMethod::BeaconBlockHeaders
    } else if id == 12 {
        RPCMethod::BeaconBlockBodies
    } else {
        RPCMethod::Unknown
    }
}

/// The wire id of `m`; `Unknown` maps to zero.
pub open spec fn id_of_method(m: RPCMethod) -> u16 {
    match m {
        RPCMethod::Hello => 0,
        RPCMethod::Goodbye => 1,
        RPCMethod::BeaconBlockRoots => 10,
        RPCMethod::BeaconBlockHeaders => 11,
        RPCMethod::BeaconBlockBodies => 12,
        RPCMethod::Unknown => 0,
    }
}

impl From<u16> for RPCMethod {
    fn from(method_id: u16) -> (r: Self)
        ensures
            r == method_of_id(method_id),
    {
        match method_id {
            0 => RPCMethod::Hello,
            1 => RPCMethod::Goodbye,
            10 => RPCMethod::BeaconBlockRoots,
            11 => RPCMethod::BeaconBlockHeaders,
            12 => RPCMethod::BeaconBlockBodies,
            _ => RPCMethod::Unknown,
        }
    }
}

impl vstd::std_specs::convert::FromSpecImpl<u16> for RPCMethod {
    open spec fn obeys_from_spec() -> bool {
        true
    }

    open spec fn from_spec(v: u16) -> Self {
        method_of_id(v)
    }
}

impl RPCMethod {
    /// The wire id of the method.
    pub fn into(self) -> (r: u16)
        ensures
            r == id_of_method(self),
            self != RPCMethod::Unknown ==> method_of_id(r) == self,
    {
        match self {
            RPCMethod::Hello => 0,
            RPCMethod::Goodbye => 1,
            RPCMethod::BeaconBlockRoots => 10,
            RPCMethod::BeaconBlockHeaders => 11,
            RPCMethod::BeaconBlockBodies => 12,
            RPCMethod::Unknown => 0,
        }
    }
}

/// The HELLO request/response handshake message.
#[derive(Debug, Clone, Copy, PartialEq, Eq)]
pub struct HelloMessage {
    /// The network ID of the peer.
    pub network_id: u8,
    /// The peer's last finalized root.
    pub latest_finalized_root: Hash256,
    /// The peer's last finalized epoch.
    pub latest_finalized_epoch: u64,
    /// The peer's last block root.
    pub best_root: Hash256,
    /// The peer's last slot.
    pub best_slot: u64,
}

/// Request a number of beacon block roots from a peer.
#[derive(Debug, Clone, Copy, PartialEq, Eq)]
pub struct BeaconBlockRootsRequest {
    pub start_slot: u64,
    pub count: u64,
}

/// Contains a block root and associated slot.
#[derive(Debug, Clone, Copy, PartialEq, Eq)]
pub struct BlockRootSlot {
    pub block_root: Hash256,
    pub slot: u64,
}

/// Response containing a number of beacon block roots from a peer.
#[derive(Debug, Clone, PartialEq, Eq)]
pub struct BeaconBlockRootsResponse {
    pub roots: Vec<BlockRootSlot>,
}

/// Request a number of beacon block headers from a peer.
#[derive(Debug, Clone, Copy, PartialEq, Eq)]
pub struct BeaconBlockHeadersRequest {
    pub start_root: Hash256,
    pub start_slot: u64,
    pub max_headers: u64,
    pub skip_slots: u64,
}

/// A block header: its slot and the roots it commits to.
#[derive(Debug, Clone, Copy, PartialEq, Eq)]
pub struct BeaconBlockHeader {
    pub slot: u64,
    pub parent_root: Hash256,
    pub state_root: Hash256,
    pub body_root: Hash256,
}

/// Response containing requested block headers.
#[derive(Debug, Clone, PartialEq, Eq)]
pub struct BeaconBlockHeadersResponse {
    pub headers: Vec<BeaconBlockHeader>,
}

/// Request a number of beacon block bodies from a peer.
#[derive(Debug, Clone, Copy, PartialEq, Eq)]
pub struct BeaconBlockBodiesRequest {
    pub block_roots: Hash256,
}

/// A block body: the randomness reveal and the attestations included.
#[derive(Debug, PartialEq, Eq)]
pub struct BeaconBlockBody {
    pub randao_reveal: Vec<u8>,
    pub attestations: Vec<Attestation>,
}

/// Response containing the list of requested beacon block bodies.
#[derive(Debug, PartialEq, Eq)]
pub struct BeaconBlockBodiesResponse {
    pub block_bodies: Vec<BeaconBlockBody>,
}

#[derive(Debug, Clone)]
pub enum RPCRequest {
    Hello(HelloMessage),
    Goodbye(u64),
    BeaconBlockRoots(BeaconBlockRootsRequest),
    BeaconBlockHeaders(BeaconBlockHeadersRequest),
    BeaconBlockBodies(BeaconBlockBodiesRequest),
}

#[derive(Debug)]
pub enum RPCResponse {
    Hello(HelloMessage),
    BeaconBlockRoots(BeaconBlockRootsResponse),
    BeaconBlockHeaders(BeaconBlockHeadersResponse),
    BeaconBlockBodies(BeaconBlockBodiesResponse),
}

} // verus!
