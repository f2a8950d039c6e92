use crate::bitfield::BooleanBitfield;
use vstd::prelude::*;

verus! {

/// A 32-byte hash.
pub type Hash256 = [u8; 32];

/// The chain's configuration constants.
#[derive(Debug, Clone, Copy, PartialEq, Eq)]
pub struct ChainSpec {
    pub shard_count: u64,
    pub target_committee_size: u64,
    pub epoch_length: u64,
    pub genesis_epoch: u64,
    pub min_attestation_inclusion_delay: u64,
    pub entry_exit_delay: u64,
    pub max_deposit_amount: u64,
    pub ejection_balance: u64,
    pub max_balance_churn_quotient: u64,
    pub max_withdrawals_per_epoch: u64,
    pub min_validator_withdrawal_epochs: u64,
    pub latest_randao_mixes_length: usize,
    pub latest_block_roots_length: usize,
    pub latest_penalized_exit_length: usize,
    pub base_reward_quotient: u64,
    pub inactivity_penalty_quotient: u64,
    pub zero_hash: Hash256,
}

/// Most validators a registry holds.
pub const MAX_VALIDATORS: usize = 16777216;

/// Largest deposit amount a configuration may set (so that balance sums fit in 64 bits).
pub const MAX_DEPOSIT_BOUND: u64 = 274877906944;

impl ChainSpec {
    /// Every divisor is positive and every amount small enough for the arithmetic to fit.
    pub open spec fn wf(&self) -> bool {
        &&& self.shard_count > 0
        &&& self.shard_count <= 0x8000_0000
        &&& self.target_committee_size > 0
        &&& self.epoch_length > 0
        &&& self.epoch_length <= 0x8000_0000
        &&& self.entry_exit_delay <= 0x1_0000_0000
        &&& self.min_attestation_inclusion_delay <= 0x1_0000_0000
        &&& self.min_validator_withdrawal_epochs <= 0x1_0000_0000
        &&& self.max_deposit_amount <= MAX_DEPOSIT_BOUND
        &&& self.max_balance_churn_quotient > 0
        &&& self.max_balance_churn_quotient <= 0x1_0000_0000
        &&& self.latest_randao_mixes_length > 0
        &&& self.latest_block_roots_length > 0
        &&& self.latest_block_roots_length <= 0x80_0000
        &&& self.latest_penalized_exit_length > 0
        &&& self.latest_penalized_exit_length <= 0x1_0000_0000
        &&& self.base_reward_quotient > 0
        &&& self.inactivity_penalty_quotient > 0
    }

    /// The standard configuration.
    pub fn foundation() -> (r: Self)
        ensures
            r.wf(),
            r.epoch_length == 64,
            r.shard_count == 1024,
    {
        ChainSpec {
            shard_count: 1024,
            target_committee_size: 128,
            epoch_length: 64,
            genesis_epoch: 0,
            min_attestation_inclusion_delay: 4,
            entry_exit_delay: 256,
            max_deposit_amount: 32_000_000_000,
            ejection_balance: 16_000_000_000,
            max_balance_churn_quotient: 32,
            max_withdrawals_per_epoch: 4,
            min_validator_withdrawal_epochs: 256,
            latest_randao_mixes_length: 8192,
            latest_block_roots_length: 8192,
            latest_penalized_exit_length: 8192,
            base_reward_quotient: 32,
            inactivity_penalty_quotient: 16777216,
            zero_hash: [0u8; 32],
        }
    }
}

/// Flags recording a validator's progress towards withdrawal.
#[derive(Debug, Clone, Copy, PartialEq, Eq, Structural)]
pub enum StatusFlags {
    InitiatedExit,
    Withdrawable,
}

/// A validator's lifecycle tag as set at induction.
#[derive(Debug, Clone, Copy, PartialEq, Eq, Structural)]
pub enum ValidatorStatus {
    PendingActivation,
    Active,
    PendingExit,
    PendingWithdraw,
    Withdrawn,
    Penalized,
}

/// An entry of the validator registry.
#[derive(Debug, Clone, PartialEq, Eq)]
pub struct Validator {
    pub pubkey: Vec<u8>,
    pub withdrawal_credentials: Hash256,
    pub randao_commitment: Hash256,
    pub randao_layers: u64,
    pub status: ValidatorStatus,
    pub latest_status_change_slot: u64,
    pub exit_count: u64,
    pub activation_epoch: u64,
    pub exit_epoch: u64,
    pub withdrawal_epoch: u64,
    pub penalized_epoch: u64,
    pub status_flags: Option<StatusFlags>,
}

/// The record of a shard's latest crosslink.
#[derive(Debug, Clone, Copy, PartialEq, Eq)]
pub struct Crosslink {
    pub epoch: u64,
    pub shard_block_root: Hash256,
}

/// What an attestation votes for.
#[derive(Debug, Clone, Copy, PartialEq, Eq)]
pub struct AttestationData {
    pub slot: u64,
    pub shard: u64,
    pub beacon_block_root: Hash256,
    pub epoch_boundary_root: Hash256,
    pub shard_block_root: Hash256,
    pub latest_crosslink: Crosslink,
    pub justified_epoch: u64,
    pub justified_block_root: Hash256,
}

/// A vote of a committee with the aggregate signature of those who signed it.
#[derive(Debug, PartialEq, Eq)]
pub struct Attestation {
    pub data: AttestationData,
    pub aggregation_bitfield: BooleanBitfield,
    pub custody_bitfield: BooleanBitfield,
    pub aggregate_signature: Vec<u8>,
}

/// An attestation included in the chain, waiting for epoch processing.
#[derive(Debug, PartialEq, Eq)]
pub struct PendingAttestation {
    pub data: AttestationData,
    pub aggregation_bitfield: BooleanBitfield,
    pub custody_bitfield: BooleanBitfield,
    pub inclusion_slot: u64,
}

/// The fork versions in force.
#[derive(Debug, Clone, Copy, PartialEq, Eq, Default, Structural)]
pub struct Fork {
    pub previous_version: u64,
    pub current_version: u64,
    pub epoch: u64,
}

/// The root aggregate of consensus state.
#[derive(Debug, PartialEq, Eq)]
pub struct BeaconState {
    pub slot: u64,
    pub genesis_time: u64,
    pub fork: Fork,
    pub validator_registry: Vec<Validator>,
    pub validator_balances: Vec<u64>,
    pub validator_registry_update_epoch: u64,
    pub latest_randao_mixes: Vec<Hash256>,
    pub previous_epoch_start_shard: u64,
    pub current_epoch_start_shard: u64,
    pub previous_calculation_epoch: u64,
    pub current_calculation_epoch: u64,
    pub previous_epoch_seed: Hash256,
    pub current_epoch_seed: Hash256,
    pub previous_justified_epoch: u64,
    pub justified_epoch: u64,
    pub justification_bitfield: u64,
    pub finalized_epoch: u64,
    pub latest_crosslinks: Vec<Crosslink>,
    pub latest_block_roots: Vec<Hash256>,
    pub latest_penalized_balances: Vec<u64>,
    pub latest_attestations: Vec<PendingAttestation>,
    pub batched_block_roots: Vec<Hash256>,
}

impl BeaconState {
    /// The registry and balances are parallel, ring buffers have their configured lengths and
    /// start shards are valid shards.
    pub open spec fn wf(&self, spec: &ChainSpec) -> bool {
        &&& spec.wf()
        &&& self.validator_balances@.len() == self.validator_registry@.len()
        &&& self.validator_registry@.len() <= MAX_VALIDATORS
        &&& self.latest_randao_mixes@.len() == spec.latest_randao_mixes_length
        &&& self.latest_block_roots@.len() == spec.latest_block_roots_length
        &&& self.latest_penalized_balances@.len() == spec.latest_penalized_exit_length
        &&& self.latest_crosslinks@.len() == spec.shard_count
        &&& self.previous_epoch_start_shard < spec.shard_count
        &&& self.current_epoch_start_shard < spec.shard_count
    }
}

/// A withdrawal of `amount` from validator `validator_index` to `address`.
#[derive(Debug, Clone, Copy, PartialEq, Eq)]
pub struct Withdrawal {
    pub index: u64,
    pub validator_index: u64,
    pub address: [u8; 20],
    pub amount: u64,
}

/// The network parameters of the first chain configuration.
#[derive(Debug, Clone, Copy, PartialEq, Eq, Structural)]
pub struct Config {
    pub attester_count: u64,
    pub max_validators: u64,
    pub shard_count: u16,
    pub notaries_per_crosslink: u16,
    pub default_balance: u64,
    pub eject_balance: u64,
}

impl Config {
    /// The standard parameters.
    pub fn standard() -> (r: Self)
        ensures
            r == (Config {
                attester_count: 32,
                max_validators: 16777216,
                shard_count: 20,
                notaries_per_crosslink: 100,
                default_balance: 32000,
                eject_balance: 16000,
            }),
    {
        Config {
            attester_count: 32,
            max_validators: 16777216,
            shard_count: 20,
            notaries_per_crosslink: 100,
            default_balance: 32000,
            eject_balance: 16000,
        }
    }
}

} // verus!
