use beacon_core::bitfield::BooleanBitfield;
use beacon_core::inductor::DepositInput;
use beacon_core::ssz::{decode_u64, ssz_encode_fork, DecodeError};
use beacon_core::tree_hash_cache::{Error as TreeHashError, TreeHashCache};
use beacon_core::types::{
    AttestationData, BeaconState, Crosslink, Fork, PendingAttestation, StatusFlags, Validator, ValidatorStatus,
};

struct XorShift {
    state: u64,
}

impl XorShift {
    fn from_seed(seed: [u8; 16]) -> Self {
        let mut s: u64 = 0;
        for b in seed.iter() {
            s = s.wrapping_mul(31).wrapping_add(*b as u64);
        }
        XorShift { state: s | 1 }
    }

    fn next_u64(&mut self) -> u64 {
        let mut x = self.state;
        x ^= x << 13;
        x ^= x >> 7;
        x ^= x << 17;
        self.state = x;
        x
    }

    fn hash(&mut self) -> [u8; 32] {
        let mut h = [0u8; 32];
        for b in h.iter_mut() {
            *b = self.next_u64() as u8;
        }
        h
    }

    fn bytes(&mut self, n: usize) -> Vec<u8> {
        (0..n).map(|_| self.next_u64() as u8).collect()
    }
}

fn random_fork(rng: &mut XorShift) -> Fork {
    Fork { previous_version: rng.next_u64(), current_version: rng.next_u64(), epoch: rng.next_u64() }
}

fn random_validator(rng: &mut XorShift) -> Validator {
    Validator {
        pubkey: rng.bytes(48),
        withdrawal_credentials: rng.hash(),
        randao_commitment: rng.hash(),
        randao_layers: rng.next_u64(),
        status: ValidatorStatus::Active,
        latest_status_change_slot: rng.next_u64(),
        exit_count: rng.next_u64(),
        activation_epoch: rng.next_u64(),
        exit_epoch: rng.next_u64(),
        withdrawal_epoch: rng.next_u64(),
        penalized_epoch: rng.next_u64(),
        status_flags: Some(StatusFlags::InitiatedExit),
    }
}

fn random_crosslink(rng: &mut XorShift) -> Crosslink {
    Crosslink { epoch: rng.next_u64(), shard_block_root: rng.hash() }
}

fn random_pending(rng: &mut XorShift) -> PendingAttestation {
    PendingAttestation {
        data: AttestationData {
            slot: rng.next_u64(),
            shard: rng.next_u64(),
            beacon_block_root: rng.hash(),
            epoch_boundary_root: rng.hash(),
            shard_block_root: rng.hash(),
            latest_crosslink: random_crosslink(rng),
            justified_epoch: rng.next_u64(),
            justified_block_root: rng.hash(),
        },
        aggregation_bitfield: BooleanBitfield::from_bytes(rng.bytes(3)),
        custody_bitfield: BooleanBitfield::from_bytes(rng.bytes(2)),
        inclusion_slot: rng.next_u64(),
    }
}

fn random_state(rng: &mut XorShift) -> BeaconState {
    BeaconState {
        slot: rng.next_u64(),
        genesis_time: rng.next_u64(),
        fork: random_fork(rng),
        validator_registry: (0..3).map(|_| random_validator(rng)).collect(),
        validator_balances: (0..3).map(|_| rng.next_u64()).collect(),
        validator_registry_update_epoch: rng.next_u64(),
        latest_randao_mixes: (0..4).map(|_| rng.hash()).collect(),
        previous_epoch_start_shard: rng.next_u64(),
        current_epoch_start_shard: rng.next_u64(),
        previous_calculation_epoch: rng.next_u64(),
        current_calculation_epoch: rng.next_u64(),
        previous_epoch_seed: rng.hash(),
        current_epoch_seed: rng.hash(),
        previous_justified_epoch: rng.next_u64(),
        justified_epoch: rng.next_u64(),
        justification_bitfield: rng.next_u64(),
        finalized_epoch: rng.next_u64(),
        latest_crosslinks: (0..2).map(|_| random_crosslink(rng)).collect(),
        latest_block_roots: (0..4).map(|_| rng.hash()).collect(),
        latest_penalized_balances: (0..4).map(|_| rng.next_u64()).collect(),
        latest_attestations: (0..2).map(|_| random_pending(rng)).collect(),
        batched_block_roots: (0..1).map(|_| rng.hash()).collect(),
    }
}

#[test]
fn beacon_state_test_ssz_round_trip() {
    let mut rng = XorShift::from_seed([42; 16]);
    let value = random_state(&mut rng);

    let bytes = value.ssz_encode();
    let (decoded, _) = BeaconState::ssz_decode(&bytes, 0).unwrap();

    assert_eq!(value, decoded);
}

#[test]
fn test_hash_tree_root() {
    let mut rng = XorShift::from_seed([42; 16]);
    let value = random_state(&mut rng);

    let result = value.hash_tree_root();

    assert_eq!(result.len(), 32);
}

#[test]
fn fork_test_ssz_round_trip() {
    let mut rng = XorShift::from_seed([42; 16]);
    let value = random_fork(&mut rng);

    let bytes = ssz_encode_fork(&value);
    let (decoded, _) = Fork::ssz_decode(&bytes, 0).unwrap();

    assert_eq!(value, decoded);
}

#[test]
fn test_hash_tree_root_internal() {
    let mut rng = XorShift::from_seed([42; 16]);
    let value = random_fork(&mut rng);

    let result = value.hash_tree_root_internal();

    assert_eq!(result.len(), 32);
}

#[test]
fn uint_bounds() {
    for n in [0u64, 1, 255, 256, u64::MAX - 1, u64::MAX] {
        let f = Fork { previous_version: n, current_version: n, epoch: n };
        let bytes = ssz_encode_fork(&f);
        assert_eq!(decode_u64(&bytes, 0), Ok((n, 8)));
    }
    let max = ssz_encode_fork(&Fork { previous_version: u64::MAX, current_version: 0, epoch: 0 });
    assert_eq!(&max[0..8], &[255u8; 8]);
}

#[test]
fn uint_random() {
    let mut rng = XorShift::from_seed([7; 16]);
    for _ in 0..64 {
        let f = random_fork(&mut rng);
        let bytes = ssz_encode_fork(&f);
        assert_eq!(bytes.len(), 24);
        assert_eq!(decode_u64(&bytes, 8), Ok((f.current_version, 16)));
        assert_eq!(Fork::ssz_decode(&bytes, 0), Ok((f, 24)));
    }
    let one = ssz_encode_fork(&Fork { previous_version: 0x0102030405060708, current_version: 0, epoch: 0 });
    assert_eq!(&one[0..8], &[8, 7, 6, 5, 4, 3, 2, 1]);
}

#[test]
fn uint_wrong_length() {
    assert_eq!(decode_u64(&[1, 2, 3], 0), Err(DecodeError::TooShort));
    assert_eq!(decode_u64(&[0; 8], 1), Err(DecodeError::TooShort));
    assert_eq!(Fork::ssz_decode(&[0; 23], 0), Err(DecodeError::TooShort));
}

#[test]
fn minimal_nil() {
    let state = BeaconState {
        slot: 0,
        genesis_time: 0,
        fork: Fork::default(),
        validator_registry: vec![],
        validator_balances: vec![],
        validator_registry_update_epoch: 0,
        latest_randao_mixes: vec![],
        previous_epoch_start_shard: 0,
        current_epoch_start_shard: 0,
        previous_calculation_epoch: 0,
        current_calculation_epoch: 0,
        previous_epoch_seed: [0; 32],
        current_epoch_seed: [0; 32],
        previous_justified_epoch: 0,
        justified_epoch: 0,
        justification_bitfield: 0,
        finalized_epoch: 0,
        latest_crosslinks: vec![],
        latest_block_roots: vec![],
        latest_penalized_balances: vec![],
        latest_attestations: vec![],
        batched_block_roots: vec![],
    };
    let bytes = state.ssz_encode();
    assert!(bytes.iter().all(|b| *b == 0));
    let (decoded, end) = BeaconState::ssz_decode(&bytes, 0).unwrap();
    assert_eq!(end, bytes.len());
    assert_eq!(decoded, state);
    assert!(BeaconState::ssz_decode(&bytes[..bytes.len() - 1], 0).is_err());
}

#[test]
fn canonical_root_matches_hash_tree_root() {
    let mut rng = XorShift::from_seed([3; 16]);
    let s = random_state(&mut rng);
    assert_eq!(s.canonical_root().to_vec(), s.hash_tree_root());
    let mut t = random_state(&mut XorShift::from_seed([3; 16]));
    assert_eq!(t.hash_tree_root(), s.hash_tree_root());
    t.slot ^= 1;
    assert_ne!(t.hash_tree_root(), s.hash_tree_root());
}

#[test]
fn state_tree_incremental_matches_fresh() {
    let mut rng = XorShift::from_seed([42; 16]);
    let mut state = random_state(&mut rng);
    let mut cache = state.build_tree_hash_cache();
    assert_eq!(cache.root().unwrap(), state.tree_root());
    let before = state.tree_root();
    state.validator_balances[1] = state.validator_balances[1].wrapping_add(1);
    state.slot = state.slot.wrapping_add(3);
    state.refresh_tree_hash_cache(&mut cache).unwrap();
    let fresh = state.build_tree_hash_cache();
    assert_eq!(cache.clone().into_merkle_tree(), fresh.into_merkle_tree());
    assert_ne!(cache.root().unwrap(), before);
    assert_eq!(cache.root().unwrap(), state.tree_root());
    assert_eq!(state.tree_hash_leaves().len(), 32 * 32);
    assert_eq!(state.encode_field(0), state.slot.to_le_bytes().to_vec());
    let mut via_trait = TreeHashCache::new(&state).unwrap();
    state.slot = state.slot.wrapping_add(1);
    via_trait.update(&state).unwrap();
    assert_eq!(via_trait.root().unwrap(), state.tree_root());
    let mut empty = TreeHashCache::from_bytes(vec![], false, None).unwrap();
    assert_eq!(empty.update(&state), Err(TreeHashError::CacheNotInitialized));
}

#[test]
fn deposit_input_test_ssz_round_trip() {
    let mut rng = XorShift::from_seed([42; 16]);
    let value = DepositInput {
        pubkey: rng.bytes(48),
        withdrawal_credentials: rng.hash(),
        randao_commitment: rng.hash(),
        proof_of_possession: rng.bytes(96),
    };

    let bytes = value.ssz_encode();
    let (decoded, _) = DepositInput::ssz_decode(&bytes, 0).unwrap();

    assert_eq!(value, decoded);
}
