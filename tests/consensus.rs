use beacon_core::attestation::{select_winning_root, AttestationValidationError, WinningRoot, WinningRootError};
use beacon_core::bitfield::BooleanBitfield;
use beacon_core::inductor::{DepositInput, ValidatorInductionError, ValidatorInductor};
use beacon_core::state::{get_active_validator_indices, CommitteesError};
use beacon_core::types::{
    Attestation, AttestationData, BeaconState, ChainSpec, Crosslink, Fork, PendingAttestation, StatusFlags, Validator,
    ValidatorStatus,
};

fn small_spec() -> ChainSpec {
    let mut spec = ChainSpec::foundation();
    spec.epoch_length = 4;
    spec.shard_count = 8;
    spec.target_committee_size = 1;
    spec.latest_randao_mixes_length = 16;
    spec.latest_block_roots_length = 16;
    spec.latest_penalized_exit_length = 16;
    spec.entry_exit_delay = 2;
    spec.min_validator_withdrawal_epochs = 3;
    spec
}

fn validator(i: u8) -> Validator {
    Validator {
        pubkey: vec![i; 48],
        withdrawal_credentials: [0; 32],
        randao_commitment: [0; 32],
        randao_layers: 0,
        status: ValidatorStatus::Active,
        latest_status_change_slot: 0,
        exit_count: 0,
        activation_epoch: 0,
        exit_epoch: u64::MAX,
        withdrawal_epoch: u64::MAX,
        penalized_epoch: u64::MAX,
        status_flags: None,
    }
}

fn state_with(validators: Vec<Validator>, spec: &ChainSpec) -> BeaconState {
    let n = validators.len();
    BeaconState {
        slot: 0,
        genesis_time: 0,
        fork: Fork::default(),
        validator_registry: validators,
        validator_balances: vec![spec.max_deposit_amount; n],
        validator_registry_update_epoch: 0,
        latest_randao_mixes: vec![[0; 32]; spec.latest_randao_mixes_length],
        previous_epoch_start_shard: 0,
        current_epoch_start_shard: 0,
        previous_calculation_epoch: 0,
        current_calculation_epoch: 0,
        previous_epoch_seed: [1; 32],
        current_epoch_seed: [2; 32],
        previous_justified_epoch: 0,
        justified_epoch: 0,
        justification_bitfield: 0,
        finalized_epoch: 0,
        latest_crosslinks: vec![Crosslink { epoch: 0, shard_block_root: [0; 32] }; spec.shard_count as usize],
        latest_block_roots: vec![[0; 32]; spec.latest_block_roots_length],
        latest_penalized_balances: vec![0; spec.latest_penalized_exit_length],
        latest_attestations: vec![],
        batched_block_roots: vec![],
    }
}

fn state(n: u8, spec: &ChainSpec) -> BeaconState {
    state_with((0..n).map(validator).collect(), spec)
}

#[test]
fn committee_count_bounds() {
    let spec = small_spec();
    let s = state(8, &spec);
    assert_eq!(s.get_epoch_committee_count(0, &spec), 4);
    assert_eq!(s.get_epoch_committee_count(8, &spec), 8);
    assert_eq!(s.get_epoch_committee_count(1000, &spec), 8);
    assert_eq!(s.get_current_epoch_committee_count(&spec), 8);
}

#[test]
fn committees_partition_active_validators() {
    let spec = small_spec();
    let mut validators: Vec<Validator> = (0..10).map(validator).collect();
    validators[3].activation_epoch = 5;
    validators[7].exit_epoch = 0;
    let s = state_with(validators, &spec);
    let shuffling = s.get_shuffling([9; 32], 0, &spec);
    let mut all: Vec<usize> = shuffling.concat();
    all.sort();
    assert_eq!(all, get_active_validator_indices(&s.validator_registry, 0));
    assert_eq!(all, vec![0, 1, 2, 4, 5, 6, 8, 9]);
    let sizes: Vec<usize> = shuffling.iter().map(|c| c.len()).collect();
    assert!(sizes.iter().max().unwrap() - sizes.iter().min().unwrap() <= 1);
}

#[test]
fn crosslink_committees_cover_epoch() {
    let spec = small_spec();
    let s = state(8, &spec);
    let mut members = vec![];
    for slot in 0..4 {
        let cs = s.get_crosslink_committees_at_slot(slot, false, &spec).unwrap();
        assert_eq!(cs.len(), 2);
        assert_eq!(cs[0].1, 2 * slot);
        for (c, _) in cs {
            members.extend(c);
        }
    }
    members.sort();
    assert_eq!(members, (0..8).collect::<Vec<usize>>());
    assert_eq!(s.get_crosslink_committees_at_slot(4, false, &spec).unwrap_err(), CommitteesError::InvalidEpoch);
    let p = s.get_beacon_proposer_index(1, &spec).unwrap();
    let first = &s.get_crosslink_committees_at_slot(1, false, &spec).unwrap()[0].0;
    assert_eq!(p, first[1 % first.len()]);
}

#[test]
fn proposer_needs_validators() {
    let spec = small_spec();
    let s = state(0, &spec);
    assert_eq!(s.get_beacon_proposer_index(0, &spec), Err(CommitteesError::InsufficientNumberOfValidators));
}

fn attestation_for(s: &BeaconState, spec: &ChainSpec, slot: u64) -> Attestation {
    let cs = s.get_crosslink_committees_at_slot(slot, false, spec).unwrap();
    let (committee, shard) = &cs[0];
    let mut bits = BooleanBitfield::new();
    for i in 0..committee.len() {
        bits.set_bit(&i, &true);
    }
    Attestation {
        data: AttestationData {
            slot,
            shard: *shard,
            beacon_block_root: [0; 32],
            epoch_boundary_root: [0; 32],
            shard_block_root: [0; 32],
            latest_crosslink: Crosslink { epoch: 0, shard_block_root: [0; 32] },
            justified_epoch: 0,
            justified_block_root: [0; 32],
        },
        aggregation_bitfield: bits,
        custody_bitfield: BooleanBitfield::new(),
        aggregate_signature: vec![],
    }
}

#[test]
fn attestation_inclusion_window() {
    let spec = small_spec();
    let mut s = state(8, &spec);
    s.slot = 2;
    let a = attestation_for(&s, &spec, 1);
    let delay = spec.min_attestation_inclusion_delay;
    s.slot = 1 + delay - 1;
    assert_eq!(s.validate_attestation_without_signature(&a, &spec), Err(AttestationValidationError::IncludedTooEarly));
    s.slot = 1 + delay;
    assert_eq!(s.validate_attestation_without_signature(&a, &spec), Ok(()));
    s.slot = 1 + spec.epoch_length;
    assert_eq!(s.validate_attestation_without_signature(&a, &spec), Ok(()));
    s.slot = 1 + spec.epoch_length + 1;
    assert_eq!(s.validate_attestation_without_signature(&a, &spec), Err(AttestationValidationError::IncludedTooLate));
}

#[test]
fn attestation_checks_in_order() {
    let mut spec = small_spec();
    spec.min_attestation_inclusion_delay = 1;
    let mut s = state(8, &spec);
    s.slot = 2;
    let mut a = attestation_for(&s, &spec, 1);
    assert_eq!(s.validate_attestation(&a, &spec, true), Ok(()));
    assert_eq!(s.validate_attestation(&a, &spec, false), Err(AttestationValidationError::BadSignature));
    assert_eq!(s.validate_attestation_without_signature(&a, &spec), Ok(()));
    let keys = s.attestation_signing_keys(&a, &spec).unwrap();
    assert!(!keys.is_empty());
    a.data.justified_epoch = 1;
    assert_eq!(s.validate_attestation(&a, &spec, true), Err(AttestationValidationError::WrongJustifiedSlot));
    a.data.justified_epoch = 0;
    a.data.justified_block_root = [1; 32];
    assert_eq!(s.validate_attestation(&a, &spec, true), Err(AttestationValidationError::WrongJustifiedRoot));
    a.data.justified_block_root = [0; 32];
    a.data.latest_crosslink.epoch = 3;
    assert_eq!(s.validate_attestation(&a, &spec, true), Err(AttestationValidationError::BadLatestCrosslinkRoot));
    a.data.latest_crosslink.epoch = 0;
    a.data.shard_block_root = [5; 32];
    assert_eq!(s.validate_attestation(&a, &spec, true), Err(AttestationValidationError::ShardBlockRootNotZero));
}

fn pending(a: &Attestation, root: u8) -> PendingAttestation {
    let mut data = a.data;
    data.shard_block_root = [root; 32];
    PendingAttestation {
        data,
        aggregation_bitfield: a.aggregation_bitfield.clone(),
        custody_bitfield: BooleanBitfield::new(),
        inclusion_slot: 2,
    }
}

#[test]
fn winning_root_tie_breaks_to_smaller_root() {
    let spec = small_spec();
    let mut s = state(8, &spec);
    s.slot = 2;
    let a = attestation_for(&s, &spec, 1);
    let shard = a.data.shard;
    let both = vec![pending(&a, 9), pending(&a, 3)];
    let w = s.winning_root(shard, &both, &[], &spec).unwrap();
    assert_eq!(w.shard_block_root, [3; 32]);
    let reversed = vec![pending(&a, 3), pending(&a, 9)];
    let w2 = s.winning_root(shard, &[], &reversed, &spec).unwrap();
    assert_eq!(w2.shard_block_root, [3; 32]);
    assert_eq!(w.total_attesting_balance, w2.total_attesting_balance);
    assert_eq!(w.total_attesting_balance, spec.max_deposit_amount * w.attesting_validator_indices.len() as u64);
    assert_eq!(
        beacon_core::attestation::winning_root(&s, shard + 1, &both, &[], &spec).unwrap_err(),
        WinningRootError::NoWinningRoot
    );
}

#[test]
fn winning_root_prefers_more_balance() {
    let spec = small_spec();
    let mut s = state(8, &spec);
    s.slot = 2;
    let a = attestation_for(&s, &spec, 1);
    let mut small = pending(&a, 1);
    small.aggregation_bitfield = BooleanBitfield::from_bytes(vec![0]);
    let big = pending(&a, 7);
    let w = s.winning_root(a.data.shard, &[small, big], &[], &spec).unwrap();
    assert_eq!(w.shard_block_root, [7; 32]);
}

fn candidate(root: u8, balance: u64) -> WinningRoot {
    WinningRoot { shard_block_root: [root; 32], attesting_validator_indices: vec![], total_balance: balance, total_attesting_balance: balance }
}

#[test]
fn selection_is_order_independent() {
    let a = vec![candidate(5, 10), candidate(2, 10), candidate(9, 3)];
    let b = vec![candidate(9, 3), candidate(2, 10), candidate(5, 10)];
    assert_eq!(select_winning_root(&a), Some(1));
    assert_eq!(select_winning_root(&b), Some(1));
    assert_eq!(select_winning_root(&vec![]), None);
}

#[test]
fn participants_and_union() {
    let spec = small_spec();
    let mut s = state(8, &spec);
    s.slot = 2;
    let a = attestation_for(&s, &spec, 1);
    let p = s.get_attestation_participants(&a.data, &a.aggregation_bitfield, &spec).unwrap();
    let cs = s.get_crosslink_committees_at_slot(1, false, &spec).unwrap();
    assert_eq!(p, cs[0].0);
    let long = BooleanBitfield::from_bytes(vec![255, 255]);
    assert!(s.get_attestation_participants(&a.data, &long, &spec).is_err());
    let pa = pending(&a, 0);
    let pb = pending(&a, 0);
    let mut u = s.get_attestation_participants_union(&[pa, pb], &spec).unwrap();
    u.dedup();
    let mut sorted = p.clone();
    sorted.sort();
    assert_eq!(u, sorted);
}

#[test]
fn churn_limits_activations() {
    let spec = small_spec();
    let mut validators: Vec<Validator> = (0..6).map(validator).collect();
    for v in validators.iter_mut().skip(2) {
        v.activation_epoch = u64::MAX;
    }
    let mut s = state_with(validators, &spec);
    s.update_validator_registry(&spec);
    let activated: Vec<usize> = (0..6).filter(|i| s.validator_registry[*i].activation_epoch != u64::MAX && *i >= 2).collect();
    // two active validators hold 64e9, so the cap is the maximum deposit
    assert_eq!(activated, vec![2]);
    assert_eq!(s.validator_registry[2].activation_epoch, 3);
    let churned: u64 = activated.iter().map(|i| s.get_effective_balance(*i, &spec)).sum();
    assert!(churned <= spec.max_deposit_amount);
}

#[test]
fn slashing_pays_proposer() {
    let spec = small_spec();
    let mut s = state(8, &spec);
    let proposer = s.get_beacon_proposer_index(0, &spec).unwrap();
    let victim = if proposer == 0 { 1 } else { 0 };
    s.penalize_validator(victim, &spec).unwrap();
    assert_eq!(s.validator_balances[victim], 0);
    assert_eq!(s.validator_balances[proposer], 2 * spec.max_deposit_amount);
    assert_eq!(s.latest_penalized_balances[0], spec.max_deposit_amount);
    assert_eq!(s.validator_registry[victim].penalized_epoch, 0);
    assert_eq!(s.validator_registry[victim].exit_epoch, 3);
}

#[test]
fn ejection_exits_poor_validators() {
    let spec = small_spec();
    let mut s = state(4, &spec);
    s.validator_balances[2] = spec.ejection_balance - 1;
    s.process_ejections(&spec);
    assert_eq!(s.validator_registry[2].exit_epoch, 3);
    assert_eq!(s.validator_registry[1].exit_epoch, u64::MAX);
}

#[test]
fn reward_helpers() {
    let spec = small_spec();
    let s = state(2, &spec);
    assert_eq!(s.base_reward(0, 32, &spec), 32_000_000_000 / 32 / 5);
    assert_eq!(s.inactivity_penalty(0, 4, 32, &spec), 32_000_000_000 / 32 / 5 + 32_000_000_000 * 4 / 16777216 / 2);
    assert_eq!(s.get_total_balance(&[0, 1], &spec), 64_000_000_000);
    assert_eq!(s.get_entry_exit_effect_epoch(5, &spec), 8);
}

fn deposit(i: u8) -> DepositInput {
    DepositInput { pubkey: vec![i; 48], withdrawal_credentials: [0; 32], randao_commitment: [0; 32], proof_of_possession: vec![i; 96] }
}

#[test]
fn test_validator_inductor_valid_empty_validators() {
    let spec = small_spec();
    let st = state(0, &spec);
    let d = deposit(1);

    let mut inductor = ValidatorInductor::new(0, 1024, st);
    let result = inductor.induct(&d, ValidatorStatus::PendingActivation, true);
    let validators = inductor.to_vec();

    assert_eq!(result.unwrap(), 0);
    assert_eq!(validators.len(), 1);
}

#[test]
fn induction_rejects_bad_proof_of_possession() {
    let spec = small_spec();
    let mut inductor = ValidatorInductor::new(0, 1024, state(3, &spec));
    let result = inductor.induct(&deposit(1), ValidatorStatus::PendingActivation, false);
    assert_eq!(result, Err(ValidatorInductionError::InvaidProofOfPossession));
    assert_eq!(inductor.to_vec().len(), 3);
}

#[test]
fn induction_reuses_withdrawn_slot() {
    let spec = small_spec();
    let mut validators: Vec<Validator> = (0..5).map(validator).collect();
    validators[2].status = ValidatorStatus::Withdrawn;
    validators[4].status = ValidatorStatus::Withdrawn;
    let mut inductor = ValidatorInductor::new(0, 1024, state_with(validators, &spec));
    assert_eq!(inductor.induct(&deposit(7), ValidatorStatus::PendingActivation, true), Ok(2));
    assert_eq!(inductor.induct(&deposit(8), ValidatorStatus::PendingActivation, true), Ok(4));
    assert_eq!(inductor.induct(&deposit(9), ValidatorStatus::PendingActivation, true), Ok(5));
    assert_eq!(inductor.balances()[2], beacon_core::inductor::DEPOSIT_GWEI);
    assert_eq!(inductor.balances()[5], beacon_core::inductor::DEPOSIT_GWEI);
    assert_eq!(inductor.balances().len(), 6);
    assert_eq!(inductor.empty_validator_start, 5);
    let v = inductor.to_vec();
    assert_eq!(v.len(), 6);
    assert_eq!(v[2].pubkey, vec![7; 48]);
    assert_eq!(v[2].status, ValidatorStatus::PendingActivation);
}

#[test]
fn induction_appends_to_active_registry() {
    let spec = small_spec();
    let mut inductor = ValidatorInductor::new(0, 1024, state(5, &spec));
    assert_eq!(inductor.induct(&deposit(1), ValidatorStatus::Active, true), Ok(5));
    assert_eq!(inductor.to_vec().len(), 6);
}

fn advance_epoch(s: &mut BeaconState, spec: &ChainSpec) -> Vec<usize> {
    s.slot += spec.epoch_length;
    s.per_epoch_processing(spec).unwrap()
}

#[test]
fn end_to_end_exit_reaches_withdrawable_after_delay() {
    let spec = small_spec();
    let mut inductor = ValidatorInductor::new(0, 1024, state(0, &spec));
    for i in 0..8u8 {
        assert_eq!(inductor.induct(&deposit(i), ValidatorStatus::Active, true), Ok(i as usize));
    }
    let mut validators = inductor.to_vec();
    for v in validators.iter_mut() {
        v.activation_epoch = 0;
    }
    let mut s = state_with(validators, &spec);
    for _ in 0..4 {
        let withdrawn = advance_epoch(&mut s, &spec);
        assert!(withdrawn.is_empty());
        assert_eq!(s.validator_registry.len(), 8);
        assert!(s.validator_registry.iter().all(|v| v.status_flags.is_none() && v.exit_epoch == u64::MAX));
    }
    s.initiate_validator_exit(3, &spec);
    let request_epoch = s.current_epoch(&spec);
    let mut withdrawable_at = None;
    for _ in 0..20 {
        advance_epoch(&mut s, &spec);
        if s.validator_registry[3].status_flags == Some(StatusFlags::Withdrawable) {
            withdrawable_at = Some(s.current_epoch(&spec));
            break;
        }
    }
    let exit_epoch = request_epoch + 1 + 1 + spec.entry_exit_delay;
    assert_eq!(s.validator_registry[3].exit_epoch, exit_epoch);
    assert_eq!(withdrawable_at, Some(exit_epoch + spec.min_validator_withdrawal_epochs));
    assert_eq!(s.validator_registry.len(), 8);
    assert!(s.validator_registry.iter().enumerate().all(|(i, v)| i == 3 || v.status_flags.is_none()));
}

#[test]
fn midpoint_penalty_applied() {
    let spec = small_spec();
    let mut s = state(4, &spec);
    s.validator_registry[1].penalized_epoch = 0;
    s.latest_penalized_balances[8] = 16_000_000_000;
    s.slot = 8 * spec.epoch_length;
    s.process_penalties_and_exits(&spec);
    assert_eq!(s.validator_balances[1], 32_000_000_000 - (32_000_000_000u128 * 48_000_000_000 / 128_000_000_000) as u64);
    assert_eq!(s.validator_balances[0], 32_000_000_000);
}

#[test]
fn validator_slot_and_shard_found() {
    let spec = small_spec();
    let s = state(8, &spec);
    let (slot, shard, pos) = s.attestation_slot_and_shard_for_validator(5, &spec).unwrap().unwrap();
    let cs = s.get_crosslink_committees_at_slot(slot, false, &spec).unwrap();
    let (committee, _) = cs.iter().find(|(_, sh)| *sh == shard).unwrap();
    assert_eq!(committee[pos as usize], 5);
    assert_eq!(s.attestation_slot_and_shard_for_validator(99, &spec), Ok(None));
}

#[test]
fn earliest_inclusion() {
    let spec = small_spec();
    let mut s = state(8, &spec);
    s.slot = 2;
    let a = attestation_for(&s, &spec, 1);
    let member = s.get_attestation_participants(&a.data, &a.aggregation_bitfield, &spec).unwrap()[0];
    let mut late = pending(&a, 0);
    late.inclusion_slot = 3;
    let early = pending(&a, 0);
    let atts = vec![late, early];
    assert_eq!(s.earliest_included_attestation(&atts, member, &spec), Ok(1));
    assert_eq!(s.inclusion_slot(&atts, member, &spec), Ok(2));
    assert_eq!(s.inclusion_distance(&atts, member, &spec), Ok(1));
    let other = (0..8).find(|v| *v != member).unwrap();
    assert_eq!(
        s.earliest_included_attestation(&atts, other, &spec),
        Err(beacon_core::attestation::InclusionError::NoIncludedAttestations)
    );
}

#[test]
fn runs_without_error() {
    let spec = small_spec();
    let mut state = state(8, &spec);
    state.slot = (spec.genesis_epoch + 5) * spec.epoch_length - 1;
    state.per_epoch_processing(&spec).unwrap();
}

#[test]
fn epoch_processing_rotates_and_justifies() {
    let spec = small_spec();
    let mut s = state(8, &spec);
    s.slot = 3 * spec.epoch_length + 2;
    s.current_calculation_epoch = 3;
    s.previous_calculation_epoch = 3;
    s.justified_epoch = 2;
    s.previous_justified_epoch = 2;
    let mut atts = vec![];
    for slot in 3 * spec.epoch_length..4 * spec.epoch_length {
        for (committee, shard) in s.get_crosslink_committees_at_slot(slot, false, &spec).unwrap() {
            let mut bits = BooleanBitfield::new();
            for i in 0..committee.len() {
                bits.set_bit(&i, &true);
            }
            atts.push(PendingAttestation {
                data: AttestationData {
                    slot,
                    shard,
                    beacon_block_root: [0; 32],
                    epoch_boundary_root: [0; 32],
                    shard_block_root: [0; 32],
                    latest_crosslink: Crosslink { epoch: 0, shard_block_root: [0; 32] },
                    justified_epoch: 2,
                    justified_block_root: [0; 32],
                },
                aggregation_bitfield: bits,
                custody_bitfield: BooleanBitfield::new(),
                inclusion_slot: slot + 1,
            });
        }
    }
    let mut old = atts.pop().unwrap();
    old.data.slot = 0;
    atts.push(old);
    s.latest_attestations = atts;
    let seed = s.current_epoch_seed;
    s.per_epoch_processing(&spec).unwrap();
    // seven of eight validators attested in the current epoch: a supermajority
    assert_eq!(s.justified_epoch, 3);
    assert_eq!(s.previous_justified_epoch, 2);
    assert_eq!(s.justification_bitfield & 1, 1);
    assert_eq!(s.previous_epoch_seed, seed);
    assert_eq!(s.current_calculation_epoch, 4);
    assert_eq!(s.validator_registry_update_epoch, 3);
    assert!(s.latest_attestations.iter().all(|a| a.data.slot / spec.epoch_length >= 3));
    assert_eq!(s.latest_attestations.len(), 7);
    assert!(s.latest_crosslinks.iter().any(|c| c.epoch == 3));
}
