use beacon_core::duties::{DutiesReaderError, EpochDuties, EpochDutiesMap};
use beacon_core::justification::process_justification_and_finalization;
use beacon_core::types::{BeaconState, Fork};

fn blank_state() -> BeaconState {
    BeaconState {
        slot: 0,
        genesis_time: 0,
        fork: Fork::default(),
        validator_registry: vec![],
        validator_balances: vec![],
        validator_registry_update_epoch: 0,
        latest_randao_mixes: vec![],
        previous_epoch_start_shard: 0,
        current_epoch_start_shard: 0,
        previous_calculation_epoch: 0,
        current_calculation_epoch: 0,
        previous_epoch_seed: [0; 32],
        current_epoch_seed: [0; 32],
        previous_justified_epoch: 0,
        justified_epoch: 0,
        justification_bitfield: 0,
        finalized_epoch: 0,
        latest_crosslinks: vec![],
        latest_block_roots: vec![],
        latest_penalized_balances: vec![],
        latest_attestations: vec![],
        batched_block_roots: vec![],
    }
}

#[test]
fn no_justification_before_epoch_two() {
    let s = blank_state();
    let r = process_justification_and_finalization(&s, 1, 0, 100, 100, 100);
    assert_eq!(r.justified_epoch, 0);
    assert_eq!(r.justification_bitfield, 0);
}

#[test]
fn supermajority_justifies_and_finalizes() {
    let mut s = blank_state();
    s.justified_epoch = 4;
    s.previous_justified_epoch = 3;
    s.justification_bitfield = 0b1;
    let r = process_justification_and_finalization(&s, 5, 0, 90, 60, 60);
    assert_eq!(r.previous_justified_epoch, 4);
    assert_eq!(r.justified_epoch, 5);
    assert_eq!(r.justification_bitfield, 0b11);
    assert_eq!(r.finalized_epoch, 4);
    let weak = process_justification_and_finalization(&s, 5, 0, 90, 59, 59);
    assert_eq!(weak.justified_epoch, 4);
    assert_eq!(weak.justification_bitfield, 0b10);
    assert_eq!(weak.finalized_epoch, 0);
}

#[test]
fn duties_lookup_by_epoch() {
    let mut map = EpochDutiesMap::new(8);
    let d = EpochDuties { validator_index: 3, block_production_slot: Some(10) };
    assert_eq!(map.insert(1, d), Ok(None));
    assert_eq!(map.get(1), Ok(Some(d)));
    assert_eq!(map.is_block_production_slot(10), Ok(true));
    assert_eq!(map.is_block_production_slot(11), Ok(false));
    assert_eq!(map.is_block_production_slot(30), Err(DutiesReaderError::UnknownEpoch));
    assert_eq!(map.insert(1, EpochDuties::default()), Ok(Some(d)));
    assert!(!EpochDuties::default().is_block_production_slot(0));
    assert_eq!(EpochDutiesMap::new(0).is_block_production_slot(1), Err(DutiesReaderError::EpochLengthIsZero));
}
