use std::collections::HashMap;
use vstd::prelude::*;

verus! {

broadcast use vstd::std_specs::hash::group_hash_axioms;

/// What a validator must do in an epoch: its index and the slot, if any, in which it proposes.
#[derive(Debug, PartialEq, Eq, Clone, Copy, Default, Structural)]
pub struct EpochDuties {
    pub validator_index: u64,
    pub block_production_slot: Option<u64>,
}

impl EpochDuties {
    /// Whether the validator proposes in `slot`.
    pub fn is_block_production_slot(&self, slot: u64) -> (r: bool)
        ensures
            r == (self.block_production_slot == Some(slot)),
    {
        match self.block_production_slot {
            Some(s) => s == slot,
            None => false,
        }
    }
}

#[derive(Debug, PartialEq, Eq, Clone, Copy, Structural)]
pub enum EpochDutiesMapError {
    Poisoned,
}

#[derive(Debug, PartialEq, Eq, Clone, Copy, Structural)]
pub enum DutiesReaderError {
    UnknownValidator,
    UnknownEpoch,
    EpochLengthIsZero,
    Poisoned,
}

/// One validator's duties, by epoch.
pub struct EpochDutiesMap {
    pub epoch_length: u64,
    pub map: HashMap<u64, EpochDuties>,
}

impl EpochDutiesMap {
    pub fn new(epoch_length: u64) -> (r: Self)
        ensures
            r.epoch_length == epoch_length,
            r.map@ == Map::<u64, EpochDuties>::empty(),
    {
        EpochDutiesMap { epoch_length, map: HashMap::new() }
    }

    /// The duties recorded for `epoch`.
    pub fn get(&self, epoch: u64) -> (r: Result<Option<EpochDuties>, EpochDutiesMapError>)
        ensures
            r == Ok::<Option<EpochDuties>, EpochDutiesMapError>(
                if self.map@.contains_key(epoch) { Some(self.map@[epoch]) } else { None },
            ),
    {
        match self.map.get(&epoch) {
            Some(duties) => Ok(Some(*duties)),
            None => Ok(None),
        }
    }

    /// Records `epoch_duties` for `epoch`, returning what was recorded before.
    pub fn insert(&mut self, epoch: u64, epoch_duties: EpochDuties) -> (r: Result<Option<EpochDuties>, EpochDutiesMapError>)
        ensures
            r == Ok::<Option<EpochDuties>, EpochDutiesMapError>(
                if old(self).map@.contains_key(epoch) { Some(old(self).map@[epoch]) } else { None },
            ),
            final(self).epoch_length == old(self).epoch_length,
            final(self).map@ == old(self).map@.insert(epoch, epoch_duties),
    {
        Ok(self.map.insert(epoch, epoch_duties))
    }

    /// Whether the validator proposes in `slot`, by the duties of the slot's epoch.
    pub fn is_block_production_slot(&self, slot: u64) -> (r: Result<bool, DutiesReaderError>)
        ensures
            self.epoch_length == 0 ==> r == Err::<bool, DutiesReaderError>(DutiesReaderError::EpochLengthIsZero),
            self.epoch_length > 0 && !self.map@.contains_key(slot / self.epoch_length) ==> r == Err::<bool, DutiesReaderError>(
                DutiesReaderError::UnknownEpoch,
            ),
            self.epoch_length > 0 && self.map@.contains_key(slot / self.epoch_length) ==> r == Ok::<bool, DutiesReaderError>(
                self.map@[slot / self.epoch_length].block_production_slot == Some(slot),
            ),
    {
        if self.epoch_length == 0 {
            return Err(DutiesReaderError::EpochLengthIsZero);
        }
        let epoch = slot / self.epoch_length;
        match self.get(epoch) {
            Ok(Some(duties)) => Ok(duties.is_block_production_slot(slot)),
            _ => Err(DutiesReaderError::UnknownEpoch),
        }
    }
}

} // verus!
