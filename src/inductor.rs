use crate::types::{BeaconState, Hash256, Validator, ValidatorStatus, MAX_VALIDATORS};
use crate::merkle::copy_range;
use vstd::prelude::*;

verus! {

/// The size of a validator's deposit in Gwei.
pub const DEPOSIT_GWEI: u64 = 32_000_000_000;

/// What a depositor submits to join the registry.
#[derive(Debug, PartialEq, Eq)]
pub struct DepositInput {
    pub pubkey: Vec<u8>,
    pub withdrawal_credentials: Hash256,
    pub randao_commitment: Hash256,
    pub proof_of_possession: Vec<u8>,
}

#[derive(Debug, PartialEq, Eq, Clone, Copy, Structural)]
pub enum ValidatorInductionError {
    InvalidShard,
    InvaidProofOfPossession,
}

/// The registry-change counters a new validator record copies.
#[derive(Debug, Clone, Copy, PartialEq, Eq)]
pub struct RegistryCounters {
    pub latest_status_change_slot: u64,
    pub exit_count: u64,
}

/// Inducts validators into a registry, recycling withdrawn slots before growing it.
pub struct ValidatorInductor {
    pub current_slot: u64,
    pub shard_count: u16,
    pub validators: Vec<Validator>,
    pub balances: Vec<u64>,
    pub counters: RegistryCounters,
    pub empty_validator_start: usize,
}

/// `v` is the record a valid deposit `d` creates: the deposit's keys and commitment, the given
/// status, the copied counters, no epochs set yet.
pub open spec fn is_record_for(v: Validator, d: DepositInput, status: ValidatorStatus, c: RegistryCounters) -> bool {
    &&& v.pubkey@ == d.pubkey@
    &&& v.withdrawal_credentials == d.withdrawal_credentials
    &&& v.randao_commitment == d.randao_commitment
    &&& v.randao_layers == 0
    &&& v.status == status
    &&& v.latest_status_change_slot == c.latest_status_change_slot
    &&& v.exit_count == c.exit_count
    &&& v.activation_epoch == u64::MAX
    &&& v.exit_epoch == u64::MAX
    &&& v.withdrawal_epoch == u64::MAX
    &&& v.penalized_epoch == u64::MAX
    &&& v.status_flags is None
}

/// `after` is `before` with `rec` written at `k`, or appended when `k` is past the end.
pub open spec fn placed(before: Seq<Validator>, after: Seq<Validator>, k: int, rec: Validator) -> bool {
    if k < before.len() {
        after == before.update(k, rec)
    } else {
        after == before.push(rec)
    }
}

/// `after` is `before` with the deposit amount written at `k`, or appended past the end.
pub open spec fn placed_balance(before: Seq<u64>, after: Seq<u64>, k: int) -> bool {
    if k < before.len() {
        after == before.update(k, DEPOSIT_GWEI)
    } else {
        after == before.push(DEPOSIT_GWEI)
    }
}

/// The first index at or after `from` whose validator is withdrawn, or `reg.len()`.
pub open spec fn first_withdrawn(reg: Seq<Validator>, from: int) -> int
    decreases reg.len() - from,
{
    if from >= reg.len() {
        reg.len() as int
    } else if reg[from].status == ValidatorStatus::Withdrawn {
        from
    } else {
        first_withdrawn(reg, from + 1)
    }
}

proof fn lemma_first_withdrawn(reg: Seq<Validator>, from: int)
    requires
        0 <= from <= reg.len(),
    ensures
        from <= first_withdrawn(reg, from) <= reg.len(),
        first_withdrawn(reg, from) < reg.len() ==> reg[first_withdrawn(reg, from)].status == ValidatorStatus::Withdrawn,
        forall|i: int| from <= i < first_withdrawn(reg, from) ==> reg[i].status != ValidatorStatus::Withdrawn,
    decreases reg.len() - from,
{
    if from < reg.len() && reg[from].status != ValidatorStatus::Withdrawn {
        lemma_first_withdrawn(reg, from + 1);
    }
}

impl ValidatorInductor {
    /// The cursor lies within the registry, the balances parallel it, and it has room to grow.
    pub open spec fn wf(&self) -> bool {
        &&& self.empty_validator_start <= self.validators@.len()
        &&& self.validators@.len() < MAX_VALIDATORS
        &&& self.balances@.len() == self.validators@.len()
    }

    /// The registry held.
    pub open spec fn registry(&self) -> Seq<Validator> {
        self.validators@
    }

    /// An inductor over the registry of `beacon_state`, copying its registry-change counters
    /// into new records.
    pub fn new(current_slot: u64, shard_count: u16, beacon_state: BeaconState) -> (r: Self)
        requires
            beacon_state.validator_registry@.len() < MAX_VALIDATORS,
            beacon_state.validator_balances@.len() == beacon_state.validator_registry@.len(),
        ensures
            r.wf(),
            r.registry() == beacon_state.validator_registry@,
            r.balances@ == beacon_state.validator_balances@,
            r.current_slot == current_slot,
            r.shard_count == shard_count,
            r.empty_validator_start == 0,
    {
        ValidatorInductor {
            current_slot,
            shard_count,
            validators: beacon_state.validator_registry,
            balances: beacon_state.validator_balances,
            counters: RegistryCounters { latest_status_change_slot: beacon_state.slot, exit_count: 0 },
            empty_validator_start: 0,
        }
    }

    /// Inducts the depositor of `deposit_input`; `proof_of_possession_valid` is the verdict of
    /// verifying its proof of possession against its public key. Fails with the registry
    /// unchanged when that verdict is negative; otherwise places the new record in the first
    /// withdrawn slot at or after the cursor, or appends it, and returns its index.
    pub fn induct(
        &mut self,
        deposit_input: &DepositInput,
        status: ValidatorStatus,
        proof_of_possession_valid: bool,
    ) -> (r: Result<usize, ValidatorInductionError>)
        requires
            old(self).wf(),
        ensures
            final(self).wf() || final(self).validators@.len() == MAX_VALIDATORS,
            !proof_of_possession_valid ==> r == Err::<usize, ValidatorInductionError>(ValidatorInductionError::InvaidProofOfPossession)
                && *final(self) == *old(self),
            r is Ok ==> placed_balance(old(self).balances@, final(self).balances@, r->Ok_0 as int),
            r is Ok && r->Ok_0 < old(self).registry().len() ==> final(self).empty_validator_start == r->Ok_0 + 1,
            r is Ok && r->Ok_0 == old(self).registry().len() ==> final(self).empty_validator_start == old(self).empty_validator_start,
            proof_of_possession_valid ==> r is Ok,
            r is Ok ==> r->Ok_0 == first_withdrawn(old(self).registry(), old(self).empty_validator_start as int),
            r is Ok ==> exists|rec: Validator| #[trigger] is_record_for(rec, *deposit_input, status, old(self).counters)
                && placed(old(self).registry(), final(self).registry(), r->Ok_0 as int, rec),
            r is Ok ==> final(self).registry().len() <= old(self).registry().len() + 1,
            final(self).current_slot == old(self).current_slot,
    {
        if !proof_of_possession_valid {
            return Err(ValidatorInductionError::InvaidProofOfPossession);
        }
        let v = self.process_deposit(deposit_input, status);
        proof {
            lemma_first_withdrawn(self.validators@, self.empty_validator_start as int);
        }
        let ghost vv = v;
        let ghost k = first_withdrawn(self.validators@, self.empty_validator_start as int);
        let ghost before = self.validators@;
        let i = self.add_validator(v);
        assert(is_record_for(vv, *deposit_input, status, old(self).counters) && placed(before, self.validators@, i as int, vv));
        Ok(i)
    }

    fn process_deposit(&self, deposit_input: &DepositInput, status: ValidatorStatus) -> (r: Validator)
        ensures
            is_record_for(r, *deposit_input, status, self.counters),
    {
        let pubkey = copy_range(&deposit_input.pubkey, 0, deposit_input.pubkey.len());
        assert(deposit_input.pubkey@.subrange(0, deposit_input.pubkey@.len() as int) =~= deposit_input.pubkey@);
        Validator {
            pubkey,
            withdrawal_credentials: deposit_input.withdrawal_credentials,
            randao_commitment: deposit_input.randao_commitment,
            randao_layers: 0,
            status,
            latest_status_change_slot: self.counters.latest_status_change_slot,
            exit_count: self.counters.exit_count,
            activation_epoch: u64::MAX,
            exit_epoch: u64::MAX,
            withdrawal_epoch: u64::MAX,
            penalized_epoch: u64::MAX,
            status_flags: None,
        }
    }

    /// The first withdrawn slot at or after the cursor, moving the cursor past it.
    fn first_withdrawn_validator(&mut self) -> (r: Option<usize>)
        requires
            old(self).wf(),
        ensures
            final(self).wf(),
            final(self).validators@ == old(self).validators@,
            final(self).balances@ == old(self).balances@,
            final(self).counters == old(self).counters,
            final(self).current_slot == old(self).current_slot,
            ({
                let k = first_withdrawn(old(self).validators@, old(self).empty_validator_start as int);
                &&& k < old(self).validators@.len() ==> r == Some(k as usize) && final(self).empty_validator_start == k + 1
                &&& k == old(self).validators@.len() ==> r is None && final(self).empty_validator_start == old(self).empty_validator_start
            }),
    {
        proof {
            lemma_first_withdrawn(self.validators@, self.empty_validator_start as int);
        }
        let mut i: usize = self.empty_validator_start;
        while i < self.validators.len()
            invariant
                old(self).empty_validator_start <= i <= self.validators@.len(),
                self.validators@ == old(self).validators@,
                self.balances@ == old(self).balances@,
                self.empty_validator_start == old(self).empty_validator_start,
                self.counters == old(self).counters,
                self.current_slot == old(self).current_slot,
                self.wf(),
                first_withdrawn(self.validators@, old(self).empty_validator_start as int) == first_withdrawn(self.validators@, i as int),
            decreases self.validators@.len() - i,
        {
            if self.validators[i].status == ValidatorStatus::Withdrawn {
                self.empty_validator_start = i + 1;
                return Some(i);
            }
            i = i + 1;
        }
        None
    }

    /// Places `v` in the first withdrawn slot at or after the cursor, or appends it.
    fn add_validator(&mut self, v: Validator) -> (r: usize)
        requires
            old(self).wf(),
        ensures
            ({
                let k = first_withdrawn(old(self).validators@, old(self).empty_validator_start as int);
                &&& r == k
                &&& k < old(self).validators@.len() ==> final(self).validators@ == old(self).validators@.update(k, v)
                &&& k == old(self).validators@.len() ==> final(self).validators@ == old(self).validators@.push(v)
                &&& placed_balance(old(self).balances@, final(self).balances@, k)
                &&& k < old(self).validators@.len() ==> final(self).empty_validator_start == k + 1
                &&& k == old(self).validators@.len() ==> final(self).empty_validator_start == old(self).empty_validator_start
            }),
            final(self).current_slot == old(self).current_slot,
            final(self).counters == old(self).counters,
    {
        proof {
            lemma_first_withdrawn(self.validators@, self.empty_validator_start as int);
        }
        match self.first_withdrawn_validator() {
            Some(i) => {
                self.validators.set(i, v);
                self.balances.set(i, DEPOSIT_GWEI);
                i
            },
            None => {
                self.validators.push(v);
                self.balances.push(DEPOSIT_GWEI);
                self.validators.len() - 1
            },
        }
    }

    /// The balances, parallel to the registry.
    pub fn balances(&self) -> (r: &Vec<u64>)
        ensures
            r@ == self.balances@,
    {
        &self.balances
    }

    /// The registry, consuming the inductor.
    pub fn to_vec(self) -> (r: Vec<Validator>)
        ensures
            r@ == self.registry(),
    {
        self.validators
    }
}

} // verus!
