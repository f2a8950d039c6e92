use crate::state::{active_indices, crosslink_committees_spec, effective_balance, epoch_of, get_active_validator_indices, is_active, lemma_active_prefix, total_balance, CommitteesError};
use crate::types::{BeaconState, ChainSpec, StatusFlags, Validator};
use vstd::prelude::*;

verus! {

impl BeaconState {
    /// Sets the activation epoch of validator `validator_index`: the genesis epoch at genesis,
    /// else the epoch at which an activation started now takes effect.
    pub fn activate_validator(&mut self, validator_index: usize, is_genesis: bool, spec: &ChainSpec)
        requires
            old(self).wf(spec),
            validator_index < old(self).validator_registry@.len(),
        ensures
            final(self).wf(spec),
            final(self).validator_registry@ == old(self).validator_registry@.update(
                validator_index as int,
                Validator {
                    activation_epoch: if is_genesis { spec.genesis_epoch } else { effect_epoch(epoch_of(old(self).slot, *spec), *spec) },
                    ..old(self).validator_registry@[validator_index as int]
                },
            ),
            final(self).validator_balances@ == old(self).validator_balances@,
            final(self).slot == old(self).slot,
    {
        let e = if is_genesis {
            spec.genesis_epoch
        } else {
            let cur = self.current_epoch(spec);
            self.get_entry_exit_effect_epoch(cur, spec)
        };
        self.validator_registry[validator_index].activation_epoch = e;
    }
}

/// The epoch at which an activation or exit started in `epoch` takes effect, saturating.
pub open spec fn effect_epoch(epoch: u64, spec: ChainSpec) -> u64 {
    if epoch + 1 + spec.entry_exit_delay > u64::MAX { u64::MAX } else { (epoch + 1 + spec.entry_exit_delay) as u64 }
}

/// Whether the validator at `i` may be activated in epoch `cur`: it is not yet due to be
/// active by the time an activation now would take effect, and holds a full deposit.
pub open spec fn activation_eligible(reg: Seq<Validator>, bal: Seq<u64>, i: int, cur: u64, spec: ChainSpec) -> bool {
    reg[i].activation_epoch > effect_epoch(cur, spec) && bal[i] >= spec.max_deposit_amount
}

/// Whether the validator at `i` may be exited in epoch `cur`: it asked to exit and is not yet
/// due to exit by the time an exit now would take effect.
pub open spec fn exit_eligible(reg: Seq<Validator>, i: int, cur: u64, spec: ChainSpec) -> bool {
    reg[i].exit_epoch > effect_epoch(cur, spec) && reg[i].status_flags == Some(StatusFlags::InitiatedExit)
}

/// Summed effective balance of the activation-eligible validators below `n`.
pub open spec fn activation_churn(reg: Seq<Validator>, bal: Seq<u64>, n: int, cur: u64, spec: ChainSpec) -> nat
    decreases n,
{
    if n <= 0 {
        0
    } else {
        activation_churn(reg, bal, n - 1, cur, spec) + (if activation_eligible(reg, bal, n - 1, cur, spec) {
            effective_balance(bal, n - 1, spec) as nat
        } else {
            0nat
        })
    }
}

/// Summed effective balance of the exit-eligible validators below `n`.
pub open spec fn exit_churn(reg: Seq<Validator>, bal: Seq<u64>, n: int, cur: u64, spec: ChainSpec) -> nat
    decreases n,
{
    if n <= 0 {
        0
    } else {
        exit_churn(reg, bal, n - 1, cur, spec) + (if exit_eligible(reg, n - 1, cur, spec) {
            effective_balance(bal, n - 1, spec) as nat
        } else {
            0nat
        })
    }
}

/// The most effective balance that may enter or leave the active set in one epoch.
pub open spec fn max_balance_churn(total: nat, spec: ChainSpec) -> nat {
    let share = total / (2 * spec.max_balance_churn_quotient) as nat;
    if share < spec.max_deposit_amount { spec.max_deposit_amount as nat } else { share }
}

/// The registry after activating the eligible validators below `p` and exiting the eligible
/// validators below `q`.
pub open spec fn registry_after_update(reg: Seq<Validator>, bal: Seq<u64>, cur: u64, spec: ChainSpec, p: int, q: int) -> Seq<Validator> {
    Seq::new(reg.len(), |i: int| Validator {
        activation_epoch: if i < p && activation_eligible(reg, bal, i, cur, spec) { effect_epoch(cur, spec) } else { reg[i].activation_epoch },
        exit_epoch: if i < q && exit_eligible(reg, i, cur, spec) { effect_epoch(cur, spec) } else { reg[i].exit_epoch },
        ..reg[i]
    })
}

impl BeaconState {
    /// Flags validator `validator_index` as having asked to exit.
    pub fn initiate_validator_exit(&mut self, validator_index: usize, spec: &ChainSpec)
        requires
            old(self).wf(spec),
            validator_index < old(self).validator_registry@.len(),
        ensures
            final(self).wf(spec),
            final(self).validator_registry@ == old(self).validator_registry@.update(
                validator_index as int,
                Validator { status_flags: Some(StatusFlags::InitiatedExit), ..old(self).validator_registry@[validator_index as int] },
            ),
            final(self).validator_balances@ == old(self).validator_balances@,
            final(self).slot == old(self).slot,
    {
        self.validator_registry[validator_index].status_flags = Some(StatusFlags::InitiatedExit);
    }

    /// Sets the exit epoch of validator `validator_index` to the epoch at which an exit started
    /// now takes effect, unless it is already due to exit by then.
    pub fn exit_validator(&mut self, validator_index: usize, spec: &ChainSpec)
        requires
            old(self).wf(spec),
            validator_index < old(self).validator_registry@.len(),
        ensures
            final(self).wf(spec),
            final(self).validator_registry@ == old(self).validator_registry@.update(
                validator_index as int,
                Validator {
                    exit_epoch: exit_epoch_after(old(self).validator_registry@[validator_index as int].exit_epoch, epoch_of(old(self).slot, *spec), *spec),
                    ..old(self).validator_registry@[validator_index as int]
                },
            ),
            final(self).validator_balances@ == old(self).validator_balances@,
            final(self).latest_penalized_balances@ == old(self).latest_penalized_balances@,
            final(self).slot == old(self).slot,
    {
        let cur = self.current_epoch(spec);
        let effect = self.get_entry_exit_effect_epoch(cur, spec);
        if self.validator_registry[validator_index].exit_epoch <= effect {
            assert(self.validator_registry@ =~= old(self).validator_registry@.update(
                validator_index as int,
                Validator {
                    exit_epoch: exit_epoch_after(old(self).validator_registry@[validator_index as int].exit_epoch, epoch_of(old(self).slot, *spec), *spec),
                    ..old(self).validator_registry@[validator_index as int]
                },
            ));
            return;
        }
        self.validator_registry[validator_index].exit_epoch = effect;
    }

    /// Flags validator `validator_index` as withdrawable.
    pub fn prepare_validator_for_withdrawal(&mut self, validator_index: usize, spec: &ChainSpec)
        requires
            old(self).wf(spec),
            validator_index < old(self).validator_registry@.len(),
        ensures
            final(self).wf(spec),
            final(self).validator_registry@ == old(self).validator_registry@.update(
                validator_index as int,
                Validator { status_flags: Some(StatusFlags::Withdrawable), ..old(self).validator_registry@[validator_index as int] },
            ),
            final(self).validator_balances@ == old(self).validator_balances@,
            final(self).slot == old(self).slot,
    {
        self.validator_registry[validator_index].status_flags = Some(StatusFlags::Withdrawable);
    }

    /// Activates, then exits, eligible validators in registry order, each pass stopping at the
    /// first validator whose balance would take the pass's running total past the epoch's
    /// maximum balance churn.
    pub fn update_validator_registry(&mut self, spec: &ChainSpec)
        requires
            old(self).wf(spec),
        ensures
            final(self).wf(spec),
            final(self).validator_balances@ == old(self).validator_balances@,
            final(self).slot == old(self).slot,
            final(self).validator_registry@.len() == old(self).validator_registry@.len(),
            final(self).validator_registry_update_epoch == epoch_of(old(self).slot, *spec),
            final(self).latest_penalized_balances@ == old(self).latest_penalized_balances@,
            registry_update_ok(old(self).validator_registry@, old(self).validator_balances@, epoch_of(old(self).slot, *spec), *spec, final(self).validator_registry@),
    {
        let ghost reg = self.validator_registry@;
        let ghost bal = self.validator_balances@;
        let cur = self.current_epoch(spec);
        let effect = self.get_entry_exit_effect_epoch(cur, spec);
        let active = get_active_validator_indices(&self.validator_registry, cur);
        proof {
            lemma_active_prefix(reg, cur, reg.len() as int);
        }
        let total = self.get_total_balance(active.as_slice(), spec);
        let share = total / (2 * spec.max_balance_churn_quotient);
        let cap = if share < spec.max_deposit_amount { spec.max_deposit_amount } else { share };
        let n = self.validator_registry.len();
        proof {
            assert(cap <= u64::MAX / 2) by (nonlinear_arith)
                requires
                    share as int == (total as int) / (2 * spec.max_balance_churn_quotient),
                    spec.max_balance_churn_quotient >= 1,
                    cap == share || cap == spec.max_deposit_amount,
                    spec.max_deposit_amount <= 274877906944u64,
            ;
        }
        let mut churn: u64 = 0;
        let mut index: usize = 0;
        let mut stopped = false;
        while index < n && !stopped
            invariant
                self.wf(spec),
                n == reg.len(),
                index <= n,
                bal == self.validator_balances@,
                self.latest_penalized_balances@ == old(self).latest_penalized_balances@,
                self.slot == old(self).slot,
                self.validator_registry@.len() == n,
                cap == max_balance_churn(total_balance(bal, active_indices(reg, cur), *spec), *spec),
                cap <= u64::MAX / 2,
                effect == effect_epoch(cur, *spec),
                cur == epoch_of(self.slot, *spec),
                churn == activation_churn(reg, bal, index as int, cur, *spec),
                churn <= cap,
                stopped ==> index < n && activation_churn(reg, bal, index + 1, cur, *spec) > cap,
                forall|i: int| 0 <= i < n ==> #[trigger] self.validator_registry@[i] == registry_after_update(reg, bal, cur, *spec, index as int, 0)[i],
            decreases n - index + (if stopped { 0int } else { 1int }),
        {
            let eligible = self.validator_registry[index].activation_epoch > effect && self.validator_balances[index] >= spec.max_deposit_amount;
            assert(self.validator_registry@[index as int] == reg[index as int]);
            if eligible {
                let eb = self.get_effective_balance(index, spec);
                if churn + eb > cap {
                    stopped = true;
                } else {
                    churn = churn + eb;
                    self.validator_registry[index].activation_epoch = effect;
                    index = index + 1;
                }
            } else {
                index = index + 1;
            }
            assert forall|i: int| 0 <= i < n implies #[trigger] self.validator_registry@[i] == registry_after_update(reg, bal, cur, *spec, index as int, 0)[i] by {}
        }
        let ghost pp = index as int;
        let mut churn: u64 = 0;
        let mut index: usize = 0;
        let mut stopped = false;
        while index < n && !stopped
            invariant
                self.wf(spec),
                n == reg.len(),
                index <= n,
                bal == self.validator_balances@,
                self.latest_penalized_balances@ == old(self).latest_penalized_balances@,
                self.slot == old(self).slot,
                self.validator_registry@.len() == n,
                cap == max_balance_churn(total_balance(bal, active_indices(reg, cur), *spec), *spec),
                cap <= u64::MAX / 2,
                effect == effect_epoch(cur, *spec),
                cur == epoch_of(self.slot, *spec),
                churn == exit_churn(reg, bal, index as int, cur, *spec),
                churn <= cap,
                stopped ==> index < n && exit_churn(reg, bal, index + 1, cur, *spec) > cap,
                forall|i: int| 0 <= i < n ==> #[trigger] self.validator_registry@[i] == registry_after_update(reg, bal, cur, *spec, pp, index as int)[i],
            decreases n - index + (if stopped { 0int } else { 1int }),
        {
            let v = &self.validator_registry[index];
            let eligible = v.exit_epoch > effect && match v.status_flags {
                Some(StatusFlags::InitiatedExit) => true,
                _ => false,
            };
            assert(self.validator_registry@[index as int].exit_epoch == reg[index as int].exit_epoch);
            assert(self.validator_registry@[index as int].status_flags == reg[index as int].status_flags);
            if eligible {
                let eb = self.get_effective_balance(index, spec);
                if churn + eb > cap {
                    stopped = true;
                } else {
                    churn = churn + eb;
                    self.validator_registry[index].exit_epoch = effect;
                    index = index + 1;
                }
            } else {
                index = index + 1;
            }
            assert forall|i: int| 0 <= i < n implies #[trigger] self.validator_registry@[i] == registry_after_update(reg, bal, cur, *spec, pp, index as int)[i] by {}
        }
        let ghost qq = index as int;
        assert(self.validator_registry@ =~= registry_after_update(reg, bal, cur, *spec, pp, qq));
        self.validator_registry_update_epoch = cur;
    }
}

/// The exit epoch after an exit in epoch `cur`: unchanged if already due by the time the exit
/// takes effect.
pub open spec fn exit_epoch_after(exit_epoch: u64, cur: u64, spec: ChainSpec) -> u64 {
    if exit_epoch <= effect_epoch(cur, spec) { exit_epoch } else { effect_epoch(cur, spec) }
}

/// `out` is `reg` after ejecting, in epoch `cur`, every active validator whose balance fell
/// below the ejection balance.
pub open spec fn ejections_ok(reg: Seq<Validator>, bal: Seq<u64>, cur: u64, spec: ChainSpec, out: Seq<Validator>) -> bool {
    &&& out.len() == reg.len()
    &&& forall|i: int| 0 <= i < reg.len() ==> #[trigger] out[i] == ejected(
        reg[i],
        is_active(reg[i], cur) && bal[i] < spec.ejection_balance,
        cur,
        spec,
    )
}

/// Summed effective balance of the validators below `n` whose activation epoch differs
/// between `reg` and `out`.
pub open spec fn changed_activation_balance(reg: Seq<Validator>, out: Seq<Validator>, bal: Seq<u64>, n: int, spec: ChainSpec) -> nat
    decreases n,
{
    if n <= 0 {
        0
    } else {
        changed_activation_balance(reg, out, bal, n - 1, spec) + (if out[n - 1].activation_epoch != reg[n - 1].activation_epoch {
            effective_balance(bal, n - 1, spec) as nat
        } else {
            0nat
        })
    }
}

/// Summed effective balance of the validators below `n` whose exit epoch differs between
/// `reg` and `out`.
pub open spec fn changed_exit_balance(reg: Seq<Validator>, out: Seq<Validator>, bal: Seq<u64>, n: int, spec: ChainSpec) -> nat
    decreases n,
{
    if n <= 0 {
        0
    } else {
        changed_exit_balance(reg, out, bal, n - 1, spec) + (if out[n - 1].exit_epoch != reg[n - 1].exit_epoch {
            effective_balance(bal, n - 1, spec) as nat
        } else {
            0nat
        })
    }
}

proof fn lemma_changed_is_churn(reg: Seq<Validator>, bal: Seq<u64>, cur: u64, spec: ChainSpec, p: int, q: int, n: int)
    requires
        0 <= n <= reg.len(),
        0 <= p <= reg.len(),
        0 <= q <= reg.len(),
    ensures
        changed_activation_balance(reg, registry_after_update(reg, bal, cur, spec, p, q), bal, n, spec)
            == activation_churn(reg, bal, if n < p { n } else { p }, cur, spec),
        changed_exit_balance(reg, registry_after_update(reg, bal, cur, spec, p, q), bal, n, spec)
            == exit_churn(reg, bal, if n < q { n } else { q }, cur, spec),
    decreases n,
{
    if n > 0 {
        lemma_changed_is_churn(reg, bal, cur, spec, p, q, n - 1);
        let out = registry_after_update(reg, bal, cur, spec, p, q);
        assert(out[n - 1].activation_epoch == (if n - 1 < p && activation_eligible(reg, bal, n - 1, cur, spec) { effect_epoch(cur, spec) } else { reg[n - 1].activation_epoch }));
        assert(out[n - 1].exit_epoch == (if n - 1 < q && exit_eligible(reg, n - 1, cur, spec) { effect_epoch(cur, spec) } else { reg[n - 1].exit_epoch }));
    }
}

/// Churn bound: across one registry update, the validators whose activation epoch changed,
/// and those whose exit epoch changed, each hold at most the epoch's maximum balance churn.
pub proof fn lemma_churn_bound(reg: Seq<Validator>, bal: Seq<u64>, cur: u64, spec: ChainSpec, out: Seq<Validator>)
    requires
        registry_update_ok(reg, bal, cur, spec, out),
    ensures
        changed_activation_balance(reg, out, bal, reg.len() as int, spec) <= max_balance_churn(total_balance(bal, active_indices(reg, cur), spec), spec),
        changed_exit_balance(reg, out, bal, reg.len() as int, spec) <= max_balance_churn(total_balance(bal, active_indices(reg, cur), spec), spec),
{
    let cap = max_balance_churn(total_balance(bal, active_indices(reg, cur), spec), spec);
    let (p, q) = choose|p: int, q: int|
        0 <= p <= reg.len() && 0 <= q <= reg.len()
        && out == registry_after_update(reg, bal, cur, spec, p, q)
        && activation_churn(reg, bal, p, cur, spec) <= cap
        && (p < reg.len() ==> activation_churn(reg, bal, p + 1, cur, spec) > cap)
        && exit_churn(reg, bal, q, cur, spec) <= cap
        && (q < reg.len() ==> exit_churn(reg, bal, q + 1, cur, spec) > cap);
    lemma_changed_is_churn(reg, bal, cur, spec, p, q, reg.len() as int);
}

/// `out` is `reg` after the churn-limited activation and exit passes of epoch `cur`.
pub open spec fn registry_update_ok(reg: Seq<Validator>, bal: Seq<u64>, cur: u64, spec: ChainSpec, out: Seq<Validator>) -> bool {
    let cap = max_balance_churn(total_balance(bal, active_indices(reg, cur), spec), spec);
    exists|p: int, q: int|
        0 <= p <= reg.len() && 0 <= q <= reg.len()
        && out == registry_after_update(reg, bal, cur, spec, p, q)
        && activation_churn(reg, bal, p, cur, spec) <= cap
        && (p < reg.len() ==> activation_churn(reg, bal, p + 1, cur, spec) > cap)
        && exit_churn(reg, bal, q, cur, spec) <= cap
        && (q < reg.len() ==> exit_churn(reg, bal, q + 1, cur, spec) > cap)
}

/// `out_bal` and `out_reg` are `bal` and `reg` after the midpoint penalties of epoch `cur` and
/// marking `chosen` withdrawable: at most the per-epoch maximum, eligible, in withdrawal order,
/// and every unchosen eligible validator comes after them.
pub open spec fn penalties_ok(
    reg: Seq<Validator>,
    bal: Seq<u64>,
    pb: Seq<u64>,
    cur: u64,
    spec: ChainSpec,
    out_reg: Seq<Validator>,
    out_bal: Seq<u64>,
    chosen: Seq<usize>,
) -> bool {
    &&& out_bal.len() == bal.len()
    &&& forall|i: int| 0 <= i < bal.len() ==> #[trigger] out_bal[i] == penalized_balance(
        reg, bal, pb, i, cur, total_balance(bal, active_indices(reg, cur), spec), spec)
    &&& out_reg.len() == reg.len()
    &&& chosen.len() <= spec.max_withdrawals_per_epoch
    &&& forall|a: int, b: int| 0 <= a < b < chosen.len() ==> withdraws_before(reg, chosen[a] as int, chosen[b] as int)
    &&& forall|a: int| 0 <= a < chosen.len() ==> chosen[a] < reg.len() && withdrawal_eligible(reg, #[trigger] chosen[a] as int, cur, spec)
    &&& forall|i: int| 0 <= i < reg.len() && withdrawal_eligible(reg, i, cur, spec) && !chosen.contains(i as usize) ==> chosen.len() == spec.max_withdrawals_per_epoch
        && forall|a: int| 0 <= a < chosen.len() ==> withdraws_before(reg, #[trigger] chosen[a] as int, i)
    &&& forall|i: int| 0 <= i < reg.len() ==> #[trigger] out_reg[i] == if chosen.contains(i as usize) {
        Validator { status_flags: Some(StatusFlags::Withdrawable), ..reg[i] }
    } else {
        reg[i]
    }
}

/// `b + x`, saturating.
pub open spec fn sat_add(b: u64, x: u64) -> u64 {
    if b + x > u64::MAX { u64::MAX } else { (b + x) as u64 }
}

/// `b - x`, saturating at zero.
pub open spec fn sat_sub(b: u64, x: u64) -> u64 {
    if b < x { 0 } else { (b - x) as u64 }
}

impl BeaconState {
    /// Slashes validator `validator_index`: exits it, adds its effective balance to this
    /// epoch's penalized total, moves that amount from it to the proposer of the current slot,
    /// and records the penalty epoch. Fails, changing nothing, when the current slot has no
    /// proposer.
    pub fn penalize_validator(&mut self, validator_index: usize, spec: &ChainSpec) -> (r: Result<(), CommitteesError>)
        requires
            old(self).wf(spec),
            validator_index < old(self).validator_registry@.len(),
        ensures
            final(self).wf(spec),
            final(self).slot == old(self).slot,
            final(self).validator_registry@.len() == old(self).validator_registry@.len(),
            crosslink_committees_spec(old(self), old(self).slot, *spec) is Err ==> r is Err && *final(self) == *old(self),
            r is Err ==> *final(self) == *old(self),
            crosslink_committees_spec(old(self), old(self).slot, *spec) is Ok
                && crosslink_committees_spec(old(self), old(self).slot, *spec)->Ok_0.len() > 0
                && crosslink_committees_spec(old(self), old(self).slot, *spec)->Ok_0[0].0.len() > 0 ==> r is Ok,
            r is Ok ==> final(self).validator_registry@[validator_index as int].exit_epoch == exit_epoch_after(
                old(self).validator_registry@[validator_index as int].exit_epoch,
                epoch_of(old(self).slot, *spec),
                *spec,
            ),
            r is Ok ==> ({
                let cur = epoch_of(old(self).slot, *spec);
                let slot_i = (cur % (spec.latest_penalized_exit_length as u64)) as int;
                let eb = effective_balance(old(self).validator_balances@, validator_index as int, *spec);
                final(self).latest_penalized_balances@ == old(self).latest_penalized_balances@.update(
                    slot_i,
                    sat_add(old(self).latest_penalized_balances@[slot_i], eb),
                )
            }),
            r is Ok ==> ({
                let cur = epoch_of(old(self).slot, *spec);
                let eb = effective_balance(old(self).validator_balances@, validator_index as int, *spec);
                let committees = crosslink_committees_spec(old(self), old(self).slot, *spec)->Ok_0;
                let w = committees[0].0[(old(self).slot % (committees[0].0.len() as u64)) as int] as int;
                let mid = old(self).validator_balances@.update(w, sat_add(old(self).validator_balances@[w], eb));
                &&& final(self).validator_balances@ == mid.update(validator_index as int, sat_sub(mid[validator_index as int], eb))
                &&& final(self).validator_registry@[validator_index as int].penalized_epoch == cur
            }),
    {
        let whistleblower = match self.get_beacon_proposer_index(self.slot, spec) {
            Err(e) => return Err(e),
            Ok(w) => w,
        };
        let eb = self.get_effective_balance(validator_index, spec);
        self.exit_validator(validator_index, spec);
        let cur = self.current_epoch(spec);
        let slot_i = (cur % (spec.latest_penalized_exit_length as u64)) as usize;
        let prev = self.latest_penalized_balances[slot_i];
        self.latest_penalized_balances.set(slot_i, prev.saturating_add(eb));
        let wb = self.validator_balances[whistleblower];
        self.validator_balances.set(whistleblower, wb.saturating_add(eb));
        let vb = self.validator_balances[validator_index];
        self.validator_balances.set(validator_index, vb.saturating_sub(eb));
        self.validator_registry[validator_index].penalized_epoch = cur;
        Ok(())
    }

    /// Exits every validator active in the current epoch whose balance fell below the ejection
    /// balance.
    pub fn process_ejections(&mut self, spec: &ChainSpec)
        requires
            old(self).wf(spec),
        ensures
            final(self).wf(spec),
            final(self).slot == old(self).slot,
            final(self).validator_balances@ == old(self).validator_balances@,
            final(self).validator_registry@.len() == old(self).validator_registry@.len(),
            forall|i: int| 0 <= i < old(self).validator_registry@.len() ==> #[trigger] final(self).validator_registry@[i] == ejected(
                old(self).validator_registry@[i],
                is_active(old(self).validator_registry@[i], epoch_of(old(self).slot, *spec)) && old(self).validator_balances@[i] < spec.ejection_balance,
                epoch_of(old(self).slot, *spec),
                *spec,
            ),
            ejections_ok(old(self).validator_registry@, old(self).validator_balances@, epoch_of(old(self).slot, *spec), *spec, final(self).validator_registry@),
            final(self).latest_penalized_balances@ == old(self).latest_penalized_balances@,
    {
        let ghost reg = self.validator_registry@;
        let cur = self.current_epoch(spec);
        let active = get_active_validator_indices(&self.validator_registry, cur);
        proof {
            lemma_active_prefix(reg, cur, reg.len() as int);
        }
        let mut k: usize = 0;
        while k < active.len()
            invariant
                self.wf(spec),
                k <= active@.len(),
                active@ == active_indices(reg, cur),
                cur == epoch_of(old(self).slot, *spec),
                self.slot == old(self).slot,
                reg == old(self).validator_registry@,
                self.validator_balances@ == old(self).validator_balances@,
                self.latest_penalized_balances@ == old(self).latest_penalized_balances@,
                self.validator_registry@.len() == reg.len(),
                forall|a: int, b: int| 0 <= a < b < active@.len() ==> active@[a] < active@[b],
                forall|a: int| 0 <= a < active@.len() ==> active@[a] < reg.len(),
                forall|i: usize| active@.contains(i) ==> i < reg.len() && is_active(reg[i as int], cur),
                forall|i: int| 0 <= i < reg.len() && is_active(reg[i], cur) ==> active@.contains(i as usize),
                forall|i: int| 0 <= i < reg.len() ==> #[trigger] self.validator_registry@[i] == ejected(
                    reg[i],
                    listed_before(active@, k as int, i) && self.validator_balances@[i] < spec.ejection_balance,
                    cur,
                    *spec,
                ),
            decreases active@.len() - k,
        {
            let index = active[k];
            if self.validator_balances[index] < spec.ejection_balance {
                self.exit_validator(index, spec);
            }
            proof {
                assert forall|i: int| 0 <= i < reg.len() implies #[trigger] self.validator_registry@[i] == ejected(
                    reg[i],
                    listed_before(active@, k + 1, i) && self.validator_balances@[i] < spec.ejection_balance,
                    cur,
                    *spec,
                ) by {
                    if i == index as int {
                        assert(active@[k as int] == i);
                        assert forall|m: int| 0 <= m < k implies active@[m] != i by {}
                    } else {
                        if listed_before(active@, k + 1, i) {
                            let m = choose|m: int| 0 <= m < k + 1 && active@[m] == i;
                            assert(m != k);
                        }
                    }
                }
            }
            k = k + 1;
        }
        proof {
            assert forall|i: int| 0 <= i < reg.len() implies listed_before(active@, k as int, i) == is_active(reg[i], cur) by {
                if is_active(reg[i], cur) {
                    assert(active@.contains(i as usize));
                } else {
                    if listed_before(active@, k as int, i) {
                        let m = choose|m: int| 0 <= m < k && active@[m] == i;
                        assert(active@.contains(i as usize));
                    }
                }
            }
        }
    }

    /// A validator's base reward: its effective balance over the reward quotient, over five.
    pub fn base_reward(&self, validator_index: usize, base_reward_quotient: u64, spec: &ChainSpec) -> (r: u64)
        requires
            validator_index < self.validator_balances@.len(),
            base_reward_quotient > 0,
        ensures
            r == effective_balance(self.validator_balances@, validator_index as int, *spec) / base_reward_quotient / 5,
    {
        self.get_effective_balance(validator_index, spec) / base_reward_quotient / 5
    }

    /// The penalty for a validator inactive `epochs_since_finality` epochs after finality.
    pub fn inactivity_penalty(
        &self,
        validator_index: usize,
        epochs_since_finality: u64,
        base_reward_quotient: u64,
        spec: &ChainSpec,
    ) -> (r: u64)
        requires
            spec.wf(),
            validator_index < self.validator_balances@.len(),
            base_reward_quotient > 0,
        ensures
            r == sat_add(
                effective_balance(self.validator_balances@, validator_index as int, *spec) / base_reward_quotient / 5,
                sat_to_u64((effective_balance(self.validator_balances@, validator_index as int, *spec) as int) * (epochs_since_finality as int) / (spec.inactivity_penalty_quotient as int) / 2),
            ),
    {
        let eb = self.get_effective_balance(validator_index, spec);
        assert((eb as u128) * (epochs_since_finality as u128) <= u128::MAX) by (nonlinear_arith)
            requires
                eb <= 274877906944u64,
        ;
        let scaled: u128 = (eb as u128) * (epochs_since_finality as u128) / (spec.inactivity_penalty_quotient as u128) / 2;
        let extra: u64 = if scaled > u64::MAX as u128 { u64::MAX } else { scaled as u64 };
        self.base_reward(validator_index, base_reward_quotient, spec).saturating_add(extra)
    }
}

/// `v` exited in epoch `cur` if `eject`, else `v` unchanged.
pub open spec fn ejected(v: Validator, eject: bool, cur: u64, spec: ChainSpec) -> Validator {
    if eject {
        Validator { exit_epoch: exit_epoch_after(v.exit_epoch, cur, spec), ..v }
    } else {
        v
    }
}

/// Whether `i` is among the first `k` entries of `list`.
pub open spec fn listed_before(list: Seq<usize>, k: int, i: int) -> bool {
    exists|m: int| 0 <= m < k && list[m] == i
}

/// `x` if it fits in 64 bits, else the largest 64-bit value.
pub open spec fn sat_to_u64(x: int) -> u64 {
    if x > u64::MAX { u64::MAX } else if x < 0 { 0 } else { x as u64 }
}

proof fn lemma_active_indices_same(a: Seq<Validator>, b: Seq<Validator>, e: u64, j: int, n: int)
    requires
        a.len() == b.len(),
        0 <= n <= a.len(),
        forall|i: int| 0 <= i < a.len() && i != j ==> a[i] == b[i],
        0 <= j < a.len() ==> a[j].activation_epoch == b[j].activation_epoch && (a[j].exit_epoch == b[j].exit_epoch),
    ensures
        crate::state::active_prefix(a, e, n) == crate::state::active_prefix(b, e, n),
    decreases n,
{
    if n > 0 {
        lemma_active_indices_same(a, b, e, j, n - 1);
    }
}

/// Whether the validator at `i` may withdraw in epoch `cur`: half the penalized-exit window
/// after its penalty, or the minimum withdrawal delay after its exit when not penalized.
pub open spec fn withdrawal_eligible(reg: Seq<Validator>, i: int, cur: u64, spec: ChainSpec) -> bool {
    if reg[i].penalized_epoch <= cur {
        cur >= reg[i].penalized_epoch + spec.latest_penalized_exit_length / 2
    } else {
        cur >= reg[i].exit_epoch + spec.min_validator_withdrawal_epochs
    }
}

/// Validator `a` comes before `b` in withdrawal order: earlier exit epoch, then lower index.
pub open spec fn withdraws_before(reg: Seq<Validator>, a: int, b: int) -> bool {
    reg[a].exit_epoch < reg[b].exit_epoch || (reg[a].exit_epoch == reg[b].exit_epoch && a < b)
}

/// The penalty of a validator with effective balance `eb` when `penalties` were slashed in
/// the window and `total` is the active balance: proportional to three times the slashed
/// amount, capped at the whole.
pub open spec fn penalty_spec(eb: u64, penalties: u64, total: u64) -> int {
    if total == 0 {
        0
    } else {
        let slashed = if 3 * penalties < total { 3 * penalties } else { total as int };
        (eb as int) * slashed / (total as int)
    }
}

/// Validator `i`'s balance after the midpoint penalty of epoch `cur`: when `cur` is half the
/// penalized-exit window after its penalty, it loses its share of what was slashed in the
/// window (`pb` holds the running penalized totals), out of `total` active balance.
pub open spec fn penalized_balance(reg: Seq<Validator>, bal: Seq<u64>, pb: Seq<u64>, i: int, cur: u64, total: nat, spec: ChainSpec) -> u64 {
    let len = spec.latest_penalized_exit_length as int;
    if reg[i].penalized_epoch + spec.latest_penalized_exit_length / 2 == cur {
        let window = sat_sub(pb[(cur as int) % len], pb[((cur as int) % len + 1) % len]);
        sat_sub(bal[i], penalty_spec(effective_balance(bal, i, spec), window, total as u64) as u64)
    } else {
        bal[i]
    }
}

impl BeaconState {
    /// Applies the penalty due to each validator at the midpoint of its penalized-exit window,
    /// then marks as withdrawable up to `max_withdrawals_per_epoch` eligible validators in
    /// withdrawal order. Returns the validators marked, in that order.
    pub fn process_penalties_and_exits(&mut self, spec: &ChainSpec) -> (chosen: Vec<usize>)
        requires
            old(self).wf(spec),
        ensures
            final(self).wf(spec),
            final(self).slot == old(self).slot,
            final(self).validator_registry@.len() == old(self).validator_registry@.len(),
            final(self).validator_registry_update_epoch == old(self).validator_registry_update_epoch,
            penalties_ok(
                old(self).validator_registry@,
                old(self).validator_balances@,
                old(self).latest_penalized_balances@,
                epoch_of(old(self).slot, *spec),
                *spec,
                final(self).validator_registry@,
                final(self).validator_balances@,
                chosen@,
            ),
            final(self).validator_balances@.len() == old(self).validator_balances@.len(),
            forall|i: int| 0 <= i < old(self).validator_balances@.len() ==> #[trigger] final(self).validator_balances@[i] == penalized_balance(
                old(self).validator_registry@,
                old(self).validator_balances@,
                old(self).latest_penalized_balances@,
                i,
                epoch_of(old(self).slot, *spec),
                total_balance(old(self).validator_balances@, active_indices(old(self).validator_registry@, epoch_of(old(self).slot, *spec)), *spec),
                *spec,
            ),
            ({
                let reg = old(self).validator_registry@;
                let cur = epoch_of(old(self).slot, *spec);
                &&& chosen@.len() <= spec.max_withdrawals_per_epoch
                &&& forall|a: int, b: int| 0 <= a < b < chosen@.len() ==> withdraws_before(reg, chosen@[a] as int, chosen@[b] as int)
                &&& forall|a: int| 0 <= a < chosen@.len() ==> chosen@[a] < reg.len() && withdrawal_eligible(reg, #[trigger] chosen@[a] as int, cur, *spec)
                &&& forall|i: int| 0 <= i < reg.len() && withdrawal_eligible(reg, i, cur, *spec) && !chosen@.contains(i as usize) ==> chosen@.len() == spec.max_withdrawals_per_epoch
                    && forall|a: int| 0 <= a < chosen@.len() ==> withdraws_before(reg, #[trigger] chosen@[a] as int, i)
                &&& forall|i: int| 0 <= i < reg.len() ==> #[trigger] final(self).validator_registry@[i] == if chosen@.contains(i as usize) {
                    Validator { status_flags: Some(StatusFlags::Withdrawable), ..reg[i] }
                } else {
                    reg[i]
                }
            }),
    {
        let cur = self.current_epoch(spec);
        let active = get_active_validator_indices(&self.validator_registry, cur);
        proof {
            lemma_active_prefix(self.validator_registry@, cur, self.validator_registry@.len() as int);
        }
        let total = self.get_total_balance(active.as_slice(), spec);
        let len_window = spec.latest_penalized_exit_length;
        let half = (len_window / 2) as u64;
        let n = self.validator_balances.len();
        let ghost reg0 = self.validator_registry@;
        let mut index: usize = 0;
        while index < n
            invariant
                self.wf(spec),
                n == self.validator_balances@.len(),
                index <= n,
                self.validator_registry@ == reg0,
                reg0 == old(self).validator_registry@,
                self.slot == old(self).slot,
                self.validator_registry_update_epoch == old(self).validator_registry_update_epoch,
                cur == epoch_of(self.slot, *spec),
                half as int == spec.latest_penalized_exit_length / 2,
                len_window == spec.latest_penalized_exit_length,
                self.latest_penalized_balances@ == old(self).latest_penalized_balances@,
                total == total_balance(old(self).validator_balances@, active_indices(reg0, cur), *spec),
                forall|m: int| 0 <= m < index ==> #[trigger] self.validator_balances@[m] == penalized_balance(
                    reg0, old(self).validator_balances@, old(self).latest_penalized_balances@, m, cur, total as nat, *spec),
                forall|m: int| index <= m < n ==> #[trigger] self.validator_balances@[m] == old(self).validator_balances@[m],
            decreases n - index,
        {
            let pe = self.validator_registry[index].penalized_epoch;
            if pe <= u64::MAX - half && pe + half == cur {
                let epoch_index = (cur % (len_window as u64)) as usize;
                let total_at_start = self.latest_penalized_balances[(epoch_index + 1) % len_window];
                let total_at_end = self.latest_penalized_balances[epoch_index];
                let total_penalties = total_at_end.saturating_sub(total_at_start);
                let eb = self.get_effective_balance(index, spec);
                let penalty: u64 = if total == 0 {
                    0
                } else {
                    let tripled = 3 * (total_penalties as u128);
                    let capped = if tripled < total as u128 { tripled } else { total as u128 };
                    assert(capped <= total as u128);
                    assert((eb as u128) * capped <= (eb as u128) * (total as u128)) by (nonlinear_arith)
                        requires
                            capped <= total as u128,
                    ;
                    assert((eb as u128) * (total as u128) <= u128::MAX) by (nonlinear_arith);
                    let p = (eb as u128) * capped / (total as u128);
                    assert(p <= eb as u128) by (nonlinear_arith)
                        requires
                            p as int == (eb as int) * (capped as int) / (total as int),
                            capped <= total as u128,
                            total > 0,
                    ;
                    p as u64
                };
                let b = self.validator_balances[index];
                self.validator_balances.set(index, b.saturating_sub(penalty));
                proof {
                    assert(epoch_index as int == (cur as int) % (len_window as int));
                }
            }
            index = index + 1;
        }
        let ghost bal_after = self.validator_balances@;
        let reg_len = self.validator_registry.len();
        let mut eligible: Vec<bool> = Vec::new();
        let mut k: usize = 0;
        while k < reg_len
            invariant
                self.wf(spec),
                reg_len == reg0.len(),
                self.validator_registry@ == reg0,
                k <= reg_len,
                eligible@.len() == k,
                cur == epoch_of(old(self).slot, *spec),
                half as int == spec.latest_penalized_exit_length / 2,
                forall|m: int| 0 <= m < k ==> eligible@[m] == withdrawal_eligible(reg0, m, cur, *spec),
            decreases reg_len - k,
        {
            let v = &self.validator_registry[k];
            let e = if v.penalized_epoch <= cur {
                v.penalized_epoch <= u64::MAX - half && cur >= v.penalized_epoch + half
            } else {
                v.exit_epoch <= u64::MAX - spec.min_validator_withdrawal_epochs && cur >= v.exit_epoch + spec.min_validator_withdrawal_epochs
            };
            eligible.push(e);
            k = k + 1;
        }
        let mut chosen: Vec<usize> = Vec::new();
        let mut taken: Vec<bool> = vec![false; reg_len];
        let mut done = false;
        while !done && (chosen.len() as u64) < spec.max_withdrawals_per_epoch
            invariant
                self.wf(spec),
                reg_len == reg0.len(),
                self.validator_registry@.len() == reg_len,
                self.slot == old(self).slot,
                self.validator_registry_update_epoch == old(self).validator_registry_update_epoch,
                self.validator_balances@ == bal_after,
                eligible@.len() == reg_len,
                taken@.len() == reg_len,
                cur == epoch_of(old(self).slot, *spec),
                forall|m: int| 0 <= m < reg_len ==> eligible@[m] == withdrawal_eligible(reg0, m, cur, *spec),
                chosen@.len() <= spec.max_withdrawals_per_epoch,
                forall|a: int| 0 <= a < chosen@.len() ==> chosen@[a] < reg_len && eligible@[#[trigger] chosen@[a] as int],
                forall|m: int| 0 <= m < reg_len ==> (taken@[m] <==> chosen@.contains(m as usize)),
                forall|a: int, b: int| 0 <= a < b < chosen@.len() ==> withdraws_before(reg0, chosen@[a] as int, chosen@[b] as int),
                forall|a: int, m: int| 0 <= a < chosen@.len() && 0 <= m < reg_len && eligible@[m] && !taken@[m] ==> #[trigger] withdraws_before(reg0, chosen@[a] as int, m),
                done ==> forall|m: int| 0 <= m < reg_len ==> !(eligible@[m] && !taken@[m]),
                forall|i: int| 0 <= i < reg_len ==> #[trigger] self.validator_registry@[i] == if chosen@.contains(i as usize) {
                    Validator { status_flags: Some(StatusFlags::Withdrawable), ..reg0[i] }
                } else {
                    reg0[i]
                },
            decreases spec.max_withdrawals_per_epoch - chosen@.len() + (if done { 0int } else { 1int }),
        {
            let mut best: usize = reg_len;
            let mut m: usize = 0;
            while m < reg_len
                invariant
                    m <= reg_len,
                    reg_len == reg0.len(),
                    self.validator_registry@.len() == reg_len,
                    eligible@.len() == reg_len,
                    taken@.len() == reg_len,
                    best == reg_len || (best < m && eligible@[best as int] && !taken@[best as int]),
                    best == reg_len ==> forall|t: int| 0 <= t < m ==> !(eligible@[t] && !taken@[t]),
                    best < reg_len ==> forall|t: int| 0 <= t < m && eligible@[t] && !taken@[t] && t != best ==> withdraws_before(reg0, best as int, t),
                    forall|i: int| 0 <= i < reg_len ==> (#[trigger] self.validator_registry@[i]).exit_epoch == reg0[i].exit_epoch,
                decreases reg_len - m,
            {
                if eligible[m] && !taken[m] {
                    if best == reg_len || self.validator_registry[m].exit_epoch < self.validator_registry[best].exit_epoch {
                        best = m;
                    }
                }
                m = m + 1;
            }
            if best == reg_len {
                done = true;
            } else {
                proof {
                    assert(!chosen@.contains(best));
                }
                let ghost before = chosen@;
                chosen.push(best);
                taken.set(best, true);
                self.validator_registry[best].status_flags = Some(StatusFlags::Withdrawable);
                proof {
                    assert forall|t: int| 0 <= t < reg_len implies (taken@[t] <==> chosen@.contains(t as usize)) by {
                        if chosen@.contains(t as usize) && t != best as int {
                            let w = choose|w: int| 0 <= w < chosen@.len() && chosen@[w] == t as usize;
                            assert(before[w] == t as usize);
                        }
                        if t != best as int && before.contains(t as usize) {
                            let w = choose|w: int| 0 <= w < before.len() && before[w] == t as usize;
                            assert(chosen@[w] == t as usize);
                        }
                        if t == best as int {
                            assert(chosen@[before.len() as int] == best);
                        }
                    }
                    assert forall|i: int| 0 <= i < reg_len implies #[trigger] self.validator_registry@[i] == if chosen@.contains(i as usize) {
                        Validator { status_flags: Some(StatusFlags::Withdrawable), ..reg0[i] }
                    } else {
                        reg0[i]
                    } by {
                        assert(taken@[i] <==> chosen@.contains(i as usize));
                    }
                }
            }
        }
        proof {
            let reg = reg0;
            assert forall|i: int| 0 <= i < reg.len() && withdrawal_eligible(reg, i, cur, *spec) && !chosen@.contains(i as usize) implies chosen@.len() == spec.max_withdrawals_per_epoch
                && forall|a: int| 0 <= a < chosen@.len() ==> withdraws_before(reg, #[trigger] chosen@[a] as int, i) by {
                assert(eligible@[i] && !taken@[i]);
            }
        }
        chosen
    }
}

} // verus!
