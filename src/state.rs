use crate::shuffle::{part_start, concat_all, honey_badger_split, lemma_shuffle_permutes, lemma_split_concat, shuffle, shuffle_spec, split_spec};
use crate::tree_hash_cache::copy_usizes;
use crate::types::{BeaconState, ChainSpec, Hash256, Validator, MAX_DEPOSIT_BOUND, MAX_VALIDATORS};
use vstd::prelude::*;

verus! {

broadcast use {vstd::seq_lib::group_to_multiset_ensures, vstd::multiset::group_multiset_axioms};

#[derive(Debug, PartialEq, Eq, Clone, Copy, Structural)]
pub enum CommitteesError {
    InvalidEpoch,
    InsufficientNumberOfValidators,
}

#[derive(Debug, PartialEq, Eq, Clone, Copy, Structural)]
pub enum Error {
    InsufficientValidators,
    BadBlockSignature,
    /// A slot outside the epochs `[start, end)` that were asked about.
    InvalidEpoch(u64, u64, u64),
    CommitteesError(CommitteesError),
}

/// Whether `v` is active in `epoch`.
pub open spec fn is_active(v: Validator, epoch: u64) -> bool {
    v.activation_epoch <= epoch && epoch < v.exit_epoch
}

/// Indices below `n` of the validators active in `epoch`, ascending.
pub open spec fn active_prefix(reg: Seq<Validator>, epoch: u64, n: int) -> Seq<usize>
    decreases n,
{
    if n <= 0 {
        Seq::empty()
    } else if is_active(reg[n - 1], epoch) {
        active_prefix(reg, epoch, n - 1).push((n - 1) as usize)
    } else {
        active_prefix(reg, epoch, n - 1)
    }
}

/// Indices of the validators active in `epoch`, ascending.
pub open spec fn active_indices(reg: Seq<Validator>, epoch: u64) -> Seq<usize> {
    active_prefix(reg, epoch, reg.len() as int)
}

pub proof fn lemma_active_prefix(reg: Seq<Validator>, epoch: u64, n: int)
    requires
        0 <= n <= reg.len(),
        reg.len() <= usize::MAX,
    ensures
        forall|a: int, b: int| 0 <= a < b < active_prefix(reg, epoch, n).len() ==> active_prefix(reg, epoch, n)[a] < active_prefix(reg, epoch, n)[b],
        forall|a: int| 0 <= a < active_prefix(reg, epoch, n).len() ==> active_prefix(reg, epoch, n)[a] < n,
        forall|i: int| 0 <= i < n && is_active(reg[i], epoch) ==> active_prefix(reg, epoch, n).contains(i as usize),
        forall|i: usize| active_prefix(reg, epoch, n).contains(i) ==> i < n && is_active(reg[i as int], epoch),
        active_prefix(reg, epoch, n).len() <= n,
    decreases n,
{
    if n > 0 {
        lemma_active_prefix(reg, epoch, n - 1);
        let p = active_prefix(reg, epoch, n - 1);
        if is_active(reg[n - 1], epoch) {
            assert(active_prefix(reg, epoch, n) == p.push((n - 1) as usize));
            assert forall|i: int| 0 <= i < n && is_active(reg[i], epoch) implies active_prefix(reg, epoch, n).contains(i as usize) by {
                if i < n - 1 {
                    let w = choose|w: int| 0 <= w < p.len() && p[w] == i as usize;
                    assert(active_prefix(reg, epoch, n)[w] == i as usize);
                } else {
                    assert(active_prefix(reg, epoch, n)[p.len() as int] == i as usize);
                }
            }
            assert forall|i: usize| active_prefix(reg, epoch, n).contains(i) implies i < n && is_active(reg[i as int], epoch) by {
                let w = choose|w: int| 0 <= w < active_prefix(reg, epoch, n).len() && active_prefix(reg, epoch, n)[w] == i;
                if w < p.len() {
                    assert(p.contains(i));
                }
            }
        }
    }
}

/// Returns the indices of the validators in `validators` active in `epoch`, ascending.
pub fn get_active_validator_indices(validators: &Vec<Validator>, epoch: u64) -> (r: Vec<usize>)
    ensures
        r@ == active_indices(validators@, epoch),
{
    let mut r: Vec<usize> = Vec::new();
    let mut i: usize = 0;
    while i < validators.len()
        invariant
            i <= validators@.len(),
            r@ == active_prefix(validators@, epoch, i as int),
        decreases validators@.len() - i,
    {
        let v = &validators[i];
        if v.activation_epoch <= epoch && epoch < v.exit_epoch {
            r.push(i);
        }
        i = i + 1;
    }
    r
}

/// Number of committees in an epoch with `active` active validators: one per slot at least,
/// no more than the shards allow, and about `target_committee_size` members each.
pub open spec fn committee_count(active: nat, spec: ChainSpec) -> nat {
    let per_slot_cap = spec.shard_count / spec.epoch_length;
    let wanted = active / (spec.epoch_length as nat) / (spec.target_committee_size as nat);
    let per_slot = if per_slot_cap < wanted { per_slot_cap as nat } else { wanted };
    let per_slot = if per_slot < 1 { 1nat } else { per_slot };
    per_slot * (spec.epoch_length as nat)
}

/// `seed` with `epoch`'s eight big-endian bytes XOR-ed into its last eight bytes.
pub open spec fn xor_epoch(seed: Seq<u8>, epoch: u64) -> Seq<u8> {
    Seq::new(32, |k: int| if k < 24 { seed[k] } else { seed[k] ^ ((epoch >> (8 * (31 - k)) as u64) & 0xff) as u8 })
}

/// The committees of `epoch`: the active validators shuffled by the seed mixed with the epoch,
/// cut into `committee_count` near-equal parts.
pub open spec fn shuffling_spec(reg: Seq<Validator>, seed: Seq<u8>, epoch: u64, spec: ChainSpec) -> Seq<Seq<usize>> {
    let active = active_indices(reg, epoch);
    split_spec(shuffle_spec(xor_epoch(seed, epoch), active), committee_count(active.len(), spec))
}

/// Committee partition: every validator active in `epoch` sits in exactly one committee of
/// the epoch, and nobody else sits in any.
pub proof fn lemma_committees_partition(reg: Seq<Validator>, seed: Seq<u8>, epoch: u64, spec: ChainSpec, v: usize)
    requires
        spec.wf(),
        reg.len() <= usize::MAX,
    ensures
        concat_all(shuffling_spec(reg, seed, epoch, spec)).to_multiset().count(v) == (if is_active_index(reg, epoch, v) { 1nat } else { 0nat }),
{
    let active = active_indices(reg, epoch);
    let shuffled = shuffle_spec(xor_epoch(seed, epoch), active);
    let n = committee_count(active.len(), spec);
    lemma_committee_count_positive(active.len(), spec);
    lemma_split_concat(shuffled, n);
    lemma_shuffle_permutes(xor_epoch(seed, epoch), active, 0);
    lemma_active_prefix(reg, epoch, reg.len() as int);
    assert(active.no_duplicates()) by {
        assert forall|a: int, b: int| 0 <= a < active.len() && 0 <= b < active.len() && a != b implies active[a] != active[b] by {
            if a < b {
                assert(active[a] < active[b]);
            } else {
                assert(active[b] < active[a]);
            }
        }
    }
    active.lemma_multiset_has_no_duplicates();
    if is_active_index(reg, epoch, v) {
        assert(active.contains(v));
    } else {
        assert(!active.contains(v));
    }
}

/// The committees of an epoch differ in size by at most one.
pub proof fn lemma_committee_sizes(reg: Seq<Validator>, seed: Seq<u8>, epoch: u64, spec: ChainSpec, a: int, b: int)
    requires
        spec.wf(),
        0 <= a < shuffling_spec(reg, seed, epoch, spec).len(),
        0 <= b < shuffling_spec(reg, seed, epoch, spec).len(),
    ensures
        shuffling_spec(reg, seed, epoch, spec)[a].len() <= shuffling_spec(reg, seed, epoch, spec)[b].len() + 1,
{
    let active = active_indices(reg, epoch);
    let shuffled = shuffle_spec(xor_epoch(seed, epoch), active);
    let n = committee_count(active.len(), spec);
    lemma_committee_count_positive(active.len(), spec);
    crate::shuffle::lemma_split_sizes(shuffled, n, a);
    crate::shuffle::lemma_split_sizes(shuffled, n, b);
}

/// Whether `v` indexes a validator of `reg` active in `epoch`.
pub open spec fn is_active_index(reg: Seq<Validator>, epoch: u64, v: usize) -> bool {
    v < reg.len() && is_active(reg[v as int], epoch)
}

proof fn lemma_committee_count_positive(active: nat, spec: ChainSpec)
    requires
        spec.wf(),
    ensures
        committee_count(active, spec) >= 1,
        committee_count(active, spec) <= spec.shard_count || committee_count(active, spec) == spec.epoch_length,
        committee_count(active, spec) % (spec.epoch_length as nat) == 0,
{
    let cap = spec.shard_count / spec.epoch_length;
    let wanted = active / (spec.epoch_length as nat) / (spec.target_committee_size as nat);
    let per_slot = if cap < wanted { cap as nat } else { wanted };
    let per_slot = if per_slot < 1 { 1nat } else { per_slot };
    assert(per_slot == 1 || per_slot <= cap);
    assert(cap * spec.epoch_length <= spec.shard_count) by (nonlinear_arith)
        requires
            cap == spec.shard_count / spec.epoch_length,
            spec.epoch_length > 0,
    ;
    let el = spec.epoch_length as nat;
    assert(committee_count(active, spec) == per_slot * el);
    if per_slot != 1 {
        assert(per_slot * el <= cap * el) by (nonlinear_arith)
            requires
                per_slot <= cap,
        ;
    }
    assert((per_slot * spec.epoch_length) % (spec.epoch_length as int) == 0) by (nonlinear_arith)
        requires
            spec.epoch_length > 0,
    ;
    assert(per_slot * spec.epoch_length >= 1) by (nonlinear_arith)
        requires
            per_slot >= 1,
            spec.epoch_length >= 1,
    ;
}

/// The epoch of `slot`.
pub open spec fn epoch_of(slot: u64, spec: ChainSpec) -> u64 {
    slot / spec.epoch_length
}

/// The epoch before the state's current one (the current one at genesis or at zero).
pub open spec fn previous_epoch_spec(state: &BeaconState, spec: ChainSpec) -> u64 {
    let cur = epoch_of(state.slot, spec);
    if cur == spec.genesis_epoch || cur == 0 {
        cur
    } else {
        (cur - 1) as u64
    }
}

/// The epoch after the one of `slot`, saturating.
pub open spec fn next_epoch_spec(slot: u64, spec: ChainSpec) -> u64 {
    if epoch_of(slot, spec) == u64::MAX { u64::MAX } else { (epoch_of(slot, spec) + 1) as u64 }
}

/// The `(committee, shard)` pairs of `slot`, or why there are none: the slot must lie in the
/// previous or current epoch. Each slot takes its share of the epoch's committees, in order,
/// and the shards that follow the epoch's start shard.
pub open spec fn crosslink_committees_spec(state: &BeaconState, slot: u64, spec: ChainSpec) -> Result<Seq<(Seq<usize>, u64)>, CommitteesError> {
    let epoch = epoch_of(slot, spec);
    let cur = epoch_of(state.slot, spec);
    if !(previous_epoch_spec(state, spec) <= epoch && epoch <= cur) {
        Err(CommitteesError::InvalidEpoch)
    } else {
        let offset = (slot % spec.epoch_length) as int;
        let previous = epoch < cur;
        let calc_epoch = if previous { state.previous_calculation_epoch } else { state.current_calculation_epoch };
        let seed = if previous { state.previous_epoch_seed } else { state.current_epoch_seed };
        let start = if previous { state.previous_epoch_start_shard } else { state.current_epoch_start_shard };
        let shuffling = shuffling_spec(state.validator_registry@, seed@, calc_epoch, spec);
        let cps = shuffling.len() / (spec.epoch_length as nat);
        Ok(Seq::new(cps, |i: int| (shuffling[cps * offset + i], ((start + cps * offset + i) % (spec.shard_count as int)) as u64)))
    }
}

/// `r` holds the pairs `s` describes.
pub open spec fn committees_match(r: Seq<(Vec<usize>, u64)>, s: Seq<(Seq<usize>, u64)>) -> bool {
    &&& r.len() == s.len()
    &&& forall|i: int| 0 <= i < r.len() ==> (#[trigger] r[i]).0@ == s[i].0 && r[i].1 == s[i].1
}

/// A validator's balance counted towards stake, capped at the maximum deposit.
pub open spec fn effective_balance(balances: Seq<u64>, index: int, spec: ChainSpec) -> u64 {
    if balances[index] < spec.max_deposit_amount { balances[index] } else { spec.max_deposit_amount }
}

/// Sum of the effective balances of the validators listed in `indices`.
pub open spec fn total_balance(balances: Seq<u64>, indices: Seq<usize>, spec: ChainSpec) -> nat
    decreases indices.len(),
{
    if indices.len() == 0 {
        0
    } else {
        total_balance(balances, indices.drop_last(), spec) + (effective_balance(balances, indices.last() as int, spec) as nat)
    }
}

proof fn lemma_total_balance_bound(balances: Seq<u64>, indices: Seq<usize>, spec: ChainSpec)
    ensures
        total_balance(balances, indices, spec) <= indices.len() * (spec.max_deposit_amount as nat),
    decreases indices.len(),
{
    if indices.len() > 0 {
        lemma_total_balance_bound(balances, indices.drop_last(), spec);
        assert((indices.len() - 1) * (spec.max_deposit_amount as nat) + spec.max_deposit_amount == indices.len() * (spec.max_deposit_amount as nat)) by (nonlinear_arith);
    }
}

proof fn lemma_shuffling_members(reg: Seq<Validator>, seed: Seq<u8>, epoch: u64, spec: ChainSpec, k: int, j: int)
    requires
        spec.wf(),
        reg.len() <= usize::MAX,
        0 <= k < shuffling_spec(reg, seed, epoch, spec).len(),
        0 <= j < shuffling_spec(reg, seed, epoch, spec)[k].len(),
    ensures
        (shuffling_spec(reg, seed, epoch, spec)[k][j] as int) < reg.len(),
{
    let active = active_indices(reg, epoch);
    let shuffled = shuffle_spec(xor_epoch(seed, epoch), active);
    let n = committee_count(active.len(), spec);
    lemma_committee_count_positive(active.len(), spec);
    lemma_shuffle_permutes(xor_epoch(seed, epoch), active, 0);
    crate::shuffle::lemma_part_bounds(shuffled.len(), n, k as nat);
    let x = shuffled[part_start(shuffled.len(), n, k as nat) + j];
    assert(shuffling_spec(reg, seed, epoch, spec)[k][j] == x);
    assert(shuffled.contains(x));
    assert(shuffled.to_multiset().count(x) > 0);
    assert(active.to_multiset().count(x) > 0);
    assert(active.contains(x));
    lemma_active_prefix(reg, epoch, reg.len() as int);
}

/// Every member of a crosslink committee indexes a validator of the registry.
pub proof fn lemma_committee_members_valid(state: &BeaconState, slot: u64, spec: ChainSpec, i: int, j: int)
    requires
        state.wf(&spec),
        crosslink_committees_spec(state, slot, spec) is Ok,
        0 <= i < crosslink_committees_spec(state, slot, spec)->Ok_0.len(),
        0 <= j < crosslink_committees_spec(state, slot, spec)->Ok_0[i].0.len(),
    ensures
        (crosslink_committees_spec(state, slot, spec)->Ok_0[i].0[j] as int) < state.validator_registry@.len(),
{
    let epoch = epoch_of(slot, spec);
    let cur = epoch_of(state.slot, spec);
    let offset = (slot % spec.epoch_length) as int;
    let previous = epoch < cur;
    let calc_epoch = if previous { state.previous_calculation_epoch } else { state.current_calculation_epoch };
    let seed = if previous { state.previous_epoch_seed } else { state.current_epoch_seed };
    let sh = shuffling_spec(state.validator_registry@, seed@, calc_epoch, spec);
    let cps = sh.len() / (spec.epoch_length as nat);
    assert(cps * offset + cps <= sh.len()) by (nonlinear_arith)
        requires
            cps == sh.len() / (spec.epoch_length as nat),
            0 <= offset < spec.epoch_length,
            spec.epoch_length > 0,
    ;
    lemma_shuffling_members(state.validator_registry@, seed@, calc_epoch, spec, cps * offset + i, j);
}

impl BeaconState {
    pub fn current_epoch(&self, spec: &ChainSpec) -> (r: u64)
        requires
            spec.epoch_length > 0,
        ensures
            r == epoch_of(self.slot, *spec),
    {
        self.slot / spec.epoch_length
    }

    /// The epoch before the current one, zero at zero.
    pub fn previous_epoch(&self, spec: &ChainSpec) -> (r: u64)
        requires
            spec.epoch_length > 0,
        ensures
            r == (if epoch_of(self.slot, *spec) == 0 { 0 } else { epoch_of(self.slot, *spec) - 1 }),
    {
        self.current_epoch(spec).saturating_sub(1)
    }

    /// The epoch after the current one.
    pub fn next_epoch(&self, spec: &ChainSpec) -> (r: u64)
        requires
            spec.epoch_length > 0,
        ensures
            r == next_epoch_spec(self.slot, *spec),
    {
        self.current_epoch(spec).saturating_add(1)
    }

    pub fn current_epoch_start_slot(&self, spec: &ChainSpec) -> (r: u64)
        requires
            spec.epoch_length > 0,
        ensures
            r == epoch_of(self.slot, *spec) * spec.epoch_length,
    {
        let e = self.current_epoch(spec);
        assert(e * spec.epoch_length <= self.slot) by (nonlinear_arith)
            requires
                e == self.slot / spec.epoch_length,
                spec.epoch_length > 0,
        ;
        e * spec.epoch_length
    }

    pub fn previous_epoch_start_slot(&self, spec: &ChainSpec) -> (r: u64)
        requires
            spec.epoch_length > 0,
        ensures
            r == (if epoch_of(self.slot, *spec) == 0 { 0 } else { epoch_of(self.slot, *spec) - 1 }) * spec.epoch_length,
    {
        let e = self.previous_epoch(spec);
        assert(e * spec.epoch_length <= self.slot) by (nonlinear_arith)
            requires
                e <= self.slot / spec.epoch_length,
                spec.epoch_length > 0,
        ;
        e * spec.epoch_length
    }

    /// The number of committees in an epoch with `active_validator_count` active validators.
    pub fn get_epoch_committee_count(&self, active_validator_count: usize, spec: &ChainSpec) -> (r: u64)
        requires
            spec.wf(),
        ensures
            r == committee_count(active_validator_count as nat, *spec),
    {
        let cap = spec.shard_count / spec.epoch_length;
        let wanted = active_validator_count as u64 / spec.epoch_length / spec.target_committee_size;
        let per_slot = if cap < wanted { cap } else { wanted };
        let per_slot = if per_slot < 1 { 1u64 } else { per_slot };
        proof {
            lemma_committee_count_positive(active_validator_count as nat, *spec);
        }
        per_slot * spec.epoch_length
    }

    /// The committees of `epoch`, shuffled by `seed` mixed with the epoch.
    pub fn get_shuffling(&self, seed: Hash256, epoch: u64, spec: &ChainSpec) -> (r: Vec<Vec<usize>>)
        requires
            self.wf(spec),
        ensures
            r@.len() == shuffling_spec(self.validator_registry@, seed@, epoch, *spec).len(),
            forall|k: int| 0 <= k < r@.len() ==> #[trigger] r@[k]@ == shuffling_spec(self.validator_registry@, seed@, epoch, *spec)[k],
    {
        let active = get_active_validator_indices(&self.validator_registry, epoch);
        proof {
            lemma_active_prefix(self.validator_registry@, epoch, self.validator_registry@.len() as int);
        }
        let count = self.get_epoch_committee_count(active.len(), spec);
        let mut mixed: Vec<u8> = Vec::new();
        let mut k: usize = 0;
        while k < 32
            invariant
                k <= 32,
                mixed@.len() == k,
                forall|m: int| 0 <= m < k ==> mixed@[m] == xor_epoch(seed@, epoch)[m],
            decreases 32 - k,
        {
            if k < 24 {
                mixed.push(seed[k]);
            } else {
                mixed.push(seed[k] ^ ((epoch >> (8 * (31 - k as u64))) & 0xff) as u8);
            }
            k = k + 1;
        }
        assert(mixed@ =~= xor_epoch(seed@, epoch));
        let shuffled = shuffle(&mixed, active);
        proof {
            lemma_committee_count_positive(active@.len(), *spec);
            assert(shuffled@.len() * count <= u64::MAX) by (nonlinear_arith)
                requires
                    shuffled@.len() <= MAX_VALIDATORS,
                    count <= 0x8000_0000,
            ;
        }
        honey_badger_split(&shuffled, count as usize)
    }
}

impl BeaconState {
    /// The number of committees in the epoch of the previous shuffling.
    pub fn get_previous_epoch_committee_count(&self, spec: &ChainSpec) -> (r: u64)
        requires
            self.wf(spec),
        ensures
            r == committee_count(active_indices(self.validator_registry@, self.previous_calculation_epoch).len(), *spec),
    {
        let active = get_active_validator_indices(&self.validator_registry, self.previous_calculation_epoch);
        self.get_epoch_committee_count(active.len(), spec)
    }

    /// The number of committees in the epoch of the current shuffling.
    pub fn get_current_epoch_committee_count(&self, spec: &ChainSpec) -> (r: u64)
        requires
            self.wf(spec),
        ensures
            r == committee_count(active_indices(self.validator_registry@, self.current_calculation_epoch).len(), *spec),
    {
        let active = get_active_validator_indices(&self.validator_registry, self.current_calculation_epoch);
        self.get_epoch_committee_count(active.len(), spec)
    }

    /// The number of committees in the epoch after the current one.
    pub fn get_next_epoch_committee_count(&self, spec: &ChainSpec) -> (r: u64)
        requires
            self.wf(spec),
        ensures
            r == committee_count(active_indices(self.validator_registry@, next_epoch_spec(self.slot, *spec)).len(), *spec),
    {
        let next = self.next_epoch(spec);
        let active = get_active_validator_indices(&self.validator_registry, next);
        self.get_epoch_committee_count(active.len(), spec)
    }

    /// The `(committee, shard)` pairs of `slot`; `InvalidEpoch` unless the slot lies in the
    /// previous or current epoch.
    pub fn get_crosslink_committees_at_slot(
        &self,
        slot: u64,
        registry_change: bool,
        spec: &ChainSpec,
    ) -> (r: Result<Vec<(Vec<usize>, u64)>, CommitteesError>)
        requires
            self.wf(spec),
        ensures
            match crosslink_committees_spec(self, slot, *spec) {
                Err(e) => r == Err::<Vec<(Vec<usize>, u64)>, CommitteesError>(e),
                Ok(s) => r is Ok && committees_match(r->Ok_0@, s),
            },
    {
        let epoch = slot / spec.epoch_length;
        let current_epoch = self.current_epoch(spec);
        let previous_epoch = if current_epoch == spec.genesis_epoch {
            current_epoch
        } else {
            current_epoch.saturating_sub(1)
        };
        if !(previous_epoch <= epoch && epoch <= current_epoch) {
            return Err(CommitteesError::InvalidEpoch);
        }
        let offset = slot % spec.epoch_length;
        let previous = epoch < current_epoch;
        let (shuffling, start) = if previous {
            (self.get_shuffling(self.previous_epoch_seed, self.previous_calculation_epoch, spec), self.previous_epoch_start_shard)
        } else {
            (self.get_shuffling(self.current_epoch_seed, self.current_calculation_epoch, spec), self.current_epoch_start_shard)
        };
        let ghost calc_epoch = if previous { self.previous_calculation_epoch } else { self.current_calculation_epoch };
        let ghost seed = if previous { self.previous_epoch_seed } else { self.current_epoch_seed };
        let ghost sh = shuffling_spec(self.validator_registry@, seed@, calc_epoch, *spec);
        proof {
            let active = active_indices(self.validator_registry@, calc_epoch);
            lemma_committee_count_positive(active.len(), *spec);
            lemma_active_prefix(self.validator_registry@, calc_epoch, self.validator_registry@.len() as int);
        }
        let count = shuffling.len();
        let cps = (count as u64) / spec.epoch_length;
        proof {
            assert(cps * offset + cps <= count) by (nonlinear_arith)
                requires
                    cps == (count as u64) / spec.epoch_length,
                    offset < spec.epoch_length,
                    spec.epoch_length > 0,
            ;
        }
        let base = cps * offset;
        let mut r: Vec<(Vec<usize>, u64)> = Vec::new();
        let mut i: u64 = 0;
        while i < cps
            invariant
                self.wf(spec),
                i <= cps,
                base == cps * offset,
                base + cps <= count,
                count == sh.len(),
                shuffling@.len() == sh.len(),
                forall|k: int| 0 <= k < shuffling@.len() ==> #[trigger] shuffling@[k]@ == sh[k],
                start < spec.shard_count,
                count <= 0x8000_0000,
                r@.len() == i,
                forall|m: int| 0 <= m < i ==> #[trigger] r@[m].0@ == sh[base + m] && r@[m].1 == ((start + base + m) % (spec.shard_count as int)) as u64,
            decreases cps - i,
        {
            let members = copy_usizes(&shuffling[(base + i) as usize]);
            let shard = (start + base + i) % spec.shard_count;
            r.push((members, shard));
            i = i + 1;
        }
        proof {
            let ghost want = crosslink_committees_spec(self, slot, *spec);
            assert(want is Ok);
            let ws = want->Ok_0;
            assert(ws.len() == cps);
            assert forall|m: int| 0 <= m < r@.len() implies (#[trigger] r@[m]).0@ == ws[m].0 && r@[m].1 == ws[m].1 by {
                assert(ws[m] == (sh[cps * offset + m], ((start + cps * offset + m) % (spec.shard_count as int)) as u64));
                assert(r@[m].0@ == sh[base + m]);
                assert(base + m == cps * offset + m);
                assert(r@[m].1 == ((start + base + m) % (spec.shard_count as int)) as u64);
            }
            assert(r@.len() == ws.len());
            assert(committees_match(r@, ws));
        }
        Ok(r)
    }

    /// The validator proposing at `slot`: member `slot mod size` of the slot's first committee.
    pub fn get_beacon_proposer_index(&self, slot: u64, spec: &ChainSpec) -> (r: Result<usize, CommitteesError>)
        requires
            self.wf(spec),
        ensures
            match crosslink_committees_spec(self, slot, *spec) {
                Err(e) => r == Err::<usize, CommitteesError>(e),
                Ok(s) => if s.len() == 0 || s[0].0.len() == 0 {
                    r == Err::<usize, CommitteesError>(CommitteesError::InsufficientNumberOfValidators)
                } else {
                    r == Ok::<usize, CommitteesError>(s[0].0[(slot % (s[0].0.len() as u64)) as int])
                },
            },
            r is Ok ==> r->Ok_0 < self.validator_registry@.len(),
    {
        let committees = match self.get_crosslink_committees_at_slot(slot, false, spec) {
            Err(e) => return Err(e),
            Ok(c) => c,
        };
        if committees.len() == 0 {
            return Err(CommitteesError::InsufficientNumberOfValidators);
        }
        let first = &committees[0].0;
        if first.len() == 0 {
            return Err(CommitteesError::InsufficientNumberOfValidators);
        }
        let index = (slot % (first.len() as u64)) as usize;
        proof {
            lemma_committee_members_valid(self, slot, *spec, 0, index as int);
        }
        Ok(first[index])
    }

    /// The epoch at which an activation or exit started in `epoch` takes effect.
    pub fn get_entry_exit_effect_epoch(&self, epoch: u64, spec: &ChainSpec) -> (r: u64)
        ensures
            r == (if epoch + 1 + spec.entry_exit_delay > u64::MAX { u64::MAX as int } else { epoch + 1 + spec.entry_exit_delay }),
    {
        epoch.saturating_add(1).saturating_add(spec.entry_exit_delay)
    }

    /// The balance of validator `validator_index` counted towards stake.
    pub fn get_effective_balance(&self, validator_index: usize, spec: &ChainSpec) -> (r: u64)
        requires
            validator_index < self.validator_balances@.len(),
        ensures
            r == effective_balance(self.validator_balances@, validator_index as int, *spec),
    {
        let b = self.validator_balances[validator_index];
        if b < spec.max_deposit_amount { b } else { spec.max_deposit_amount }
    }

    /// The summed effective balance of the listed validators.
    pub fn get_total_balance(&self, validator_indices: &[usize], spec: &ChainSpec) -> (r: u64)
        requires
            spec.wf(),
            validator_indices@.len() <= MAX_VALIDATORS,
            forall|k: int| 0 <= k < validator_indices@.len() ==> #[trigger] validator_indices@[k] < self.validator_balances@.len(),
        ensures
            r == total_balance(self.validator_balances@, validator_indices@, *spec),
    {
        let mut acc: u64 = 0;
        let mut k: usize = 0;
        while k < validator_indices.len()
            invariant
                spec.wf(),
                k <= validator_indices@.len(),
                validator_indices@.len() <= MAX_VALIDATORS,
                forall|m: int| 0 <= m < validator_indices@.len() ==> #[trigger] validator_indices@[m] < self.validator_balances@.len(),
                acc == total_balance(self.validator_balances@, validator_indices@.subrange(0, k as int), *spec),
            decreases validator_indices@.len() - k,
        {
            let ghost pre = validator_indices@.subrange(0, k as int);
            let ghost next = validator_indices@.subrange(0, k + 1);
            assert(next.drop_last() =~= pre);
            proof {
                lemma_total_balance_bound(self.validator_balances@, pre, *spec);
                assert(pre.len() * (spec.max_deposit_amount as nat) + spec.max_deposit_amount <= u64::MAX) by (nonlinear_arith)
                    requires
                        pre.len() < MAX_VALIDATORS,
                        spec.max_deposit_amount <= MAX_DEPOSIT_BOUND,
                ;
            }
            acc = acc + self.get_effective_balance(validator_indices[k], spec);
            k = k + 1;
        }
        assert(validator_indices@.subrange(0, k as int) =~= validator_indices@);
        acc
    }

    /// The block root recorded for `slot` in the ring buffer.
    pub fn get_block_root(&self, slot: u64, spec: &ChainSpec) -> (r: Option<Hash256>)
        requires
            self.wf(spec),
        ensures
            r == Some(self.latest_block_roots@[(slot % (spec.latest_block_roots_length as u64)) as int]),
    {
        let i = (slot % (spec.latest_block_roots_length as u64)) as usize;
        if i < self.latest_block_roots.len() {
            Some(self.latest_block_roots[i])
        } else {
            None
        }
    }

    /// The randomness mix recorded for `epoch` in the ring buffer.
    pub fn get_randao_mix(&self, epoch: u64, spec: &ChainSpec) -> (r: Option<Hash256>)
        requires
            self.wf(spec),
        ensures
            r == Some(self.latest_randao_mixes@[(epoch % (spec.latest_randao_mixes_length as u64)) as int]),
    {
        let i = (epoch % (spec.latest_randao_mixes_length as u64)) as usize;
        if i < self.latest_randao_mixes.len() {
            Some(self.latest_randao_mixes[i])
        } else {
            None
        }
    }
}

} // verus!
