use crate::codec::pending_same;
use crate::bitfield::BooleanBitfield;
use crate::attestation::{attestation_participants_spec, includes, lex_le, root_balance, strictly_sorted, votes_for, AttestationParticipantsError, WinningRootError};
use crate::justification::{justification_spec, process_justification_and_finalization, JustificationAndFinalizationState};
use crate::state::{active_indices, epoch_of, get_active_validator_indices, lemma_active_prefix, total_balance};
use crate::registry::{ejections_ok, penalties_ok, registry_update_ok};
use crate::codec::cat_hash;
use crate::merkle::{chunk_at, is_merkle_tree_of, is_sanitised, merkleize};
use crate::ssz::append_hash;
use crate::types::{BeaconState, ChainSpec, Crosslink, Hash256, PendingAttestation, Validator};
use vstd::prelude::*;

verus! {

/// Whether `x` took part in a pending attestation of `state` whose slot lies in epoch `e`.
pub open spec fn epoch_attester(state: &BeaconState, e: u64, x: usize, spec: ChainSpec) -> bool {
    exists|k: int| 0 <= k < state.latest_attestations@.len() && epoch_of(state.latest_attestations@[k].data.slot, spec) == e
        && #[trigger] includes(state, state.latest_attestations@[k], x, spec)
}

/// The validators, ascending, that took part in a pending attestation of epoch `e`.
pub open spec fn epoch_attesters(state: &BeaconState, e: u64, spec: ChainSpec) -> Seq<usize> {
    choose|s: Seq<usize>| strictly_sorted(s) && forall|x: usize| #[trigger] s.contains(x) <==> epoch_attester(state, e, x, spec)
}

/// The summed effective balance of the validators that attested in epoch `e`, each once.
pub open spec fn epoch_target_balance(state: &BeaconState, e: u64, spec: ChainSpec) -> nat {
    total_balance(state.validator_balances@, epoch_attesters(state, e, spec), spec)
}

/// Whether some pending attestation of `atts` is for `shard`.
pub open spec fn has_shard(atts: Seq<PendingAttestation>, shard: u64) -> bool {
    exists|i: int| 0 <= i < atts.len() && (#[trigger] atts[i]).data.shard == shard
}

/// `c` is the crosslink that the winning root of `shard` among `atts` gives in epoch `cur`: no
/// candidate root has more attesting balance, and a tied one never has a smaller root.
pub open spec fn winning_crosslink(state: &BeaconState, atts: Seq<PendingAttestation>, shard: u64, cur: u64, spec: ChainSpec, c: Crosslink) -> bool {
    &&& c.epoch == cur
    &&& exists|i: int| 0 <= i < atts.len() && votes_for(#[trigger] atts[i], shard, c.shard_block_root@)
    &&& forall|i: int| 0 <= i < atts.len() && (#[trigger] atts[i]).data.shard == shard ==>
        root_balance(state, atts, shard, atts[i].data.shard_block_root@, spec) <= root_balance(state, atts, shard, c.shard_block_root@, spec)
        && (root_balance(state, atts, shard, atts[i].data.shard_block_root@, spec) == root_balance(state, atts, shard, c.shard_block_root@, spec)
            ==> lex_le(c.shard_block_root@, atts[i].data.shard_block_root@))
}

/// Whether the epoch after `cur` starts a new window of block roots.
pub open spec fn batches_block_roots(cur: u64, spec: ChainSpec) -> bool {
    let next = if cur == u64::MAX { cur as int } else { cur + 1 };
    next * spec.epoch_length <= u64::MAX && (next * spec.epoch_length) % (spec.latest_block_roots_length as int) == 0
}

/// `h` is the merkle root over the block roots `roots`.
pub open spec fn block_roots_root(roots: Seq<Hash256>, h: Hash256) -> bool {
    exists|s: Seq<u8>, tree: Seq<u8>| #[trigger] is_sanitised(cat_hash(roots), s) && #[trigger] is_merkle_tree_of(s, tree)
        && h@ == chunk_at(tree, 0)
}

/// The epoch before the one of `slot`, zero at zero.
pub open spec fn prev_epoch_of(slot: u64, spec: ChainSpec) -> u64 {
    if epoch_of(slot, spec) == 0 { 0 } else { (epoch_of(slot, spec) - 1) as u64 }
}

/// Whether a pending attestation of epoch `e`'s slot lies in the previous or current epoch.
pub open spec fn in_window(a: PendingAttestation, prev: u64, cur: u64, spec: ChainSpec) -> bool {
    epoch_of(a.data.slot, spec) == prev || epoch_of(a.data.slot, spec) == cur
}

/// `w` holds, up to equal contents, exactly the attestations of `atts` in the window; `src`
/// gives the attestation each element of `w` copies.
pub open spec fn window_of(atts: Seq<PendingAttestation>, w: Seq<PendingAttestation>, src: Seq<int>, prev: u64, cur: u64, spec: ChainSpec) -> bool {
    &&& src.len() == w.len()
    &&& forall|m: int| 0 <= m < w.len() ==> 0 <= #[trigger] src[m] < atts.len() && in_window(atts[src[m]], prev, cur, spec)
        && pending_same(w[m], atts[src[m]])
    &&& forall|k: int| 0 <= k < atts.len() && #[trigger] in_window(atts[k], prev, cur, spec) ==> exists|m: int| 0 <= m < w.len()
        && pending_same(w[m], atts[k])
}

impl BeaconState {
    /// Copies of the pending attestations of the previous and current epochs.
    fn attestation_window(&self, prev: u64, cur: u64, spec: &ChainSpec) -> (r: Vec<PendingAttestation>)
        requires
            spec.epoch_length > 0,
        ensures
            exists|src: Seq<int>| #[trigger] window_of(self.latest_attestations@, r@, src, prev, cur, *spec),
    {
        let mut w: Vec<PendingAttestation> = Vec::new();
        let ghost mut src: Seq<int> = Seq::empty();
        let mut k: usize = 0;
        while k < self.latest_attestations.len()
            invariant
                spec.epoch_length > 0,
                k <= self.latest_attestations@.len(),
                src.len() == w@.len(),
                forall|m: int| 0 <= m < w@.len() ==> 0 <= #[trigger] src[m] < k
                    && in_window(self.latest_attestations@[src[m]], prev, cur, *spec) && pending_same(w@[m], self.latest_attestations@[src[m]]),
                forall|j: int| 0 <= j < k && #[trigger] in_window(self.latest_attestations@[j], prev, cur, *spec) ==> exists|m: int| 0 <= m < w@.len()
                    && pending_same(w@[m], self.latest_attestations@[j]),
            decreases self.latest_attestations@.len() - k,
        {
            let a = &self.latest_attestations[k];
            let e = a.data.slot / spec.epoch_length;
            let ghost before = w@;
            let ghost before_src = src;
            if e == prev || e == cur {
                let copy = PendingAttestation {
                    data: a.data,
                    aggregation_bitfield: BooleanBitfield::from_bytes(a.aggregation_bitfield.to_bytes()),
                    custody_bitfield: BooleanBitfield::from_bytes(a.custody_bitfield.to_bytes()),
                    inclusion_slot: a.inclusion_slot,
                };
                w.push(copy);
                proof {
                    src = src.push(k as int);
                }
                assert(pending_same(w@[w@.len() - 1], self.latest_attestations@[k as int]));
            }
            assert forall|m: int| 0 <= m < w@.len() implies 0 <= #[trigger] src[m] < k + 1
                && in_window(self.latest_attestations@[src[m]], prev, cur, *spec) && pending_same(w@[m], self.latest_attestations@[src[m]]) by {
                if m < before.len() {
                    assert(w@[m] == before[m]);
                    assert(src[m] == before_src[m]);
                }
            }
            assert forall|j: int| 0 <= j < k + 1 && #[trigger] in_window(self.latest_attestations@[j], prev, cur, *spec) implies exists|m: int| 0 <= m < w@.len()
                && pending_same(w@[m], self.latest_attestations@[j]) by {
                if j < k {
                    let m = choose|m: int| 0 <= m < before.len() && pending_same(before[m], self.latest_attestations@[j]);
                    assert(w@[m] == before[m]);
                } else {
                    assert(pending_same(w@[w@.len() - 1], self.latest_attestations@[k as int]));
                }
            }
            k = k + 1;
        }
        assert(window_of(self.latest_attestations@, w@, src, prev, cur, *spec));
        w
    }

    /// The merkle root over the recorded block roots.
    fn block_roots_root(&self, spec: &ChainSpec) -> (r: Hash256)
        requires
            self.wf(spec),
        ensures
            block_roots_root(self.latest_block_roots@, r),
    {
        let mut bytes: Vec<u8> = Vec::new();
        let mut k: usize = 0;
        while k < self.latest_block_roots.len()
            invariant
                self.wf(spec),
                k <= self.latest_block_roots@.len(),
                bytes@ == cat_hash(self.latest_block_roots@.subrange(0, k as int)),
                bytes@.len() == 32 * k,
            decreases self.latest_block_roots@.len() - k,
        {
            assert(self.latest_block_roots@.subrange(0, k + 1).drop_last() =~= self.latest_block_roots@.subrange(0, k as int));
            append_hash(&mut bytes, &self.latest_block_roots[k]);
            k = k + 1;
        }
        assert(self.latest_block_roots@.subrange(0, k as int) =~= self.latest_block_roots@);
        let tree = merkleize(bytes);
        let ghost sel = choose|s: Seq<u8>| is_sanitised(cat_hash(self.latest_block_roots@), s) && is_merkle_tree_of(s, tree@);
        let mut h: Hash256 = [0u8; 32];
        let mut m: usize = 0;
        while m < 32
            invariant
                m <= 32,
                tree@.len() >= 32,
                h@.len() == 32,
                forall|t: int| 0 <= t < m ==> h@[t] == tree@[t],
            decreases 32 - m,
        {
            h.set(m, tree[m]);
            m = m + 1;
        }
        assert(h@ =~= chunk_at(tree@, 0));
        h
    }

    /// The crosslink each shard's winning root gives in epoch `cur`, `None` for a shard with no
    /// pending attestation.
    #[verifier::rlimit(100)]
    fn winning_crosslinks(&self, window: &Vec<PendingAttestation>, cur: u64, spec: &ChainSpec) -> (r: Result<Vec<Option<Crosslink>>, AttestationParticipantsError>)
        requires
            self.wf(spec),
        ensures
            (forall|k: int| 0 <= k < window@.len() ==> (#[trigger] attestation_participants_spec(
                self, window@[k].data, window@[k].aggregation_bitfield@, *spec)) is Ok) ==> r is Ok,
            r is Ok ==> r->Ok_0@.len() == spec.shard_count,
            r is Ok ==> forall|t: int| 0 <= t < spec.shard_count ==> match #[trigger] r->Ok_0@[t] {
                None => !has_shard(window@, t as u64),
                Some(c) => winning_crosslink(self, window@, t as u64, cur, *spec, c),
            },
    {
        let mut out: Vec<Option<Crosslink>> = Vec::new();
        let mut t: u64 = 0;
        let ghost atts = window@;
        assert(atts + Seq::<PendingAttestation>::empty() =~= atts);
        while t < spec.shard_count
            invariant
                self.wf(spec),
                atts == window@,
                atts + Seq::<PendingAttestation>::empty() == atts,
                t <= spec.shard_count,
                out@.len() == t,
                forall|u: int| 0 <= u < t ==> match #[trigger] out@[u] {
                    None => !has_shard(atts, u as u64),
                    Some(c) => winning_crosslink(self, atts, u as u64, cur, *spec, c),
                },
            decreases spec.shard_count - t,
        {
            let empty: Vec<PendingAttestation> = Vec::new();
            let cur_atts = window.as_slice();
            let prev_atts = empty.as_slice();
            let _n = cur_atts.len();
            assert(cur_atts@ + prev_atts@ == atts);
            let res = self.winning_root(t, cur_atts, prev_atts, spec);
            match res {
                Ok(w) => {
                    out.push(Some(Crosslink { epoch: cur, shard_block_root: w.shard_block_root }));
                },
                Err(WinningRootError::NoWinningRoot) => {
                    out.push(None);
                },
                Err(WinningRootError::AttestationParticipantsError(e)) => {
                    return Err(e);
                },
            }
            t = t + 1;
        }
        Ok(out)
    }

    /// Indices of the pending attestations whose slot lies in `epoch`.
    fn attestations_in_epoch(&self, epoch: u64, spec: &ChainSpec) -> (r: Vec<usize>)
        requires
            spec.epoch_length > 0,
        ensures
            forall|k: int| 0 <= k < r@.len() ==> #[trigger] r@[k] < self.latest_attestations@.len()
                && epoch_of(self.latest_attestations@[r@[k] as int].data.slot, *spec) == epoch,
            forall|k: int| 0 <= k < self.latest_attestations@.len() && epoch_of(self.latest_attestations@[k].data.slot, *spec) == epoch
                ==> exists|m: int| 0 <= m < r@.len() && #[trigger] r@[m] == k,
    {
        let mut r: Vec<usize> = Vec::new();
        let mut k: usize = 0;
        while k < self.latest_attestations.len()
            invariant
                spec.epoch_length > 0,
                k <= self.latest_attestations@.len(),
                forall|m: int| 0 <= m < r@.len() ==> #[trigger] r@[m] < self.latest_attestations@.len()
                    && epoch_of(self.latest_attestations@[r@[m] as int].data.slot, *spec) == epoch,
                forall|t: int| 0 <= t < k && epoch_of(self.latest_attestations@[t].data.slot, *spec) == epoch
                    ==> exists|m: int| 0 <= m < r@.len() && #[trigger] r@[m] == t,
            decreases self.latest_attestations@.len() - k,
        {
            let ghost before = r@;
            if self.latest_attestations[k].data.slot / spec.epoch_length == epoch {
                r.push(k);
                assert(r@[r@.len() - 1] == k);
            }
            assert forall|t: int| 0 <= t < k && epoch_of(self.latest_attestations@[t].data.slot, *spec) == epoch
                implies exists|m: int| 0 <= m < r@.len() && #[trigger] r@[m] == t by {
                let m = choose|m: int| 0 <= m < before.len() && #[trigger] before[m] == t;
                assert(r@[m] == before[m]);
            }
            k = k + 1;
        }
        r
    }

    /// The summed effective balance of the validators that took part in the listed pending
    /// attestations, each counted once.
    fn attesting_balance(&self, which: &Vec<usize>, epoch: u64, spec: &ChainSpec) -> (r: Result<u64, AttestationParticipantsError>)
        requires
            self.wf(spec),
            forall|k: int| 0 <= k < which@.len() ==> #[trigger] which@[k] < self.latest_attestations@.len()
                && epoch_of(self.latest_attestations@[which@[k] as int].data.slot, *spec) == epoch,
            forall|k: int| 0 <= k < self.latest_attestations@.len() && epoch_of(self.latest_attestations@[k].data.slot, *spec) == epoch
                ==> exists|m: int| 0 <= m < which@.len() && #[trigger] which@[m] == k,
        ensures
            r is Ok ==> r->Ok_0 == epoch_target_balance(self, epoch, *spec),
            (forall|k: int| 0 <= k < self.latest_attestations@.len() ==> (#[trigger] attestation_participants_spec(
                self, self.latest_attestations@[k].data, self.latest_attestations@[k].aggregation_bitfield@, *spec)) is Ok) ==> r is Ok,
    {
        let mut all: Vec<usize> = Vec::new();
        let mut k: usize = 0;
        while k < which.len()
            invariant
                self.wf(spec),
                k <= which@.len(),
                forall|m: int| 0 <= m < which@.len() ==> #[trigger] which@[m] < self.latest_attestations@.len(),
                strictly_sorted(all@),
                forall|m: int| 0 <= m < all@.len() ==> #[trigger] all@[m] < self.validator_registry@.len(),
                forall|x: usize| #[trigger] all@.contains(x) <==> exists|m: int| 0 <= m < k
                    && #[trigger] includes(self, self.latest_attestations@[which@[m] as int], x, *spec),
            decreases which@.len() - k,
        {
            let a = &self.latest_attestations[which[k]];
            let p = match self.get_attestation_participants(&a.data, &a.aggregation_bitfield, spec) {
                Err(e) => {
                    assert(attestation_participants_spec(self, self.latest_attestations@[which@[k as int] as int].data,
                        self.latest_attestations@[which@[k as int] as int].aggregation_bitfield@, *spec) is Err);
                    return Err(e);
                },
                Ok(p) => p,
            };
            let ghost before = all@;
            let mut j: usize = 0;
            while j < p.len()
                invariant
                    j <= p@.len(),
                    strictly_sorted(all@),
                    forall|x: usize| #[trigger] all@.contains(x) <==> (before.contains(x) || p@.subrange(0, j as int).contains(x)),
                    forall|m: int| 0 <= m < p@.len() ==> #[trigger] p@[m] < self.validator_registry@.len(),
                    forall|m: int| 0 <= m < all@.len() ==> #[trigger] all@[m] < self.validator_registry@.len(),
                decreases p@.len() - j,
            {
                let ghost prev_all = all@;
                crate::attestation::insert_sorted(&mut all, p[j]);
                proof {
                    let a0 = p@.subrange(0, j as int);
                    let a1 = p@.subrange(0, j + 1);
                    assert forall|x: usize| a1.contains(x) <==> (a0.contains(x) || x == p@[j as int]) by {
                        if a1.contains(x) {
                            let m = choose|m: int| 0 <= m < a1.len() && a1[m] == x;
                            if m < j {
                                assert(a0[m] == x);
                            }
                        }
                        if a0.contains(x) {
                            let m = choose|m: int| 0 <= m < a0.len() && a0[m] == x;
                            assert(a1[m] == x);
                        }
                        if x == p@[j as int] {
                            assert(a1[j as int] == x);
                        }
                    }
                    assert forall|x: usize| #[trigger] all@.contains(x) <==> (before.contains(x) || a1.contains(x)) by {
                        assert(all@.contains(x) <==> (prev_all.contains(x) || x == p@[j as int]));
                        assert(prev_all.contains(x) <==> (before.contains(x) || a0.contains(x)));
                    }
                    assert forall|m: int| 0 <= m < all@.len() implies #[trigger] all@[m] < self.validator_registry@.len() by {
                        assert(all@.contains(all@[m]));
                        if prev_all.contains(all@[m]) {
                            let t = choose|t: int| 0 <= t < prev_all.len() && prev_all[t] == all@[m];
                            assert(prev_all[t] < self.validator_registry@.len());
                        }
                    }
                }
                j = j + 1;
            }
            assert(p@.subrange(0, j as int) =~= p@);
            proof {
                let ak = self.latest_attestations@[which@[k as int] as int];
                assert(attestation_participants_spec(self, ak.data, ak.aggregation_bitfield@, *spec) is Ok);
                assert forall|x: usize| #[trigger] all@.contains(x) <==> exists|m: int| 0 <= m < k + 1
                    && #[trigger] includes(self, self.latest_attestations@[which@[m] as int], x, *spec) by {
                    if all@.contains(x) {
                        if before.contains(x) {
                            let m = choose|m: int| 0 <= m < k && #[trigger] includes(self, self.latest_attestations@[which@[m] as int], x, *spec);
                            assert(0 <= m < k + 1);
                        } else {
                            assert(includes(self, ak, x, *spec));
                        }
                    }
                    if exists|m: int| 0 <= m < k + 1 && #[trigger] includes(self, self.latest_attestations@[which@[m] as int], x, *spec) {
                        let m = choose|m: int| 0 <= m < k + 1 && #[trigger] includes(self, self.latest_attestations@[which@[m] as int], x, *spec);
                        if m == k {
                            assert(p@.contains(x));
                        } else {
                            assert(before.contains(x));
                        }
                    }
                }
            }
            k = k + 1;
        }
        proof {
            crate::attestation::lemma_sorted_len(all@, self.validator_registry@.len());
            assert forall|x: usize| #[trigger] all@.contains(x) <==> epoch_attester(self, epoch, x, *spec) by {
                if all@.contains(x) {
                    let m = choose|m: int| 0 <= m < which@.len() && #[trigger] includes(self, self.latest_attestations@[which@[m] as int], x, *spec);
                    assert(epoch_of(self.latest_attestations@[which@[m] as int].data.slot, *spec) == epoch);
                }
                if epoch_attester(self, epoch, x, *spec) {
                    let t = choose|t: int| 0 <= t < self.latest_attestations@.len() && epoch_of(self.latest_attestations@[t].data.slot, *spec) == epoch
                        && #[trigger] includes(self, self.latest_attestations@[t], x, *spec);
                    let m = choose|m: int| 0 <= m < which@.len() && #[trigger] which@[m] == t;
                    assert(includes(self, self.latest_attestations@[which@[m] as int], x, *spec));
                }
            }
            let e = epoch_attesters(self, epoch, *spec);
            assert(strictly_sorted(e) && forall|x: usize| #[trigger] e.contains(x) <==> epoch_attester(self, epoch, x, *spec));
            crate::attestation::lemma_sorted_unique(all@, e);
        }
        Ok(self.get_total_balance(all.as_slice(), spec))
    }

    /// Runs the epoch transition, in order: weighs the previous and current epochs' attesting
    /// balances for justification and finalization (recorded once the registry phases, which
    /// do not read them, are done), ejects validators below the ejection balance, updates the registry within the churn limit, applies penalties and prepares
    /// withdrawals, then rotates the per-epoch bookkeeping (seeds, start shards, calculation
    /// epochs, the penalized-balance window) and drops attestations older than the current
    /// epoch. Returns the validators made withdrawable.
    pub fn per_epoch_processing(&mut self, spec: &ChainSpec) -> (r: Result<Vec<usize>, AttestationParticipantsError>)
        requires
            old(self).wf(spec),
        ensures
            final(self).wf(spec),
            final(self).slot == old(self).slot,
            final(self).validator_registry@.len() == old(self).validator_registry@.len(),
            (forall|k: int| 0 <= k < old(self).latest_attestations@.len() ==> (#[trigger] attestation_participants_spec(
                old(self), old(self).latest_attestations@[k].data, old(self).latest_attestations@[k].aggregation_bitfield@, *spec)) is Ok) ==> r is Ok,
            r is Ok ==> justification_spec(
                old(self),
                epoch_of(old(self).slot, *spec),
                spec.genesis_epoch,
                total_balance(old(self).validator_balances@, active_indices(old(self).validator_registry@, epoch_of(old(self).slot, *spec)), *spec) as u64,
                epoch_target_balance(old(self), prev_epoch_of(old(self).slot, *spec), *spec) as u64,
                epoch_target_balance(old(self), epoch_of(old(self).slot, *spec), *spec) as u64,
            ) == (JustificationAndFinalizationState {
                previous_justified_epoch: final(self).previous_justified_epoch,
                justified_epoch: final(self).justified_epoch,
                justification_bitfield: final(self).justification_bitfield,
                finalized_epoch: final(self).finalized_epoch,
            }),
            r is Ok ==> exists|reg1: Seq<Validator>, reg2: Seq<Validator>|
                #[trigger] ejections_ok(old(self).validator_registry@, old(self).validator_balances@, epoch_of(old(self).slot, *spec), *spec, reg1)
                && #[trigger] registry_update_ok(reg1, old(self).validator_balances@, epoch_of(old(self).slot, *spec), *spec, reg2)
                && penalties_ok(reg2, old(self).validator_balances@, old(self).latest_penalized_balances@, epoch_of(old(self).slot, *spec), *spec,
                    final(self).validator_registry@, final(self).validator_balances@, r->Ok_0@),
            r is Ok ==> final(self).validator_registry_update_epoch == epoch_of(old(self).slot, *spec),
            r is Ok && !batches_block_roots(epoch_of(old(self).slot, *spec), *spec) ==> final(self).batched_block_roots@ == old(self).batched_block_roots@,
            r is Ok && batches_block_roots(epoch_of(old(self).slot, *spec), *spec) ==> final(self).batched_block_roots@.len() == old(self).batched_block_roots@.len() + 1
                && final(self).batched_block_roots@.subrange(0, old(self).batched_block_roots@.len() as int) == old(self).batched_block_roots@
                && block_roots_root(old(self).latest_block_roots@, final(self).batched_block_roots@.last()),
            r is Ok ==> exists|w: Seq<PendingAttestation>, src: Seq<int>| #[trigger] window_of(old(self).latest_attestations@, w, src,
                prev_epoch_of(old(self).slot, *spec), epoch_of(old(self).slot, *spec), *spec)
                && forall|t: int| 0 <= t < spec.shard_count ==> if has_shard(w, t as u64) {
                    winning_crosslink(old(self), w, t as u64, epoch_of(old(self).slot, *spec), *spec, #[trigger] final(self).latest_crosslinks@[t])
                } else {
                    final(self).latest_crosslinks@[t] == old(self).latest_crosslinks@[t]
                },
            r is Ok ==> final(self).previous_justified_epoch == old(self).justified_epoch || epoch_of(old(self).slot, *spec) <= spec.genesis_epoch + 1,
            r is Ok ==> final(self).previous_calculation_epoch == old(self).current_calculation_epoch,
            r is Ok ==> final(self).previous_epoch_seed == old(self).current_epoch_seed,
            r is Ok ==> final(self).previous_epoch_start_shard == old(self).current_epoch_start_shard,
            r is Ok ==> final(self).current_calculation_epoch == crate::state::next_epoch_spec(old(self).slot, *spec),
            r is Ok ==> forall|k: int| 0 <= k < final(self).latest_attestations@.len() ==> epoch_of(#[trigger] final(self).latest_attestations@[k].data.slot, *spec) >= epoch_of(old(self).slot, *spec),
    {
        let cur = self.current_epoch(spec);
        let prev = self.previous_epoch(spec);
        let window = self.attestation_window(prev, cur, spec);
        proof {
            if forall|k: int| 0 <= k < self.latest_attestations@.len() ==> (#[trigger] attestation_participants_spec(
                self, self.latest_attestations@[k].data, self.latest_attestations@[k].aggregation_bitfield@, *spec)) is Ok {
                let src = choose|src: Seq<int>| #[trigger] window_of(self.latest_attestations@, window@, src, prev, cur, *spec);
                assert forall|k: int| 0 <= k < window@.len() implies (#[trigger] attestation_participants_spec(
                    self, window@[k].data, window@[k].aggregation_bitfield@, *spec)) is Ok by {
                    let j = src[k];
                    assert(pending_same(window@[k], self.latest_attestations@[j]));
                    assert(attestation_participants_spec(self, self.latest_attestations@[j].data, self.latest_attestations@[j].aggregation_bitfield@, *spec) is Ok);
                }
            }
        }
        let links = match self.winning_crosslinks(&window, cur, spec) {
            Err(e) => return Err(e),
            Ok(l) => l,
        };
        let mut batched: Vec<Hash256> = Vec::new();
        let mut b: usize = 0;
        while b < self.batched_block_roots.len()
            invariant
                b <= self.batched_block_roots@.len(),
                batched@ == self.batched_block_roots@.subrange(0, b as int),
            decreases self.batched_block_roots@.len() - b,
        {
            batched.push(self.batched_block_roots[b]);
            assert(batched@ =~= self.batched_block_roots@.subrange(0, b + 1));
            b = b + 1;
        }
        assert(self.batched_block_roots@.subrange(0, b as int) =~= self.batched_block_roots@);
        let next_epoch = self.next_epoch(spec);
        let batch = match next_epoch.checked_mul(spec.epoch_length) {
            Some(start) => start % (spec.latest_block_roots_length as u64) == 0,
            None => false,
        };
        if batch {
            let root = self.block_roots_root(spec);
            batched.push(root);
        }
        let mut crosslinks: Vec<Crosslink> = Vec::new();
        let mut t: usize = 0;
        while t < links.len()
            invariant
                links@.len() == spec.shard_count,
                self.latest_crosslinks@.len() == spec.shard_count,
                t <= links@.len(),
                crosslinks@.len() == t,
                forall|u: int| 0 <= u < t ==> #[trigger] crosslinks@[u] == match links@[u] {
                    Some(c) => c,
                    None => self.latest_crosslinks@[u],
                },
            decreases links@.len() - t,
        {
            match links[t] {
                Some(c) => crosslinks.push(c),
                None => crosslinks.push(self.latest_crosslinks[t]),
            }
            t = t + 1;
        }
        let active = get_active_validator_indices(&self.validator_registry, cur);
        proof {
            lemma_active_prefix(self.validator_registry@, cur, self.validator_registry@.len() as int);
        }
        let total_active = self.get_total_balance(active.as_slice(), spec);
        let previous_atts = self.attestations_in_epoch(prev, spec);
        let current_atts = self.attestations_in_epoch(cur, spec);
        let previous_target = match self.attesting_balance(&previous_atts, prev, spec) {
            Err(e) => return Err(e),
            Ok(b) => b,
        };
        let current_target = match self.attesting_balance(&current_atts, cur, spec) {
            Err(e) => return Err(e),
            Ok(b) => b,
        };
        let j = process_justification_and_finalization(self, cur, spec.genesis_epoch, total_active, previous_target, current_target);
        let calculation_epoch = self.current_calculation_epoch;
        let seed = self.current_epoch_seed;
        let start_shard = self.current_epoch_start_shard;
        self.process_ejections(spec);
        let ghost reg1 = self.validator_registry@;
        self.update_validator_registry(spec);
        let ghost reg2 = self.validator_registry@;
        let withdrawn = self.process_penalties_and_exits(spec);
        let ghost reg3 = self.validator_registry@;
        let ghost bal3 = self.validator_balances@;
        assert(ejections_ok(old(self).validator_registry@, old(self).validator_balances@, cur, *spec, reg1)
            && registry_update_ok(reg1, old(self).validator_balances@, cur, *spec, reg2)
            && penalties_ok(reg2, old(self).validator_balances@, old(self).latest_penalized_balances@, cur, *spec, reg3, bal3, withdrawn@));
        self.previous_justified_epoch = j.previous_justified_epoch;
        self.justified_epoch = j.justified_epoch;
        self.justification_bitfield = j.justification_bitfield;
        self.finalized_epoch = j.finalized_epoch;
        assert(total_active == total_balance(old(self).validator_balances@, active_indices(old(self).validator_registry@, cur), *spec) as u64);
        assert(justification_spec(old(self), cur, spec.genesis_epoch,
            total_balance(old(self).validator_balances@, active_indices(old(self).validator_registry@, cur), *spec) as u64,
            previous_target, current_target) == (JustificationAndFinalizationState {
            previous_justified_epoch: self.previous_justified_epoch,
            justified_epoch: self.justified_epoch,
            justification_bitfield: self.justification_bitfield,
            finalized_epoch: self.finalized_epoch,
        }));
        let next = self.next_epoch(spec);
        self.previous_calculation_epoch = calculation_epoch;
        self.previous_epoch_seed = seed;
        self.previous_epoch_start_shard = start_shard;
        self.current_calculation_epoch = next;
        let mix_index = (next % (spec.latest_randao_mixes_length as u64)) as usize;
        self.current_epoch_seed = self.latest_randao_mixes[mix_index];
        let len = spec.latest_penalized_exit_length as u64;
        let carried = self.latest_penalized_balances[(cur % len) as usize];
        self.latest_penalized_balances.set((next % len) as usize, carried);
        let mut atts: Vec<PendingAttestation> = Vec::new();
        core::mem::swap(&mut atts, &mut self.latest_attestations);
        let mut k: usize = 0;
        while k < atts.len()
            invariant
                spec.epoch_length > 0,
                k <= atts@.len(),
                forall|m: int| 0 <= m < k ==> epoch_of(#[trigger] atts@[m].data.slot, *spec) >= cur,
            decreases atts@.len() - k,
        {
            if atts[k].data.slot / spec.epoch_length < cur {
                let _dropped: PendingAttestation = atts.remove(k);
            } else {
                k = k + 1;
            }
        }
        self.latest_attestations = atts;
        self.latest_crosslinks = crosslinks;
        self.batched_block_roots = batched;
        Ok(withdrawn)
    }
}

} // verus!
