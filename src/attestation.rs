use crate::bitfield::{seq_bit, BooleanBitfield};
use crate::state::{committees_match, crosslink_committees_spec, epoch_of, lemma_committee_members_valid, CommitteesError};
use crate::state::total_balance;
use crate::types::{Attestation, AttestationData, BeaconState, ChainSpec, Crosslink, Hash256, PendingAttestation};
use crate::merkle::copy_range;
use vstd::prelude::*;

verus! {

#[derive(Debug, PartialEq, Eq, Clone, Copy, Structural)]
pub enum AttestationParticipantsError {
    NoCommitteeForShard,
    NoCommittees,
    BadBitfieldLength,
    CommitteesError(CommitteesError),
}

/// Members of `committee` whose bit is set in `bits`, in committee order.
pub open spec fn participants_spec(committee: Seq<usize>, bits: Seq<u8>) -> Seq<usize>
    decreases committee.len(),
{
    if committee.len() == 0 {
        Seq::empty()
    } else {
        let rest = participants_spec(committee.drop_last(), bits);
        if seq_bit(bits, committee.len() - 1) {
            rest.push(committee.last())
        } else {
            rest
        }
    }
}

/// Index of the first pair of `cs` for `shard`, or `cs.len()` if there is none.
pub open spec fn shard_position(cs: Seq<(Seq<usize>, u64)>, shard: u64, n: int) -> int
    decreases n,
{
    if n <= 0 {
        cs.len() as int
    } else if shard_position(cs, shard, n - 1) < cs.len() {
        shard_position(cs, shard, n - 1)
    } else if cs[n - 1].1 == shard {
        n - 1
    } else {
        cs.len() as int
    }
}

/// Bytes a bitfield of `n` bits occupies.
pub open spec fn bitfield_bytes(n: nat) -> nat {
    (n + 7) / 8
}

/// The validators that took part in an attestation for `data` with `bits`, or why they cannot
/// be known.
pub open spec fn attestation_participants_spec(state: &BeaconState, data: AttestationData, bits: Seq<u8>, spec: ChainSpec) -> Result<Seq<usize>, AttestationParticipantsError> {
    match crosslink_committees_spec(state, data.slot, spec) {
        Err(e) => Err(AttestationParticipantsError::CommitteesError(e)),
        Ok(cs) => {
            let k = shard_position(cs, data.shard, cs.len() as int);
            if k >= cs.len() {
                Err(AttestationParticipantsError::NoCommitteeForShard)
            } else if bits.len() != bitfield_bytes(cs[k].0.len()) {
                Err(AttestationParticipantsError::BadBitfieldLength)
            } else {
                Ok(participants_spec(cs[k].0, bits))
            }
        },
    }
}

impl BeaconState {
    /// The members of the committee for `attestation_data`'s slot and shard whose bit is set
    /// in `aggregation_bitfield`; the bitfield must have one bit per member, rounded up to
    /// whole bytes.
    pub fn get_attestation_participants(
        &self,
        attestation_data: &AttestationData,
        aggregation_bitfield: &BooleanBitfield,
        spec: &ChainSpec,
    ) -> (r: Result<Vec<usize>, AttestationParticipantsError>)
        requires
            self.wf(spec),
        ensures
            match attestation_participants_spec(self, *attestation_data, aggregation_bitfield@, *spec) {
                Err(e) => r == Err::<Vec<usize>, AttestationParticipantsError>(e),
                Ok(p) => r is Ok && r->Ok_0@ == p,
            },
            r is Ok ==> forall|k: int| 0 <= k < r->Ok_0@.len() ==> #[trigger] r->Ok_0@[k] < self.validator_registry@.len(),
    {
        let committees = match self.get_crosslink_committees_at_slot(attestation_data.slot, false, spec) {
            Err(e) => return Err(AttestationParticipantsError::CommitteesError(e)),
            Ok(c) => c,
        };
        let ghost cs = crosslink_committees_spec(self, attestation_data.slot, *spec)->Ok_0;
        let mut k: usize = 0;
        while k < committees.len() && committees[k].1 != attestation_data.shard
            invariant
                k <= committees@.len(),
                committees@.len() == cs.len(),
                forall|i: int| 0 <= i < cs.len() ==> (#[trigger] committees@[i]).0@ == cs[i].0 && committees@[i].1 == cs[i].1,
                shard_position(cs, attestation_data.shard, k as int) == cs.len(),
            decreases committees@.len() - k,
        {
            k = k + 1;
        }
        if k >= committees.len() {
            return Err(AttestationParticipantsError::NoCommitteeForShard);
        }
        assert(committees@[k as int].1 == cs[k as int].1);
        assert(shard_position(cs, attestation_data.shard, k as int) == cs.len());
        assert(cs[k as int].1 == attestation_data.shard);
        assert(shard_position(cs, attestation_data.shard, k as int + 1) == k as int);
        proof {
            lemma_shard_position_stable(cs, attestation_data.shard, k as int + 1, cs.len() as int);
        }
        let committee = &committees[k].0;
        let nbytes = aggregation_bitfield.byte_len();
        let clen = committee.len();
        let needed = clen / 8 + if clen % 8 != 0 { 1 } else { 0 };
        assert(needed == (clen + 7) / 8);
        if nbytes != needed {
            return Err(AttestationParticipantsError::BadBitfieldLength);
        }
        let mut participants: Vec<usize> = Vec::new();
        let mut i: usize = 0;
        while i < committee.len()
            invariant
                i <= committee@.len(),
                participants@ == participants_spec(committee@.subrange(0, i as int), aggregation_bitfield@),
            decreases committee@.len() - i,
        {
            assert(committee@.subrange(0, i + 1).drop_last() =~= committee@.subrange(0, i as int));
            if aggregation_bitfield.get_bit(&i) {
                participants.push(committee[i]);
            }
            i = i + 1;
        }
        assert(committee@.subrange(0, i as int) =~= committee@);
        proof {
            lemma_participants_members(committee@, aggregation_bitfield@);
            assert forall|m: int| 0 <= m < participants@.len() implies #[trigger] participants@[m] < self.validator_registry@.len() by {
                assert(committee@.contains(participants@[m]));
                let j = choose|j: int| 0 <= j < committee@.len() && committee@[j] == participants@[m];
                lemma_committee_members_valid(self, attestation_data.slot, *spec, k as int, j);
            }
        }
        Ok(participants)
    }
}

proof fn lemma_shard_position_stable(cs: Seq<(Seq<usize>, u64)>, shard: u64, a: int, b: int)
    requires
        0 <= a <= b,
        shard_position(cs, shard, a) < cs.len(),
    ensures
        shard_position(cs, shard, b) == shard_position(cs, shard, a),
    decreases b - a,
{
    if a < b {
        lemma_shard_position_stable(cs, shard, a, b - 1);
    }
}

proof fn lemma_participants_members(committee: Seq<usize>, bits: Seq<u8>)
    ensures
        forall|m: int| 0 <= m < participants_spec(committee, bits).len() ==> committee.contains(#[trigger] participants_spec(committee, bits)[m]),
    decreases committee.len(),
{
    if committee.len() > 0 {
        let pre = committee.drop_last();
        lemma_participants_members(pre, bits);
        let rest = participants_spec(pre, bits);
        assert forall|m: int| 0 <= m < participants_spec(committee, bits).len() implies committee.contains(#[trigger] participants_spec(committee, bits)[m]) by {
            if m < rest.len() {
                assert(pre.contains(rest[m]));
                let j = choose|j: int| 0 <= j < pre.len() && pre[j] == rest[m];
                assert(committee[j] == rest[m]);
            } else {
                assert(committee[committee.len() - 1] == participants_spec(committee, bits)[m]);
            }
        }
    }
}

/// `a` comes strictly before `b` in lexicographic byte order.
pub open spec fn lex_lt(a: Seq<u8>, b: Seq<u8>) -> bool {
    exists|k: int| 0 <= k < a.len() && k < b.len() && a[k] < b[k] && forall|m: int| 0 <= m < k ==> a[m] == b[m]
}

/// `a` equals `b` or comes before it in lexicographic byte order.
pub open spec fn lex_le(a: Seq<u8>, b: Seq<u8>) -> bool {
    a == b || lex_lt(a, b)
}

/// Whether two hashes are equal.
pub fn hash_eq(a: &Hash256, b: &Hash256) -> (r: bool)
    ensures
        r == (a@ == b@),
{
    let mut k: usize = 0;
    while k < 32
        invariant
            k <= 32,
            a@.len() == 32 && b@.len() == 32,
            forall|m: int| 0 <= m < k ==> a@[m] == b@[m],
        decreases 32 - k,
    {
        if a[k] != b[k] {
            return false;
        }
        k = k + 1;
    }
    assert(a@ =~= b@);
    true
}

/// Whether `a` comes strictly before `b` in lexicographic byte order.
pub fn hash_lt(a: &Hash256, b: &Hash256) -> (r: bool)
    ensures
        r == lex_lt(a@, b@),
{
    let mut k: usize = 0;
    while k < 32
        invariant
            k <= 32,
            a@.len() == 32 && b@.len() == 32,
            forall|m: int| 0 <= m < k ==> a@[m] == b@[m],
        decreases 32 - k,
    {
        if a[k] != b[k] {
            if a[k] < b[k] {
                return true;
            } else {
                proof {
                    if lex_lt(a@, b@) {
                        let j = choose|j: int| 0 <= j < a@.len() && j < b@.len() && a@[j] < b@[j] && forall|m: int| 0 <= m < j ==> a@[m] == b@[m];
                        if j < k {
                        } else if j > k {
                            assert(a@[k as int] == b@[k as int]);
                        }
                    }
                }
                return false;
            }
        }
        k = k + 1;
    }
    proof {
        if lex_lt(a@, b@) {
            let j = choose|j: int| 0 <= j < a@.len() && j < b@.len() && a@[j] < b@[j] && forall|m: int| 0 <= m < j ==> a@[m] == b@[m];
        }
    }
    false
}

proof fn lemma_lex_antisym(a: Seq<u8>, b: Seq<u8>)
    requires
        lex_le(a, b),
        lex_le(b, a),
    ensures
        a == b,
{
    if a != b {
        let i = choose|k: int| 0 <= k < a.len() && k < b.len() && a[k] < b[k] && forall|m: int| 0 <= m < k ==> a[m] == b[m];
        let j = choose|k: int| 0 <= k < b.len() && k < a.len() && b[k] < a[k] && forall|m: int| 0 <= m < k ==> b[m] == a[m];
        if i < j {
            assert(b[i] == a[i]);
        } else if j < i {
            assert(a[j] == b[j]);
        }
    }
}

/// A candidate crosslink root for a shard, with who attested to it and their stake.
#[derive(Debug)]
pub struct WinningRoot {
    pub shard_block_root: Hash256,
    pub attesting_validator_indices: Vec<usize>,
    pub total_balance: u64,
    pub total_attesting_balance: u64,
}

/// `w` wins among `roots`/`balances`: no candidate has more attesting balance, and every
/// candidate with as much has a root no smaller.
pub open spec fn is_winner(roots: Seq<Seq<u8>>, balances: Seq<u64>, w: int) -> bool {
    &&& 0 <= w < roots.len()
    &&& forall|i: int| 0 <= i < roots.len() ==> #[trigger] balances[i] <= balances[w]
    &&& forall|i: int| 0 <= i < roots.len() && balances[i] == balances[w] ==> lex_le(roots[w], #[trigger] roots[i])
}

/// Winning-root tie-break: the winner is fully determined by the candidates, whatever order
/// they are listed in; two winners of the same candidates have the same root and balance.
pub proof fn lemma_winner_unique(roots: Seq<Seq<u8>>, balances: Seq<u64>, w1: int, w2: int)
    requires
        roots.len() == balances.len(),
        is_winner(roots, balances, w1),
        is_winner(roots, balances, w2),
    ensures
        roots[w1] == roots[w2],
        balances[w1] == balances[w2],
{
    assert(balances[w1] <= balances[w2]);
    assert(balances[w2] <= balances[w1]);
    lemma_lex_antisym(roots[w1], roots[w2]);
}

/// The roots of `cs`.
pub open spec fn candidate_roots(cs: Seq<WinningRoot>) -> Seq<Seq<u8>> {
    Seq::new(cs.len(), |i: int| cs[i].shard_block_root@)
}

/// The attesting balances of `cs`.
pub open spec fn candidate_balances(cs: Seq<WinningRoot>) -> Seq<u64> {
    Seq::new(cs.len(), |i: int| cs[i].total_attesting_balance)
}

/// The index of the candidate with the most attesting balance, the lexicographically smallest
/// root breaking ties; `None` when there is no candidate.
pub fn select_winning_root(candidates: &Vec<WinningRoot>) -> (r: Option<usize>)
    ensures
        r is None <==> candidates@.len() == 0,
        r is Some ==> is_winner(candidate_roots(candidates@), candidate_balances(candidates@), r->Some_0 as int),
{
    if candidates.len() == 0 {
        return None;
    }
    let ghost roots = candidate_roots(candidates@);
    let ghost bals = candidate_balances(candidates@);
    let mut best: usize = 0;
    let mut k: usize = 1;
    while k < candidates.len()
        invariant
            1 <= k <= candidates@.len(),
            best < k,
            roots == candidate_roots(candidates@),
            bals == candidate_balances(candidates@),
            forall|i: int| 0 <= i < k ==> #[trigger] bals[i] <= bals[best as int],
            forall|i: int| 0 <= i < k && bals[i] == bals[best as int] ==> lex_le(roots[best as int], #[trigger] roots[i]),
        decreases candidates@.len() - k,
    {
        let c = &candidates[k];
        let b = &candidates[best];
        if c.total_attesting_balance > b.total_attesting_balance
            || (c.total_attesting_balance == b.total_attesting_balance && hash_lt(&c.shard_block_root, &b.shard_block_root)) {
            proof {
                assert forall|i: int| 0 <= i < k + 1 && bals[i] == bals[k as int] implies lex_le(roots[k as int], #[trigger] roots[i]) by {
                    if i < k as int && bals[k as int] == bals[best as int] {
                        lemma_lex_trans(roots[k as int], roots[best as int], roots[i]);
                    }
                }
            }
            best = k;
        } else {
            proof {
                if bals[k as int] == bals[best as int] {
                    lemma_lex_total(roots[best as int], roots[k as int]);
                }
            }
        }
        k = k + 1;
    }
    Some(best)
}

proof fn lemma_lex_trans(a: Seq<u8>, b: Seq<u8>, c: Seq<u8>)
    requires
        lex_lt(a, b),
        lex_le(b, c),
    ensures
        lex_le(a, c),
{
    if b != c {
        let i = choose|k: int| 0 <= k < a.len() && k < b.len() && a[k] < b[k] && forall|m: int| 0 <= m < k ==> a[m] == b[m];
        let j = choose|k: int| 0 <= k < b.len() && k < c.len() && b[k] < c[k] && forall|m: int| 0 <= m < k ==> b[m] == c[m];
        let t = if i < j { i } else { j };
        assert(a[t] < c[t]);
        assert(forall|m: int| 0 <= m < t ==> a[m] == c[m]);
    }
}

proof fn lemma_lex_total(a: Seq<u8>, b: Seq<u8>)
    requires
        a.len() == b.len(),
        !lex_lt(b, a),
    ensures
        lex_le(a, b),
{
    if a != b {
        assert(exists|k: int| 0 <= k < a.len() && a[k] != b[k]) by {
            if forall|k: int| 0 <= k < a.len() ==> a[k] == b[k] {
                assert(a =~= b);
            }
        }
        lemma_first_difference(a, b, a.len() as int);
    }
}

proof fn lemma_first_difference(a: Seq<u8>, b: Seq<u8>, n: int)
    requires
        a.len() == b.len(),
        0 <= n <= a.len(),
        exists|k: int| 0 <= k < n && a[k] != b[k],
        !lex_lt(b, a),
    ensures
        lex_lt(a, b),
    decreases n,
{
    if exists|k: int| 0 <= k < n - 1 && a[k] != b[k] {
        lemma_first_difference(a, b, n - 1);
    } else {
        let k = n - 1;
        assert(a[k] != b[k]);
        assert(forall|m: int| 0 <= m < k ==> a[m] == b[m]);
        if b[k] < a[k] {
            assert(lex_lt(b, a));
        }
    }
}

/// Whether `s` is strictly increasing.
pub open spec fn strictly_sorted(s: Seq<usize>) -> bool {
    forall|a: int, b: int| 0 <= a < b < s.len() ==> s[a] < s[b]
}

/// Two strictly increasing sequences with the same elements are equal.
pub proof fn lemma_sorted_unique(a: Seq<usize>, b: Seq<usize>)
    requires
        strictly_sorted(a),
        strictly_sorted(b),
        forall|x: usize| a.contains(x) <==> b.contains(x),
    ensures
        a == b,
    decreases a.len(),
{
    if a.len() == 0 {
        if b.len() > 0 {
            assert(b.contains(b[0]));
        }
        assert(a =~= b);
    } else {
        assert(a.contains(a[0]));
        assert(b.contains(b[0]));
        let i = choose|i: int| 0 <= i < b.len() && b[i] == a[0];
        let j = choose|j: int| 0 <= j < a.len() && a[j] == b[0];
        if i > 0 {
            assert(b[0] < b[i]);
            if j > 0 {
                assert(a[0] < a[j]);
            }
        }
        assert(a[0] == b[0]);
        let a1 = a.drop_first();
        let b1 = b.drop_first();
        assert forall|x: usize| a1.contains(x) <==> b1.contains(x) by {
            if a1.contains(x) {
                let m = choose|m: int| 0 <= m < a1.len() && a1[m] == x;
                assert(a[m + 1] == x && a[0] < a[m + 1]);
                assert(b.contains(x));
                let n = choose|n: int| 0 <= n < b.len() && b[n] == x;
                assert(n != 0);
                assert(b1[n - 1] == x);
            }
            if b1.contains(x) {
                let m = choose|m: int| 0 <= m < b1.len() && b1[m] == x;
                assert(b[m + 1] == x && b[0] < b[m + 1]);
                assert(a.contains(x));
                let n = choose|n: int| 0 <= n < a.len() && a[n] == x;
                assert(n != 0);
                assert(a1[n - 1] == x);
            }
        }
        lemma_sorted_unique(a1, b1);
        assert(a =~= seq![a[0]] + a1);
        assert(b =~= seq![b[0]] + b1);
    }
}

/// Adds `x` to the strictly increasing `v`, keeping it strictly increasing.
pub fn insert_sorted(v: &mut Vec<usize>, x: usize)
    requires
        strictly_sorted(old(v)@),
    ensures
        strictly_sorted(final(v)@),
        forall|y: usize| #[trigger] final(v)@.contains(y) <==> (old(v)@.contains(y) || y == x),
        final(v)@.len() <= old(v)@.len() + 1,
{
    let mut k: usize = 0;
    while k < v.len() && v[k] < x
        invariant
            k <= v@.len(),
            strictly_sorted(v@),
            forall|m: int| 0 <= m < k ==> v@[m] < x,
        decreases v@.len() - k,
    {
        k = k + 1;
    }
    if k < v.len() && v[k] == x {
        return;
    }
    let ghost before = v@;
    v.insert(k, x);
    proof {
        assert(v@ == before.insert(k as int, x));
        assert forall|y: usize| #[trigger] v@.contains(y) <==> (before.contains(y) || y == x) by {
            if v@.contains(y) {
                let j = choose|j: int| 0 <= j < v@.len() && v@[j] == y;
                if j < k {
                    assert(before[j] == y);
                } else if j > k {
                    assert(before[j - 1] == y);
                }
            }
            if before.contains(y) {
                let j = choose|j: int| 0 <= j < before.len() && before[j] == y;
                if j < k {
                    assert(v@[j] == y);
                } else {
                    assert(v@[j + 1] == y);
                }
            }
            if y == x {
                assert(v@[k as int] == x);
            }
        }
    }
}

#[derive(Debug, PartialEq, Eq, Clone, Copy, Structural)]
pub enum WinningRootError {
    NoWinningRoot,
    AttestationParticipantsError(AttestationParticipantsError),
}

/// Whether attestation `a` votes for `root` on `shard`.
pub open spec fn votes_for(a: PendingAttestation, shard: u64, root: Seq<u8>) -> bool {
    a.data.shard == shard && a.data.shard_block_root@ == root
}

/// Whether `x` took part in some attestation of `atts` voting for `root` on `shard`.
pub open spec fn attested_root(state: &BeaconState, atts: Seq<PendingAttestation>, shard: u64, root: Seq<u8>, x: usize, spec: ChainSpec) -> bool {
    exists|i: int| 0 <= i < atts.len() && votes_for(atts[i], shard, root)
        && (#[trigger] attestation_participants_spec(state, atts[i].data, atts[i].aggregation_bitfield@, spec)) is Ok
        && attestation_participants_spec(state, atts[i].data, atts[i].aggregation_bitfield@, spec)->Ok_0.contains(x)
}

/// The validators, ascending, that took part in some attestation of `atts` voting for `root`
/// on `shard`.
pub open spec fn root_attesters(state: &BeaconState, atts: Seq<PendingAttestation>, shard: u64, root: Seq<u8>, spec: ChainSpec) -> Seq<usize> {
    choose|s: Seq<usize>| strictly_sorted(s) && forall|x: usize| #[trigger] s.contains(x) <==> attested_root(state, atts, shard, root, x, spec)
}

/// The summed effective balance of the validators attesting to `root` on `shard`, each once.
pub open spec fn root_balance(state: &BeaconState, atts: Seq<PendingAttestation>, shard: u64, root: Seq<u8>, spec: ChainSpec) -> nat {
    total_balance(state.validator_balances@, root_attesters(state, atts, shard, root, spec), spec)
}

proof fn lemma_root_attesters(state: &BeaconState, atts: Seq<PendingAttestation>, shard: u64, root: Seq<u8>, spec: ChainSpec, s: Seq<usize>)
    requires
        strictly_sorted(s),
        forall|x: usize| #[trigger] s.contains(x) <==> attested_root(state, atts, shard, root, x, spec),
    ensures
        root_attesters(state, atts, shard, root, spec) == s,
{
    let t = root_attesters(state, atts, shard, root, spec);
    assert(strictly_sorted(t) && forall|x: usize| #[trigger] t.contains(x) <==> attested_root(state, atts, shard, root, x, spec));
    lemma_sorted_unique(s, t);
}

fn att_at<'a>(current: &'a [PendingAttestation], previous: &'a [PendingAttestation], i: usize) -> (r: &'a PendingAttestation)
    requires
        i < current@.len() + previous@.len(),
    ensures
        *r == (current@ + previous@)[i as int],
{
    if i < current.len() {
        &current[i]
    } else {
        &previous[i - current.len()]
    }
}

impl BeaconState {
    /// The validators, ascending and without repeats, that took part in any attestation of
    /// `attestations`.
    pub fn get_attestation_participants_union(
        &self,
        attestations: &[PendingAttestation],
        spec: &ChainSpec,
    ) -> (r: Result<Vec<usize>, AttestationParticipantsError>)
        requires
            self.wf(spec),
        ensures
            r is Ok <==> forall|i: int| 0 <= i < attestations@.len() ==> (#[trigger] attestation_participants_spec(self, attestations@[i].data, attestations@[i].aggregation_bitfield@, *spec)) is Ok,
            r is Err ==> exists|k: int| 0 <= k < attestations@.len()
                && (forall|i: int| 0 <= i < k ==> (#[trigger] attestation_participants_spec(self, attestations@[i].data, attestations@[i].aggregation_bitfield@, *spec)) is Ok)
                && attestation_participants_spec(self, attestations@[k].data, attestations@[k].aggregation_bitfield@, *spec) == Err::<Seq<usize>, AttestationParticipantsError>(r->Err_0),
            r is Ok ==> strictly_sorted(r->Ok_0@),
            r is Ok ==> forall|x: usize| r->Ok_0@.contains(x) <==> exists|i: int| 0 <= i < attestations@.len()
                && (#[trigger] attestation_participants_spec(self, attestations@[i].data, attestations@[i].aggregation_bitfield@, *spec))->Ok_0.contains(x),
    {
        let mut all: Vec<usize> = Vec::new();
        let mut k: usize = 0;
        while k < attestations.len()
            invariant
                self.wf(spec),
                k <= attestations@.len(),
                strictly_sorted(all@),
                forall|i: int| 0 <= i < k ==> (#[trigger] attestation_participants_spec(self, attestations@[i].data, attestations@[i].aggregation_bitfield@, *spec)) is Ok,
                forall|x: usize| #[trigger] all@.contains(x) <==> exists|i: int| 0 <= i < k
                    && (#[trigger] attestation_participants_spec(self, attestations@[i].data, attestations@[i].aggregation_bitfield@, *spec))->Ok_0.contains(x),
            decreases attestations@.len() - k,
        {
            let a = &attestations[k];
            let p = match self.get_attestation_participants(&a.data, &a.aggregation_bitfield, spec) {
                Err(e) => {
                    assert(attestation_participants_spec(self, attestations@[k as int].data, attestations@[k as int].aggregation_bitfield@, *spec) == Err::<Seq<usize>, AttestationParticipantsError>(e));
                    return Err(e);
                },
                Ok(p) => p,
            };
            let ghost before = all@;
            let mut j: usize = 0;
            while j < p.len()
                invariant
                    j <= p@.len(),
                    strictly_sorted(all@),
                    forall|x: usize| #[trigger] all@.contains(x) <==> (before.contains(x) || p@.subrange(0, j as int).contains(x)),
                decreases p@.len() - j,
            {
                let ghost prev_all = all@;
                insert_sorted(&mut all, p[j]);
                proof {
                    let a0 = p@.subrange(0, j as int);
                    let a1 = p@.subrange(0, j + 1);
                    assert(a1 =~= a0.push(p@[j as int]));
                    assert forall|x: usize| a1.contains(x) <==> (a0.contains(x) || x == p@[j as int]) by {
                        if a1.contains(x) {
                            let m = choose|m: int| 0 <= m < a1.len() && a1[m] == x;
                            if m < j {
                                assert(a0[m] == x);
                            }
                        }
                        if a0.contains(x) {
                            let m = choose|m: int| 0 <= m < a0.len() && a0[m] == x;
                            assert(a1[m] == x);
                        }
                        if x == p@[j as int] {
                            assert(a1[j as int] == x);
                        }
                    }
                    assert forall|x: usize| #[trigger] all@.contains(x) <==> (before.contains(x) || a1.contains(x)) by {
                        assert(all@.contains(x) <==> (prev_all.contains(x) || x == p@[j as int]));
                        assert(prev_all.contains(x) <==> (before.contains(x) || a0.contains(x)));
                    }
                }
                j = j + 1;
            }
            assert(p@.subrange(0, j as int) =~= p@);
            proof {
                assert forall|x: usize| #[trigger] all@.contains(x) <==> exists|i: int| 0 <= i < k + 1
                    && (#[trigger] attestation_participants_spec(self, attestations@[i].data, attestations@[i].aggregation_bitfield@, *spec))->Ok_0.contains(x) by {
                    let pk = attestation_participants_spec(self, attestations@[k as int].data, attestations@[k as int].aggregation_bitfield@, *spec);
                    assert(pk->Ok_0 == p@);
                    if all@.contains(x) {
                        if before.contains(x) {
                            let i = choose|i: int| 0 <= i < k
                                && (#[trigger] attestation_participants_spec(self, attestations@[i].data, attestations@[i].aggregation_bitfield@, *spec))->Ok_0.contains(x);
                            assert(0 <= i < k + 1);
                        } else {
                            assert(p@.contains(x));
                            assert(pk->Ok_0.contains(x));
                        }
                    }
                    if exists|i: int| 0 <= i < k + 1
                        && (#[trigger] attestation_participants_spec(self, attestations@[i].data, attestations@[i].aggregation_bitfield@, *spec))->Ok_0.contains(x) {
                        let i = choose|i: int| 0 <= i < k + 1
                            && (#[trigger] attestation_participants_spec(self, attestations@[i].data, attestations@[i].aggregation_bitfield@, *spec))->Ok_0.contains(x);
                        if i == k {
                            assert(p@.contains(x));
                        } else {
                            assert(before.contains(x));
                        }
                    }
                }
            }
            k = k + 1;
        }
        Ok(all)
    }
}

pub proof fn lemma_sorted_len(s: Seq<usize>, n: nat)
    requires
        strictly_sorted(s),
        forall|k: int| 0 <= k < s.len() ==> #[trigger] s[k] < n,
    ensures
        s.len() <= n,
    decreases s.len(),
{
    if s.len() > 0 {
        let t = s.drop_last();
        assert forall|k: int| 0 <= k < t.len() implies #[trigger] t[k] < s.last() by {
            assert(s[k] < s[s.len() - 1]);
        }
        lemma_sorted_len(t, s.last() as nat);
    }
}

impl BeaconState {
    fn root_participants(
        &self,
        shard: u64,
        root: &Hash256,
        current: &[PendingAttestation],
        previous: &[PendingAttestation],
        spec: &ChainSpec,
    ) -> (r: Result<Vec<usize>, AttestationParticipantsError>)
        requires
            self.wf(spec),
            current@.len() + previous@.len() <= usize::MAX,
        ensures
            r is Ok ==> strictly_sorted(r->Ok_0@),
            r is Ok ==> forall|x: usize| #[trigger] r->Ok_0@.contains(x) <==> attested_root(self, current@ + previous@, shard, root@, x, *spec),
            r is Ok ==> forall|k: int| 0 <= k < r->Ok_0@.len() ==> #[trigger] r->Ok_0@[k] < self.validator_registry@.len(),
            (forall|i: int| 0 <= i < (current@ + previous@).len() && votes_for((current@ + previous@)[i], shard, root@)
                ==> (#[trigger] attestation_participants_spec(self, (current@ + previous@)[i].data, (current@ + previous@)[i].aggregation_bitfield@, *spec)) is Ok) ==> r is Ok,
    {
        let ghost atts = current@ + previous@;
        let n = current.len() + previous.len();
        let mut all: Vec<usize> = Vec::new();
        let mut k: usize = 0;
        while k < n
            invariant
                self.wf(spec),
                n == atts.len(),
                atts == current@ + previous@,
                k <= n,
                strictly_sorted(all@),
                forall|m: int| 0 <= m < all@.len() ==> #[trigger] all@[m] < self.validator_registry@.len(),
                forall|x: usize| #[trigger] all@.contains(x) <==> attested_root(self, atts.subrange(0, k as int), shard, root@, x, *spec),
            decreases n - k,
        {
            let a = att_at(current, previous, k);
            let ghost before = all@;
            let ghost mut added: Seq<usize> = Seq::empty();
            let voted = a.data.shard == shard && hash_eq(&a.data.shard_block_root, root);
            if voted {
                let p = match self.get_attestation_participants(&a.data, &a.aggregation_bitfield, spec) {
                    Err(e) => {
                        assert(votes_for(atts[k as int], shard, root@));
                        assert(attestation_participants_spec(self, atts[k as int].data, atts[k as int].aggregation_bitfield@, *spec) is Err);
                        return Err(e);
                    },
                    Ok(p) => p,
                };
                proof {
                    added = p@;
                }
                let mut j: usize = 0;
                while j < p.len()
                    invariant
                        j <= p@.len(),
                        strictly_sorted(all@),
                        forall|m: int| 0 <= m < p@.len() ==> #[trigger] p@[m] < self.validator_registry@.len(),
                        forall|m: int| 0 <= m < all@.len() ==> #[trigger] all@[m] < self.validator_registry@.len(),
                        forall|x: usize| #[trigger] all@.contains(x) <==> (before.contains(x) || p@.subrange(0, j as int).contains(x)),
                    decreases p@.len() - j,
                {
                    let ghost prev_all = all@;
                    insert_sorted(&mut all, p[j]);
                    proof {
                        let a0 = p@.subrange(0, j as int);
                        let a1 = p@.subrange(0, j + 1);
                        assert forall|x: usize| a1.contains(x) <==> (a0.contains(x) || x == p@[j as int]) by {
                            if a1.contains(x) {
                                let m = choose|m: int| 0 <= m < a1.len() && a1[m] == x;
                                if m < j {
                                    assert(a0[m] == x);
                                }
                            }
                            if a0.contains(x) {
                                let m = choose|m: int| 0 <= m < a0.len() && a0[m] == x;
                                assert(a1[m] == x);
                            }
                            if x == p@[j as int] {
                                assert(a1[j as int] == x);
                            }
                        }
                        assert forall|x: usize| #[trigger] all@.contains(x) <==> (before.contains(x) || a1.contains(x)) by {
                            assert(all@.contains(x) <==> (prev_all.contains(x) || x == p@[j as int]));
                            assert(prev_all.contains(x) <==> (before.contains(x) || a0.contains(x)));
                        }
                        assert forall|m: int| 0 <= m < all@.len() implies #[trigger] all@[m] < self.validator_registry@.len() by {
                            assert(all@.contains(all@[m]));
                            if prev_all.contains(all@[m]) {
                                let t = choose|t: int| 0 <= t < prev_all.len() && prev_all[t] == all@[m];
                                assert(prev_all[t] < self.validator_registry@.len());
                            }
                        }
                    }
                    j = j + 1;
                }
                assert(p@.subrange(0, j as int) =~= p@);
            }
            proof {
                let pre = atts.subrange(0, k as int);
                let post = atts.subrange(0, k + 1);
                assert(post[k as int] == atts[k as int]);
                assert(forall|x: usize| #[trigger] all@.contains(x) <==> (before.contains(x) || added.contains(x)));
                assert(voted <==> votes_for(atts[k as int], shard, root@));
                if voted {
                    assert(attestation_participants_spec(self, post[k as int].data, post[k as int].aggregation_bitfield@, *spec) is Ok);
                    assert(attestation_participants_spec(self, post[k as int].data, post[k as int].aggregation_bitfield@, *spec)->Ok_0 == added);
                }
                assert forall|x: usize| #[trigger] all@.contains(x) <==> attested_root(self, post, shard, root@, x, *spec) by {
                    if attested_root(self, post, shard, root@, x, *spec) {
                        let i = choose|i: int| 0 <= i < post.len() && votes_for(post[i], shard, root@)
                            && (#[trigger] attestation_participants_spec(self, post[i].data, post[i].aggregation_bitfield@, *spec)) is Ok
                            && attestation_participants_spec(self, post[i].data, post[i].aggregation_bitfield@, *spec)->Ok_0.contains(x);
                        if i < k {
                            assert(pre[i] == post[i]);
                            assert(attested_root(self, pre, shard, root@, x, *spec));
                        }
                    }
                    if attested_root(self, pre, shard, root@, x, *spec) {
                        let i = choose|i: int| 0 <= i < pre.len() && votes_for(pre[i], shard, root@)
                            && (#[trigger] attestation_participants_spec(self, pre[i].data, pre[i].aggregation_bitfield@, *spec)) is Ok
                            && attestation_participants_spec(self, pre[i].data, pre[i].aggregation_bitfield@, *spec)->Ok_0.contains(x);
                        assert(pre[i] == post[i]);
                    }
                    if added.contains(x) {
                        assert(voted);
                    }
                }
            }
            k = k + 1;
        }
        assert(atts.subrange(0, n as int) =~= atts);
        Ok(all)
    }

    /// The crosslink root for `shard` with the most attesting balance among the current and
    /// previous epochs' attestations (each validator counted once per root), the
    /// lexicographically smallest root breaking ties.
    pub fn winning_root(
        &self,
        shard: u64,
        current_epoch_attestations: &[PendingAttestation],
        previous_epoch_attestations: &[PendingAttestation],
        spec: &ChainSpec,
    ) -> (r: Result<WinningRoot, WinningRootError>)
        requires
            self.wf(spec),
            current_epoch_attestations@.len() + previous_epoch_attestations@.len() <= usize::MAX,
        ensures
            r == Err::<WinningRoot, WinningRootError>(WinningRootError::NoWinningRoot) <==> forall|i: int|
                0 <= i < (current_epoch_attestations@ + previous_epoch_attestations@).len() ==> (#[trigger] (current_epoch_attestations@ + previous_epoch_attestations@)[i]).data.shard != shard,
            r is Ok ==> ({
                let w = r->Ok_0;
                let atts = current_epoch_attestations@ + previous_epoch_attestations@;
                &&& exists|i: int| 0 <= i < atts.len() && votes_for(#[trigger] atts[i], shard, w.shard_block_root@)
                &&& strictly_sorted(w.attesting_validator_indices@)
                &&& forall|x: usize| #[trigger] w.attesting_validator_indices@.contains(x) <==> attested_root(self, atts, shard, w.shard_block_root@, x, *spec)
                &&& w.total_attesting_balance == total_balance(self.validator_balances@, w.attesting_validator_indices@, *spec)
                &&& w.total_attesting_balance == root_balance(self, atts, shard, w.shard_block_root@, *spec)
                &&& w.total_balance == w.total_attesting_balance
                &&& forall|i: int| 0 <= i < atts.len() && (#[trigger] atts[i]).data.shard == shard ==>
                    root_balance(self, atts, shard, atts[i].data.shard_block_root@, *spec) <= w.total_attesting_balance
                    && (root_balance(self, atts, shard, atts[i].data.shard_block_root@, *spec) == w.total_attesting_balance
                        ==> lex_le(w.shard_block_root@, atts[i].data.shard_block_root@))
            }),
            (exists|i: int| 0 <= i < (current_epoch_attestations@ + previous_epoch_attestations@).len()
                && (#[trigger] (current_epoch_attestations@ + previous_epoch_attestations@)[i]).data.shard == shard)
            && (forall|i: int| 0 <= i < (current_epoch_attestations@ + previous_epoch_attestations@).len()
                && (current_epoch_attestations@ + previous_epoch_attestations@)[i].data.shard == shard
                ==> (#[trigger] attestation_participants_spec(self, (current_epoch_attestations@ + previous_epoch_attestations@)[i].data,
                    (current_epoch_attestations@ + previous_epoch_attestations@)[i].aggregation_bitfield@, *spec)) is Ok) ==> r is Ok,
    {
        let ghost atts = current_epoch_attestations@ + previous_epoch_attestations@;
        let n = current_epoch_attestations.len() + previous_epoch_attestations.len();
        let mut candidates: Vec<WinningRoot> = Vec::new();
        let mut k: usize = 0;
        while k < n
            invariant
                self.wf(spec),
                n == atts.len(),
                atts == current_epoch_attestations@ + previous_epoch_attestations@,
                k <= n,
                candidates@.len() > 0 <==> exists|i: int| 0 <= i < k && (#[trigger] atts[i]).data.shard == shard,
                forall|c: int| 0 <= c < candidates@.len() ==> ({
                    let w = #[trigger] candidates@[c];
                    &&& exists|i: int| 0 <= i < atts.len() && votes_for(#[trigger] atts[i], shard, w.shard_block_root@)
                    &&& strictly_sorted(w.attesting_validator_indices@)
                    &&& forall|x: usize| #[trigger] w.attesting_validator_indices@.contains(x) <==> attested_root(self, atts, shard, w.shard_block_root@, x, *spec)
                    &&& w.total_attesting_balance == total_balance(self.validator_balances@, w.attesting_validator_indices@, *spec)
                    &&& w.total_attesting_balance == root_balance(self, atts, shard, w.shard_block_root@, *spec)
                    &&& w.total_balance == w.total_attesting_balance
                }),
                forall|i: int| 0 <= i < k && (#[trigger] atts[i]).data.shard == shard ==> exists|c: int| 0 <= c < candidates@.len()
                    && candidates@[c].shard_block_root@ == atts[i].data.shard_block_root@,
            decreases n - k,
        {
            let a = att_at(current_epoch_attestations, previous_epoch_attestations, k);
            let ghost cands_before = candidates@;
            if a.data.shard == shard {
                let root = a.data.shard_block_root;
                assert(atts[k as int].data.shard == shard);
                let mut seen = false;
                let mut c: usize = 0;
                while c < candidates.len()
                    invariant
                        c <= candidates@.len(),
                        seen ==> candidates@.len() > 0,
                        seen ==> exists|c2: int| 0 <= c2 < candidates@.len() && candidates@[c2].shard_block_root@ == root@,
                    decreases candidates@.len() - c,
                {
                    if hash_eq(&candidates[c].shard_block_root, &root) {
                        seen = true;
                    }
                    c = c + 1;
                }
                if !seen {
                    let indices = match self.root_participants(shard, &root, current_epoch_attestations, previous_epoch_attestations, spec) {
                        Err(e) => return Err(WinningRootError::AttestationParticipantsError(e)),
                        Ok(p) => p,
                    };
                    proof {
                        lemma_sorted_len(indices@, self.validator_registry@.len());
                        lemma_root_attesters(self, atts, shard, root@, *spec, indices@);
                    }
                    let total = self.get_total_balance(indices.as_slice(), spec);
                    assert(votes_for(atts[k as int], shard, root@));
                    candidates.push(WinningRoot {
                        shard_block_root: root,
                        attesting_validator_indices: indices,
                        total_balance: total,
                        total_attesting_balance: total,
                    });
                    assert(candidates@[candidates@.len() - 1].shard_block_root@ == atts[k as int].data.shard_block_root@);
                }
            }
            proof {
                assert(forall|c: int| 0 <= c < cands_before.len() ==> candidates@[c] == cands_before[c]);
                assert forall|i: int| 0 <= i < k + 1 && (#[trigger] atts[i]).data.shard == shard implies exists|c: int| 0 <= c < candidates@.len()
                    && candidates@[c].shard_block_root@ == atts[i].data.shard_block_root@ by {
                    if i < k {
                        let c = choose|c: int| 0 <= c < cands_before.len() && cands_before[c].shard_block_root@ == atts[i].data.shard_block_root@;
                        assert(candidates@[c] == cands_before[c]);
                    }
                }
            }
            k = k + 1;
        }
        match select_winning_root(&candidates) {
            None => Err(WinningRootError::NoWinningRoot),
            Some(best) => {
                let ghost cs = candidates@;
                proof {
                    let roots = candidate_roots(cs);
                    let bals = candidate_balances(cs);
                    assert forall|i: int| 0 <= i < atts.len() && (#[trigger] atts[i]).data.shard == shard implies
                        root_balance(self, atts, shard, atts[i].data.shard_block_root@, *spec) <= cs[best as int].total_attesting_balance
                        && (root_balance(self, atts, shard, atts[i].data.shard_block_root@, *spec) == cs[best as int].total_attesting_balance
                            ==> lex_le(cs[best as int].shard_block_root@, atts[i].data.shard_block_root@)) by {
                        let c = choose|c: int| 0 <= c < cs.len() && cs[c].shard_block_root@ == atts[i].data.shard_block_root@;
                        assert(bals[c] == cs[c].total_attesting_balance);
                        assert(roots[c] == cs[c].shard_block_root@);
                        assert(bals[c] <= bals[best as int]);
                    }
                }
                let mut candidates = candidates;
                let w = candidates.swap_remove(best);
                Ok(w)
            },
        }
    }
}

/// The winning crosslink root of `shard` in `state`.
pub fn winning_root(
    state: &BeaconState,
    shard: u64,
    current_epoch_attestations: &[PendingAttestation],
    previous_epoch_attestations: &[PendingAttestation],
    spec: &ChainSpec,
) -> (r: Result<WinningRoot, WinningRootError>)
    requires
        state.wf(spec),
        current_epoch_attestations@.len() + previous_epoch_attestations@.len() <= usize::MAX,
    ensures
        r == Err::<WinningRoot, WinningRootError>(WinningRootError::NoWinningRoot) <==> forall|i: int|
            0 <= i < (current_epoch_attestations@ + previous_epoch_attestations@).len() ==> (#[trigger] (current_epoch_attestations@ + previous_epoch_attestations@)[i]).data.shard != shard,
        r is Ok ==> ({
            let w = r->Ok_0;
            let atts = current_epoch_attestations@ + previous_epoch_attestations@;
            &&& exists|i: int| 0 <= i < atts.len() && votes_for(#[trigger] atts[i], shard, w.shard_block_root@)
            &&& strictly_sorted(w.attesting_validator_indices@)
            &&& forall|x: usize| #[trigger] w.attesting_validator_indices@.contains(x) <==> attested_root(state, atts, shard, w.shard_block_root@, x, *spec)
            &&& w.total_attesting_balance == total_balance(state.validator_balances@, w.attesting_validator_indices@, *spec)
            &&& w.total_attesting_balance == root_balance(state, atts, shard, w.shard_block_root@, *spec)
            &&& w.total_balance == w.total_attesting_balance
            &&& forall|i: int| 0 <= i < atts.len() && (#[trigger] atts[i]).data.shard == shard ==>
                root_balance(state, atts, shard, atts[i].data.shard_block_root@, *spec) <= w.total_attesting_balance
                && (root_balance(state, atts, shard, atts[i].data.shard_block_root@, *spec) == w.total_attesting_balance
                    ==> lex_le(w.shard_block_root@, atts[i].data.shard_block_root@))
        }),
        (exists|i: int| 0 <= i < (current_epoch_attestations@ + previous_epoch_attestations@).len()
            && (#[trigger] (current_epoch_attestations@ + previous_epoch_attestations@)[i]).data.shard == shard)
        && (forall|i: int| 0 <= i < (current_epoch_attestations@ + previous_epoch_attestations@).len()
            && (current_epoch_attestations@ + previous_epoch_attestations@)[i].data.shard == shard
            ==> (#[trigger] attestation_participants_spec(state, (current_epoch_attestations@ + previous_epoch_attestations@)[i].data,
                (current_epoch_attestations@ + previous_epoch_attestations@)[i].aggregation_bitfield@, *spec)) is Ok) ==> r is Ok,
{
    state.winning_root(shard, current_epoch_attestations, previous_epoch_attestations, spec)
}

#[derive(Debug, PartialEq, Eq, Clone, Copy, Structural)]
pub enum AttestationValidationError {
    IncludedTooEarly,
    IncludedTooLate,
    WrongJustifiedSlot,
    WrongJustifiedRoot,
    BadLatestCrosslinkRoot,
    BadSignature,
    ShardBlockRootNotZero,
    NoBlockRoot,
    AttestationParticipantsError(AttestationParticipantsError),
}

/// The first slot of `epoch`, saturating.
pub open spec fn start_slot(epoch: u64, spec: ChainSpec) -> u64 {
    if epoch * spec.epoch_length > u64::MAX { u64::MAX } else { (epoch * spec.epoch_length) as u64 }
}

/// The outcome of checking an attestation for `data` with `bits` against `state`, in order:
/// inclusion window, justified epoch and root, latest crosslink, then (when `check_signature`)
/// participants and the aggregate-signature verdict `signature_valid`, then a zero shard root.
pub open spec fn validation_spec(
    state: &BeaconState,
    data: AttestationData,
    bits: Seq<u8>,
    spec: ChainSpec,
    check_signature: bool,
    signature_valid: bool,
) -> Result<(), AttestationValidationError> {
    let cur_start = epoch_of(state.slot, spec) * spec.epoch_length;
    let justified = if data.slot >= cur_start { state.justified_epoch } else { state.previous_justified_epoch };
    let root_index = (start_slot(data.justified_epoch, spec) % (spec.latest_block_roots_length as u64)) as int;
    if data.slot + spec.min_attestation_inclusion_delay > state.slot {
        Err(AttestationValidationError::IncludedTooEarly)
    } else if data.slot + spec.epoch_length < state.slot {
        Err(AttestationValidationError::IncludedTooLate)
    } else if data.justified_epoch != justified {
        Err(AttestationValidationError::WrongJustifiedSlot)
    } else if data.justified_block_root@ != state.latest_block_roots@[root_index]@ {
        Err(AttestationValidationError::WrongJustifiedRoot)
    } else if data.shard >= state.latest_crosslinks@.len() || data.latest_crosslink != state.latest_crosslinks@[data.shard as int] {
        Err(AttestationValidationError::BadLatestCrosslinkRoot)
    } else if check_signature && attestation_participants_spec(state, data, bits, spec) is Err {
        Err(AttestationValidationError::AttestationParticipantsError(attestation_participants_spec(state, data, bits, spec)->Err_0))
    } else if check_signature && !signature_valid {
        Err(AttestationValidationError::BadSignature)
    } else if data.shard_block_root@ != spec.zero_hash@ {
        Err(AttestationValidationError::ShardBlockRootNotZero)
    } else {
        Ok(())
    }
}

/// Whether two crosslinks are equal.
pub fn crosslink_eq(a: &Crosslink, b: &Crosslink) -> (r: bool)
    ensures
        r == (*a == *b),
{
    let same = a.epoch == b.epoch && hash_eq(&a.shard_block_root, &b.shard_block_root);
    proof {
        if a.epoch == b.epoch && a.shard_block_root@ == b.shard_block_root@ {
            assert(a.shard_block_root == b.shard_block_root);
        }
    }
    same
}

impl BeaconState {
    /// Checks `attestation` against this state; `signature_valid` is the verdict of verifying
    /// its aggregate signature against the aggregate of `attestation_signing_keys`.
    pub fn validate_attestation(
        &self,
        attestation: &Attestation,
        spec: &ChainSpec,
        signature_valid: bool,
    ) -> (r: Result<(), AttestationValidationError>)
        requires
            self.wf(spec),
        ensures
            r == validation_spec(self, attestation.data, attestation.aggregation_bitfield@, *spec, true, signature_valid),
    {
        self.validate_attestation_signature_optional(attestation, spec, true, signature_valid)
    }

    /// Checks `attestation` against this state, leaving its signature unchecked.
    pub fn validate_attestation_without_signature(
        &self,
        attestation: &Attestation,
        spec: &ChainSpec,
    ) -> (r: Result<(), AttestationValidationError>)
        requires
            self.wf(spec),
        ensures
            r == validation_spec(self, attestation.data, attestation.aggregation_bitfield@, *spec, false, true),
    {
        self.validate_attestation_signature_optional(attestation, spec, false, true)
    }

    fn validate_attestation_signature_optional(
        &self,
        attestation: &Attestation,
        spec: &ChainSpec,
        verify_signature: bool,
        signature_valid: bool,
    ) -> (r: Result<(), AttestationValidationError>)
        requires
            self.wf(spec),
        ensures
            r == validation_spec(self, attestation.data, attestation.aggregation_bitfield@, *spec, verify_signature, signature_valid),
    {
        let data = &attestation.data;
        if data.slot.checked_add(spec.min_attestation_inclusion_delay).is_none()
            || data.slot + spec.min_attestation_inclusion_delay > self.slot {
            return Err(AttestationValidationError::IncludedTooEarly);
        }
        if data.slot < self.slot && self.slot - data.slot > spec.epoch_length {
            return Err(AttestationValidationError::IncludedTooLate);
        }
        let justified = if data.slot >= self.current_epoch_start_slot(spec) {
            self.justified_epoch
        } else {
            self.previous_justified_epoch
        };
        if data.justified_epoch != justified {
            return Err(AttestationValidationError::WrongJustifiedSlot);
        }
        let justified_start = match data.justified_epoch.checked_mul(spec.epoch_length) {
            Some(x) => x,
            None => u64::MAX,
        };
        let root = match self.get_block_root(justified_start, spec) {
            None => return Err(AttestationValidationError::NoBlockRoot),
            Some(root) => root,
        };
        if !hash_eq(&data.justified_block_root, &root) {
            return Err(AttestationValidationError::WrongJustifiedRoot);
        }
        if data.shard >= self.latest_crosslinks.len() as u64 || !crosslink_eq(&data.latest_crosslink, &self.latest_crosslinks[data.shard as usize]) {
            return Err(AttestationValidationError::BadLatestCrosslinkRoot);
        }
        if verify_signature {
            match self.get_attestation_participants(data, &attestation.aggregation_bitfield, spec) {
                Err(e) => return Err(AttestationValidationError::AttestationParticipantsError(e)),
                Ok(_) => {},
            }
            if !signature_valid {
                return Err(AttestationValidationError::BadSignature);
            }
        }
        if !hash_eq(&data.shard_block_root, &spec.zero_hash) {
            return Err(AttestationValidationError::ShardBlockRootNotZero);
        }
        Ok(())
    }

    /// The public keys whose aggregate must have signed `attestation`: those of its
    /// participants, in committee order.
    pub fn attestation_signing_keys(
        &self,
        attestation: &Attestation,
        spec: &ChainSpec,
    ) -> (r: Result<Vec<Vec<u8>>, AttestationParticipantsError>)
        requires
            self.wf(spec),
        ensures
            match attestation_participants_spec(self, attestation.data, attestation.aggregation_bitfield@, *spec) {
                Err(e) => r == Err::<Vec<Vec<u8>>, AttestationParticipantsError>(e),
                Ok(p) => r is Ok && r->Ok_0@.len() == p.len() && forall|k: int| 0 <= k < p.len() ==> #[trigger] r->Ok_0@[k]@ == self.validator_registry@[p[k] as int].pubkey@,
            },
    {
        let participants = match self.get_attestation_participants(&attestation.data, &attestation.aggregation_bitfield, spec) {
            Err(e) => return Err(e),
            Ok(p) => p,
        };
        let mut keys: Vec<Vec<u8>> = Vec::new();
        let mut k: usize = 0;
        while k < participants.len()
            invariant
                k <= participants@.len(),
                forall|m: int| 0 <= m < participants@.len() ==> #[trigger] participants@[m] < self.validator_registry@.len(),
                keys@.len() == k,
                forall|m: int| 0 <= m < k ==> #[trigger] keys@[m]@ == self.validator_registry@[participants@[m] as int].pubkey@,
            decreases participants@.len() - k,
        {
            let pk = &self.validator_registry[participants[k]].pubkey;
            keys.push(copy_range(pk, 0, pk.len()));
            assert(pk@.subrange(0, pk@.len() as int) =~= pk@);
            k = k + 1;
        }
        Ok(keys)
    }
}

#[derive(Debug, PartialEq, Eq, Clone, Copy, Structural)]
pub enum InclusionError {
    NoIncludedAttestations,
    AttestationParticipantsError(AttestationParticipantsError),
}

/// Whether attestation `a` counts `v` among its participants.
pub open spec fn includes(state: &BeaconState, a: PendingAttestation, v: usize, spec: ChainSpec) -> bool {
    attestation_participants_spec(state, a.data, a.aggregation_bitfield@, spec) is Ok
        && attestation_participants_spec(state, a.data, a.aggregation_bitfield@, spec)->Ok_0.contains(v)
}

/// Whether `v` sits in a crosslink committee of `slot`.
pub open spec fn in_committee_at(state: &BeaconState, slot: u64, v: usize, spec: ChainSpec) -> bool {
    crosslink_committees_spec(state, slot, spec) is Ok && exists|k: int, j: int| 0 <= k < crosslink_committees_spec(state, slot, spec)->Ok_0.len()
        && 0 <= j < crosslink_committees_spec(state, slot, spec)->Ok_0[k].0.len()
        && #[trigger] crosslink_committees_spec(state, slot, spec)->Ok_0[k].0[j] == v
}

impl BeaconState {
    /// The slot, shard and committee position of `validator_index` in the current epoch (its
    /// last appearance), or `None` if it sits in no committee of the epoch.
    pub fn attestation_slot_and_shard_for_validator(
        &self,
        validator_index: usize,
        spec: &ChainSpec,
    ) -> (r: Result<Option<(u64, u64, u64)>, CommitteesError>)
        requires
            self.wf(spec),
        ensures
            r is Ok,
            r->Ok_0 is None <==> forall|slot: u64| epoch_of(slot, *spec) == epoch_of(self.slot, *spec) ==> !#[trigger] in_committee_at(self, slot, validator_index, *spec),
            r is Ok ==> match r->Ok_0 {
                Some(t) => crosslink_committees_spec(self, t.0, *spec) is Ok && epoch_of(t.0, *spec) == epoch_of(self.slot, *spec)
                    && exists|k: int| 0 <= k < crosslink_committees_spec(self, t.0, *spec)->Ok_0.len()
                        && (#[trigger] crosslink_committees_spec(self, t.0, *spec)->Ok_0[k]).1 == t.1
                        && t.2 < crosslink_committees_spec(self, t.0, *spec)->Ok_0[k].0.len()
                        && crosslink_committees_spec(self, t.0, *spec)->Ok_0[k].0[t.2 as int] == validator_index,
                None => true,
            },
    {
        let start = self.current_epoch_start_slot(spec);
        let mut result: Option<(u64, u64, u64)> = None;
        let mut k: u64 = 0;
        while k < spec.epoch_length && k <= u64::MAX - start
            invariant
                self.wf(spec),
                start == epoch_of(self.slot, *spec) * spec.epoch_length,
                result is None ==> forall|t: u64| start <= t < start + k ==> !#[trigger] in_committee_at(self, t, validator_index, *spec),
                match result {
                    Some(t) => crosslink_committees_spec(self, t.0, *spec) is Ok && epoch_of(t.0, *spec) == epoch_of(self.slot, *spec)
                        && exists|k: int| 0 <= k < crosslink_committees_spec(self, t.0, *spec)->Ok_0.len()
                            && (#[trigger] crosslink_committees_spec(self, t.0, *spec)->Ok_0[k]).1 == t.1
                            && t.2 < crosslink_committees_spec(self, t.0, *spec)->Ok_0[k].0.len()
                            && crosslink_committees_spec(self, t.0, *spec)->Ok_0[k].0[t.2 as int] == validator_index,
                    None => true,
                },
            decreases spec.epoch_length - k,
        {
            let slot = start + k;
            assert(epoch_of(slot, *spec) == epoch_of(self.slot, *spec)) by (nonlinear_arith)
                requires
                    slot == start + k,
                    k < spec.epoch_length,
                    start == (self.slot / spec.epoch_length) * spec.epoch_length,
                    spec.epoch_length > 0,
            ;
            assert(crosslink_committees_spec(self, slot, *spec) is Ok);
            let committees = match self.get_crosslink_committees_at_slot(slot, false, spec) {
                Err(e) => return Err(e),
                Ok(c) => c,
            };
            let ghost cs = crosslink_committees_spec(self, slot, *spec)->Ok_0;
            let mut c: usize = 0;
            while c < committees.len()
                invariant
                    self.wf(spec),
                    crosslink_committees_spec(self, slot, *spec) is Ok,
                    cs == crosslink_committees_spec(self, slot, *spec)->Ok_0,
                    committees_match(committees@, cs),
                    epoch_of(slot, *spec) == epoch_of(self.slot, *spec),
                    c <= committees@.len(),
                    result is None ==> forall|t: u64| start <= t < slot ==> !#[trigger] in_committee_at(self, t, validator_index, *spec),
                    result is None ==> forall|kk: int, j: int| 0 <= kk < c && 0 <= j < cs[kk].0.len() ==> cs[kk].0[j] != validator_index,
                    match result {
                        Some(t) => crosslink_committees_spec(self, t.0, *spec) is Ok && epoch_of(t.0, *spec) == epoch_of(self.slot, *spec)
                            && exists|k: int| 0 <= k < crosslink_committees_spec(self, t.0, *spec)->Ok_0.len()
                                && (#[trigger] crosslink_committees_spec(self, t.0, *spec)->Ok_0[k]).1 == t.1
                                && t.2 < crosslink_committees_spec(self, t.0, *spec)->Ok_0[k].0.len()
                                && crosslink_committees_spec(self, t.0, *spec)->Ok_0[k].0[t.2 as int] == validator_index,
                        None => true,
                    },
                decreases committees@.len() - c,
            {
                let committee = &committees[c].0;
                let mut m: usize = 0;
                while m < committee.len()
                    invariant
                        m <= committee@.len(),
                        committee@ == cs[c as int].0,
                        c < cs.len(),
                        committees@.len() == cs.len(),
                        crosslink_committees_spec(self, slot, *spec) is Ok,
                        cs == crosslink_committees_spec(self, slot, *spec)->Ok_0,
                        committees@[c as int].1 == cs[c as int].1,
                        epoch_of(slot, *spec) == epoch_of(self.slot, *spec),
                        result is None ==> forall|t: u64| start <= t < slot ==> !#[trigger] in_committee_at(self, t, validator_index, *spec),
                        result is None ==> forall|kk: int, j: int| 0 <= kk < c && 0 <= j < cs[kk].0.len() ==> cs[kk].0[j] != validator_index,
                        result is None ==> forall|j: int| 0 <= j < m ==> committee@[j] != validator_index,
                        match result {
                            Some(t) => crosslink_committees_spec(self, t.0, *spec) is Ok && epoch_of(t.0, *spec) == epoch_of(self.slot, *spec)
                                && exists|k: int| 0 <= k < crosslink_committees_spec(self, t.0, *spec)->Ok_0.len()
                                    && (#[trigger] crosslink_committees_spec(self, t.0, *spec)->Ok_0[k]).1 == t.1
                                    && t.2 < crosslink_committees_spec(self, t.0, *spec)->Ok_0[k].0.len()
                                    && crosslink_committees_spec(self, t.0, *spec)->Ok_0[k].0[t.2 as int] == validator_index,
                            None => true,
                        },
                    decreases committee@.len() - m,
                {
                    if committee[m] == validator_index {
                        result = Some((slot, committees[c].1, m as u64));
                        assert(crosslink_committees_spec(self, slot, *spec)->Ok_0[c as int].1 == committees[c as int].1);
                    }
                    m = m + 1;
                }
                c = c + 1;
            }
            proof {
                if result is None {
                    assert forall|t: u64| start <= t < start + k + 1 implies !#[trigger] in_committee_at(self, t, validator_index, *spec) by {
                        if t == slot {
                            if in_committee_at(self, t, validator_index, *spec) {
                                let (kk, j) = choose|kk: int, j: int| 0 <= kk < cs.len() && 0 <= j < cs[kk].0.len() && #[trigger] cs[kk].0[j] == validator_index;
                                assert(cs[kk].0[j] != validator_index);
                            }
                        }
                    }
                }
            }
            k = k + 1;
        }
        proof {
            if result is None {
                assert forall|t: u64| epoch_of(t, *spec) == epoch_of(self.slot, *spec) implies !#[trigger] in_committee_at(self, t, validator_index, *spec) by {
                    assert(start <= t < start + spec.epoch_length) by (nonlinear_arith)
                        requires
                            t / spec.epoch_length == self.slot / spec.epoch_length,
                            start == (self.slot / spec.epoch_length) * spec.epoch_length,
                            spec.epoch_length > 0,
                    ;
                }
            } else {
                let t = result->Some_0;
                assert(in_committee_at(self, t.0, validator_index, *spec));
            }
        }
        Ok(result)
    }

    /// The first attestation of `attestations` with the earliest inclusion slot among those
    /// that `validator_index` took part in.
    pub fn earliest_included_attestation(
        &self,
        attestations: &[PendingAttestation],
        validator_index: usize,
        spec: &ChainSpec,
    ) -> (r: Result<usize, InclusionError>)
        requires
            self.wf(spec),
        ensures
            r is Ok ==> r->Ok_0 < attestations@.len() && includes(self, attestations@[r->Ok_0 as int], validator_index, *spec),
            r is Ok ==> forall|i: int| 0 <= i < attestations@.len() && #[trigger] includes(self, attestations@[i], validator_index, *spec)
                ==> attestations@[r->Ok_0 as int].inclusion_slot <= attestations@[i].inclusion_slot,
            r == Err::<usize, InclusionError>(InclusionError::NoIncludedAttestations) ==> forall|i: int| 0 <= i < attestations@.len() ==> !#[trigger] includes(self, attestations@[i], validator_index, *spec),
            (forall|i: int| 0 <= i < attestations@.len() ==> (#[trigger] attestation_participants_spec(self, attestations@[i].data, attestations@[i].aggregation_bitfield@, *spec)) is Ok)
                && (exists|i: int| 0 <= i < attestations@.len() && #[trigger] includes(self, attestations@[i], validator_index, *spec)) ==> r is Ok,
    {
        let mut best: Option<usize> = None;
        let mut k: usize = 0;
        while k < attestations.len()
            invariant
                self.wf(spec),
                k <= attestations@.len(),
                match best {
                    Some(b) => b < k && includes(self, attestations@[b as int], validator_index, *spec)
                        && forall|i: int| 0 <= i < k && #[trigger] includes(self, attestations@[i], validator_index, *spec) ==> attestations@[b as int].inclusion_slot <= attestations@[i].inclusion_slot,
                    None => forall|i: int| 0 <= i < k ==> !#[trigger] includes(self, attestations@[i], validator_index, *spec),
                },
            decreases attestations@.len() - k,
        {
            let a = &attestations[k];
            let participants = match self.get_attestation_participants(&a.data, &a.aggregation_bitfield, spec) {
                Err(e) => return Err(InclusionError::AttestationParticipantsError(e)),
                Ok(p) => p,
            };
            let mut found = false;
            let mut m: usize = 0;
            while m < participants.len()
                invariant
                    m <= participants@.len(),
                    found == participants@.subrange(0, m as int).contains(validator_index),
                decreases participants@.len() - m,
            {
                if participants[m] == validator_index {
                    found = true;
                    assert(participants@.subrange(0, m + 1)[m as int] == validator_index);
                }
                proof {
                    let a0 = participants@.subrange(0, m as int);
                    let a1 = participants@.subrange(0, m + 1);
                    if a0.contains(validator_index) {
                        let w = choose|w: int| 0 <= w < a0.len() && a0[w] == validator_index;
                        assert(a1[w] == validator_index);
                    }
                    if a1.contains(validator_index) && participants[m as int] != validator_index {
                        let w = choose|w: int| 0 <= w < a1.len() && a1[w] == validator_index;
                        assert(a0[w] == validator_index);
                    }
                }
                m = m + 1;
            }
            assert(participants@.subrange(0, m as int) =~= participants@);
            if found {
                match best {
                    None => {
                        best = Some(k);
                    },
                    Some(b) => {
                        if a.inclusion_slot < attestations[b].inclusion_slot {
                            best = Some(k);
                        }
                    },
                }
            }
            k = k + 1;
        }
        match best {
            None => Err(InclusionError::NoIncludedAttestations),
            Some(b) => Ok(b),
        }
    }

    /// The inclusion slot of the earliest included attestation of `validator_index`.
    pub fn inclusion_slot(&self, attestations: &[PendingAttestation], validator_index: usize, spec: &ChainSpec) -> (r: Result<u64, InclusionError>)
        requires
            self.wf(spec),
        ensures
            r is Ok ==> exists|i: int| 0 <= i < attestations@.len() && #[trigger] includes(self, attestations@[i], validator_index, *spec)
                && attestations@[i].inclusion_slot == r->Ok_0
                && forall|j: int| 0 <= j < attestations@.len() && #[trigger] includes(self, attestations@[j], validator_index, *spec) ==> r->Ok_0 <= attestations@[j].inclusion_slot,
            (forall|i: int| 0 <= i < attestations@.len() ==> (#[trigger] attestation_participants_spec(self, attestations@[i].data, attestations@[i].aggregation_bitfield@, *spec)) is Ok)
                && (exists|i: int| 0 <= i < attestations@.len() && #[trigger] includes(self, attestations@[i], validator_index, *spec)) ==> r is Ok,
    {
        match self.earliest_included_attestation(attestations, validator_index, spec) {
            Err(e) => Err(e),
            Ok(i) => {
                assert(includes(self, attestations@[i as int], validator_index, *spec));
                Ok(attestations[i].inclusion_slot)
            },
        }
    }

    /// Slots between the attested slot and the inclusion of the earliest included attestation
    /// of `validator_index`, zero if it was included before its slot.
    pub fn inclusion_distance(&self, attestations: &[PendingAttestation], validator_index: usize, spec: &ChainSpec) -> (r: Result<u64, InclusionError>)
        requires
            self.wf(spec),
        ensures
            r is Ok ==> exists|i: int| 0 <= i < attestations@.len() && #[trigger] includes(self, attestations@[i], validator_index, *spec)
                && r->Ok_0 == crate::registry::sat_sub(attestations@[i].inclusion_slot, attestations@[i].data.slot)
                && forall|j: int| 0 <= j < attestations@.len() && #[trigger] includes(self, attestations@[j], validator_index, *spec) ==> attestations@[i].inclusion_slot <= attestations@[j].inclusion_slot,
            (forall|i: int| 0 <= i < attestations@.len() ==> (#[trigger] attestation_participants_spec(self, attestations@[i].data, attestations@[i].aggregation_bitfield@, *spec)) is Ok)
                && (exists|i: int| 0 <= i < attestations@.len() && #[trigger] includes(self, attestations@[i], validator_index, *spec)) ==> r is Ok,
    {
        match self.earliest_included_attestation(attestations, validator_index, spec) {
            Err(e) => Err(e),
            Ok(i) => {
                let a = &attestations[i];
                assert(includes(self, attestations@[i as int], validator_index, *spec));
                Ok(a.inclusion_slot.saturating_sub(a.data.slot))
            },
        }
    }
}

} // verus!
