use crate::bitfield::BooleanBitfield;
use crate::merkle::{chunk_at, is_merkle_tree_of};
use crate::state_root::state_leaves;
use crate::ssz::{append_hash, append_u64, decode_hash, decode_u64, enc_fork, enc_u64, holds, le_value, lemma_holds_concat, lemma_u64_round_trip, DecodeError};
use crate::inductor::DepositInput;
use crate::types::{AttestationData, BeaconState, Crosslink, Fork, Hash256, PendingAttestation, StatusFlags, Validator, ValidatorStatus};
use vstd::prelude::*;

verus! {

/// The integers `xs` encoded end to end.
pub open spec fn cat_u64(xs: Seq<u64>) -> Seq<u8>
    decreases xs.len(),
{
    if xs.len() == 0 { Seq::empty() } else { cat_u64(xs.drop_last()) + enc_u64(xs.last()) }
}

/// The hashes `xs` end to end.
pub open spec fn cat_hash(xs: Seq<Hash256>) -> Seq<u8>
    decreases xs.len(),
{
    if xs.len() == 0 { Seq::empty() } else { cat_hash(xs.drop_last()) + xs.last()@ }
}

/// The validators `xs` encoded end to end.
pub open spec fn cat_validator(xs: Seq<Validator>) -> Seq<u8>
    decreases xs.len(),
{
    if xs.len() == 0 { Seq::empty() } else { cat_validator(xs.drop_last()) + enc_validator(xs.last()) }
}

/// The crosslinks `xs` encoded end to end.
pub open spec fn cat_crosslink(xs: Seq<Crosslink>) -> Seq<u8>
    decreases xs.len(),
{
    if xs.len() == 0 { Seq::empty() } else { cat_crosslink(xs.drop_last()) + enc_crosslink(xs.last()) }
}

/// The pending attestations `xs` encoded end to end.
pub open spec fn cat_pending(xs: Seq<PendingAttestation>) -> Seq<u8>
    decreases xs.len(),
{
    if xs.len() == 0 { Seq::empty() } else { cat_pending(xs.drop_last()) + enc_pending(xs.last()) }
}

/// A list: the byte length of its body, then the body.
pub open spec fn with_len(body: Seq<u8>) -> Seq<u8> {
    enc_u64(body.len() as u64) + body
}

/// A byte string: its length, then its bytes.
pub open spec fn enc_bytes(b: Seq<u8>) -> Seq<u8> {
    enc_u64(b.len() as u64) + b
}

pub open spec fn enc_hash(h: Hash256) -> Seq<u8> {
    h@
}

pub open spec fn status_tag(s: ValidatorStatus) -> u8 {
    match s {
        ValidatorStatus::PendingActivation => 0,
        ValidatorStatus::Active => 1,
        ValidatorStatus::PendingExit => 2,
        ValidatorStatus::PendingWithdraw => 3,
        ValidatorStatus::Withdrawn => 4,
        ValidatorStatus::Penalized => 5,
    }
}

pub open spec fn flags_tag(f: Option<StatusFlags>) -> u8 {
    match f {
        None => 0,
        Some(StatusFlags::InitiatedExit) => 1,
        Some(StatusFlags::Withdrawable) => 2,
    }
}

pub open spec fn enc_validator(v: Validator) -> Seq<u8> {
    enc_bytes(v.pubkey@) + v.withdrawal_credentials@ + v.randao_commitment@ + enc_u64(v.randao_layers)
        + seq![status_tag(v.status)] + enc_u64(v.latest_status_change_slot) + enc_u64(v.exit_count)
        + enc_u64(v.activation_epoch) + enc_u64(v.exit_epoch) + enc_u64(v.withdrawal_epoch)
        + enc_u64(v.penalized_epoch) + seq![flags_tag(v.status_flags)]
}

pub open spec fn enc_crosslink(c: Crosslink) -> Seq<u8> {
    enc_u64(c.epoch) + c.shard_block_root@
}

pub open spec fn enc_attestation_data(d: AttestationData) -> Seq<u8> {
    enc_u64(d.slot) + enc_u64(d.shard) + d.beacon_block_root@ + d.epoch_boundary_root@ + d.shard_block_root@
        + enc_crosslink(d.latest_crosslink) + enc_u64(d.justified_epoch) + d.justified_block_root@
}

pub open spec fn enc_pending(a: PendingAttestation) -> Seq<u8> {
    enc_attestation_data(a.data) + enc_bytes(a.aggregation_bitfield@) + enc_bytes(a.custody_bitfield@) + enc_u64(a.inclusion_slot)
}

/// The encoding of a beacon state: its fields in declaration order.
pub open spec fn enc_state(s: &BeaconState) -> Seq<u8> {
    enc_u64(s.slot) + enc_u64(s.genesis_time) + enc_fork(s.fork)
        + with_len(cat_validator(s.validator_registry@))
        + with_len(cat_u64(s.validator_balances@))
        + enc_u64(s.validator_registry_update_epoch)
        + with_len(cat_hash(s.latest_randao_mixes@))
        + enc_u64(s.previous_epoch_start_shard) + enc_u64(s.current_epoch_start_shard)
        + enc_u64(s.previous_calculation_epoch) + enc_u64(s.current_calculation_epoch)
        + s.previous_epoch_seed@ + s.current_epoch_seed@
        + enc_u64(s.previous_justified_epoch) + enc_u64(s.justified_epoch)
        + enc_u64(s.justification_bitfield) + enc_u64(s.finalized_epoch)
        + with_len(cat_crosslink(s.latest_crosslinks@))
        + with_len(cat_hash(s.latest_block_roots@))
        + with_len(cat_u64(s.latest_penalized_balances@))
        + with_len(cat_pending(s.latest_attestations@))
        + with_len(cat_hash(s.batched_block_roots@))
}

/// Appends a byte string with its length.
pub fn append_bytes(out: &mut Vec<u8>, b: &Vec<u8>)
    ensures
        final(out)@ == old(out)@ + enc_bytes(b@),
{
    append_u64(out, b.len() as u64);
    let ghost mid = out@;
    let mut k: usize = 0;
    while k < b.len()
        invariant
            k <= b@.len(),
            out@ =~= mid + b@.subrange(0, k as int),
        decreases b@.len() - k,
    {
        out.push(b[k]);
        k = k + 1;
    }
    assert(b@.subrange(0, b@.len() as int) =~= b@);
    assert(out@ =~= old(out)@ + enc_bytes(b@));
}

/// Reads a byte string with its length at `i`.
pub fn decode_bytes(bytes: &[u8], i: usize) -> (r: Result<(Vec<u8>, usize), DecodeError>)
    ensures
        r is Ok ==> i <= r->Ok_0.1 <= bytes@.len() && enc_bytes(r->Ok_0.0@) == bytes@.subrange(i as int, r->Ok_0.1 as int),
        forall|v: Seq<u8>| #[trigger] holds(bytes@, i as int, enc_bytes(v)) ==> r is Ok && r->Ok_0.0@ == v && r->Ok_0.1 == i + enc_bytes(v).len(),
{
    let _blen = bytes.len();
    proof {
        assert forall|v: Seq<u8>| #[trigger] holds(bytes@, i as int, enc_bytes(v)) implies holds(bytes@, i as int, enc_u64(v.len() as u64))
            && holds(bytes@, i + 8, v) by {
            lemma_holds_concat(bytes@, i as int, enc_u64(v.len() as u64), v);
        }
    }
    let (len, j) = match decode_u64(bytes, i) {
        Ok(x) => x,
        Err(e) => {
            proof {
                assert forall|w: Seq<u8>| !#[trigger] holds(bytes@, i as int, enc_bytes(w)) by {
                    if holds(bytes@, i as int, enc_bytes(w)) {
                        assert(holds(bytes@, i as int, enc_u64(w.len() as u64)));
                    }
                }
            }
            return Err(e);
        },
    };
    if len > (bytes.len() - j) as u64 {
        proof {
            assert forall|w: Seq<u8>| !#[trigger] holds(bytes@, i as int, enc_bytes(w)) by {
                if holds(bytes@, i as int, enc_bytes(w)) {
                    assert(holds(bytes@, i as int, enc_u64(w.len() as u64)));
                    assert(len == w.len() as u64);
                }
            }
        }
        return Err(DecodeError::TooShort);
    }
    let n = len as usize;
    let blen = bytes.len();
    let mut v: Vec<u8> = Vec::new();
    let mut k: usize = 0;
    while k < n
        invariant
            k <= n,
            blen == bytes@.len(),
            j + n <= bytes@.len(),
            v@ =~= bytes@.subrange(j as int, j + k),
        decreases n - k,
    {
        v.push(bytes[j + k]);
        k = k + 1;
    }
    assert(enc_bytes(v@) =~= bytes@.subrange(i as int, (j + n) as int));
    proof {
        assert forall|w: Seq<u8>| #[trigger] holds(bytes@, i as int, enc_bytes(w)) implies v@ == w && j + n == i + enc_bytes(w).len() by {
            assert(holds(bytes@, i as int, enc_u64(w.len() as u64)));
            assert(len == w.len() as u64);
            assert(holds(bytes@, i + 8, w));
        }
    }
    Ok((v, j + n))
}

/// Appends a list of integers.
pub fn append_u64_list(out: &mut Vec<u8>, xs: &Vec<u64>)
    ensures
        final(out)@ == old(out)@ + with_len(cat_u64(xs@)),
{
    let mut body: Vec<u8> = Vec::new();
    let mut k: usize = 0;
    while k < xs.len()
        invariant
            k <= xs@.len(),
            body@ == cat_u64(xs@.subrange(0, k as int)),
        decreases xs@.len() - k,
    {
        assert(xs@.subrange(0, k + 1).drop_last() =~= xs@.subrange(0, k as int));
        append_u64(&mut body, xs[k]);
        k = k + 1;
    }
    assert(xs@.subrange(0, k as int) =~= xs@);
    append_u64(out, body.len() as u64);
    out.append(&mut body);
    assert(out@ =~= old(out)@ + with_len(cat_u64(xs@)));
}

proof fn lemma_list_header(b: Seq<u8>, i: usize, ys: Seq<u64>)
    requires
        b.len() <= usize::MAX,
        i + with_len(cat_u64(ys)).len() <= b.len(),
        b.subrange(i as int, i + with_len(cat_u64(ys)).len()) == with_len(cat_u64(ys)),
    ensures
        le_value(b.subrange(i as int, i + 8)) == cat_u64(ys).len(),
        b.subrange(i + 8, i + 8 + cat_u64(ys).len()) == cat_u64(ys),
        cat_u64(ys).len() == 8 * ys.len(),
{
    lemma_cat_u64(ys);
    let w = with_len(cat_u64(ys));
    assert(b.subrange(i as int, i + 8) =~= w.subrange(0, 8));
    assert(w.subrange(0, 8) =~= enc_u64(cat_u64(ys).len() as u64));
    lemma_u64_round_trip(cat_u64(ys).len() as u64);
    assert(b.subrange(i + 8, i + 8 + cat_u64(ys).len()) =~= w.subrange(8, w.len() as int));
    assert(w.subrange(8, w.len() as int) =~= cat_u64(ys));
}

proof fn lemma_no_full_list(b: Seq<u8>, i: usize, j: usize, p: usize, end: usize, xs: Seq<u64>)
    requires
        j == i + 8,
        j <= p < end <= b.len(),
        p - j == 8 * xs.len(),
        forall|ys: Seq<u64>| #![trigger with_len(cat_u64(ys))] i + with_len(cat_u64(ys)).len() <= b.len()
            && b.subrange(i as int, i + with_len(cat_u64(ys)).len()) == with_len(cat_u64(ys))
            ==> xs.len() <= ys.len() && xs == ys.subrange(0, xs.len() as int),
        forall|ys: Seq<u64>| #![trigger with_len(cat_u64(ys))] i + with_len(cat_u64(ys)).len() <= b.len()
            && b.subrange(i as int, i + with_len(cat_u64(ys)).len()) == with_len(cat_u64(ys))
            ==> end - j == cat_u64(ys).len(),
        p + 8 > end,
    ensures
        forall|ys: Seq<u64>| #![trigger with_len(cat_u64(ys))] !(i + with_len(cat_u64(ys)).len() <= b.len()
            && b.subrange(i as int, i + with_len(cat_u64(ys)).len()) == with_len(cat_u64(ys))),
{
    assert forall|ys: Seq<u64>| #![trigger with_len(cat_u64(ys))] !(i + with_len(cat_u64(ys)).len() <= b.len()
        && b.subrange(i as int, i + with_len(cat_u64(ys)).len()) == with_len(cat_u64(ys))) by {
        if i + with_len(cat_u64(ys)).len() <= b.len() && b.subrange(i as int, i + with_len(cat_u64(ys)).len()) == with_len(cat_u64(ys)) {
            lemma_cat_u64(ys);
        }
    }
}

proof fn lemma_cat_u64(xs: Seq<u64>)
    ensures
        cat_u64(xs).len() == 8 * xs.len(),
        forall|m: int| 0 <= m < xs.len() ==> #[trigger] cat_u64(xs).subrange(8 * m, 8 * m + 8) == enc_u64(xs[m]),
    decreases xs.len(),
{
    if xs.len() > 0 {
        let t = xs.drop_last();
        lemma_cat_u64(t);
        assert forall|m: int| 0 <= m < xs.len() implies #[trigger] cat_u64(xs).subrange(8 * m, 8 * m + 8) == enc_u64(xs[m]) by {
            if m < t.len() {
                assert(cat_u64(xs).subrange(8 * m, 8 * m + 8) =~= cat_u64(t).subrange(8 * m, 8 * m + 8));
                assert(t[m] == xs[m]);
            } else {
                assert(cat_u64(xs).subrange(8 * m, 8 * m + 8) =~= enc_u64(xs.last()));
            }
        }
    }
}

/// Reads a list of integers at `i`.
pub fn decode_u64_list(bytes: &[u8], i: usize) -> (r: Result<(Vec<u64>, usize), DecodeError>)
    ensures
        r is Ok ==> i <= r->Ok_0.1 <= bytes@.len() && with_len(cat_u64(r->Ok_0.0@)) == bytes@.subrange(i as int, r->Ok_0.1 as int),
        forall|xs: Seq<u64>| #![trigger with_len(cat_u64(xs))] i + with_len(cat_u64(xs)).len() <= bytes@.len()
            && bytes@.subrange(i as int, i + with_len(cat_u64(xs)).len()) == with_len(cat_u64(xs))
            ==> r is Ok && r->Ok_0.0@ == xs && r->Ok_0.1 == i + with_len(cat_u64(xs)).len(),
{
    let (len, j) = match decode_u64(bytes, i) {
        Ok(x) => x,
        Err(e) => {
            proof {
                assert forall|ys: Seq<u64>| #![trigger with_len(cat_u64(ys))] !(i + with_len(cat_u64(ys)).len() <= bytes@.len()) by {
                    assert(with_len(cat_u64(ys)).len() >= 8);
                }
            }
            return Err(e);
        },
    };
    let _blen = bytes.len();
    proof {
        assert forall|ys: Seq<u64>| #![trigger with_len(cat_u64(ys))] i + with_len(cat_u64(ys)).len() <= bytes@.len()
            && bytes@.subrange(i as int, i + with_len(cat_u64(ys)).len()) == with_len(cat_u64(ys))
            implies len == cat_u64(ys).len() by {
            lemma_list_header(bytes@, i, ys);
        }
    }
    if len > (bytes.len() - j) as u64 {
        return Err(DecodeError::TooShort);
    }
    let end = j + len as usize;
    let mut xs: Vec<u64> = Vec::new();
    let mut p = j;
    while p < end
        invariant
            j <= p <= end <= bytes@.len(),
            j == i + 8,
            len as int == end - j,
            cat_u64(xs@) == bytes@.subrange(j as int, p as int),
            p - j == 8 * xs@.len(),
            bytes@.len() <= usize::MAX,
            forall|ys: Seq<u64>| #![trigger with_len(cat_u64(ys))] i + with_len(cat_u64(ys)).len() <= bytes@.len()
                && bytes@.subrange(i as int, i + with_len(cat_u64(ys)).len()) == with_len(cat_u64(ys))
                ==> xs@.len() <= ys.len() && xs@ == ys.subrange(0, xs@.len() as int),
            forall|ys: Seq<u64>| #![trigger with_len(cat_u64(ys))] i + with_len(cat_u64(ys)).len() <= bytes@.len()
                && bytes@.subrange(i as int, i + with_len(cat_u64(ys)).len()) == with_len(cat_u64(ys))
                ==> end - j == cat_u64(ys).len(),
        decreases end - p,
    {
        let (x, q) = match decode_u64(bytes, p) {
            Ok(x) => x,
            Err(e) => {
                proof {
                    lemma_no_full_list(bytes@, i, j, p, end, xs@);
                }
                return Err(e);
            },
        };
        if q > end {
            proof {
                lemma_no_full_list(bytes@, i, j, p, end, xs@);
            }
            return Err(DecodeError::TooLong);
        }
        let ghost before = xs@;
        xs.push(x);
        assert(xs@.drop_last() =~= before);
        assert(bytes@.subrange(j as int, q as int) =~= bytes@.subrange(j as int, p as int) + bytes@.subrange(p as int, q as int));
        proof {
            assert forall|ys: Seq<u64>| #![trigger with_len(cat_u64(ys))] i + with_len(cat_u64(ys)).len() <= bytes@.len()
                && bytes@.subrange(i as int, i + with_len(cat_u64(ys)).len()) == with_len(cat_u64(ys))
                implies xs@.len() <= ys.len() && xs@ == ys.subrange(0, xs@.len() as int) by {
                lemma_list_header(bytes@, i, ys);
                lemma_cat_u64(ys);
                let m = before.len() as int;
                assert(m < ys.len()) by {
                    assert(8 * ys.len() == end - j);
                }
                assert(bytes@.subrange(p as int, p + 8) == cat_u64(ys).subrange(8 * m, 8 * m + 8)) by {
                    assert(bytes@.subrange(p as int, p + 8) =~= with_len(cat_u64(ys)).subrange(8 + 8 * m, 16 + 8 * m));
                    assert(with_len(cat_u64(ys)).subrange(8 + 8 * m, 16 + 8 * m) =~= cat_u64(ys).subrange(8 * m, 8 * m + 8));
                }
                lemma_u64_round_trip(ys[m]);
                assert(xs@ =~= ys.subrange(0, m + 1));
            }
        }
        p = q;
    }
    proof {
        assert forall|ys: Seq<u64>| #![trigger with_len(cat_u64(ys))] i + with_len(cat_u64(ys)).len() <= bytes@.len()
            && bytes@.subrange(i as int, i + with_len(cat_u64(ys)).len()) == with_len(cat_u64(ys))
            implies xs@ == ys && end == i + with_len(cat_u64(ys)).len() by {
            lemma_list_header(bytes@, i, ys);
            lemma_cat_u64(ys);
            lemma_cat_u64(xs@);
            assert(xs@ =~= ys);
        }
    }
    assert(with_len(cat_u64(xs@)) =~= bytes@.subrange(i as int, end as int));
    Ok((xs, end))
}

proof fn lemma_sub_join(b: Seq<u8>, a: int, m: int, c: int)
    requires
        0 <= a <= m <= c <= b.len(),
    ensures
        b.subrange(a, c) == b.subrange(a, m) + b.subrange(m, c),
{
    assert(b.subrange(a, c) =~= b.subrange(a, m) + b.subrange(m, c));
}

/// Reads one byte at `i`.
fn decode_byte(bytes: &[u8], i: usize) -> (r: Result<(u8, usize), DecodeError>)
    ensures
        r is Ok ==> r->Ok_0.1 == i + 1 && r->Ok_0.1 <= bytes@.len() && seq![r->Ok_0.0] == bytes@.subrange(i as int, i + 1),
        forall|t: u8| #[trigger] holds(bytes@, i as int, seq![t]) ==> r == Ok::<(u8, usize), DecodeError>((t, (i + 1) as usize)),
{
    if i >= bytes.len() {
        return Err(DecodeError::TooShort);
    }
    assert(seq![bytes@[i as int]] =~= bytes@.subrange(i as int, i + 1));
    assert forall|t: u8| #[trigger] holds(bytes@, i as int, seq![t]) implies bytes@[i as int] == t by {
        assert(bytes@.subrange(i as int, i + 1)[0] == t);
    }
    Ok((bytes[i], i + 1))
}

fn status_from_tag(t: u8) -> (r: Result<ValidatorStatus, DecodeError>)
    ensures
        r is Ok ==> status_tag(r->Ok_0) == t,
        forall|st: ValidatorStatus| #[trigger] status_tag(st) == t ==> r == Ok::<ValidatorStatus, DecodeError>(st),
{
    match t {
        0 => Ok(ValidatorStatus::PendingActivation),
        1 => Ok(ValidatorStatus::Active),
        2 => Ok(ValidatorStatus::PendingExit),
        3 => Ok(ValidatorStatus::PendingWithdraw),
        4 => Ok(ValidatorStatus::Withdrawn),
        5 => Ok(ValidatorStatus::Penalized),
        _ => Err(DecodeError::Invalid),
    }
}

fn status_to_tag(s: ValidatorStatus) -> (r: u8)
    ensures
        r == status_tag(s),
{
    match s {
        ValidatorStatus::PendingActivation => 0,
        ValidatorStatus::Active => 1,
        ValidatorStatus::PendingExit => 2,
        ValidatorStatus::PendingWithdraw => 3,
        ValidatorStatus::Withdrawn => 4,
        ValidatorStatus::Penalized => 5,
    }
}

fn flags_from_tag(t: u8) -> (r: Result<Option<StatusFlags>, DecodeError>)
    ensures
        r is Ok ==> flags_tag(r->Ok_0) == t,
        forall|f: Option<StatusFlags>| #[trigger] flags_tag(f) == t ==> r == Ok::<Option<StatusFlags>, DecodeError>(f),
{
    match t {
        0 => Ok(None),
        1 => Ok(Some(StatusFlags::InitiatedExit)),
        2 => Ok(Some(StatusFlags::Withdrawable)),
        _ => Err(DecodeError::Invalid),
    }
}

fn flags_to_tag(f: Option<StatusFlags>) -> (r: u8)
    ensures
        r == flags_tag(f),
{
    match f {
        None => 0,
        Some(StatusFlags::InitiatedExit) => 1,
        Some(StatusFlags::Withdrawable) => 2,
    }
}

/// Appends the encoding of a validator.
pub fn append_validator(out: &mut Vec<u8>, v: &Validator)
    ensures
        final(out)@ == old(out)@ + enc_validator(*v),
{
    append_bytes(out, &v.pubkey);
    append_hash(out, &v.withdrawal_credentials);
    append_hash(out, &v.randao_commitment);
    append_u64(out, v.randao_layers);
    out.push(status_to_tag(v.status));
    append_u64(out, v.latest_status_change_slot);
    append_u64(out, v.exit_count);
    append_u64(out, v.activation_epoch);
    append_u64(out, v.exit_epoch);
    append_u64(out, v.withdrawal_epoch);
    append_u64(out, v.penalized_epoch);
    out.push(flags_to_tag(v.status_flags));
    assert(out@ =~= old(out)@ + enc_validator(*v));
}

/// Reads a validator at `i`.
#[verifier::rlimit(60)]
pub fn decode_validator(bytes: &[u8], i: usize) -> (r: Result<(Validator, usize), DecodeError>)
    ensures
        r is Ok ==> i <= r->Ok_0.1 <= bytes@.len() && enc_validator(r->Ok_0.0) == bytes@.subrange(i as int, r->Ok_0.1 as int),
        forall|y: Validator| #[trigger] holds(bytes@, i as int, enc_validator(y)) ==> r is Ok && validator_same(r->Ok_0.0, y) && r->Ok_0.1 == i + enc_validator(y).len(),
{
    let _blen = bytes.len();
    let pos0 = i;
    let (v_pubkey, pos1) = match decode_bytes(bytes, pos0) {
        Ok(x) => x,
        Err(e) => {
            proof {
                assert forall|y: Validator| !#[trigger] holds(bytes@, i as int, enc_validator(y)) by {
                    if holds(bytes@, i as int, enc_validator(y)) {
                        lemma_parts_validator(bytes@, i as int, y);
                    }
                }
            }
            return Err(e);
        },
    };
    proof {
        assert forall|y: Validator| #[trigger] holds(bytes@, i as int, enc_validator(y)) implies pos1 == i + (enc_bytes(y.pubkey@)).len() && v_pubkey@ == y.pubkey@ by {
            lemma_parts_validator(bytes@, i as int, y);
        }
    }
    let (v_withdrawal_credentials, pos2) = match decode_hash(bytes, pos1) {
        Ok(x) => x,
        Err(e) => {
            proof {
                assert forall|y: Validator| !#[trigger] holds(bytes@, i as int, enc_validator(y)) by {
                    if holds(bytes@, i as int, enc_validator(y)) {
                        lemma_parts_validator(bytes@, i as int, y);
                    }
                }
            }
            return Err(e);
        },
    };
    proof {
        assert forall|y: Validator| #[trigger] holds(bytes@, i as int, enc_validator(y)) implies pos2 == i + (enc_bytes(y.pubkey@) + y.withdrawal_credentials@).len() && v_withdrawal_credentials == y.withdrawal_credentials by {
            lemma_parts_validator(bytes@, i as int, y);
        }
    }
    let (v_randao_commitment, pos3) = match decode_hash(bytes, pos2) {
        Ok(x) => x,
        Err(e) => {
            proof {
                assert forall|y: Validator| !#[trigger] holds(bytes@, i as int, enc_validator(y)) by {
                    if holds(bytes@, i as int, enc_validator(y)) {
                        lemma_parts_validator(bytes@, i as int, y);
                    }
                }
            }
            return Err(e);
        },
    };
    proof {
        assert forall|y: Validator| #[trigger] holds(bytes@, i as int, enc_validator(y)) implies pos3 == i + (enc_bytes(y.pubkey@) + y.withdrawal_credentials@ + y.randao_commitment@).len() && v_randao_commitment == y.randao_commitment by {
            lemma_parts_validator(bytes@, i as int, y);
        }
    }
    let (v_randao_layers, pos4) = match decode_u64(bytes, pos3) {
        Ok(x) => x,
        Err(e) => {
            proof {
                assert forall|y: Validator| !#[trigger] holds(bytes@, i as int, enc_validator(y)) by {
                    if holds(bytes@, i as int, enc_validator(y)) {
                        lemma_parts_validator(bytes@, i as int, y);
                    }
                }
            }
            return Err(e);
        },
    };
    proof {
        assert forall|y: Validator| #[trigger] holds(bytes@, i as int, enc_validator(y)) implies pos4 == i + (enc_bytes(y.pubkey@) + y.withdrawal_credentials@ + y.randao_commitment@ + enc_u64(y.randao_layers)).len() && v_randao_layers == y.randao_layers by {
            lemma_parts_validator(bytes@, i as int, y);
        }
    }
    let (raw_status, pos5) = match decode_byte(bytes, pos4) {
        Ok(x) => x,
        Err(e) => {
            proof {
                assert forall|y: Validator| !#[trigger] holds(bytes@, i as int, enc_validator(y)) by {
                    if holds(bytes@, i as int, enc_validator(y)) {
                        lemma_parts_validator(bytes@, i as int, y);
                    }
                }
            }
            return Err(e);
        },
    };
    let v_status = match status_from_tag(raw_status) {
        Ok(x) => x,
        Err(e) => {
            proof {
                assert forall|y: Validator| !#[trigger] holds(bytes@, i as int, enc_validator(y)) by {
                    if holds(bytes@, i as int, enc_validator(y)) {
                        lemma_parts_validator(bytes@, i as int, y);
                    }
                }
            }
            return Err(e);
        },
    };
    proof {
        assert forall|y: Validator| #[trigger] holds(bytes@, i as int, enc_validator(y)) implies pos5 == i + (enc_bytes(y.pubkey@) + y.withdrawal_credentials@ + y.randao_commitment@ + enc_u64(y.randao_layers) + seq![status_tag(y.status)]).len() && v_status == y.status by {
            lemma_parts_validator(bytes@, i as int, y);
        }
    }
    let (v_latest_status_change_slot, pos6) = match decode_u64(bytes, pos5) {
        Ok(x) => x,
        Err(e) => {
            proof {
                assert forall|y: Validator| !#[trigger] holds(bytes@, i as int, enc_validator(y)) by {
                    if holds(bytes@, i as int, enc_validator(y)) {
                        lemma_parts_validator(bytes@, i as int, y);
                    }
                }
            }
            return Err(e);
        },
    };
    proof {
        assert forall|y: Validator| #[trigger] holds(bytes@, i as int, enc_validator(y)) implies pos6 == i + (enc_bytes(y.pubkey@) + y.withdrawal_credentials@ + y.randao_commitment@ + enc_u64(y.randao_layers) + seq![status_tag(y.status)] + enc_u64(y.latest_status_change_slot)).len() && v_latest_status_change_slot == y.latest_status_change_slot by {
            lemma_parts_validator(bytes@, i as int, y);
        }
    }
    let (v_exit_count, pos7) = match decode_u64(bytes, pos6) {
        Ok(x) => x,
        Err(e) => {
            proof {
                assert forall|y: Validator| !#[trigger] holds(bytes@, i as int, enc_validator(y)) by {
                    if holds(bytes@, i as int, enc_validator(y)) {
                        lemma_parts_validator(bytes@, i as int, y);
                    }
                }
            }
            return Err(e);
        },
    };
    proof {
        assert forall|y: Validator| #[trigger] holds(bytes@, i as int, enc_validator(y)) implies pos7 == i + (enc_bytes(y.pubkey@) + y.withdrawal_credentials@ + y.randao_commitment@ + enc_u64(y.randao_layers) + seq![status_tag(y.status)] + enc_u64(y.latest_status_change_slot) + enc_u64(y.exit_count)).len() && v_exit_count == y.exit_count by {
            lemma_parts_validator(bytes@, i as int, y);
        }
    }
    let (v_activation_epoch, pos8) = match decode_u64(bytes, pos7) {
        Ok(x) => x,
        Err(e) => {
            proof {
                assert forall|y: Validator| !#[trigger] holds(bytes@, i as int, enc_validator(y)) by {
                    if holds(bytes@, i as int, enc_validator(y)) {
                        lemma_parts_validator(bytes@, i as int, y);
                    }
                }
            }
            return Err(e);
        },
    };
    proof {
        assert forall|y: Validator| #[trigger] holds(bytes@, i as int, enc_validator(y)) implies pos8 == i + (enc_bytes(y.pubkey@) + y.withdrawal_credentials@ + y.randao_commitment@ + enc_u64(y.randao_layers) + seq![status_tag(y.status)] + enc_u64(y.latest_status_change_slot) + enc_u64(y.exit_count) + enc_u64(y.activation_epoch)).len() && v_activation_epoch == y.activation_epoch by {
            lemma_parts_validator(bytes@, i as int, y);
        }
    }
    let (v_exit_epoch, pos9) = match decode_u64(bytes, pos8) {
        Ok(x) => x,
        Err(e) => {
            proof {
                assert forall|y: Validator| !#[trigger] holds(bytes@, i as int, enc_validator(y)) by {
                    if holds(bytes@, i as int, enc_validator(y)) {
                        lemma_parts_validator(bytes@, i as int, y);
                    }
                }
            }
            return Err(e);
        },
    };
    proof {
        assert forall|y: Validator| #[trigger] holds(bytes@, i as int, enc_validator(y)) implies pos9 == i + (enc_bytes(y.pubkey@) + y.withdrawal_credentials@ + y.randao_commitment@ + enc_u64(y.randao_layers) + seq![status_tag(y.status)] + enc_u64(y.latest_status_change_slot) + enc_u64(y.exit_count) + enc_u64(y.activation_epoch) + enc_u64(y.exit_epoch)).len() && v_exit_epoch == y.exit_epoch by {
            lemma_parts_validator(bytes@, i as int, y);
        }
    }
    let (v_withdrawal_epoch, pos10) = match decode_u64(bytes, pos9) {
        Ok(x) => x,
        Err(e) => {
            proof {
                assert forall|y: Validator| !#[trigger] holds(bytes@, i as int, enc_validator(y)) by {
                    if holds(bytes@, i as int, enc_validator(y)) {
                        lemma_parts_validator(bytes@, i as int, y);
                    }
                }
            }
            return Err(e);
        },
    };
    proof {
        assert forall|y: Validator| #[trigger] holds(bytes@, i as int, enc_validator(y)) implies pos10 == i + (enc_bytes(y.pubkey@) + y.withdrawal_credentials@ + y.randao_commitment@ + enc_u64(y.randao_layers) + seq![status_tag(y.status)] + enc_u64(y.latest_status_change_slot) + enc_u64(y.exit_count) + enc_u64(y.activation_epoch) + enc_u64(y.exit_epoch) + enc_u64(y.withdrawal_epoch)).len() && v_withdrawal_epoch == y.withdrawal_epoch by {
            lemma_parts_validator(bytes@, i as int, y);
        }
    }
    let (v_penalized_epoch, pos11) = match decode_u64(bytes, pos10) {
        Ok(x) => x,
        Err(e) => {
            proof {
                assert forall|y: Validator| !#[trigger] holds(bytes@, i as int, enc_validator(y)) by {
                    if holds(bytes@, i as int, enc_validator(y)) {
                        lemma_parts_validator(bytes@, i as int, y);
                    }
                }
            }
            return Err(e);
        },
    };
    proof {
        assert forall|y: Validator| #[trigger] holds(bytes@, i as int, enc_validator(y)) implies pos11 == i + (enc_bytes(y.pubkey@) + y.withdrawal_credentials@ + y.randao_commitment@ + enc_u64(y.randao_layers) + seq![status_tag(y.status)] + enc_u64(y.latest_status_change_slot) + enc_u64(y.exit_count) + enc_u64(y.activation_epoch) + enc_u64(y.exit_epoch) + enc_u64(y.withdrawal_epoch) + enc_u64(y.penalized_epoch)).len() && v_penalized_epoch == y.penalized_epoch by {
            lemma_parts_validator(bytes@, i as int, y);
        }
    }
    let (raw_status_flags, pos12) = match decode_byte(bytes, pos11) {
        Ok(x) => x,
        Err(e) => {
            proof {
                assert forall|y: Validator| !#[trigger] holds(bytes@, i as int, enc_validator(y)) by {
                    if holds(bytes@, i as int, enc_validator(y)) {
                        lemma_parts_validator(bytes@, i as int, y);
                    }
                }
            }
            return Err(e);
        },
    };
    let v_status_flags = match flags_from_tag(raw_status_flags) {
        Ok(x) => x,
        Err(e) => {
            proof {
                assert forall|y: Validator| !#[trigger] holds(bytes@, i as int, enc_validator(y)) by {
                    if holds(bytes@, i as int, enc_validator(y)) {
                        lemma_parts_validator(bytes@, i as int, y);
                    }
                }
            }
            return Err(e);
        },
    };
    proof {
        assert forall|y: Validator| #[trigger] holds(bytes@, i as int, enc_validator(y)) implies pos12 == i + (enc_bytes(y.pubkey@) + y.withdrawal_credentials@ + y.randao_commitment@ + enc_u64(y.randao_layers) + seq![status_tag(y.status)] + enc_u64(y.latest_status_change_slot) + enc_u64(y.exit_count) + enc_u64(y.activation_epoch) + enc_u64(y.exit_epoch) + enc_u64(y.withdrawal_epoch) + enc_u64(y.penalized_epoch) + seq![flags_tag(y.status_flags)]).len() && v_status_flags == y.status_flags by {
            lemma_parts_validator(bytes@, i as int, y);
        }
    }
    let result = Validator {
        pubkey: v_pubkey,
        withdrawal_credentials: v_withdrawal_credentials,
        randao_commitment: v_randao_commitment,
        randao_layers: v_randao_layers,
        status: v_status,
        latest_status_change_slot: v_latest_status_change_slot,
        exit_count: v_exit_count,
        activation_epoch: v_activation_epoch,
        exit_epoch: v_exit_epoch,
        withdrawal_epoch: v_withdrawal_epoch,
        penalized_epoch: v_penalized_epoch,
        status_flags: v_status_flags,
    };
    proof {
        let s = bytes@;
        lemma_sub_join(s, i as int, pos1 as int, pos2 as int);
        lemma_sub_join(s, i as int, pos2 as int, pos3 as int);
        lemma_sub_join(s, i as int, pos3 as int, pos4 as int);
        lemma_sub_join(s, i as int, pos4 as int, pos5 as int);
        lemma_sub_join(s, i as int, pos5 as int, pos6 as int);
        lemma_sub_join(s, i as int, pos6 as int, pos7 as int);
        lemma_sub_join(s, i as int, pos7 as int, pos8 as int);
        lemma_sub_join(s, i as int, pos8 as int, pos9 as int);
        lemma_sub_join(s, i as int, pos9 as int, pos10 as int);
        lemma_sub_join(s, i as int, pos10 as int, pos11 as int);
        lemma_sub_join(s, i as int, pos11 as int, pos12 as int);
        assert forall|y: Validator| #[trigger] holds(bytes@, i as int, enc_validator(y)) implies validator_same(result, y) && pos12 == i + enc_validator(y).len() by {
            lemma_parts_validator(bytes@, i as int, y);
        }
    }
    Ok((result, pos12))
}

/// Appends the encoding of a crosslink.
pub fn append_crosslink(out: &mut Vec<u8>, c: &Crosslink)
    ensures
        final(out)@ == old(out)@ + enc_crosslink(*c),
{
    append_u64(out, c.epoch);
    append_hash(out, &c.shard_block_root);
    assert(out@ =~= old(out)@ + enc_crosslink(*c));
}

/// Reads a crosslink at `i`.
pub fn decode_crosslink(bytes: &[u8], i: usize) -> (r: Result<(Crosslink, usize), DecodeError>)
    ensures
        r is Ok ==> i <= r->Ok_0.1 <= bytes@.len() && enc_crosslink(r->Ok_0.0) == bytes@.subrange(i as int, r->Ok_0.1 as int),
        forall|y: Crosslink| #[trigger] holds(bytes@, i as int, enc_crosslink(y)) ==> r is Ok && r->Ok_0.0 == y && r->Ok_0.1 == i + enc_crosslink(y).len(),
{
    let _blen = bytes.len();
    let pos0 = i;
    let (v_epoch, pos1) = match decode_u64(bytes, pos0) {
        Ok(x) => x,
        Err(e) => {
            proof {
                assert forall|y: Crosslink| !#[trigger] holds(bytes@, i as int, enc_crosslink(y)) by {
                    if holds(bytes@, i as int, enc_crosslink(y)) {
                        lemma_parts_crosslink(bytes@, i as int, y);
                    }
                }
            }
            return Err(e);
        },
    };
    proof {
        assert forall|y: Crosslink| #[trigger] holds(bytes@, i as int, enc_crosslink(y)) implies pos1 == i + (enc_u64(y.epoch)).len() && v_epoch == y.epoch by {
            lemma_parts_crosslink(bytes@, i as int, y);
        }
    }
    let (v_shard_block_root, pos2) = match decode_hash(bytes, pos1) {
        Ok(x) => x,
        Err(e) => {
            proof {
                assert forall|y: Crosslink| !#[trigger] holds(bytes@, i as int, enc_crosslink(y)) by {
                    if holds(bytes@, i as int, enc_crosslink(y)) {
                        lemma_parts_crosslink(bytes@, i as int, y);
                    }
                }
            }
            return Err(e);
        },
    };
    proof {
        assert forall|y: Crosslink| #[trigger] holds(bytes@, i as int, enc_crosslink(y)) implies pos2 == i + (enc_u64(y.epoch) + y.shard_block_root@).len() && v_shard_block_root == y.shard_block_root by {
            lemma_parts_crosslink(bytes@, i as int, y);
        }
    }
    let result = Crosslink {
        epoch: v_epoch,
        shard_block_root: v_shard_block_root,
    };
    proof {
        let s = bytes@;
        lemma_sub_join(s, i as int, pos1 as int, pos2 as int);
        assert forall|y: Crosslink| #[trigger] holds(bytes@, i as int, enc_crosslink(y)) implies result == y && pos2 == i + enc_crosslink(y).len() by {
            lemma_parts_crosslink(bytes@, i as int, y);
        }
    }
    Ok((result, pos2))
}

/// Appends the encoding of attestation data.
pub fn append_attestation_data(out: &mut Vec<u8>, d: &AttestationData)
    ensures
        final(out)@ == old(out)@ + enc_attestation_data(*d),
{
    append_u64(out, d.slot);
    append_u64(out, d.shard);
    append_hash(out, &d.beacon_block_root);
    append_hash(out, &d.epoch_boundary_root);
    append_hash(out, &d.shard_block_root);
    append_crosslink(out, &d.latest_crosslink);
    append_u64(out, d.justified_epoch);
    append_hash(out, &d.justified_block_root);
    assert(out@ =~= old(out)@ + enc_attestation_data(*d));
}

/// Reads attestation data at `i`.
#[verifier::rlimit(40)]
pub fn decode_attestation_data(bytes: &[u8], i: usize) -> (r: Result<(AttestationData, usize), DecodeError>)
    ensures
        r is Ok ==> i <= r->Ok_0.1 <= bytes@.len() && enc_attestation_data(r->Ok_0.0) == bytes@.subrange(i as int, r->Ok_0.1 as int),
        forall|y: AttestationData| #[trigger] holds(bytes@, i as int, enc_attestation_data(y)) ==> r is Ok && r->Ok_0.0 == y && r->Ok_0.1 == i + enc_attestation_data(y).len(),
{
    let _blen = bytes.len();
    let pos0 = i;
    let (v_slot, pos1) = match decode_u64(bytes, pos0) {
        Ok(x) => x,
        Err(e) => {
            proof {
                assert forall|y: AttestationData| !#[trigger] holds(bytes@, i as int, enc_attestation_data(y)) by {
                    if holds(bytes@, i as int, enc_attestation_data(y)) {
                        lemma_parts_attestation_data(bytes@, i as int, y);
                    }
                }
            }
            return Err(e);
        },
    };
    proof {
        assert forall|y: AttestationData| #[trigger] holds(bytes@, i as int, enc_attestation_data(y)) implies pos1 == i + (enc_u64(y.slot)).len() && v_slot == y.slot by {
            lemma_parts_attestation_data(bytes@, i as int, y);
        }
    }
    let (v_shard, pos2) = match decode_u64(bytes, pos1) {
        Ok(x) => x,
        Err(e) => {
            proof {
                assert forall|y: AttestationData| !#[trigger] holds(bytes@, i as int, enc_attestation_data(y)) by {
                    if holds(bytes@, i as int, enc_attestation_data(y)) {
                        lemma_parts_attestation_data(bytes@, i as int, y);
                    }
                }
            }
            return Err(e);
        },
    };
    proof {
        assert forall|y: AttestationData| #[trigger] holds(bytes@, i as int, enc_attestation_data(y)) implies pos2 == i + (enc_u64(y.slot) + enc_u64(y.shard)).len() && v_shard == y.shard by {
            lemma_parts_attestation_data(bytes@, i as int, y);
        }
    }
    let (v_beacon_block_root, pos3) = match decode_hash(bytes, pos2) {
        Ok(x) => x,
        Err(e) => {
            proof {
                assert forall|y: AttestationData| !#[trigger] holds(bytes@, i as int, enc_attestation_data(y)) by {
                    if holds(bytes@, i as int, enc_attestation_data(y)) {
                        lemma_parts_attestation_data(bytes@, i as int, y);
                    }
                }
            }
            return Err(e);
        },
    };
    proof {
        assert forall|y: AttestationData| #[trigger] holds(bytes@, i as int, enc_attestation_data(y)) implies pos3 == i + (enc_u64(y.slot) + enc_u64(y.shard) + y.beacon_block_root@).len() && v_beacon_block_root == y.beacon_block_root by {
            lemma_parts_attestation_data(bytes@, i as int, y);
        }
    }
    let (v_epoch_boundary_root, pos4) = match decode_hash(bytes, pos3) {
        Ok(x) => x,
        Err(e) => {
            proof {
                assert forall|y: AttestationData| !#[trigger] holds(bytes@, i as int, enc_attestation_data(y)) by {
                    if holds(bytes@, i as int, enc_attestation_data(y)) {
                        lemma_parts_attestation_data(bytes@, i as int, y);
                    }
                }
            }
            return Err(e);
        },
    };
    proof {
        assert forall|y: AttestationData| #[trigger] holds(bytes@, i as int, enc_attestation_data(y)) implies pos4 == i + (enc_u64(y.slot) + enc_u64(y.shard) + y.beacon_block_root@ + y.epoch_boundary_root@).len() && v_epoch_boundary_root == y.epoch_boundary_root by {
            lemma_parts_attestation_data(bytes@, i as int, y);
        }
    }
    let (v_shard_block_root, pos5) = match decode_hash(bytes, pos4) {
        Ok(x) => x,
        Err(e) => {
            proof {
                assert forall|y: AttestationData| !#[trigger] holds(bytes@, i as int, enc_attestation_data(y)) by {
                    if holds(bytes@, i as int, enc_attestation_data(y)) {
                        lemma_parts_attestation_data(bytes@, i as int, y);
                    }
                }
            }
            return Err(e);
        },
    };
    proof {
        assert forall|y: AttestationData| #[trigger] holds(bytes@, i as int, enc_attestation_data(y)) implies pos5 == i + (enc_u64(y.slot) + enc_u64(y.shard) + y.beacon_block_root@ + y.epoch_boundary_root@ + y.shard_block_root@).len() && v_shard_block_root == y.shard_block_root by {
            lemma_parts_attestation_data(bytes@, i as int, y);
        }
    }
    let (v_latest_crosslink, pos6) = match decode_crosslink(bytes, pos5) {
        Ok(x) => x,
        Err(e) => {
            proof {
                assert forall|y: AttestationData| !#[trigger] holds(bytes@, i as int, enc_attestation_data(y)) by {
                    if holds(bytes@, i as int, enc_attestation_data(y)) {
                        lemma_parts_attestation_data(bytes@, i as int, y);
                    }
                }
            }
            return Err(e);
        },
    };
    proof {
        assert forall|y: AttestationData| #[trigger] holds(bytes@, i as int, enc_attestation_data(y)) implies pos6 == i + (enc_u64(y.slot) + enc_u64(y.shard) + y.beacon_block_root@ + y.epoch_boundary_root@ + y.shard_block_root@ + enc_crosslink(y.latest_crosslink)).len() && v_latest_crosslink == y.latest_crosslink by {
            lemma_parts_attestation_data(bytes@, i as int, y);
        }
    }
    let (v_justified_epoch, pos7) = match decode_u64(bytes, pos6) {
        Ok(x) => x,
        Err(e) => {
            proof {
                assert forall|y: AttestationData| !#[trigger] holds(bytes@, i as int, enc_attestation_data(y)) by {
                    if holds(bytes@, i as int, enc_attestation_data(y)) {
                        lemma_parts_attestation_data(bytes@, i as int, y);
                    }
                }
            }
            return Err(e);
        },
    };
    proof {
        assert forall|y: AttestationData| #[trigger] holds(bytes@, i as int, enc_attestation_data(y)) implies pos7 == i + (enc_u64(y.slot) + enc_u64(y.shard) + y.beacon_block_root@ + y.epoch_boundary_root@ + y.shard_block_root@ + enc_crosslink(y.latest_crosslink) + enc_u64(y.justified_epoch)).len() && v_justified_epoch == y.justified_epoch by {
            lemma_parts_attestation_data(bytes@, i as int, y);
        }
    }
    let (v_justified_block_root, pos8) = match decode_hash(bytes, pos7) {
        Ok(x) => x,
        Err(e) => {
            proof {
                assert forall|y: AttestationData| !#[trigger] holds(bytes@, i as int, enc_attestation_data(y)) by {
                    if holds(bytes@, i as int, enc_attestation_data(y)) {
                        lemma_parts_attestation_data(bytes@, i as int, y);
                    }
                }
            }
            return Err(e);
        },
    };
    proof {
        assert forall|y: AttestationData| #[trigger] holds(bytes@, i as int, enc_attestation_data(y)) implies pos8 == i + (enc_u64(y.slot) + enc_u64(y.shard) + y.beacon_block_root@ + y.epoch_boundary_root@ + y.shard_block_root@ + enc_crosslink(y.latest_crosslink) + enc_u64(y.justified_epoch) + y.justified_block_root@).len() && v_justified_block_root == y.justified_block_root by {
            lemma_parts_attestation_data(bytes@, i as int, y);
        }
    }
    let result = AttestationData {
        slot: v_slot,
        shard: v_shard,
        beacon_block_root: v_beacon_block_root,
        epoch_boundary_root: v_epoch_boundary_root,
        shard_block_root: v_shard_block_root,
        latest_crosslink: v_latest_crosslink,
        justified_epoch: v_justified_epoch,
        justified_block_root: v_justified_block_root,
    };
    proof {
        let s = bytes@;
        lemma_sub_join(s, i as int, pos1 as int, pos2 as int);
        lemma_sub_join(s, i as int, pos2 as int, pos3 as int);
        lemma_sub_join(s, i as int, pos3 as int, pos4 as int);
        lemma_sub_join(s, i as int, pos4 as int, pos5 as int);
        lemma_sub_join(s, i as int, pos5 as int, pos6 as int);
        lemma_sub_join(s, i as int, pos6 as int, pos7 as int);
        lemma_sub_join(s, i as int, pos7 as int, pos8 as int);
        assert forall|y: AttestationData| #[trigger] holds(bytes@, i as int, enc_attestation_data(y)) implies result == y && pos8 == i + enc_attestation_data(y).len() by {
            lemma_parts_attestation_data(bytes@, i as int, y);
        }
    }
    Ok((result, pos8))
}

/// Appends the encoding of a pending attestation.
pub fn append_pending(out: &mut Vec<u8>, a: &PendingAttestation)
    ensures
        final(out)@ == old(out)@ + enc_pending(*a),
{
    append_attestation_data(out, &a.data);
    append_bytes(out, &a.aggregation_bitfield.to_bytes());
    append_bytes(out, &a.custody_bitfield.to_bytes());
    append_u64(out, a.inclusion_slot);
    assert(out@ =~= old(out)@ + enc_pending(*a));
}

/// Reads a pending attestation at `i`.
pub fn decode_pending(bytes: &[u8], i: usize) -> (r: Result<(PendingAttestation, usize), DecodeError>)
    ensures
        r is Ok ==> i <= r->Ok_0.1 <= bytes@.len() && enc_pending(r->Ok_0.0) == bytes@.subrange(i as int, r->Ok_0.1 as int),
        forall|y: PendingAttestation| #[trigger] holds(bytes@, i as int, enc_pending(y)) ==> r is Ok && pending_same(r->Ok_0.0, y) && r->Ok_0.1 == i + enc_pending(y).len(),
{
    let _blen = bytes.len();
    let pos0 = i;
    let (v_data, pos1) = match decode_attestation_data(bytes, pos0) {
        Ok(x) => x,
        Err(e) => {
            proof {
                assert forall|y: PendingAttestation| !#[trigger] holds(bytes@, i as int, enc_pending(y)) by {
                    if holds(bytes@, i as int, enc_pending(y)) {
                        lemma_parts_pending(bytes@, i as int, y);
                    }
                }
            }
            return Err(e);
        },
    };
    proof {
        assert forall|y: PendingAttestation| #[trigger] holds(bytes@, i as int, enc_pending(y)) implies pos1 == i + (enc_attestation_data(y.data)).len() && v_data == y.data by {
            lemma_parts_pending(bytes@, i as int, y);
        }
    }
    let (v_aggregation_bitfield, pos2) = match decode_bytes(bytes, pos1) {
        Ok(x) => x,
        Err(e) => {
            proof {
                assert forall|y: PendingAttestation| !#[trigger] holds(bytes@, i as int, enc_pending(y)) by {
                    if holds(bytes@, i as int, enc_pending(y)) {
                        lemma_parts_pending(bytes@, i as int, y);
                    }
                }
            }
            return Err(e);
        },
    };
    proof {
        assert forall|y: PendingAttestation| #[trigger] holds(bytes@, i as int, enc_pending(y)) implies pos2 == i + (enc_attestation_data(y.data) + enc_bytes(y.aggregation_bitfield@)).len() && v_aggregation_bitfield@ == y.aggregation_bitfield@ by {
            lemma_parts_pending(bytes@, i as int, y);
        }
    }
    let (v_custody_bitfield, pos3) = match decode_bytes(bytes, pos2) {
        Ok(x) => x,
        Err(e) => {
            proof {
                assert forall|y: PendingAttestation| !#[trigger] holds(bytes@, i as int, enc_pending(y)) by {
                    if holds(bytes@, i as int, enc_pending(y)) {
                        lemma_parts_pending(bytes@, i as int, y);
                    }
                }
            }
            return Err(e);
        },
    };
    proof {
        assert forall|y: PendingAttestation| #[trigger] holds(bytes@, i as int, enc_pending(y)) implies pos3 == i + (enc_attestation_data(y.data) + enc_bytes(y.aggregation_bitfield@) + enc_bytes(y.custody_bitfield@)).len() && v_custody_bitfield@ == y.custody_bitfield@ by {
            lemma_parts_pending(bytes@, i as int, y);
        }
    }
    let (v_inclusion_slot, pos4) = match decode_u64(bytes, pos3) {
        Ok(x) => x,
        Err(e) => {
            proof {
                assert forall|y: PendingAttestation| !#[trigger] holds(bytes@, i as int, enc_pending(y)) by {
                    if holds(bytes@, i as int, enc_pending(y)) {
                        lemma_parts_pending(bytes@, i as int, y);
                    }
                }
            }
            return Err(e);
        },
    };
    proof {
        assert forall|y: PendingAttestation| #[trigger] holds(bytes@, i as int, enc_pending(y)) implies pos4 == i + (enc_attestation_data(y.data) + enc_bytes(y.aggregation_bitfield@) + enc_bytes(y.custody_bitfield@) + enc_u64(y.inclusion_slot)).len() && v_inclusion_slot == y.inclusion_slot by {
            lemma_parts_pending(bytes@, i as int, y);
        }
    }
    let result = PendingAttestation {
        data: v_data,
        aggregation_bitfield: BooleanBitfield::from_bytes(v_aggregation_bitfield),
        custody_bitfield: BooleanBitfield::from_bytes(v_custody_bitfield),
        inclusion_slot: v_inclusion_slot,
    };
    proof {
        let s = bytes@;
        lemma_sub_join(s, i as int, pos1 as int, pos2 as int);
        lemma_sub_join(s, i as int, pos2 as int, pos3 as int);
        lemma_sub_join(s, i as int, pos3 as int, pos4 as int);
        assert forall|y: PendingAttestation| #[trigger] holds(bytes@, i as int, enc_pending(y)) implies pending_same(result, y) && pos4 == i + enc_pending(y).len() by {
            lemma_parts_pending(bytes@, i as int, y);
        }
    }
    Ok((result, pos4))
}

/// Appends a list of hashes.
pub fn append_hash_list(out: &mut Vec<u8>, xs: &Vec<Hash256>)
    ensures
        final(out)@ == old(out)@ + with_len(cat_hash(xs@)),
{
    let mut body: Vec<u8> = Vec::new();
    let mut k: usize = 0;
    while k < xs.len()
        invariant
            k <= xs@.len(),
            body@ == cat_hash(xs@.subrange(0, k as int)),
        decreases xs@.len() - k,
    {
        assert(xs@.subrange(0, k + 1).drop_last() =~= xs@.subrange(0, k as int));
        append_hash(&mut body, &xs[k]);
        k = k + 1;
    }
    assert(xs@.subrange(0, k as int) =~= xs@);
    append_u64(out, body.len() as u64);
    out.append(&mut body);
    assert(out@ =~= old(out)@ + with_len(cat_hash(xs@)));
}

proof fn lemma_cat_hash(xs: Seq<Hash256>)
    ensures
        cat_hash(xs).len() == 32 * xs.len(),
        forall|m: int| 0 <= m < xs.len() ==> #[trigger] cat_hash(xs).subrange(32 * m, 32 * m + 32) == xs[m]@,
    decreases xs.len(),
{
    if xs.len() > 0 {
        let t = xs.drop_last();
        lemma_cat_hash(t);
        assert forall|m: int| 0 <= m < xs.len() implies #[trigger] cat_hash(xs).subrange(32 * m, 32 * m + 32) == xs[m]@ by {
            if m < t.len() {
                assert(cat_hash(xs).subrange(32 * m, 32 * m + 32) =~= cat_hash(t).subrange(32 * m, 32 * m + 32));
                assert(t[m] == xs[m]);
            } else {
                assert(cat_hash(xs).subrange(32 * m, 32 * m + 32) =~= xs.last()@);
            }
        }
    }
}

proof fn lemma_hash_list_header(b: Seq<u8>, i: usize, ys: Seq<Hash256>)
    requires
        b.len() <= usize::MAX,
        i + with_len(cat_hash(ys)).len() <= b.len(),
        b.subrange(i as int, i + with_len(cat_hash(ys)).len()) == with_len(cat_hash(ys)),
    ensures
        le_value(b.subrange(i as int, i + 8)) == cat_hash(ys).len(),
        cat_hash(ys).len() == 32 * ys.len(),
{
    lemma_cat_hash(ys);
    let w = with_len(cat_hash(ys));
    assert(b.subrange(i as int, i + 8) =~= w.subrange(0, 8));
    assert(w.subrange(0, 8) =~= enc_u64(cat_hash(ys).len() as u64));
    lemma_u64_round_trip(cat_hash(ys).len() as u64);
}

/// The list of hashes whose encoding `b` holds at `i`, when one does.
pub open spec fn holds_hash_list(b: Seq<u8>, i: int, ys: Seq<Hash256>) -> bool {
    i + with_len(cat_hash(ys)).len() <= b.len() && b.subrange(i, i + with_len(cat_hash(ys)).len()) == with_len(cat_hash(ys))
}

/// Reads a list of hashes at `i`; reading the encoding of a list gives that list back.
pub fn decode_hash_list(bytes: &[u8], i: usize) -> (r: Result<(Vec<Hash256>, usize), DecodeError>)
    ensures
        r is Ok ==> i <= r->Ok_0.1 <= bytes@.len() && with_len(cat_hash(r->Ok_0.0@)) == bytes@.subrange(i as int, r->Ok_0.1 as int),
        forall|ys: Seq<Hash256>| #[trigger] holds(bytes@, i as int, with_len(cat_hash(ys)))
            ==> r is Ok && r->Ok_0.0@ == ys && r->Ok_0.1 == i + with_len(cat_hash(ys)).len(),
{
    let _blen = bytes.len();
    let (len, j) = match decode_u64(bytes, i) {
        Ok(x) => x,
        Err(e) => {
            proof {
                assert forall|ys: Seq<Hash256>| !#[trigger] holds(bytes@, i as int, with_len(cat_hash(ys))) by {
                    assert(with_len(cat_hash(ys)).len() >= 8);
                }
            }
            return Err(e);
        },
    };
    proof {
        assert forall|ys: Seq<Hash256>| #[trigger] holds(bytes@, i as int, with_len(cat_hash(ys))) implies len == cat_hash(ys).len() by {
            lemma_hash_list_header(bytes@, i, ys);
        }
    }
    if len > (bytes.len() - j) as u64 {
        return Err(DecodeError::TooShort);
    }
    let end = j + len as usize;
    let mut xs: Vec<Hash256> = Vec::new();
    let mut p = j;
    while p < end
        invariant
            j <= p <= end <= bytes@.len(),
            j == i + 8,
            len as int == end - j,
            bytes@.len() <= usize::MAX,
            cat_hash(xs@) == bytes@.subrange(j as int, p as int),
            p - j == 32 * xs@.len(),
            forall|ys: Seq<Hash256>| #[trigger] holds(bytes@, i as int, with_len(cat_hash(ys)))
                ==> xs@.len() <= ys.len() && xs@ == ys.subrange(0, xs@.len() as int) && end - j == cat_hash(ys).len(),
        decreases end - p,
    {
        let (x, q) = match decode_hash(bytes, p) {
            Ok(x) => x,
            Err(e) => {
                proof {
                    assert forall|ys: Seq<Hash256>| !#[trigger] holds(bytes@, i as int, with_len(cat_hash(ys))) by {
                        if holds(bytes@, i as int, with_len(cat_hash(ys))) {
                            lemma_cat_hash(ys);
                        }
                    }
                }
                return Err(e);
            },
        };
        if q > end {
            proof {
                assert forall|ys: Seq<Hash256>| !#[trigger] holds(bytes@, i as int, with_len(cat_hash(ys))) by {
                    if holds(bytes@, i as int, with_len(cat_hash(ys))) {
                        lemma_cat_hash(ys);
                    }
                }
            }
            return Err(DecodeError::TooLong);
        }
        let ghost before = xs@;
        xs.push(x);
        assert(xs@.drop_last() =~= before);
        assert(bytes@.subrange(j as int, q as int) =~= bytes@.subrange(j as int, p as int) + bytes@.subrange(p as int, q as int));
        proof {
            assert forall|ys: Seq<Hash256>| #[trigger] holds(bytes@, i as int, with_len(cat_hash(ys)))
                implies xs@.len() <= ys.len() && xs@ == ys.subrange(0, xs@.len() as int) && end - j == cat_hash(ys).len() by {
                lemma_hash_list_header(bytes@, i, ys);
                lemma_cat_hash(ys);
                let m = before.len() as int;
                assert(m < ys.len());
                let w = with_len(cat_hash(ys));
                assert(bytes@.subrange(p as int, p + 32) =~= w.subrange(8 + 32 * m, 40 + 32 * m));
                assert(w.subrange(8 + 32 * m, 40 + 32 * m) =~= cat_hash(ys).subrange(32 * m, 32 * m + 32));
                assert(x@ == ys[m]@);
                assert(x =~= ys[m]);
                assert(xs@ =~= ys.subrange(0, m + 1));
            }
        }
        p = q;
    }
    proof {
        assert forall|ys: Seq<Hash256>| #[trigger] holds(bytes@, i as int, with_len(cat_hash(ys)))
            implies xs@ == ys && end == i + with_len(cat_hash(ys)).len() by {
            lemma_hash_list_header(bytes@, i, ys);
            lemma_cat_hash(ys);
            lemma_cat_hash(xs@);
            assert(xs@ =~= ys);
        }
    }
    assert(with_len(cat_hash(xs@)) =~= bytes@.subrange(i as int, end as int));
    Ok((xs, end))
}

/// Appends a list of validators.
pub fn append_validator_list(out: &mut Vec<u8>, xs: &Vec<Validator>)
    ensures
        final(out)@ == old(out)@ + with_len(cat_validator(xs@)),
{
    let mut body: Vec<u8> = Vec::new();
    let mut k: usize = 0;
    while k < xs.len()
        invariant
            k <= xs@.len(),
            body@ == cat_validator(xs@.subrange(0, k as int)),
        decreases xs@.len() - k,
    {
        assert(xs@.subrange(0, k + 1).drop_last() =~= xs@.subrange(0, k as int));
        append_validator(&mut body, &xs[k]);
        k = k + 1;
    }
    assert(xs@.subrange(0, k as int) =~= xs@);
    append_u64(out, body.len() as u64);
    out.append(&mut body);
    assert(out@ =~= old(out)@ + with_len(cat_validator(xs@)));
}

/// Decoding a list of validators has read a prefix `xs` of `ys`, ending at `p`, out of `end`.
pub open spec fn progress_validator(b: Seq<u8>, j: int, p: int, end: int, xs: Seq<Validator>, ys: Seq<Validator>) -> bool {
    &&& xs.len() <= ys.len()
    &&& forall|t: int| 0 <= t < xs.len() ==> #[trigger] validator_same(xs[t], ys[t])
    &&& p == j + cat_validator(ys.subrange(0, xs.len() as int)).len()
    &&& end == j + cat_validator(ys).len()
    &&& holds(b, j, cat_validator(ys))
}

/// Decoding a list of crosslinks has read a prefix `xs` of `ys`, ending at `p`, out of `end`.
pub open spec fn progress_crosslink(b: Seq<u8>, j: int, p: int, end: int, xs: Seq<Crosslink>, ys: Seq<Crosslink>) -> bool {
    &&& xs.len() <= ys.len()
    &&& forall|t: int| 0 <= t < xs.len() ==> #[trigger] xs[t] == ys[t]
    &&& p == j + cat_crosslink(ys.subrange(0, xs.len() as int)).len()
    &&& end == j + cat_crosslink(ys).len()
    &&& holds(b, j, cat_crosslink(ys))
}

/// Decoding a list of pendings has read a prefix `xs` of `ys`, ending at `p`, out of `end`.
pub open spec fn progress_pending(b: Seq<u8>, j: int, p: int, end: int, xs: Seq<PendingAttestation>, ys: Seq<PendingAttestation>) -> bool {
    &&& xs.len() <= ys.len()
    &&& forall|t: int| 0 <= t < xs.len() ==> #[trigger] pending_same(xs[t], ys[t])
    &&& p == j + cat_pending(ys.subrange(0, xs.len() as int)).len()
    &&& end == j + cat_pending(ys).len()
    &&& holds(b, j, cat_pending(ys))
}

proof fn lemma_cat_validator_append(a: Seq<Validator>, b: Seq<Validator>)
    ensures
        cat_validator(a + b) == cat_validator(a) + cat_validator(b),
    decreases b.len(),
{
    if b.len() == 0 {
        assert(a + b =~= a);
        assert(cat_validator(a) + cat_validator(b) =~= cat_validator(a));
    } else {
        lemma_cat_validator_append(a, b.drop_last());
        assert((a + b).drop_last() =~= a + b.drop_last());
        assert((a + b).last() == b.last());
        assert(cat_validator(a) + cat_validator(b) =~= cat_validator(a) + cat_validator(b.drop_last()) + enc_validator(b.last()));
    }
}

proof fn lemma_cat_validator_split(ys: Seq<Validator>, m: int)
    requires
        0 <= m < ys.len(),
    ensures
        cat_validator(ys) == cat_validator(ys.subrange(0, m)) + enc_validator(ys[m]) + cat_validator(ys.subrange(m + 1, ys.len() as int)),
        cat_validator(ys.subrange(0, m + 1)) == cat_validator(ys.subrange(0, m)) + enc_validator(ys[m]),
        enc_validator(ys[m]).len() > 0,
{
    lemma_cat_validator_append(ys.subrange(0, m + 1), ys.subrange(m + 1, ys.len() as int));
    assert(ys =~= ys.subrange(0, m + 1) + ys.subrange(m + 1, ys.len() as int));
    assert(ys.subrange(0, m + 1).drop_last() =~= ys.subrange(0, m));
}

proof fn lemma_cat_validator_next(b: Seq<u8>, j: int, ys: Seq<Validator>, m: int)
    requires
        0 <= m < ys.len(),
        holds(b, j, cat_validator(ys)),
    ensures
        holds(b, j + cat_validator(ys.subrange(0, m)).len(), enc_validator(ys[m])),
        cat_validator(ys.subrange(0, m + 1)) == cat_validator(ys.subrange(0, m)) + enc_validator(ys[m]),
        cat_validator(ys.subrange(0, m)).len() + enc_validator(ys[m]).len() <= cat_validator(ys).len(),
        enc_validator(ys[m]).len() > 0,
{
    lemma_cat_validator_split(ys, m);
    let a = cat_validator(ys.subrange(0, m));
    let e = enc_validator(ys[m]);
    let c = cat_validator(ys.subrange(m + 1, ys.len() as int));
    lemma_holds_concat(b, j, a + e, c);
    lemma_holds_concat(b, j, a, e);
}

/// Reads a list of validators at `i`; reading the encoding of a list gives that list back.
pub fn decode_validator_list(bytes: &[u8], i: usize) -> (r: Result<(Vec<Validator>, usize), DecodeError>)
    ensures
        r is Ok ==> i <= r->Ok_0.1 <= bytes@.len() && with_len(cat_validator(r->Ok_0.0@)) == bytes@.subrange(i as int, r->Ok_0.1 as int),
        forall|ys: Seq<Validator>| #[trigger] holds(bytes@, i as int, with_len(cat_validator(ys))) ==> r is Ok && seq_same_validator(r->Ok_0.0@, ys) && r->Ok_0.1 == i + with_len(cat_validator(ys)).len(),
{
    let _blen = bytes.len();
    let (len, j) = match decode_u64(bytes, i) {
        Ok(x) => x,
        Err(e) => {
            proof {
                assert forall|ys: Seq<Validator>| !#[trigger] holds(bytes@, i as int, with_len(cat_validator(ys))) by {
                    if holds(bytes@, i as int, with_len(cat_validator(ys))) {
                        lemma_holds_concat(bytes@, i as int, enc_u64(cat_validator(ys).len() as u64), cat_validator(ys));
                    }
                }
            }
            return Err(e);
        },
    };
    proof {
        assert forall|ys: Seq<Validator>| #[trigger] holds(bytes@, i as int, with_len(cat_validator(ys))) implies len == cat_validator(ys).len() && holds(bytes@, j as int, cat_validator(ys)) by {
            lemma_holds_concat(bytes@, i as int, enc_u64(cat_validator(ys).len() as u64), cat_validator(ys));
        }
    }
    if len > (bytes.len() - j) as u64 {
        return Err(DecodeError::TooShort);
    }
    let end = j + len as usize;
    let mut xs: Vec<Validator> = Vec::new();
    let mut p = j;
    while p < end
        invariant
            j <= p <= end <= bytes@.len(),
            j == i + 8,
            len as int == end - j,
            cat_validator(xs@) == bytes@.subrange(j as int, p as int),
            forall|ys: Seq<Validator>| #[trigger] holds(bytes@, i as int, with_len(cat_validator(ys))) ==> progress_validator(bytes@, j as int, p as int, end as int, xs@, ys),
        decreases end - p,
    {
        let (x, q) = match decode_validator(bytes, p) {
            Ok(x) => x,
            Err(e) => {
                proof {
                    assert forall|ys: Seq<Validator>| !#[trigger] holds(bytes@, i as int, with_len(cat_validator(ys))) by {
                        if holds(bytes@, i as int, with_len(cat_validator(ys))) {
                            if xs@.len() == ys.len() {
                                assert(ys.subrange(0, ys.len() as int) =~= ys);
                            }
                            assert(progress_validator(bytes@, j as int, p as int, end as int, xs@, ys));
                            lemma_cat_validator_next(bytes@, j as int, ys, xs@.len() as int);
                        }
                    }
                }
                return Err(e);
            },
        };
        if q > end || q == p {
            proof {
                assert forall|ys: Seq<Validator>| !#[trigger] holds(bytes@, i as int, with_len(cat_validator(ys))) by {
                    if holds(bytes@, i as int, with_len(cat_validator(ys))) {
                        if xs@.len() == ys.len() {
                            assert(ys.subrange(0, ys.len() as int) =~= ys);
                        }
                        assert(progress_validator(bytes@, j as int, p as int, end as int, xs@, ys));
                            lemma_cat_validator_next(bytes@, j as int, ys, xs@.len() as int);
                    }
                }
            }
            return Err(DecodeError::TooLong);
        }
        let ghost before = xs@;
        xs.push(x);
        assert(xs@.drop_last() =~= before);
        assert(bytes@.subrange(j as int, q as int) =~= bytes@.subrange(j as int, p as int) + bytes@.subrange(p as int, q as int));
        proof {
            assert forall|ys: Seq<Validator>| #[trigger] holds(bytes@, i as int, with_len(cat_validator(ys))) implies progress_validator(bytes@, j as int, q as int, end as int, xs@, ys) by {
                assert(progress_validator(bytes@, j as int, p as int, end as int, before, ys));
                if before.len() == ys.len() {
                    assert(ys.subrange(0, ys.len() as int) =~= ys);
                }
                lemma_cat_validator_next(bytes@, j as int, ys, before.len() as int);
            }
        }
        p = q;
    }
    proof {
        assert forall|ys: Seq<Validator>| #[trigger] holds(bytes@, i as int, with_len(cat_validator(ys))) implies seq_same_validator(xs@, ys) && end == i + with_len(cat_validator(ys)).len() by {
            if xs@.len() < ys.len() {
                assert(progress_validator(bytes@, j as int, p as int, end as int, xs@, ys));
                            lemma_cat_validator_next(bytes@, j as int, ys, xs@.len() as int);
            }
            
        }
    }
    assert(with_len(cat_validator(xs@)) =~= bytes@.subrange(i as int, end as int));
    Ok((xs, end))
}

/// Appends a list of crosslinks.
pub fn append_crosslink_list(out: &mut Vec<u8>, xs: &Vec<Crosslink>)
    ensures
        final(out)@ == old(out)@ + with_len(cat_crosslink(xs@)),
{
    let mut body: Vec<u8> = Vec::new();
    let mut k: usize = 0;
    while k < xs.len()
        invariant
            k <= xs@.len(),
            body@ == cat_crosslink(xs@.subrange(0, k as int)),
        decreases xs@.len() - k,
    {
        assert(xs@.subrange(0, k + 1).drop_last() =~= xs@.subrange(0, k as int));
        append_crosslink(&mut body, &xs[k]);
        k = k + 1;
    }
    assert(xs@.subrange(0, k as int) =~= xs@);
    append_u64(out, body.len() as u64);
    out.append(&mut body);
    assert(out@ =~= old(out)@ + with_len(cat_crosslink(xs@)));
}

proof fn lemma_cat_crosslink_append(a: Seq<Crosslink>, b: Seq<Crosslink>)
    ensures
        cat_crosslink(a + b) == cat_crosslink(a) + cat_crosslink(b),
    decreases b.len(),
{
    if b.len() == 0 {
        assert(a + b =~= a);
        assert(cat_crosslink(a) + cat_crosslink(b) =~= cat_crosslink(a));
    } else {
        lemma_cat_crosslink_append(a, b.drop_last());
        assert((a + b).drop_last() =~= a + b.drop_last());
        assert((a + b).last() == b.last());
        assert(cat_crosslink(a) + cat_crosslink(b) =~= cat_crosslink(a) + cat_crosslink(b.drop_last()) + enc_crosslink(b.last()));
    }
}

proof fn lemma_cat_crosslink_split(ys: Seq<Crosslink>, m: int)
    requires
        0 <= m < ys.len(),
    ensures
        cat_crosslink(ys) == cat_crosslink(ys.subrange(0, m)) + enc_crosslink(ys[m]) + cat_crosslink(ys.subrange(m + 1, ys.len() as int)),
        cat_crosslink(ys.subrange(0, m + 1)) == cat_crosslink(ys.subrange(0, m)) + enc_crosslink(ys[m]),
        enc_crosslink(ys[m]).len() > 0,
{
    lemma_cat_crosslink_append(ys.subrange(0, m + 1), ys.subrange(m + 1, ys.len() as int));
    assert(ys =~= ys.subrange(0, m + 1) + ys.subrange(m + 1, ys.len() as int));
    assert(ys.subrange(0, m + 1).drop_last() =~= ys.subrange(0, m));
}

proof fn lemma_cat_crosslink_next(b: Seq<u8>, j: int, ys: Seq<Crosslink>, m: int)
    requires
        0 <= m < ys.len(),
        holds(b, j, cat_crosslink(ys)),
    ensures
        holds(b, j + cat_crosslink(ys.subrange(0, m)).len(), enc_crosslink(ys[m])),
        cat_crosslink(ys.subrange(0, m + 1)) == cat_crosslink(ys.subrange(0, m)) + enc_crosslink(ys[m]),
        cat_crosslink(ys.subrange(0, m)).len() + enc_crosslink(ys[m]).len() <= cat_crosslink(ys).len(),
        enc_crosslink(ys[m]).len() > 0,
{
    lemma_cat_crosslink_split(ys, m);
    let a = cat_crosslink(ys.subrange(0, m));
    let e = enc_crosslink(ys[m]);
    let c = cat_crosslink(ys.subrange(m + 1, ys.len() as int));
    lemma_holds_concat(b, j, a + e, c);
    lemma_holds_concat(b, j, a, e);
}

/// Reads a list of crosslinks at `i`; reading the encoding of a list gives that list back.
pub fn decode_crosslink_list(bytes: &[u8], i: usize) -> (r: Result<(Vec<Crosslink>, usize), DecodeError>)
    ensures
        r is Ok ==> i <= r->Ok_0.1 <= bytes@.len() && with_len(cat_crosslink(r->Ok_0.0@)) == bytes@.subrange(i as int, r->Ok_0.1 as int),
        forall|ys: Seq<Crosslink>| #[trigger] holds(bytes@, i as int, with_len(cat_crosslink(ys))) ==> r is Ok && r->Ok_0.0@ == ys && r->Ok_0.1 == i + with_len(cat_crosslink(ys)).len(),
{
    let _blen = bytes.len();
    let (len, j) = match decode_u64(bytes, i) {
        Ok(x) => x,
        Err(e) => {
            proof {
                assert forall|ys: Seq<Crosslink>| !#[trigger] holds(bytes@, i as int, with_len(cat_crosslink(ys))) by {
                    if holds(bytes@, i as int, with_len(cat_crosslink(ys))) {
                        lemma_holds_concat(bytes@, i as int, enc_u64(cat_crosslink(ys).len() as u64), cat_crosslink(ys));
                    }
                }
            }
            return Err(e);
        },
    };
    proof {
        assert forall|ys: Seq<Crosslink>| #[trigger] holds(bytes@, i as int, with_len(cat_crosslink(ys))) implies len == cat_crosslink(ys).len() && holds(bytes@, j as int, cat_crosslink(ys)) by {
            lemma_holds_concat(bytes@, i as int, enc_u64(cat_crosslink(ys).len() as u64), cat_crosslink(ys));
        }
    }
    if len > (bytes.len() - j) as u64 {
        return Err(DecodeError::TooShort);
    }
    let end = j + len as usize;
    let mut xs: Vec<Crosslink> = Vec::new();
    let mut p = j;
    while p < end
        invariant
            j <= p <= end <= bytes@.len(),
            j == i + 8,
            len as int == end - j,
            cat_crosslink(xs@) == bytes@.subrange(j as int, p as int),
            forall|ys: Seq<Crosslink>| #[trigger] holds(bytes@, i as int, with_len(cat_crosslink(ys))) ==> progress_crosslink(bytes@, j as int, p as int, end as int, xs@, ys),
        decreases end - p,
    {
        let (x, q) = match decode_crosslink(bytes, p) {
            Ok(x) => x,
            Err(e) => {
                proof {
                    assert forall|ys: Seq<Crosslink>| !#[trigger] holds(bytes@, i as int, with_len(cat_crosslink(ys))) by {
                        if holds(bytes@, i as int, with_len(cat_crosslink(ys))) {
                            if xs@.len() == ys.len() {
                                assert(ys.subrange(0, ys.len() as int) =~= ys);
                            }
                            assert(progress_crosslink(bytes@, j as int, p as int, end as int, xs@, ys));
                            lemma_cat_crosslink_next(bytes@, j as int, ys, xs@.len() as int);
                        }
                    }
                }
                return Err(e);
            },
        };
        if q > end || q == p {
            proof {
                assert forall|ys: Seq<Crosslink>| !#[trigger] holds(bytes@, i as int, with_len(cat_crosslink(ys))) by {
                    if holds(bytes@, i as int, with_len(cat_crosslink(ys))) {
                        if xs@.len() == ys.len() {
                            assert(ys.subrange(0, ys.len() as int) =~= ys);
                        }
                        assert(progress_crosslink(bytes@, j as int, p as int, end as int, xs@, ys));
                            lemma_cat_crosslink_next(bytes@, j as int, ys, xs@.len() as int);
                    }
                }
            }
            return Err(DecodeError::TooLong);
        }
        let ghost before = xs@;
        xs.push(x);
        assert(xs@.drop_last() =~= before);
        assert(bytes@.subrange(j as int, q as int) =~= bytes@.subrange(j as int, p as int) + bytes@.subrange(p as int, q as int));
        proof {
            assert forall|ys: Seq<Crosslink>| #[trigger] holds(bytes@, i as int, with_len(cat_crosslink(ys))) implies progress_crosslink(bytes@, j as int, q as int, end as int, xs@, ys) by {
                assert(progress_crosslink(bytes@, j as int, p as int, end as int, before, ys));
                if before.len() == ys.len() {
                    assert(ys.subrange(0, ys.len() as int) =~= ys);
                }
                lemma_cat_crosslink_next(bytes@, j as int, ys, before.len() as int);
            }
        }
        p = q;
    }
    proof {
        assert forall|ys: Seq<Crosslink>| #[trigger] holds(bytes@, i as int, with_len(cat_crosslink(ys))) implies xs@ == ys && end == i + with_len(cat_crosslink(ys)).len() by {
            if xs@.len() < ys.len() {
                assert(progress_crosslink(bytes@, j as int, p as int, end as int, xs@, ys));
                            lemma_cat_crosslink_next(bytes@, j as int, ys, xs@.len() as int);
            }
            assert(xs@ =~= ys);
        }
    }
    assert(with_len(cat_crosslink(xs@)) =~= bytes@.subrange(i as int, end as int));
    Ok((xs, end))
}

/// Appends a list of pending attestations.
pub fn append_pending_list(out: &mut Vec<u8>, xs: &Vec<PendingAttestation>)
    ensures
        final(out)@ == old(out)@ + with_len(cat_pending(xs@)),
{
    let mut body: Vec<u8> = Vec::new();
    let mut k: usize = 0;
    while k < xs.len()
        invariant
            k <= xs@.len(),
            body@ == cat_pending(xs@.subrange(0, k as int)),
        decreases xs@.len() - k,
    {
        assert(xs@.subrange(0, k + 1).drop_last() =~= xs@.subrange(0, k as int));
        append_pending(&mut body, &xs[k]);
        k = k + 1;
    }
    assert(xs@.subrange(0, k as int) =~= xs@);
    append_u64(out, body.len() as u64);
    out.append(&mut body);
    assert(out@ =~= old(out)@ + with_len(cat_pending(xs@)));
}

proof fn lemma_cat_pending_append(a: Seq<PendingAttestation>, b: Seq<PendingAttestation>)
    ensures
        cat_pending(a + b) == cat_pending(a) + cat_pending(b),
    decreases b.len(),
{
    if b.len() == 0 {
        assert(a + b =~= a);
        assert(cat_pending(a) + cat_pending(b) =~= cat_pending(a));
    } else {
        lemma_cat_pending_append(a, b.drop_last());
        assert((a + b).drop_last() =~= a + b.drop_last());
        assert((a + b).last() == b.last());
        assert(cat_pending(a) + cat_pending(b) =~= cat_pending(a) + cat_pending(b.drop_last()) + enc_pending(b.last()));
    }
}

proof fn lemma_cat_pending_split(ys: Seq<PendingAttestation>, m: int)
    requires
        0 <= m < ys.len(),
    ensures
        cat_pending(ys) == cat_pending(ys.subrange(0, m)) + enc_pending(ys[m]) + cat_pending(ys.subrange(m + 1, ys.len() as int)),
        cat_pending(ys.subrange(0, m + 1)) == cat_pending(ys.subrange(0, m)) + enc_pending(ys[m]),
        enc_pending(ys[m]).len() > 0,
{
    lemma_cat_pending_append(ys.subrange(0, m + 1), ys.subrange(m + 1, ys.len() as int));
    assert(ys =~= ys.subrange(0, m + 1) + ys.subrange(m + 1, ys.len() as int));
    assert(ys.subrange(0, m + 1).drop_last() =~= ys.subrange(0, m));
}

proof fn lemma_cat_pending_next(b: Seq<u8>, j: int, ys: Seq<PendingAttestation>, m: int)
    requires
        0 <= m < ys.len(),
        holds(b, j, cat_pending(ys)),
    ensures
        holds(b, j + cat_pending(ys.subrange(0, m)).len(), enc_pending(ys[m])),
        cat_pending(ys.subrange(0, m + 1)) == cat_pending(ys.subrange(0, m)) + enc_pending(ys[m]),
        cat_pending(ys.subrange(0, m)).len() + enc_pending(ys[m]).len() <= cat_pending(ys).len(),
        enc_pending(ys[m]).len() > 0,
{
    lemma_cat_pending_split(ys, m);
    let a = cat_pending(ys.subrange(0, m));
    let e = enc_pending(ys[m]);
    let c = cat_pending(ys.subrange(m + 1, ys.len() as int));
    lemma_holds_concat(b, j, a + e, c);
    lemma_holds_concat(b, j, a, e);
}

/// Reads a list of pendings at `i`; reading the encoding of a list gives that list back.
pub fn decode_pending_list(bytes: &[u8], i: usize) -> (r: Result<(Vec<PendingAttestation>, usize), DecodeError>)
    ensures
        r is Ok ==> i <= r->Ok_0.1 <= bytes@.len() && with_len(cat_pending(r->Ok_0.0@)) == bytes@.subrange(i as int, r->Ok_0.1 as int),
        forall|ys: Seq<PendingAttestation>| #[trigger] holds(bytes@, i as int, with_len(cat_pending(ys))) ==> r is Ok && seq_same_pending(r->Ok_0.0@, ys) && r->Ok_0.1 == i + with_len(cat_pending(ys)).len(),
{
    let _blen = bytes.len();
    let (len, j) = match decode_u64(bytes, i) {
        Ok(x) => x,
        Err(e) => {
            proof {
                assert forall|ys: Seq<PendingAttestation>| !#[trigger] holds(bytes@, i as int, with_len(cat_pending(ys))) by {
                    if holds(bytes@, i as int, with_len(cat_pending(ys))) {
                        lemma_holds_concat(bytes@, i as int, enc_u64(cat_pending(ys).len() as u64), cat_pending(ys));
                    }
                }
            }
            return Err(e);
        },
    };
    proof {
        assert forall|ys: Seq<PendingAttestation>| #[trigger] holds(bytes@, i as int, with_len(cat_pending(ys))) implies len == cat_pending(ys).len() && holds(bytes@, j as int, cat_pending(ys)) by {
            lemma_holds_concat(bytes@, i as int, enc_u64(cat_pending(ys).len() as u64), cat_pending(ys));
        }
    }
    if len > (bytes.len() - j) as u64 {
        return Err(DecodeError::TooShort);
    }
    let end = j + len as usize;
    let mut xs: Vec<PendingAttestation> = Vec::new();
    let mut p = j;
    while p < end
        invariant
            j <= p <= end <= bytes@.len(),
            j == i + 8,
            len as int == end - j,
            cat_pending(xs@) == bytes@.subrange(j as int, p as int),
            forall|ys: Seq<PendingAttestation>| #[trigger] holds(bytes@, i as int, with_len(cat_pending(ys))) ==> progress_pending(bytes@, j as int, p as int, end as int, xs@, ys),
        decreases end - p,
    {
        let (x, q) = match decode_pending(bytes, p) {
            Ok(x) => x,
            Err(e) => {
                proof {
                    assert forall|ys: Seq<PendingAttestation>| !#[trigger] holds(bytes@, i as int, with_len(cat_pending(ys))) by {
                        if holds(bytes@, i as int, with_len(cat_pending(ys))) {
                            if xs@.len() == ys.len() {
                                assert(ys.subrange(0, ys.len() as int) =~= ys);
                            }
                            assert(progress_pending(bytes@, j as int, p as int, end as int, xs@, ys));
                            lemma_cat_pending_next(bytes@, j as int, ys, xs@.len() as int);
                        }
                    }
                }
                return Err(e);
            },
        };
        if q > end || q == p {
            proof {
                assert forall|ys: Seq<PendingAttestation>| !#[trigger] holds(bytes@, i as int, with_len(cat_pending(ys))) by {
                    if holds(bytes@, i as int, with_len(cat_pending(ys))) {
                        if xs@.len() == ys.len() {
                            assert(ys.subrange(0, ys.len() as int) =~= ys);
                        }
                        assert(progress_pending(bytes@, j as int, p as int, end as int, xs@, ys));
                            lemma_cat_pending_next(bytes@, j as int, ys, xs@.len() as int);
                    }
                }
            }
            return Err(DecodeError::TooLong);
        }
        let ghost before = xs@;
        xs.push(x);
        assert(xs@.drop_last() =~= before);
        assert(bytes@.subrange(j as int, q as int) =~= bytes@.subrange(j as int, p as int) + bytes@.subrange(p as int, q as int));
        proof {
            assert forall|ys: Seq<PendingAttestation>| #[trigger] holds(bytes@, i as int, with_len(cat_pending(ys))) implies progress_pending(bytes@, j as int, q as int, end as int, xs@, ys) by {
                assert(progress_pending(bytes@, j as int, p as int, end as int, before, ys));
                if before.len() == ys.len() {
                    assert(ys.subrange(0, ys.len() as int) =~= ys);
                }
                lemma_cat_pending_next(bytes@, j as int, ys, before.len() as int);
            }
        }
        p = q;
    }
    proof {
        assert forall|ys: Seq<PendingAttestation>| #[trigger] holds(bytes@, i as int, with_len(cat_pending(ys))) implies seq_same_pending(xs@, ys) && end == i + with_len(cat_pending(ys)).len() by {
            if xs@.len() < ys.len() {
                assert(progress_pending(bytes@, j as int, p as int, end as int, xs@, ys));
                            lemma_cat_pending_next(bytes@, j as int, ys, xs@.len() as int);
            }
            
        }
    }
    assert(with_len(cat_pending(xs@)) =~= bytes@.subrange(i as int, end as int));
    Ok((xs, end))
}

impl BeaconState {
    /// Appends the encoding of the state.
    pub fn ssz_append(&self, out: &mut Vec<u8>)
        ensures
            final(out)@ == old(out)@ + enc_state(self),
    {
        let mut e = self.ssz_encode();
        out.append(&mut e);
    }

    /// Reads a state at `i`, returning it with the position after it; reading the encoding of a
    /// state gives that state back, field by field.
    pub fn ssz_decode(bytes: &[u8], i: usize) -> (r: Result<(BeaconState, usize), DecodeError>)
        ensures
            r is Ok ==> i <= r->Ok_0.1 <= bytes@.len() && enc_state(&r->Ok_0.0) == bytes@.subrange(i as int, r->Ok_0.1 as int),
            forall|y: BeaconState| #[trigger] holds(bytes@, i as int, enc_state(&y)) ==> r is Ok && state_same(&r->Ok_0.0, &y) && r->Ok_0.1 == i + enc_state(&y).len(),
    {
        let ((v_slot, v_genesis_time, v_fork, v_validator_registry, v_validator_balances, v_validator_registry_update_epoch, v_latest_randao_mixes, v_previous_epoch_start_shard, v_current_epoch_start_shard, v_previous_calculation_epoch, v_current_calculation_epoch), mid) = match decode_state_head(bytes, i) {
            Ok(x) => x,
            Err(e) => {
                proof {
                    assert forall|y: BeaconState| !#[trigger] holds(bytes@, i as int, enc_state(&y)) by {
                        if holds(bytes@, i as int, enc_state(&y)) {
                            lemma_state_head_tail(&y);
                            lemma_holds_concat(bytes@, i as int, state_prefix_11(&y), state_tail_prefix_11(&y));
                        }
                    }
                }
                return Err(e);
            },
        };
        proof {
            assert forall|y: BeaconState| #[trigger] holds(bytes@, i as int, enc_state(&y)) implies mid == i + state_prefix_11(&y).len() by {
                lemma_state_head_tail(&y);
                lemma_holds_concat(bytes@, i as int, state_prefix_11(&y), state_tail_prefix_11(&y));
            }
        }
        let ((v_previous_epoch_seed, v_current_epoch_seed, v_previous_justified_epoch, v_justified_epoch, v_justification_bitfield, v_finalized_epoch, v_latest_crosslinks, v_latest_block_roots, v_latest_penalized_balances, v_latest_attestations, v_batched_block_roots), end) = match decode_state_tail(bytes, mid) {
            Ok(x) => x,
            Err(e) => {
                proof {
                    assert forall|y: BeaconState| !#[trigger] holds(bytes@, i as int, enc_state(&y)) by {
                        if holds(bytes@, i as int, enc_state(&y)) {
                            lemma_state_head_tail(&y);
                            lemma_holds_concat(bytes@, i as int, state_prefix_11(&y), state_tail_prefix_11(&y));
                        }
                    }
                }
                return Err(e);
            },
        };
        let result = BeaconState {
            slot: v_slot,
            genesis_time: v_genesis_time,
            fork: v_fork,
            validator_registry: v_validator_registry,
            validator_balances: v_validator_balances,
            validator_registry_update_epoch: v_validator_registry_update_epoch,
            latest_randao_mixes: v_latest_randao_mixes,
            previous_epoch_start_shard: v_previous_epoch_start_shard,
            current_epoch_start_shard: v_current_epoch_start_shard,
            previous_calculation_epoch: v_previous_calculation_epoch,
            current_calculation_epoch: v_current_calculation_epoch,
            previous_epoch_seed: v_previous_epoch_seed,
            current_epoch_seed: v_current_epoch_seed,
            previous_justified_epoch: v_previous_justified_epoch,
            justified_epoch: v_justified_epoch,
            justification_bitfield: v_justification_bitfield,
            finalized_epoch: v_finalized_epoch,
            latest_crosslinks: v_latest_crosslinks,
            latest_block_roots: v_latest_block_roots,
            latest_penalized_balances: v_latest_penalized_balances,
            latest_attestations: v_latest_attestations,
            batched_block_roots: v_batched_block_roots,
        };
        proof {
            assert forall|y: BeaconState| #[trigger] holds(bytes@, i as int, enc_state(&y)) implies state_same(&result, &y) && end == i + enc_state(&y).len() by {
                lemma_state_head_tail(&y);
                lemma_holds_concat(bytes@, i as int, state_prefix_11(&y), state_tail_prefix_11(&y));
            }
        }
        let enc = result.ssz_encode();
        if end < i || end > bytes.len() || !bytes_match(&enc, bytes, i, end) {
            proof {
                assert forall|y: BeaconState| !#[trigger] holds(bytes@, i as int, enc_state(&y)) by {
                    if holds(bytes@, i as int, enc_state(&y)) {
                        lemma_state_head_tail(&y);
                        lemma_holds_concat(bytes@, i as int, state_prefix_11(&y), state_tail_prefix_11(&y));
                        lemma_state_same_enc(&result, &y);
                    }
                }
            }
            return Err(DecodeError::Invalid);
        }
        Ok((result, end))
    }

    /// The encoding of the state.
    #[verifier::rlimit(50)]
    pub fn ssz_encode(&self) -> (r: Vec<u8>)
        ensures
            r@ == enc_state(self),
    {
        let mut out: Vec<u8> = Vec::new();
        append_u64(&mut out, self.slot);
        assert(out@ =~= enc_u64(self.slot));
        append_u64(&mut out, self.genesis_time);
        self.fork.ssz_append(&mut out);
        append_validator_list(&mut out, &self.validator_registry);
        append_u64_list(&mut out, &self.validator_balances);
        append_u64(&mut out, self.validator_registry_update_epoch);
        append_hash_list(&mut out, &self.latest_randao_mixes);
        append_u64(&mut out, self.previous_epoch_start_shard);
        append_u64(&mut out, self.current_epoch_start_shard);
        append_u64(&mut out, self.previous_calculation_epoch);
        append_u64(&mut out, self.current_calculation_epoch);
        append_hash(&mut out, &self.previous_epoch_seed);
        append_hash(&mut out, &self.current_epoch_seed);
        append_u64(&mut out, self.previous_justified_epoch);
        append_u64(&mut out, self.justified_epoch);
        append_u64(&mut out, self.justification_bitfield);
        append_u64(&mut out, self.finalized_epoch);
        append_crosslink_list(&mut out, &self.latest_crosslinks);
        append_hash_list(&mut out, &self.latest_block_roots);
        append_u64_list(&mut out, &self.latest_penalized_balances);
        append_pending_list(&mut out, &self.latest_attestations);
        append_hash_list(&mut out, &self.batched_block_roots);
        out
    }

    /// The 32-byte commitment to the state: the root of the merkle tree over its fields.
    pub fn hash_tree_root(&self) -> (r: Vec<u8>)
        ensures
            r@.len() == 32,
            forall|t: Seq<u8>| is_merkle_tree_of(state_leaves(self), t) ==> r@ == chunk_at(t, 0),
    {
        let root = self.tree_root();
        let cache = self.build_tree_hash_cache();
        proof {
            assert(root@ == chunk_at(cache.cache@, 0));
        }
        root
    }

    /// The state's root as a hash.
    pub fn canonical_root(&self) -> (r: Hash256)
        ensures
            forall|t: Seq<u8>| is_merkle_tree_of(state_leaves(self), t) ==> r@ == chunk_at(t, 0),
    {
        let root = self.hash_tree_root();
        let mut h: Hash256 = [0u8; 32];
        let mut k: usize = 0;
        while k < 32
            invariant
                k <= 32,
                root@.len() == 32,
                h@.len() == 32,
                forall|m: int| 0 <= m < k ==> h@[m] == root@[m],
            decreases 32 - k,
        {
            h.set(k, root[k]);
            k = k + 1;
        }
        assert(h@ =~= root@);
        h
    }
}

/// The encoding of a deposit input: key, credentials, commitment, proof of possession.
pub open spec fn enc_deposit_input(d: DepositInput) -> Seq<u8> {
    enc_bytes(d.pubkey@) + d.withdrawal_credentials@ + d.randao_commitment@ + enc_bytes(d.proof_of_possession@)
}

impl DepositInput {
    /// Appends the encoding of the deposit input.
    pub fn ssz_append(&self, out: &mut Vec<u8>)
        ensures
            final(out)@ == old(out)@ + enc_deposit_input(*self),
    {
        append_bytes(out, &self.pubkey);
        append_hash(out, &self.withdrawal_credentials);
        append_hash(out, &self.randao_commitment);
        append_bytes(out, &self.proof_of_possession);
        assert(out@ =~= old(out)@ + enc_deposit_input(*self));
    }

    /// Reads a deposit input at `i`.
    pub fn ssz_decode(bytes: &[u8], i: usize) -> (r: Result<(DepositInput, usize), DecodeError>)
        ensures
            r is Ok ==> i <= r->Ok_0.1 <= bytes@.len() && enc_deposit_input(r->Ok_0.0) == bytes@.subrange(i as int, r->Ok_0.1 as int),
            forall|y: DepositInput| #[trigger] holds(bytes@, i as int, enc_deposit_input(y)) ==> r is Ok && deposit_same(r->Ok_0.0, y) && r->Ok_0.1 == i + enc_deposit_input(y).len(),
    {
        let _blen = bytes.len();
        let pos0 = i;
        let (v_pubkey, pos1) = match decode_bytes(bytes, pos0) {
            Ok(x) => x,
            Err(e) => {
                proof {
                    assert forall|y: DepositInput| !#[trigger] holds(bytes@, i as int, enc_deposit_input(y)) by {
                        if holds(bytes@, i as int, enc_deposit_input(y)) {
                            lemma_parts_deposit(bytes@, i as int, y);
                        }
                    }
                }
                return Err(e);
            },
        };
        proof {
            assert forall|y: DepositInput| #[trigger] holds(bytes@, i as int, enc_deposit_input(y)) implies pos1 == i + (enc_bytes(y.pubkey@)).len() && v_pubkey@ == y.pubkey@ by {
                lemma_parts_deposit(bytes@, i as int, y);
            }
        }
        let (v_withdrawal_credentials, pos2) = match decode_hash(bytes, pos1) {
            Ok(x) => x,
            Err(e) => {
                proof {
                    assert forall|y: DepositInput| !#[trigger] holds(bytes@, i as int, enc_deposit_input(y)) by {
                        if holds(bytes@, i as int, enc_deposit_input(y)) {
                            lemma_parts_deposit(bytes@, i as int, y);
                        }
                    }
                }
                return Err(e);
            },
        };
        proof {
            assert forall|y: DepositInput| #[trigger] holds(bytes@, i as int, enc_deposit_input(y)) implies pos2 == i + (enc_bytes(y.pubkey@) + y.withdrawal_credentials@).len() && v_withdrawal_credentials == y.withdrawal_credentials by {
                lemma_parts_deposit(bytes@, i as int, y);
            }
        }
        let (v_randao_commitment, pos3) = match decode_hash(bytes, pos2) {
            Ok(x) => x,
            Err(e) => {
                proof {
                    assert forall|y: DepositInput| !#[trigger] holds(bytes@, i as int, enc_deposit_input(y)) by {
                        if holds(bytes@, i as int, enc_deposit_input(y)) {
                            lemma_parts_deposit(bytes@, i as int, y);
                        }
                    }
                }
                return Err(e);
            },
        };
        proof {
            assert forall|y: DepositInput| #[trigger] holds(bytes@, i as int, enc_deposit_input(y)) implies pos3 == i + (enc_bytes(y.pubkey@) + y.withdrawal_credentials@ + y.randao_commitment@).len() && v_randao_commitment == y.randao_commitment by {
                lemma_parts_deposit(bytes@, i as int, y);
            }
        }
        let (v_proof_of_possession, pos4) = match decode_bytes(bytes, pos3) {
            Ok(x) => x,
            Err(e) => {
                proof {
                    assert forall|y: DepositInput| !#[trigger] holds(bytes@, i as int, enc_deposit_input(y)) by {
                        if holds(bytes@, i as int, enc_deposit_input(y)) {
                            lemma_parts_deposit(bytes@, i as int, y);
                        }
                    }
                }
                return Err(e);
            },
        };
        proof {
            assert forall|y: DepositInput| #[trigger] holds(bytes@, i as int, enc_deposit_input(y)) implies pos4 == i + (enc_bytes(y.pubkey@) + y.withdrawal_credentials@ + y.randao_commitment@ + enc_bytes(y.proof_of_possession@)).len() && v_proof_of_possession@ == y.proof_of_possession@ by {
                lemma_parts_deposit(bytes@, i as int, y);
            }
        }
        let result = DepositInput {
            pubkey: v_pubkey,
            withdrawal_credentials: v_withdrawal_credentials,
            randao_commitment: v_randao_commitment,
            proof_of_possession: v_proof_of_possession,
        };
        proof {
            let s = bytes@;
            lemma_sub_join(s, i as int, pos1 as int, pos2 as int);
            lemma_sub_join(s, i as int, pos2 as int, pos3 as int);
            lemma_sub_join(s, i as int, pos3 as int, pos4 as int);
            assert forall|y: DepositInput| #[trigger] holds(bytes@, i as int, enc_deposit_input(y)) implies deposit_same(result, y) && pos4 == i + enc_deposit_input(y).len() by {
                lemma_parts_deposit(bytes@, i as int, y);
            }
        }
        Ok((result, pos4))
    }

    /// The encoding of the deposit input.
    pub fn ssz_encode(&self) -> (r: Vec<u8>)
        ensures
            r@ == enc_deposit_input(*self),
    {
        let mut out: Vec<u8> = Vec::new();
        self.ssz_append(&mut out);
        assert(out@ =~= enc_deposit_input(*self));
        out
    }
}

/// `a` and `b` hold the same validator: equal fields, the key compared by its bytes.
pub open spec fn validator_same(a: Validator, b: Validator) -> bool {
    &&& a.pubkey@ == b.pubkey@
    &&& a.withdrawal_credentials == b.withdrawal_credentials
    &&& a.randao_commitment == b.randao_commitment
    &&& a.randao_layers == b.randao_layers
    &&& a.status == b.status
    &&& a.latest_status_change_slot == b.latest_status_change_slot
    &&& a.exit_count == b.exit_count
    &&& a.activation_epoch == b.activation_epoch
    &&& a.exit_epoch == b.exit_epoch
    &&& a.withdrawal_epoch == b.withdrawal_epoch
    &&& a.penalized_epoch == b.penalized_epoch
    &&& a.status_flags == b.status_flags
}

/// `a` and `b` hold the same pending attestation, bitfields compared by their bytes.
pub open spec fn pending_same(a: PendingAttestation, b: PendingAttestation) -> bool {
    &&& a.data == b.data
    &&& a.aggregation_bitfield@ == b.aggregation_bitfield@
    &&& a.custody_bitfield@ == b.custody_bitfield@
    &&& a.inclusion_slot == b.inclusion_slot
}

/// `a` and `b` hold the same deposit input, byte strings compared by their bytes.
pub open spec fn deposit_same(a: DepositInput, b: DepositInput) -> bool {
    &&& a.pubkey@ == b.pubkey@
    &&& a.withdrawal_credentials == b.withdrawal_credentials
    &&& a.randao_commitment == b.randao_commitment
    &&& a.proof_of_possession@ == b.proof_of_possession@
}

pub open spec fn seq_same_validator(a: Seq<Validator>, b: Seq<Validator>) -> bool {
    a.len() == b.len() && forall|t: int| 0 <= t < a.len() ==> #[trigger] validator_same(a[t], b[t])
}

pub open spec fn seq_same_pending(a: Seq<PendingAttestation>, b: Seq<PendingAttestation>) -> bool {
    a.len() == b.len() && forall|t: int| 0 <= t < a.len() ==> #[trigger] pending_same(a[t], b[t])
}

/// `a` and `b` hold the same state: every field equal, vectors compared by their contents.
pub open spec fn state_same(a: &BeaconState, b: &BeaconState) -> bool {
    &&& a.slot == b.slot
    &&& a.genesis_time == b.genesis_time
    &&& a.fork == b.fork
    &&& seq_same_validator(a.validator_registry@, b.validator_registry@)
    &&& a.validator_balances@ == b.validator_balances@
    &&& a.validator_registry_update_epoch == b.validator_registry_update_epoch
    &&& a.latest_randao_mixes@ == b.latest_randao_mixes@
    &&& a.previous_epoch_start_shard == b.previous_epoch_start_shard
    &&& a.current_epoch_start_shard == b.current_epoch_start_shard
    &&& a.previous_calculation_epoch == b.previous_calculation_epoch
    &&& a.current_calculation_epoch == b.current_calculation_epoch
    &&& a.previous_epoch_seed == b.previous_epoch_seed
    &&& a.current_epoch_seed == b.current_epoch_seed
    &&& a.previous_justified_epoch == b.previous_justified_epoch
    &&& a.justified_epoch == b.justified_epoch
    &&& a.justification_bitfield == b.justification_bitfield
    &&& a.finalized_epoch == b.finalized_epoch
    &&& a.latest_crosslinks@ == b.latest_crosslinks@
    &&& a.latest_block_roots@ == b.latest_block_roots@
    &&& a.latest_penalized_balances@ == b.latest_penalized_balances@
    &&& seq_same_pending(a.latest_attestations@, b.latest_attestations@)
    &&& a.batched_block_roots@ == b.batched_block_roots@
}

proof fn lemma_parts_validator(b: Seq<u8>, i: int, y: Validator)
    requires
        holds(b, i, enc_validator(y)),
    ensures
        holds(b, i, enc_bytes(y.pubkey@)),
        holds(b, i + (enc_bytes(y.pubkey@)).len(), y.withdrawal_credentials@),
        holds(b, i + (enc_bytes(y.pubkey@) + y.withdrawal_credentials@).len(), y.randao_commitment@),
        holds(b, i + (enc_bytes(y.pubkey@) + y.withdrawal_credentials@ + y.randao_commitment@).len(), enc_u64(y.randao_layers)),
        holds(b, i + (enc_bytes(y.pubkey@) + y.withdrawal_credentials@ + y.randao_commitment@ + enc_u64(y.randao_layers)).len(), seq![status_tag(y.status)]),
        holds(b, i + (enc_bytes(y.pubkey@) + y.withdrawal_credentials@ + y.randao_commitment@ + enc_u64(y.randao_layers) + seq![status_tag(y.status)]).len(), enc_u64(y.latest_status_change_slot)),
        holds(b, i + (enc_bytes(y.pubkey@) + y.withdrawal_credentials@ + y.randao_commitment@ + enc_u64(y.randao_layers) + seq![status_tag(y.status)] + enc_u64(y.latest_status_change_slot)).len(), enc_u64(y.exit_count)),
        holds(b, i + (enc_bytes(y.pubkey@) + y.withdrawal_credentials@ + y.randao_commitment@ + enc_u64(y.randao_layers) + seq![status_tag(y.status)] + enc_u64(y.latest_status_change_slot) + enc_u64(y.exit_count)).len(), enc_u64(y.activation_epoch)),
        holds(b, i + (enc_bytes(y.pubkey@) + y.withdrawal_credentials@ + y.randao_commitment@ + enc_u64(y.randao_layers) + seq![status_tag(y.status)] + enc_u64(y.latest_status_change_slot) + enc_u64(y.exit_count) + enc_u64(y.activation_epoch)).len(), enc_u64(y.exit_epoch)),
        holds(b, i + (enc_bytes(y.pubkey@) + y.withdrawal_credentials@ + y.randao_commitment@ + enc_u64(y.randao_layers) + seq![status_tag(y.status)] + enc_u64(y.latest_status_change_slot) + enc_u64(y.exit_count) + enc_u64(y.activation_epoch) + enc_u64(y.exit_epoch)).len(), enc_u64(y.withdrawal_epoch)),
        holds(b, i + (enc_bytes(y.pubkey@) + y.withdrawal_credentials@ + y.randao_commitment@ + enc_u64(y.randao_layers) + seq![status_tag(y.status)] + enc_u64(y.latest_status_change_slot) + enc_u64(y.exit_count) + enc_u64(y.activation_epoch) + enc_u64(y.exit_epoch) + enc_u64(y.withdrawal_epoch)).len(), enc_u64(y.penalized_epoch)),
        holds(b, i + (enc_bytes(y.pubkey@) + y.withdrawal_credentials@ + y.randao_commitment@ + enc_u64(y.randao_layers) + seq![status_tag(y.status)] + enc_u64(y.latest_status_change_slot) + enc_u64(y.exit_count) + enc_u64(y.activation_epoch) + enc_u64(y.exit_epoch) + enc_u64(y.withdrawal_epoch) + enc_u64(y.penalized_epoch)).len(), seq![flags_tag(y.status_flags)]),
        enc_validator(y) == enc_bytes(y.pubkey@) + y.withdrawal_credentials@ + y.randao_commitment@ + enc_u64(y.randao_layers) + seq![status_tag(y.status)] + enc_u64(y.latest_status_change_slot) + enc_u64(y.exit_count) + enc_u64(y.activation_epoch) + enc_u64(y.exit_epoch) + enc_u64(y.withdrawal_epoch) + enc_u64(y.penalized_epoch) + seq![flags_tag(y.status_flags)],
{
    assert(enc_validator(y) == enc_bytes(y.pubkey@) + y.withdrawal_credentials@ + y.randao_commitment@ + enc_u64(y.randao_layers) + seq![status_tag(y.status)] + enc_u64(y.latest_status_change_slot) + enc_u64(y.exit_count) + enc_u64(y.activation_epoch) + enc_u64(y.exit_epoch) + enc_u64(y.withdrawal_epoch) + enc_u64(y.penalized_epoch) + seq![flags_tag(y.status_flags)]);
    lemma_holds_concat(b, i, enc_bytes(y.pubkey@) + y.withdrawal_credentials@ + y.randao_commitment@ + enc_u64(y.randao_layers) + seq![status_tag(y.status)] + enc_u64(y.latest_status_change_slot) + enc_u64(y.exit_count) + enc_u64(y.activation_epoch) + enc_u64(y.exit_epoch) + enc_u64(y.withdrawal_epoch) + enc_u64(y.penalized_epoch), seq![flags_tag(y.status_flags)]);
    lemma_holds_concat(b, i, enc_bytes(y.pubkey@) + y.withdrawal_credentials@ + y.randao_commitment@ + enc_u64(y.randao_layers) + seq![status_tag(y.status)] + enc_u64(y.latest_status_change_slot) + enc_u64(y.exit_count) + enc_u64(y.activation_epoch) + enc_u64(y.exit_epoch) + enc_u64(y.withdrawal_epoch), enc_u64(y.penalized_epoch));
    lemma_holds_concat(b, i, enc_bytes(y.pubkey@) + y.withdrawal_credentials@ + y.randao_commitment@ + enc_u64(y.randao_layers) + seq![status_tag(y.status)] + enc_u64(y.latest_status_change_slot) + enc_u64(y.exit_count) + enc_u64(y.activation_epoch) + enc_u64(y.exit_epoch), enc_u64(y.withdrawal_epoch));
    lemma_holds_concat(b, i, enc_bytes(y.pubkey@) + y.withdrawal_credentials@ + y.randao_commitment@ + enc_u64(y.randao_layers) + seq![status_tag(y.status)] + enc_u64(y.latest_status_change_slot) + enc_u64(y.exit_count) + enc_u64(y.activation_epoch), enc_u64(y.exit_epoch));
    lemma_holds_concat(b, i, enc_bytes(y.pubkey@) + y.withdrawal_credentials@ + y.randao_commitment@ + enc_u64(y.randao_layers) + seq![status_tag(y.status)] + enc_u64(y.latest_status_change_slot) + enc_u64(y.exit_count), enc_u64(y.activation_epoch));
    lemma_holds_concat(b, i, enc_bytes(y.pubkey@) + y.withdrawal_credentials@ + y.randao_commitment@ + enc_u64(y.randao_layers) + seq![status_tag(y.status)] + enc_u64(y.latest_status_change_slot), enc_u64(y.exit_count));
    lemma_holds_concat(b, i, enc_bytes(y.pubkey@) + y.withdrawal_credentials@ + y.randao_commitment@ + enc_u64(y.randao_layers) + seq![status_tag(y.status)], enc_u64(y.latest_status_change_slot));
    lemma_holds_concat(b, i, enc_bytes(y.pubkey@) + y.withdrawal_credentials@ + y.randao_commitment@ + enc_u64(y.randao_layers), seq![status_tag(y.status)]);
    lemma_holds_concat(b, i, enc_bytes(y.pubkey@) + y.withdrawal_credentials@ + y.randao_commitment@, enc_u64(y.randao_layers));
    lemma_holds_concat(b, i, enc_bytes(y.pubkey@) + y.withdrawal_credentials@, y.randao_commitment@);
    lemma_holds_concat(b, i, enc_bytes(y.pubkey@), y.withdrawal_credentials@);
}

proof fn lemma_parts_crosslink(b: Seq<u8>, i: int, y: Crosslink)
    requires
        holds(b, i, enc_crosslink(y)),
    ensures
        holds(b, i, enc_u64(y.epoch)),
        holds(b, i + (enc_u64(y.epoch)).len(), y.shard_block_root@),
        enc_crosslink(y) == enc_u64(y.epoch) + y.shard_block_root@,
{
    assert(enc_crosslink(y) == enc_u64(y.epoch) + y.shard_block_root@);
    lemma_holds_concat(b, i, enc_u64(y.epoch), y.shard_block_root@);
}

proof fn lemma_parts_attestation_data(b: Seq<u8>, i: int, y: AttestationData)
    requires
        holds(b, i, enc_attestation_data(y)),
    ensures
        holds(b, i, enc_u64(y.slot)),
        holds(b, i + (enc_u64(y.slot)).len(), enc_u64(y.shard)),
        holds(b, i + (enc_u64(y.slot) + enc_u64(y.shard)).len(), y.beacon_block_root@),
        holds(b, i + (enc_u64(y.slot) + enc_u64(y.shard) + y.beacon_block_root@).len(), y.epoch_boundary_root@),
        holds(b, i + (enc_u64(y.slot) + enc_u64(y.shard) + y.beacon_block_root@ + y.epoch_boundary_root@).len(), y.shard_block_root@),
        holds(b, i + (enc_u64(y.slot) + enc_u64(y.shard) + y.beacon_block_root@ + y.epoch_boundary_root@ + y.shard_block_root@).len(), enc_crosslink(y.latest_crosslink)),
        holds(b, i + (enc_u64(y.slot) + enc_u64(y.shard) + y.beacon_block_root@ + y.epoch_boundary_root@ + y.shard_block_root@ + enc_crosslink(y.latest_crosslink)).len(), enc_u64(y.justified_epoch)),
        holds(b, i + (enc_u64(y.slot) + enc_u64(y.shard) + y.beacon_block_root@ + y.epoch_boundary_root@ + y.shard_block_root@ + enc_crosslink(y.latest_crosslink) + enc_u64(y.justified_epoch)).len(), y.justified_block_root@),
        enc_attestation_data(y) == enc_u64(y.slot) + enc_u64(y.shard) + y.beacon_block_root@ + y.epoch_boundary_root@ + y.shard_block_root@ + enc_crosslink(y.latest_crosslink) + enc_u64(y.justified_epoch) + y.justified_block_root@,
{
    assert(enc_attestation_data(y) == enc_u64(y.slot) + enc_u64(y.shard) + y.beacon_block_root@ + y.epoch_boundary_root@ + y.shard_block_root@ + enc_crosslink(y.latest_crosslink) + enc_u64(y.justified_epoch) + y.justified_block_root@);
    lemma_holds_concat(b, i, enc_u64(y.slot) + enc_u64(y.shard) + y.beacon_block_root@ + y.epoch_boundary_root@ + y.shard_block_root@ + enc_crosslink(y.latest_crosslink) + enc_u64(y.justified_epoch), y.justified_block_root@);
    lemma_holds_concat(b, i, enc_u64(y.slot) + enc_u64(y.shard) + y.beacon_block_root@ + y.epoch_boundary_root@ + y.shard_block_root@ + enc_crosslink(y.latest_crosslink), enc_u64(y.justified_epoch));
    lemma_holds_concat(b, i, enc_u64(y.slot) + enc_u64(y.shard) + y.beacon_block_root@ + y.epoch_boundary_root@ + y.shard_block_root@, enc_crosslink(y.latest_crosslink));
    lemma_holds_concat(b, i, enc_u64(y.slot) + enc_u64(y.shard) + y.beacon_block_root@ + y.epoch_boundary_root@, y.shard_block_root@);
    lemma_holds_concat(b, i, enc_u64(y.slot) + enc_u64(y.shard) + y.beacon_block_root@, y.epoch_boundary_root@);
    lemma_holds_concat(b, i, enc_u64(y.slot) + enc_u64(y.shard), y.beacon_block_root@);
    lemma_holds_concat(b, i, (enc_u64(y.slot)), enc_u64(y.shard));
}

proof fn lemma_parts_pending(b: Seq<u8>, i: int, y: PendingAttestation)
    requires
        holds(b, i, enc_pending(y)),
    ensures
        holds(b, i, enc_attestation_data(y.data)),
        holds(b, i + (enc_attestation_data(y.data)).len(), enc_bytes(y.aggregation_bitfield@)),
        holds(b, i + (enc_attestation_data(y.data) + enc_bytes(y.aggregation_bitfield@)).len(), enc_bytes(y.custody_bitfield@)),
        holds(b, i + (enc_attestation_data(y.data) + enc_bytes(y.aggregation_bitfield@) + enc_bytes(y.custody_bitfield@)).len(), enc_u64(y.inclusion_slot)),
        enc_pending(y) == enc_attestation_data(y.data) + enc_bytes(y.aggregation_bitfield@) + enc_bytes(y.custody_bitfield@) + enc_u64(y.inclusion_slot),
{
    assert(enc_pending(y) == enc_attestation_data(y.data) + enc_bytes(y.aggregation_bitfield@) + enc_bytes(y.custody_bitfield@) + enc_u64(y.inclusion_slot));
    lemma_holds_concat(b, i, enc_attestation_data(y.data) + enc_bytes(y.aggregation_bitfield@) + enc_bytes(y.custody_bitfield@), enc_u64(y.inclusion_slot));
    lemma_holds_concat(b, i, enc_attestation_data(y.data) + enc_bytes(y.aggregation_bitfield@), enc_bytes(y.custody_bitfield@));
    lemma_holds_concat(b, i, enc_attestation_data(y.data), enc_bytes(y.aggregation_bitfield@));
}

proof fn lemma_parts_deposit(b: Seq<u8>, i: int, y: DepositInput)
    requires
        holds(b, i, enc_deposit_input(y)),
    ensures
        holds(b, i, enc_bytes(y.pubkey@)),
        holds(b, i + (enc_bytes(y.pubkey@)).len(), y.withdrawal_credentials@),
        holds(b, i + (enc_bytes(y.pubkey@) + y.withdrawal_credentials@).len(), y.randao_commitment@),
        holds(b, i + (enc_bytes(y.pubkey@) + y.withdrawal_credentials@ + y.randao_commitment@).len(), enc_bytes(y.proof_of_possession@)),
        enc_deposit_input(y) == enc_bytes(y.pubkey@) + y.withdrawal_credentials@ + y.randao_commitment@ + enc_bytes(y.proof_of_possession@),
{
    assert(enc_deposit_input(y) == enc_bytes(y.pubkey@) + y.withdrawal_credentials@ + y.randao_commitment@ + enc_bytes(y.proof_of_possession@));
    lemma_holds_concat(b, i, enc_bytes(y.pubkey@) + y.withdrawal_credentials@ + y.randao_commitment@, enc_bytes(y.proof_of_possession@));
    lemma_holds_concat(b, i, enc_bytes(y.pubkey@) + y.withdrawal_credentials@, y.randao_commitment@);
    lemma_holds_concat(b, i, enc_bytes(y.pubkey@), y.withdrawal_credentials@);
}

pub open spec fn state_prefix_1(y: &BeaconState) -> Seq<u8> {
    enc_u64(y.slot)
}

pub open spec fn state_prefix_2(y: &BeaconState) -> Seq<u8> {
    state_prefix_1(y) + enc_u64(y.genesis_time)
}

pub open spec fn state_prefix_3(y: &BeaconState) -> Seq<u8> {
    state_prefix_2(y) + enc_fork(y.fork)
}

pub open spec fn state_prefix_4(y: &BeaconState) -> Seq<u8> {
    state_prefix_3(y) + with_len(cat_validator(y.validator_registry@))
}

pub open spec fn state_prefix_5(y: &BeaconState) -> Seq<u8> {
    state_prefix_4(y) + with_len(cat_u64(y.validator_balances@))
}

pub open spec fn state_prefix_6(y: &BeaconState) -> Seq<u8> {
    state_prefix_5(y) + enc_u64(y.validator_registry_update_epoch)
}

pub open spec fn state_prefix_7(y: &BeaconState) -> Seq<u8> {
    state_prefix_6(y) + with_len(cat_hash(y.latest_randao_mixes@))
}

pub open spec fn state_prefix_8(y: &BeaconState) -> Seq<u8> {
    state_prefix_7(y) + enc_u64(y.previous_epoch_start_shard)
}

pub open spec fn state_prefix_9(y: &BeaconState) -> Seq<u8> {
    state_prefix_8(y) + enc_u64(y.current_epoch_start_shard)
}

pub open spec fn state_prefix_10(y: &BeaconState) -> Seq<u8> {
    state_prefix_9(y) + enc_u64(y.previous_calculation_epoch)
}

pub open spec fn state_prefix_11(y: &BeaconState) -> Seq<u8> {
    state_prefix_10(y) + enc_u64(y.current_calculation_epoch)
}

pub open spec fn state_prefix_12(y: &BeaconState) -> Seq<u8> {
    state_prefix_11(y) + y.previous_epoch_seed@
}

pub open spec fn state_prefix_13(y: &BeaconState) -> Seq<u8> {
    state_prefix_12(y) + y.current_epoch_seed@
}

pub open spec fn state_prefix_14(y: &BeaconState) -> Seq<u8> {
    state_prefix_13(y) + enc_u64(y.previous_justified_epoch)
}

pub open spec fn state_prefix_15(y: &BeaconState) -> Seq<u8> {
    state_prefix_14(y) + enc_u64(y.justified_epoch)
}

pub open spec fn state_prefix_16(y: &BeaconState) -> Seq<u8> {
    state_prefix_15(y) + enc_u64(y.justification_bitfield)
}

pub open spec fn state_prefix_17(y: &BeaconState) -> Seq<u8> {
    state_prefix_16(y) + enc_u64(y.finalized_epoch)
}

pub open spec fn state_prefix_18(y: &BeaconState) -> Seq<u8> {
    state_prefix_17(y) + with_len(cat_crosslink(y.latest_crosslinks@))
}

pub open spec fn state_prefix_19(y: &BeaconState) -> Seq<u8> {
    state_prefix_18(y) + with_len(cat_hash(y.latest_block_roots@))
}

pub open spec fn state_prefix_20(y: &BeaconState) -> Seq<u8> {
    state_prefix_19(y) + with_len(cat_u64(y.latest_penalized_balances@))
}

pub open spec fn state_prefix_21(y: &BeaconState) -> Seq<u8> {
    state_prefix_20(y) + with_len(cat_pending(y.latest_attestations@))
}

pub open spec fn state_prefix_22(y: &BeaconState) -> Seq<u8> {
    state_prefix_21(y) + with_len(cat_hash(y.batched_block_roots@))
}

proof fn lemma_parts_state(b: Seq<u8>, i: int, y: &BeaconState)
    requires
        holds(b, i, enc_state(y)),
    ensures
        holds(b, i, enc_u64(y.slot)),
        holds(b, i + state_prefix_1(y).len(), enc_u64(y.genesis_time)),
        holds(b, i + state_prefix_2(y).len(), enc_fork(y.fork)),
        holds(b, i + state_prefix_3(y).len(), with_len(cat_validator(y.validator_registry@))),
        holds(b, i + state_prefix_4(y).len(), with_len(cat_u64(y.validator_balances@))),
        holds(b, i + state_prefix_5(y).len(), enc_u64(y.validator_registry_update_epoch)),
        holds(b, i + state_prefix_6(y).len(), with_len(cat_hash(y.latest_randao_mixes@))),
        holds(b, i + state_prefix_7(y).len(), enc_u64(y.previous_epoch_start_shard)),
        holds(b, i + state_prefix_8(y).len(), enc_u64(y.current_epoch_start_shard)),
        holds(b, i + state_prefix_9(y).len(), enc_u64(y.previous_calculation_epoch)),
        holds(b, i + state_prefix_10(y).len(), enc_u64(y.current_calculation_epoch)),
        holds(b, i + state_prefix_11(y).len(), y.previous_epoch_seed@),
        holds(b, i + state_prefix_12(y).len(), y.current_epoch_seed@),
        holds(b, i + state_prefix_13(y).len(), enc_u64(y.previous_justified_epoch)),
        holds(b, i + state_prefix_14(y).len(), enc_u64(y.justified_epoch)),
        holds(b, i + state_prefix_15(y).len(), enc_u64(y.justification_bitfield)),
        holds(b, i + state_prefix_16(y).len(), enc_u64(y.finalized_epoch)),
        holds(b, i + state_prefix_17(y).len(), with_len(cat_crosslink(y.latest_crosslinks@))),
        holds(b, i + state_prefix_18(y).len(), with_len(cat_hash(y.latest_block_roots@))),
        holds(b, i + state_prefix_19(y).len(), with_len(cat_u64(y.latest_penalized_balances@))),
        holds(b, i + state_prefix_20(y).len(), with_len(cat_pending(y.latest_attestations@))),
        holds(b, i + state_prefix_21(y).len(), with_len(cat_hash(y.batched_block_roots@))),
        enc_state(y) == state_prefix_22(y),
{
    assert(enc_state(y) == state_prefix_22(y));
    lemma_holds_concat(b, i, state_prefix_21(y), with_len(cat_hash(y.batched_block_roots@)));
    lemma_holds_concat(b, i, state_prefix_20(y), with_len(cat_pending(y.latest_attestations@)));
    lemma_holds_concat(b, i, state_prefix_19(y), with_len(cat_u64(y.latest_penalized_balances@)));
    lemma_holds_concat(b, i, state_prefix_18(y), with_len(cat_hash(y.latest_block_roots@)));
    lemma_holds_concat(b, i, state_prefix_17(y), with_len(cat_crosslink(y.latest_crosslinks@)));
    lemma_holds_concat(b, i, state_prefix_16(y), enc_u64(y.finalized_epoch));
    lemma_holds_concat(b, i, state_prefix_15(y), enc_u64(y.justification_bitfield));
    lemma_holds_concat(b, i, state_prefix_14(y), enc_u64(y.justified_epoch));
    lemma_holds_concat(b, i, state_prefix_13(y), enc_u64(y.previous_justified_epoch));
    lemma_holds_concat(b, i, state_prefix_12(y), y.current_epoch_seed@);
    lemma_holds_concat(b, i, state_prefix_11(y), y.previous_epoch_seed@);
    lemma_holds_concat(b, i, state_prefix_10(y), enc_u64(y.current_calculation_epoch));
    lemma_holds_concat(b, i, state_prefix_9(y), enc_u64(y.previous_calculation_epoch));
    lemma_holds_concat(b, i, state_prefix_8(y), enc_u64(y.current_epoch_start_shard));
    lemma_holds_concat(b, i, state_prefix_7(y), enc_u64(y.previous_epoch_start_shard));
    lemma_holds_concat(b, i, state_prefix_6(y), with_len(cat_hash(y.latest_randao_mixes@)));
    lemma_holds_concat(b, i, state_prefix_5(y), enc_u64(y.validator_registry_update_epoch));
    lemma_holds_concat(b, i, state_prefix_4(y), with_len(cat_u64(y.validator_balances@)));
    lemma_holds_concat(b, i, state_prefix_3(y), with_len(cat_validator(y.validator_registry@)));
    lemma_holds_concat(b, i, state_prefix_2(y), enc_fork(y.fork));
    lemma_holds_concat(b, i, state_prefix_1(y), enc_u64(y.genesis_time));
}

pub open spec fn state_tail_prefix_1(y: &BeaconState) -> Seq<u8> {
    y.previous_epoch_seed@
}

pub open spec fn state_tail_prefix_2(y: &BeaconState) -> Seq<u8> {
    state_tail_prefix_1(y) + y.current_epoch_seed@
}

pub open spec fn state_tail_prefix_3(y: &BeaconState) -> Seq<u8> {
    state_tail_prefix_2(y) + enc_u64(y.previous_justified_epoch)
}

pub open spec fn state_tail_prefix_4(y: &BeaconState) -> Seq<u8> {
    state_tail_prefix_3(y) + enc_u64(y.justified_epoch)
}

pub open spec fn state_tail_prefix_5(y: &BeaconState) -> Seq<u8> {
    state_tail_prefix_4(y) + enc_u64(y.justification_bitfield)
}

pub open spec fn state_tail_prefix_6(y: &BeaconState) -> Seq<u8> {
    state_tail_prefix_5(y) + enc_u64(y.finalized_epoch)
}

pub open spec fn state_tail_prefix_7(y: &BeaconState) -> Seq<u8> {
    state_tail_prefix_6(y) + with_len(cat_crosslink(y.latest_crosslinks@))
}

pub open spec fn state_tail_prefix_8(y: &BeaconState) -> Seq<u8> {
    state_tail_prefix_7(y) + with_len(cat_hash(y.latest_block_roots@))
}

pub open spec fn state_tail_prefix_9(y: &BeaconState) -> Seq<u8> {
    state_tail_prefix_8(y) + with_len(cat_u64(y.latest_penalized_balances@))
}

pub open spec fn state_tail_prefix_10(y: &BeaconState) -> Seq<u8> {
    state_tail_prefix_9(y) + with_len(cat_pending(y.latest_attestations@))
}

pub open spec fn state_tail_prefix_11(y: &BeaconState) -> Seq<u8> {
    state_tail_prefix_10(y) + with_len(cat_hash(y.batched_block_roots@))
}

proof fn lemma_state_head_tail(y: &BeaconState)
    ensures
        enc_state(y) == state_prefix_11(y) + state_tail_prefix_11(y),
{
    assert(enc_state(y) =~= state_prefix_11(y) + state_tail_prefix_11(y));
}

proof fn lemma_parts_state_head(b: Seq<u8>, i: int, y: &BeaconState)
    requires
        holds(b, i, state_prefix_11(y)),
    ensures
        holds(b, i, enc_u64(y.slot)),
        holds(b, i + state_prefix_1(y).len(), enc_u64(y.genesis_time)),
        holds(b, i + state_prefix_2(y).len(), enc_fork(y.fork)),
        holds(b, i + state_prefix_3(y).len(), with_len(cat_validator(y.validator_registry@))),
        holds(b, i + state_prefix_4(y).len(), with_len(cat_u64(y.validator_balances@))),
        holds(b, i + state_prefix_5(y).len(), enc_u64(y.validator_registry_update_epoch)),
        holds(b, i + state_prefix_6(y).len(), with_len(cat_hash(y.latest_randao_mixes@))),
        holds(b, i + state_prefix_7(y).len(), enc_u64(y.previous_epoch_start_shard)),
        holds(b, i + state_prefix_8(y).len(), enc_u64(y.current_epoch_start_shard)),
        holds(b, i + state_prefix_9(y).len(), enc_u64(y.previous_calculation_epoch)),
        holds(b, i + state_prefix_10(y).len(), enc_u64(y.current_calculation_epoch)),
{
    lemma_holds_concat(b, i, state_prefix_10(y), enc_u64(y.current_calculation_epoch));
    lemma_holds_concat(b, i, state_prefix_9(y), enc_u64(y.previous_calculation_epoch));
    lemma_holds_concat(b, i, state_prefix_8(y), enc_u64(y.current_epoch_start_shard));
    lemma_holds_concat(b, i, state_prefix_7(y), enc_u64(y.previous_epoch_start_shard));
    lemma_holds_concat(b, i, state_prefix_6(y), with_len(cat_hash(y.latest_randao_mixes@)));
    lemma_holds_concat(b, i, state_prefix_5(y), enc_u64(y.validator_registry_update_epoch));
    lemma_holds_concat(b, i, state_prefix_4(y), with_len(cat_u64(y.validator_balances@)));
    lemma_holds_concat(b, i, state_prefix_3(y), with_len(cat_validator(y.validator_registry@)));
    lemma_holds_concat(b, i, state_prefix_2(y), enc_fork(y.fork));
    lemma_holds_concat(b, i, state_prefix_1(y), enc_u64(y.genesis_time));
}

proof fn lemma_parts_state_tail(b: Seq<u8>, i: int, y: &BeaconState)
    requires
        holds(b, i, state_tail_prefix_11(y)),
    ensures
        holds(b, i, y.previous_epoch_seed@),
        holds(b, i + state_tail_prefix_1(y).len(), y.current_epoch_seed@),
        holds(b, i + state_tail_prefix_2(y).len(), enc_u64(y.previous_justified_epoch)),
        holds(b, i + state_tail_prefix_3(y).len(), enc_u64(y.justified_epoch)),
        holds(b, i + state_tail_prefix_4(y).len(), enc_u64(y.justification_bitfield)),
        holds(b, i + state_tail_prefix_5(y).len(), enc_u64(y.finalized_epoch)),
        holds(b, i + state_tail_prefix_6(y).len(), with_len(cat_crosslink(y.latest_crosslinks@))),
        holds(b, i + state_tail_prefix_7(y).len(), with_len(cat_hash(y.latest_block_roots@))),
        holds(b, i + state_tail_prefix_8(y).len(), with_len(cat_u64(y.latest_penalized_balances@))),
        holds(b, i + state_tail_prefix_9(y).len(), with_len(cat_pending(y.latest_attestations@))),
        holds(b, i + state_tail_prefix_10(y).len(), with_len(cat_hash(y.batched_block_roots@))),
{
    lemma_holds_concat(b, i, state_tail_prefix_10(y), with_len(cat_hash(y.batched_block_roots@)));
    lemma_holds_concat(b, i, state_tail_prefix_9(y), with_len(cat_pending(y.latest_attestations@)));
    lemma_holds_concat(b, i, state_tail_prefix_8(y), with_len(cat_u64(y.latest_penalized_balances@)));
    lemma_holds_concat(b, i, state_tail_prefix_7(y), with_len(cat_hash(y.latest_block_roots@)));
    lemma_holds_concat(b, i, state_tail_prefix_6(y), with_len(cat_crosslink(y.latest_crosslinks@)));
    lemma_holds_concat(b, i, state_tail_prefix_5(y), enc_u64(y.finalized_epoch));
    lemma_holds_concat(b, i, state_tail_prefix_4(y), enc_u64(y.justification_bitfield));
    lemma_holds_concat(b, i, state_tail_prefix_3(y), enc_u64(y.justified_epoch));
    lemma_holds_concat(b, i, state_tail_prefix_2(y), enc_u64(y.previous_justified_epoch));
    lemma_holds_concat(b, i, state_tail_prefix_1(y), y.current_epoch_seed@);
}

#[verifier::rlimit(100)]
fn decode_state_head(bytes: &[u8], i: usize) -> (r: Result<((u64, u64, Fork, Vec<Validator>, Vec<u64>, u64, Vec<Hash256>, u64, u64, u64, u64), usize), DecodeError>)
    ensures
        r is Ok ==> i <= r->Ok_0.1 <= bytes@.len(),
        forall|y: BeaconState| #[trigger] holds(bytes@, i as int, state_prefix_11(&y)) ==> r is Ok && r->Ok_0.1 == i + state_prefix_11(&y).len()
            && r->Ok_0.0.0 == y.slot
            && r->Ok_0.0.1 == y.genesis_time
            && r->Ok_0.0.2 == y.fork
            && seq_same_validator(r->Ok_0.0.3@, y.validator_registry@)
            && r->Ok_0.0.4@ == y.validator_balances@
            && r->Ok_0.0.5 == y.validator_registry_update_epoch
            && r->Ok_0.0.6@ == y.latest_randao_mixes@
            && r->Ok_0.0.7 == y.previous_epoch_start_shard
            && r->Ok_0.0.8 == y.current_epoch_start_shard
            && r->Ok_0.0.9 == y.previous_calculation_epoch
            && r->Ok_0.0.10 == y.current_calculation_epoch,
{
    let _blen = bytes.len();
    let pos0 = i;
    let (v_slot, pos1) = match decode_u64(bytes, pos0) {
        Ok(x) => x,
        Err(e) => {
            proof {
                assert forall|y: BeaconState| !#[trigger] holds(bytes@, i as int, state_prefix_11(&y)) by {
                    if holds(bytes@, i as int, state_prefix_11(&y)) {
                        lemma_parts_state_head(bytes@, i as int, &y);
                    }
                }
            }
            return Err(e);
        },
    };
    proof {
        assert forall|y: BeaconState| #[trigger] holds(bytes@, i as int, state_prefix_11(&y)) implies pos1 == i + state_prefix_1(&y).len() && v_slot == y.slot by {
            lemma_parts_state_head(bytes@, i as int, &y);
        }
    }
    let (v_genesis_time, pos2) = match decode_u64(bytes, pos1) {
        Ok(x) => x,
        Err(e) => {
            proof {
                assert forall|y: BeaconState| !#[trigger] holds(bytes@, i as int, state_prefix_11(&y)) by {
                    if holds(bytes@, i as int, state_prefix_11(&y)) {
                        lemma_parts_state_head(bytes@, i as int, &y);
                    }
                }
            }
            return Err(e);
        },
    };
    proof {
        assert forall|y: BeaconState| #[trigger] holds(bytes@, i as int, state_prefix_11(&y)) implies pos2 == i + state_prefix_2(&y).len() && v_genesis_time == y.genesis_time by {
            lemma_parts_state_head(bytes@, i as int, &y);
        }
    }
    let (v_fork, pos3) = match Fork::ssz_decode(bytes, pos2) {
        Ok(x) => x,
        Err(e) => {
            proof {
                assert forall|y: BeaconState| !#[trigger] holds(bytes@, i as int, state_prefix_11(&y)) by {
                    if holds(bytes@, i as int, state_prefix_11(&y)) {
                        lemma_parts_state_head(bytes@, i as int, &y);
                    }
                }
            }
            return Err(e);
        },
    };
    proof {
        assert forall|y: BeaconState| #[trigger] holds(bytes@, i as int, state_prefix_11(&y)) implies pos3 == i + state_prefix_3(&y).len() && v_fork == y.fork by {
            lemma_parts_state_head(bytes@, i as int, &y);
        }
    }
    let (v_validator_registry, pos4) = match decode_validator_list(bytes, pos3) {
        Ok(x) => x,
        Err(e) => {
            proof {
                assert forall|y: BeaconState| !#[trigger] holds(bytes@, i as int, state_prefix_11(&y)) by {
                    if holds(bytes@, i as int, state_prefix_11(&y)) {
                        lemma_parts_state_head(bytes@, i as int, &y);
                    }
                }
            }
            return Err(e);
        },
    };
    proof {
        assert forall|y: BeaconState| #[trigger] holds(bytes@, i as int, state_prefix_11(&y)) implies pos4 == i + state_prefix_4(&y).len() && seq_same_validator(v_validator_registry@, y.validator_registry@) by {
            lemma_parts_state_head(bytes@, i as int, &y);
        }
    }
    let (v_validator_balances, pos5) = match decode_u64_list(bytes, pos4) {
        Ok(x) => x,
        Err(e) => {
            proof {
                assert forall|y: BeaconState| !#[trigger] holds(bytes@, i as int, state_prefix_11(&y)) by {
                    if holds(bytes@, i as int, state_prefix_11(&y)) {
                        lemma_parts_state_head(bytes@, i as int, &y);
                    }
                }
            }
            return Err(e);
        },
    };
    proof {
        assert forall|y: BeaconState| #[trigger] holds(bytes@, i as int, state_prefix_11(&y)) implies pos5 == i + state_prefix_5(&y).len() && v_validator_balances@ == y.validator_balances@ by {
            lemma_parts_state_head(bytes@, i as int, &y);
        }
    }
    let (v_validator_registry_update_epoch, pos6) = match decode_u64(bytes, pos5) {
        Ok(x) => x,
        Err(e) => {
            proof {
                assert forall|y: BeaconState| !#[trigger] holds(bytes@, i as int, state_prefix_11(&y)) by {
                    if holds(bytes@, i as int, state_prefix_11(&y)) {
                        lemma_parts_state_head(bytes@, i as int, &y);
                    }
                }
            }
            return Err(e);
        },
    };
    proof {
        assert forall|y: BeaconState| #[trigger] holds(bytes@, i as int, state_prefix_11(&y)) implies pos6 == i + state_prefix_6(&y).len() && v_validator_registry_update_epoch == y.validator_registry_update_epoch by {
            lemma_parts_state_head(bytes@, i as int, &y);
        }
    }
    let (v_latest_randao_mixes, pos7) = match decode_hash_list(bytes, pos6) {
        Ok(x) => x,
        Err(e) => {
            proof {
                assert forall|y: BeaconState| !#[trigger] holds(bytes@, i as int, state_prefix_11(&y)) by {
                    if holds(bytes@, i as int, state_prefix_11(&y)) {
                        lemma_parts_state_head(bytes@, i as int, &y);
                    }
                }
            }
            return Err(e);
        },
    };
    proof {
        assert forall|y: BeaconState| #[trigger] holds(bytes@, i as int, state_prefix_11(&y)) implies pos7 == i + state_prefix_7(&y).len() && v_latest_randao_mixes@ == y.latest_randao_mixes@ by {
            lemma_parts_state_head(bytes@, i as int, &y);
        }
    }
    let (v_previous_epoch_start_shard, pos8) = match decode_u64(bytes, pos7) {
        Ok(x) => x,
        Err(e) => {
            proof {
                assert forall|y: BeaconState| !#[trigger] holds(bytes@, i as int, state_prefix_11(&y)) by {
                    if holds(bytes@, i as int, state_prefix_11(&y)) {
                        lemma_parts_state_head(bytes@, i as int, &y);
                    }
                }
            }
            return Err(e);
        },
    };
    proof {
        assert forall|y: BeaconState| #[trigger] holds(bytes@, i as int, state_prefix_11(&y)) implies pos8 == i + state_prefix_8(&y).len() && v_previous_epoch_start_shard == y.previous_epoch_start_shard by {
            lemma_parts_state_head(bytes@, i as int, &y);
        }
    }
    let (v_current_epoch_start_shard, pos9) = match decode_u64(bytes, pos8) {
        Ok(x) => x,
        Err(e) => {
            proof {
                assert forall|y: BeaconState| !#[trigger] holds(bytes@, i as int, state_prefix_11(&y)) by {
                    if holds(bytes@, i as int, state_prefix_11(&y)) {
                        lemma_parts_state_head(bytes@, i as int, &y);
                    }
                }
            }
            return Err(e);
        },
    };
    proof {
        assert forall|y: BeaconState| #[trigger] holds(bytes@, i as int, state_prefix_11(&y)) implies pos9 == i + state_prefix_9(&y).len() && v_current_epoch_start_shard == y.current_epoch_start_shard by {
            lemma_parts_state_head(bytes@, i as int, &y);
        }
    }
    let (v_previous_calculation_epoch, pos10) = match decode_u64(bytes, pos9) {
        Ok(x) => x,
        Err(e) => {
            proof {
                assert forall|y: BeaconState| !#[trigger] holds(bytes@, i as int, state_prefix_11(&y)) by {
                    if holds(bytes@, i as int, state_prefix_11(&y)) {
                        lemma_parts_state_head(bytes@, i as int, &y);
                    }
                }
            }
            return Err(e);
        },
    };
    proof {
        assert forall|y: BeaconState| #[trigger] holds(bytes@, i as int, state_prefix_11(&y)) implies pos10 == i + state_prefix_10(&y).len() && v_previous_calculation_epoch == y.previous_calculation_epoch by {
            lemma_parts_state_head(bytes@, i as int, &y);
        }
    }
    let (v_current_calculation_epoch, pos11) = match decode_u64(bytes, pos10) {
        Ok(x) => x,
        Err(e) => {
            proof {
                assert forall|y: BeaconState| !#[trigger] holds(bytes@, i as int, state_prefix_11(&y)) by {
                    if holds(bytes@, i as int, state_prefix_11(&y)) {
                        lemma_parts_state_head(bytes@, i as int, &y);
                    }
                }
            }
            return Err(e);
        },
    };
    proof {
        assert forall|y: BeaconState| #[trigger] holds(bytes@, i as int, state_prefix_11(&y)) implies pos11 == i + state_prefix_11(&y).len() && v_current_calculation_epoch == y.current_calculation_epoch by {
            lemma_parts_state_head(bytes@, i as int, &y);
        }
    }
    Ok(((v_slot, v_genesis_time, v_fork, v_validator_registry, v_validator_balances, v_validator_registry_update_epoch, v_latest_randao_mixes, v_previous_epoch_start_shard, v_current_epoch_start_shard, v_previous_calculation_epoch, v_current_calculation_epoch), pos11))
}

#[verifier::rlimit(100)]
fn decode_state_tail(bytes: &[u8], i: usize) -> (r: Result<((Hash256, Hash256, u64, u64, u64, u64, Vec<Crosslink>, Vec<Hash256>, Vec<u64>, Vec<PendingAttestation>, Vec<Hash256>), usize), DecodeError>)
    ensures
        r is Ok ==> i <= r->Ok_0.1 <= bytes@.len(),
        forall|y: BeaconState| #[trigger] holds(bytes@, i as int, state_tail_prefix_11(&y)) ==> r is Ok && r->Ok_0.1 == i + state_tail_prefix_11(&y).len()
            && r->Ok_0.0.0 == y.previous_epoch_seed
            && r->Ok_0.0.1 == y.current_epoch_seed
            && r->Ok_0.0.2 == y.previous_justified_epoch
            && r->Ok_0.0.3 == y.justified_epoch
            && r->Ok_0.0.4 == y.justification_bitfield
            && r->Ok_0.0.5 == y.finalized_epoch
            && r->Ok_0.0.6@ == y.latest_crosslinks@
            && r->Ok_0.0.7@ == y.latest_block_roots@
            && r->Ok_0.0.8@ == y.latest_penalized_balances@
            && seq_same_pending(r->Ok_0.0.9@, y.latest_attestations@)
            && r->Ok_0.0.10@ == y.batched_block_roots@,
{
    let _blen = bytes.len();
    let pos0 = i;
    let (v_previous_epoch_seed, pos1) = match decode_hash(bytes, pos0) {
        Ok(x) => x,
        Err(e) => {
            proof {
                assert forall|y: BeaconState| !#[trigger] holds(bytes@, i as int, state_tail_prefix_11(&y)) by {
                    if holds(bytes@, i as int, state_tail_prefix_11(&y)) {
                        lemma_parts_state_tail(bytes@, i as int, &y);
                    }
                }
            }
            return Err(e);
        },
    };
    proof {
        assert forall|y: BeaconState| #[trigger] holds(bytes@, i as int, state_tail_prefix_11(&y)) implies pos1 == i + state_tail_prefix_1(&y).len() && v_previous_epoch_seed == y.previous_epoch_seed by {
            lemma_parts_state_tail(bytes@, i as int, &y);
        }
    }
    let (v_current_epoch_seed, pos2) = match decode_hash(bytes, pos1) {
        Ok(x) => x,
        Err(e) => {
            proof {
                assert forall|y: BeaconState| !#[trigger] holds(bytes@, i as int, state_tail_prefix_11(&y)) by {
                    if holds(bytes@, i as int, state_tail_prefix_11(&y)) {
                        lemma_parts_state_tail(bytes@, i as int, &y);
                    }
                }
            }
            return Err(e);
        },
    };
    proof {
        assert forall|y: BeaconState| #[trigger] holds(bytes@, i as int, state_tail_prefix_11(&y)) implies pos2 == i + state_tail_prefix_2(&y).len() && v_current_epoch_seed == y.current_epoch_seed by {
            lemma_parts_state_tail(bytes@, i as int, &y);
        }
    }
    let (v_previous_justified_epoch, pos3) = match decode_u64(bytes, pos2) {
        Ok(x) => x,
        Err(e) => {
            proof {
                assert forall|y: BeaconState| !#[trigger] holds(bytes@, i as int, state_tail_prefix_11(&y)) by {
                    if holds(bytes@, i as int, state_tail_prefix_11(&y)) {
                        lemma_parts_state_tail(bytes@, i as int, &y);
                    }
                }
            }
            return Err(e);
        },
    };
    proof {
        assert forall|y: BeaconState| #[trigger] holds(bytes@, i as int, state_tail_prefix_11(&y)) implies pos3 == i + state_tail_prefix_3(&y).len() && v_previous_justified_epoch == y.previous_justified_epoch by {
            lemma_parts_state_tail(bytes@, i as int, &y);
        }
    }
    let (v_justified_epoch, pos4) = match decode_u64(bytes, pos3) {
        Ok(x) => x,
        Err(e) => {
            proof {
                assert forall|y: BeaconState| !#[trigger] holds(bytes@, i as int, state_tail_prefix_11(&y)) by {
                    if holds(bytes@, i as int, state_tail_prefix_11(&y)) {
                        lemma_parts_state_tail(bytes@, i as int, &y);
                    }
                }
            }
            return Err(e);
        },
    };
    proof {
        assert forall|y: BeaconState| #[trigger] holds(bytes@, i as int, state_tail_prefix_11(&y)) implies pos4 == i + state_tail_prefix_4(&y).len() && v_justified_epoch == y.justified_epoch by {
            lemma_parts_state_tail(bytes@, i as int, &y);
        }
    }
    let (v_justification_bitfield, pos5) = match decode_u64(bytes, pos4) {
        Ok(x) => x,
        Err(e) => {
            proof {
                assert forall|y: BeaconState| !#[trigger] holds(bytes@, i as int, state_tail_prefix_11(&y)) by {
                    if holds(bytes@, i as int, state_tail_prefix_11(&y)) {
                        lemma_parts_state_tail(bytes@, i as int, &y);
                    }
                }
            }
            return Err(e);
        },
    };
    proof {
        assert forall|y: BeaconState| #[trigger] holds(bytes@, i as int, state_tail_prefix_11(&y)) implies pos5 == i + state_tail_prefix_5(&y).len() && v_justification_bitfield == y.justification_bitfield by {
            lemma_parts_state_tail(bytes@, i as int, &y);
        }
    }
    let (v_finalized_epoch, pos6) = match decode_u64(bytes, pos5) {
        Ok(x) => x,
        Err(e) => {
            proof {
                assert forall|y: BeaconState| !#[trigger] holds(bytes@, i as int, state_tail_prefix_11(&y)) by {
                    if holds(bytes@, i as int, state_tail_prefix_11(&y)) {
                        lemma_parts_state_tail(bytes@, i as int, &y);
                    }
                }
            }
            return Err(e);
        },
    };
    proof {
        assert forall|y: BeaconState| #[trigger] holds(bytes@, i as int, state_tail_prefix_11(&y)) implies pos6 == i + state_tail_prefix_6(&y).len() && v_finalized_epoch == y.finalized_epoch by {
            lemma_parts_state_tail(bytes@, i as int, &y);
        }
    }
    let (v_latest_crosslinks, pos7) = match decode_crosslink_list(bytes, pos6) {
        Ok(x) => x,
        Err(e) => {
            proof {
                assert forall|y: BeaconState| !#[trigger] holds(bytes@, i as int, state_tail_prefix_11(&y)) by {
                    if holds(bytes@, i as int, state_tail_prefix_11(&y)) {
                        lemma_parts_state_tail(bytes@, i as int, &y);
                    }
                }
            }
            return Err(e);
        },
    };
    proof {
        assert forall|y: BeaconState| #[trigger] holds(bytes@, i as int, state_tail_prefix_11(&y)) implies pos7 == i + state_tail_prefix_7(&y).len() && v_latest_crosslinks@ == y.latest_crosslinks@ by {
            lemma_parts_state_tail(bytes@, i as int, &y);
        }
    }
    let (v_latest_block_roots, pos8) = match decode_hash_list(bytes, pos7) {
        Ok(x) => x,
        Err(e) => {
            proof {
                assert forall|y: BeaconState| !#[trigger] holds(bytes@, i as int, state_tail_prefix_11(&y)) by {
                    if holds(bytes@, i as int, state_tail_prefix_11(&y)) {
                        lemma_parts_state_tail(bytes@, i as int, &y);
                    }
                }
            }
            return Err(e);
        },
    };
    proof {
        assert forall|y: BeaconState| #[trigger] holds(bytes@, i as int, state_tail_prefix_11(&y)) implies pos8 == i + state_tail_prefix_8(&y).len() && v_latest_block_roots@ == y.latest_block_roots@ by {
            lemma_parts_state_tail(bytes@, i as int, &y);
        }
    }
    let (v_latest_penalized_balances, pos9) = match decode_u64_list(bytes, pos8) {
        Ok(x) => x,
        Err(e) => {
            proof {
                assert forall|y: BeaconState| !#[trigger] holds(bytes@, i as int, state_tail_prefix_11(&y)) by {
                    if holds(bytes@, i as int, state_tail_prefix_11(&y)) {
                        lemma_parts_state_tail(bytes@, i as int, &y);
                    }
                }
            }
            return Err(e);
        },
    };
    proof {
        assert forall|y: BeaconState| #[trigger] holds(bytes@, i as int, state_tail_prefix_11(&y)) implies pos9 == i + state_tail_prefix_9(&y).len() && v_latest_penalized_balances@ == y.latest_penalized_balances@ by {
            lemma_parts_state_tail(bytes@, i as int, &y);
        }
    }
    let (v_latest_attestations, pos10) = match decode_pending_list(bytes, pos9) {
        Ok(x) => x,
        Err(e) => {
            proof {
                assert forall|y: BeaconState| !#[trigger] holds(bytes@, i as int, state_tail_prefix_11(&y)) by {
                    if holds(bytes@, i as int, state_tail_prefix_11(&y)) {
                        lemma_parts_state_tail(bytes@, i as int, &y);
                    }
                }
            }
            return Err(e);
        },
    };
    proof {
        assert forall|y: BeaconState| #[trigger] holds(bytes@, i as int, state_tail_prefix_11(&y)) implies pos10 == i + state_tail_prefix_10(&y).len() && seq_same_pending(v_latest_attestations@, y.latest_attestations@) by {
            lemma_parts_state_tail(bytes@, i as int, &y);
        }
    }
    let (v_batched_block_roots, pos11) = match decode_hash_list(bytes, pos10) {
        Ok(x) => x,
        Err(e) => {
            proof {
                assert forall|y: BeaconState| !#[trigger] holds(bytes@, i as int, state_tail_prefix_11(&y)) by {
                    if holds(bytes@, i as int, state_tail_prefix_11(&y)) {
                        lemma_parts_state_tail(bytes@, i as int, &y);
                    }
                }
            }
            return Err(e);
        },
    };
    proof {
        assert forall|y: BeaconState| #[trigger] holds(bytes@, i as int, state_tail_prefix_11(&y)) implies pos11 == i + state_tail_prefix_11(&y).len() && v_batched_block_roots@ == y.batched_block_roots@ by {
            lemma_parts_state_tail(bytes@, i as int, &y);
        }
    }
    Ok(((v_previous_epoch_seed, v_current_epoch_seed, v_previous_justified_epoch, v_justified_epoch, v_justification_bitfield, v_finalized_epoch, v_latest_crosslinks, v_latest_block_roots, v_latest_penalized_balances, v_latest_attestations, v_batched_block_roots), pos11))
}

/// Whether `enc` equals `bytes[i..end]`.
fn bytes_match(enc: &Vec<u8>, bytes: &[u8], i: usize, end: usize) -> (r: bool)
    requires
        i <= end <= bytes@.len(),
    ensures
        r == (enc@ == bytes@.subrange(i as int, end as int)),
{
    if enc.len() != end - i {
        return false;
    }
    let mut k: usize = 0;
    while k < enc.len()
        invariant
            enc@.len() == end - i,
            i <= end <= bytes@.len(),
            k <= enc@.len(),
            forall|m: int| 0 <= m < k ==> enc@[m] == bytes@[i + m],
        decreases enc@.len() - k,
    {
        if enc[k] != bytes[i + k] {
            return false;
        }
        k = k + 1;
    }
    assert(enc@ =~= bytes@.subrange(i as int, end as int));
    true
}

proof fn lemma_validator_same_enc(a: Validator, b: Validator)
    requires
        validator_same(a, b),
    ensures
        enc_validator(a) == enc_validator(b),
{
}

proof fn lemma_pending_same_enc(a: PendingAttestation, b: PendingAttestation)
    requires
        pending_same(a, b),
    ensures
        enc_pending(a) == enc_pending(b),
{
}

proof fn lemma_cat_validator_same(a: Seq<Validator>, b: Seq<Validator>)
    requires
        seq_same_validator(a, b),
    ensures
        cat_validator(a) == cat_validator(b),
    decreases a.len(),
{
    if a.len() > 0 {
        assert(seq_same_validator(a.drop_last(), b.drop_last())) by {
            assert forall|t: int| 0 <= t < a.drop_last().len() implies #[trigger] validator_same(a.drop_last()[t], b.drop_last()[t]) by {
                assert(validator_same(a[t], b[t]));
            }
        }
        lemma_cat_validator_same(a.drop_last(), b.drop_last());
        assert(validator_same(a[a.len() - 1], b[b.len() - 1]));
        lemma_validator_same_enc(a.last(), b.last());
    }
}

proof fn lemma_cat_pending_same(a: Seq<PendingAttestation>, b: Seq<PendingAttestation>)
    requires
        seq_same_pending(a, b),
    ensures
        cat_pending(a) == cat_pending(b),
    decreases a.len(),
{
    if a.len() > 0 {
        assert(seq_same_pending(a.drop_last(), b.drop_last())) by {
            assert forall|t: int| 0 <= t < a.drop_last().len() implies #[trigger] pending_same(a.drop_last()[t], b.drop_last()[t]) by {
                assert(pending_same(a[t], b[t]));
            }
        }
        lemma_cat_pending_same(a.drop_last(), b.drop_last());
        assert(pending_same(a[a.len() - 1], b[b.len() - 1]));
        lemma_pending_same_enc(a.last(), b.last());
    }
}

/// States that are the same field by field have the same encoding.
pub proof fn lemma_state_same_enc(a: &BeaconState, b: &BeaconState)
    requires
        state_same(a, b),
    ensures
        enc_state(a) == enc_state(b),
{
    lemma_cat_validator_same(a.validator_registry@, b.validator_registry@);
    lemma_cat_pending_same(a.latest_attestations@, b.latest_attestations@);
}

} // verus!
