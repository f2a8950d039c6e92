use crate::types::BeaconState;
use vstd::prelude::*;

verus! {

/// The checkpoint epochs and justification votes that justification and finalization update.
#[derive(Debug, PartialEq, Eq, Clone, Copy, Structural)]
pub struct JustificationAndFinalizationState {
    pub previous_justified_epoch: u64,
    pub justified_epoch: u64,
    pub justification_bitfield: u64,
    pub finalized_epoch: u64,
}

/// Whether `part` is at least two thirds of `total`.
pub open spec fn supermajority(part: u64, total: u64) -> bool {
    3 * (part as int) >= 2 * (total as int)
}

/// Whether bits `lo..hi` of `bits` are all set.
pub open spec fn bits_set(bits: u64, lo: u64, hi: u64) -> bool {
    forall|k: u64| lo <= k < hi ==> #[trigger] ((bits >> k) & 1) == 1
}

/// The finalized epoch after the update: the old previous justified epoch when the
/// second-to-fourth (or second and third) votes hold and it is three (or two) epochs back; the
/// old justified epoch when the first three (or two) votes hold and it is two (or one) epochs
/// back; else unchanged. Later rules win.
pub open spec fn finalized_after(bits: u64, old_prev: u64, old_cur: u64, current_epoch: u64, finalized: u64) -> u64 {
    let f1 = if bits_set(bits, 1, 4) && old_prev + 3 == current_epoch { old_prev } else { finalized };
    let f2 = if bits_set(bits, 1, 3) && old_prev + 2 == current_epoch { old_prev } else { f1 };
    let f3 = if bits_set(bits, 0, 3) && old_cur + 2 == current_epoch { old_cur } else { f2 };
    if bits_set(bits, 0, 2) && old_cur + 1 == current_epoch { old_cur } else { f3 }
}

/// The justification bitfield after the update: shifted by one epoch, with bit 1 set when the
/// previous epoch's target balance is a supermajority and bit 0 when the current one's is.
pub open spec fn bits_after(bits: u64, prev_ok: bool, cur_ok: bool) -> u64 {
    let shifted = (bits << 1u64) & !1u64;
    let b1 = if prev_ok { shifted | 2u64 } else { shifted };
    if cur_ok { b1 | 1u64 } else { b1 }
}

fn all_bits(bits: u64, lo: u64, hi: u64) -> (r: bool)
    requires
        lo <= hi <= 64,
    ensures
        r == bits_set(bits, lo, hi),
{
    let mut k = lo;
    while k < hi
        invariant
            lo <= k <= hi <= 64,
            forall|m: u64| lo <= m < k ==> #[trigger] ((bits >> m) & 1) == 1,
        decreases hi - k,
    {
        if (bits >> k) & 1 != 1 {
            return false;
        }
        k = k + 1;
    }
    true
}

/// The checkpoints after weighing `state` in `current_epoch` with the given balances: nothing
/// changes up to the epoch after genesis; otherwise the previous justified epoch takes the old
/// justified one, a supermajority of the previous (current) epoch's target balance justifies
/// that epoch, and finalization follows `finalized_after`.
pub open spec fn justification_spec(
    state: &BeaconState,
    current_epoch: u64,
    genesis_epoch: u64,
    total_active_balance: u64,
    previous_target_balance: u64,
    current_target_balance: u64,
) -> JustificationAndFinalizationState {
    if current_epoch <= genesis_epoch + 1 {
        JustificationAndFinalizationState {
            previous_justified_epoch: state.previous_justified_epoch,
            justified_epoch: state.justified_epoch,
            justification_bitfield: state.justification_bitfield,
            finalized_epoch: state.finalized_epoch,
        }
    } else {
        let prev_ok = supermajority(previous_target_balance, total_active_balance);
        let cur_ok = supermajority(current_target_balance, total_active_balance);
        let j1 = if prev_ok { (current_epoch - 1) as u64 } else { state.justified_epoch };
        let bits = bits_after(state.justification_bitfield, prev_ok, cur_ok);
        JustificationAndFinalizationState {
            previous_justified_epoch: state.justified_epoch,
            justified_epoch: if cur_ok { current_epoch } else { j1 },
            justification_bitfield: bits,
            finalized_epoch: finalized_after(bits, state.previous_justified_epoch, state.justified_epoch, current_epoch, state.finalized_epoch),
        }
    }
}

/// Updates the justified and finalized checkpoints from the target balances of the previous
/// and current epochs; nothing changes up to the epoch after genesis.
pub fn process_justification_and_finalization(
    state: &BeaconState,
    current_epoch: u64,
    genesis_epoch: u64,
    total_active_balance: u64,
    previous_target_balance: u64,
    current_target_balance: u64,
) -> (r: JustificationAndFinalizationState)
    ensures
        r == justification_spec(state, current_epoch, genesis_epoch, total_active_balance, previous_target_balance, current_target_balance),
        ({
            let unchanged = JustificationAndFinalizationState {
                previous_justified_epoch: state.previous_justified_epoch,
                justified_epoch: state.justified_epoch,
                justification_bitfield: state.justification_bitfield,
                finalized_epoch: state.finalized_epoch,
            };
            current_epoch <= genesis_epoch + 1 ==> r == unchanged
        }),
        current_epoch > genesis_epoch + 1 ==> ({
            let prev_ok = supermajority(previous_target_balance, total_active_balance);
            let cur_ok = supermajority(current_target_balance, total_active_balance);
            let j1 = if prev_ok { (current_epoch - 1) as u64 } else { state.justified_epoch };
            let j2 = if cur_ok { current_epoch } else { j1 };
            let bits = bits_after(state.justification_bitfield, prev_ok, cur_ok);
            &&& r.previous_justified_epoch == state.justified_epoch
            &&& r.justified_epoch == j2
            &&& r.justification_bitfield == bits
            &&& r.finalized_epoch == finalized_after(bits, state.previous_justified_epoch, state.justified_epoch, current_epoch, state.finalized_epoch)
        }),
{
    let mut result = JustificationAndFinalizationState {
        previous_justified_epoch: state.previous_justified_epoch,
        justified_epoch: state.justified_epoch,
        justification_bitfield: state.justification_bitfield,
        finalized_epoch: state.finalized_epoch,
    };
    if genesis_epoch == u64::MAX || current_epoch <= genesis_epoch + 1 {
        return result;
    }
    let old_previous = state.previous_justified_epoch;
    let old_current = state.justified_epoch;
    let total = total_active_balance as u128;
    let prev_ok = 3 * (previous_target_balance as u128) >= 2 * total;
    let cur_ok = 3 * (current_target_balance as u128) >= 2 * total;
    result.previous_justified_epoch = old_current;
    let mut bits = (state.justification_bitfield << 1u64) & !1u64;
    if prev_ok {
        result.justified_epoch = current_epoch - 1;
        bits = bits | 2u64;
    }
    if cur_ok {
        result.justified_epoch = current_epoch;
        bits = bits | 1u64;
    }
    result.justification_bitfield = bits;
    let mut finalized = state.finalized_epoch;
    if all_bits(bits, 1, 4) && old_previous.checked_add(3) == Some(current_epoch) {
        finalized = old_previous;
    }
    if all_bits(bits, 1, 3) && old_previous.checked_add(2) == Some(current_epoch) {
        finalized = old_previous;
    }
    if all_bits(bits, 0, 3) && old_current.checked_add(2) == Some(current_epoch) {
        finalized = old_current;
    }
    if all_bits(bits, 0, 2) && old_current.checked_add(1) == Some(current_epoch) {
        finalized = old_current;
    }
    result.finalized_epoch = finalized;
    result
}

} // verus!
