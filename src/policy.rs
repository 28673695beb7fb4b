//! The integer side of the turn policy: what banking a selection leads to, the scores of
//! a sample, and the wrap rule of the value tables (no dice left means six fresh dice).

use vstd::prelude::*;
use crate::farkle::{
    DiceSetSample, FarkleScore, best_score, count_sides, hist_in_domain, lemma_sample_hist_in_domain,
    not_busted, sample_hist, score, spec_best_score, spec_not_busted, spec_score,
};
use crate::hash::{PerfectHashMap, PerfectHashing, horner, mask_digits};

verus! {

/// The highest banked score that the tables track.
pub const MAX_BANKED: u32 = 5950;

/// The mask with no die.
pub open spec fn no_dice() -> [bool; 6] {
    [false, false, false, false, false, false]
}

/// The mask with all six dice.
pub open spec fn all_dice() -> [bool; 6] {
    [true, true, true, true, true, true]
}


proof fn lemma_mask_hashes()
    ensures
        no_dice().hash_spec() == 0,
        all_dice().hash_spec() == 63,
{
    let dn = mask_digits(no_dice());
    let da = mask_digits(all_dice());
    assert(dn =~= seq![0int, 0, 0, 0, 0, 0]);
    assert(da =~= seq![1int, 1, 1, 1, 1, 1]);
    reveal_with_fuel(horner, 7);
}

/// Histogram of the dice present in a sample, within the scoring domain.
fn sample_histogram(sample: &DiceSetSample) -> (r: [u8; 6])
    ensures
        r@ == sample_hist(sample.sample@),
        hist_in_domain(r@),
{
    let present = sample.present();
    proof {
        crate::farkle::lemma_present_len(sample.sample@);
        lemma_sample_hist_in_domain(sample.sample@);
    }
    let h = count_sides(present.as_slice());
    assert(h@ =~= sample_hist(sample.sample@));
    h
}

/// Score of the dice present in a sample as a complete hand (0 when some die is unused).
pub fn sample_score(sample: &DiceSetSample) -> (r: u32)
    ensures
        r as int == spec_score(sample_hist(sample.sample@)),
{
    let h = sample_histogram(sample);
    score(h).value
}

/// Best score that the dice present in a sample can make: what ending the turn banks.
pub fn sample_best_score(sample: &DiceSetSample) -> (r: u32)
    ensures
        r as int == spec_best_score(sample_hist(sample.sample@)),
{
    let h = sample_histogram(sample);
    best_score(h).value
}

/// The roll in the sample scores nothing.
pub fn sample_busted(sample: &DiceSetSample) -> (r: bool)
    ensures
        r == !spec_not_busted(sample_hist(sample.sample@)),
{
    let h = sample_histogram(sample);
    !not_busted(&h)
}

/// What banking `selection` with `current` points already banked leads to: its points,
/// the banked score after it (capped at 5950), and the mask of the dice not selected,
/// which are rolled next. `None` when the selection is not a complete scoring hand.
pub fn bank_selection(current: FarkleScore, selection: &DiceSetSample) -> (r: Option<
    (u32, FarkleScore, [bool; 6]),
>)
    ensures
        r is None <==> spec_score(sample_hist(selection.sample@)) == 0,
        r matches Some((points, next, rest)) ==> {
            &&& points as int == spec_score(sample_hist(selection.sample@))
            &&& next.value == if current.value + points <= MAX_BANKED {
                current.value + points
            } else {
                MAX_BANKED as int
            }
            &&& forall|j: int| 0 <= j < 6 ==> rest[j] == selection.sample[j] is None
        },
{
    let points = sample_score(selection);
    if points == 0 {
        return None;
    }
    let total: u64 = current.value as u64 + points as u64;
    let next: u32 = if total <= MAX_BANKED as u64 {
        total as u32
    } else {
        MAX_BANKED
    };
    let present = selection.present_mask();
    let mut rest: [bool; 6] = [false; 6];
    let mut j: usize = 0;
    while j < 6
        invariant
            j <= 6,
            forall|k: int| 0 <= k < 6 ==> present[k] == selection.sample[k] is Some,
            forall|k: int| 0 <= k < j ==> rest[k] == selection.sample[k] is None,
        decreases 6 - j,
    {
        rest[j] = !present[j];
        j = j + 1;
    }
    Some((points, FarkleScore::new(next), rest))
}

/// Every row of a score table (one per score bucket, 64 masks each) holds at its
/// no-dice entry the value of its all-dice entry.
pub open spec fn rows_wrapped<V>(t: PerfectHashMap<(FarkleScore, [bool; 6]), V>) -> bool {
    forall|b: int| 0 <= b < 120 ==> #[trigger] t.values()[b * 64] == t.values()[b * 64 + 63]
}

/// Applies the wrap rule to a table keyed by (score bucket, mask of dice left): the
/// entry for no dice left takes the value of the entry for all six dice.
pub fn wrap_scores<V: Copy>(table: &mut PerfectHashMap<(FarkleScore, [bool; 6]), V>)
    requires
        old(table).wf(),
    ensures
        final(table).wf(),
        forall|i: int|
            0 <= i < 7680 ==> #[trigger] final(table).values()[i] == if i % 64 == 0 {
                old(table).values()[i + 63]
            } else {
                old(table).values()[i]
            },
        rows_wrapped(*final(table)),
{
    proof {
        lemma_mask_hashes();
    }
    let ghost before = table.values();
    let mut b: u32 = 0;
    while b < 120
        invariant
            b <= 120,
            table.wf(),
            before == old(table).values(),
            before.len() == 7680,
            forall|i: int|
                0 <= i < 7680 ==> #[trigger] table.values()[i] == if i % 64 == 0 && i < b * 64 {
                    before[i + 63]
                } else {
                    before[i]
                },
        decreases 120 - b,
    {
        let p = FarkleScore::new(b * 50);
        let all_key = (p, [true; 6]);
        let none_key = (p, [false; 6]);
        assert(all_key.1 == all_dice());
        assert(none_key.1 == no_dice());
        proof {
            assert((b * 50) as u32 / 50 == b) by (nonlinear_arith)
                requires
                    b < 120,
            ;
            lemma_mask_hashes();
            assert(all_key.hash_spec() == b * 64 + 63);
            assert(none_key.hash_spec() == b * 64);
            assert((b * 64 + 63) % 64 == 63) by (nonlinear_arith);
            assert((b * 64) % 64 == 0) by (nonlinear_arith);
        }
        let v = *table.get(&all_key);
        table.set(&none_key, v);
        proof {
            assert forall|i: int| 0 <= i < 7680 implies #[trigger] table.values()[i] == if i % 64
                == 0 && i < (b + 1) * 64 {
                before[i + 63]
            } else {
                before[i]
            } by {
                if i != b * 64 {
                    assert(i % 64 == 0 && i < (b + 1) * 64 <==> i % 64 == 0 && i < b * 64) by (nonlinear_arith)
                        requires
                            i != b * 64,
                            0 <= i,
                    ;
                }
            }
        }
        b = b + 1;
    }
    assert forall|c: int| 0 <= c < 120 implies #[trigger] table.values()[c * 64] == table.values()[
        c * 64 + 63] by {
        assert((c * 64) % 64 == 0);
        assert((c * 64 + 63) % 64 == 63);
    }
}

/// The no-dice entry of a table keyed by mask takes the value of the all-dice entry.
pub fn wrap_masks<V: Copy>(table: &mut PerfectHashMap<[bool; 6], V>)
    requires
        old(table).wf(),
    ensures
        final(table).wf(),
        final(table).values() == old(table).values().update(0, old(table).values()[63]),
{
    proof {
        lemma_mask_hashes();
    }
    let all_key: [bool; 6] = [true; 6];
    let none_key: [bool; 6] = [false; 6];
    assert(all_key == all_dice());
    assert(none_key == no_dice());
    let v = *table.get(&all_key);
    table.set(&none_key, v);
}

/// After the wrap rule, for every score of the tracked range, the value with no dice
/// left equals the value with all six dice.
pub proof fn lemma_wrap_rule<V>(t: PerfectHashMap<(FarkleScore, [bool; 6]), V>, p: FarkleScore)
    requires
        t.wf(),
        rows_wrapped(t),
        p.in_domain(),
    ensures
        t.spec_get((p, no_dice())) == t.spec_get((p, all_dice())),
{
    lemma_mask_hashes();
    let b = (p.value / 50) as int;
    assert(0 <= b < 120);
    assert(t.values()[b * 64] == t.values()[b * 64 + 63]);
}

} // verus!
