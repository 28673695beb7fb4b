use kcd_farkle_solver::farkle::{
    best_score, best_selection, count_sides, not_busted, score, DiceSetSample, DiceSide,
    FarkleScore,
};

fn sample_of(faces: [Option<u8>; 6]) -> DiceSetSample {
    DiceSetSample::new(faces.map(|o| o.map(DiceSide::from)))
}

#[test]
fn full_straight_scores_1500() {
    assert_eq!(score([1, 1, 1, 1, 1, 1]).score(), 1500);
}

#[test]
fn three_ones_score_1000_and_double_per_extra_die() {
    assert_eq!(score([3, 0, 0, 0, 0, 0]).score(), 1000);
    assert_eq!(score([4, 0, 0, 0, 0, 0]).score(), 2000);
    assert_eq!(score([5, 0, 0, 0, 0, 0]).score(), 4000);
    assert_eq!(score([6, 0, 0, 0, 0, 0]).score(), 8000);
}

#[test]
fn runs_of_other_faces_score_100_per_pip() {
    assert_eq!(score([0, 3, 0, 0, 0, 0]).score(), 200);
    assert_eq!(score([0, 0, 0, 0, 0, 3]).score(), 600);
    assert_eq!(score([0, 0, 0, 0, 0, 6]).score(), 4800);
    assert_eq!(score([0, 0, 4, 0, 0, 0]).score(), 600);
}

#[test]
fn single_one_and_single_five_score_150() {
    assert_eq!(score([1, 0, 0, 0, 1, 0]).score(), 150);
}

#[test]
fn unscorable_hand_scores_zero() {
    assert_eq!(score([0, 2, 1, 0, 0, 0]).score(), 0);
}

#[test]
fn best_score_ignores_unusable_dice() {
    assert_eq!(best_score([1, 2, 1, 0, 0, 0]).score(), 100);
    assert_eq!(score([1, 2, 1, 0, 0, 0]).score(), 0);
}

#[test]
fn partial_straights() {
    assert_eq!(score([0, 1, 1, 1, 1, 1]).score(), 750);
    assert_eq!(score([1, 1, 1, 1, 1, 0]).score(), 500);
    assert_eq!(score([2, 1, 1, 1, 1, 1]).score(), 1600);
    assert_eq!(score([1, 1, 1, 1, 2, 0]).score(), 550);
}

#[test]
fn two_triples_take_the_higher_first() {
    assert_eq!(score([0, 3, 3, 0, 0, 0]).score(), 500);
    assert_eq!(score([3, 0, 0, 0, 3, 0]).score(), 1500);
}

#[test]
fn empty_hand_scores_zero() {
    assert_eq!(score([0, 0, 0, 0, 0, 0]).score(), 0);
    assert_eq!(best_score([0, 0, 0, 0, 0, 0]).score(), 0);
}

#[test]
fn not_busted_cases() {
    assert!(!not_busted(&[0, 0, 0, 0, 0, 0]));
    assert!(!not_busted(&[0, 2, 1, 2, 0, 1]));
    assert!(not_busted(&[0, 0, 3, 0, 0, 0]));
    assert!(not_busted(&[1, 1, 1, 1, 1, 1]));
    assert!(not_busted(&[0, 1, 1, 1, 1, 1]));
    assert!(not_busted(&[1, 0, 0, 0, 0, 0]));
    assert!(not_busted(&[0, 0, 0, 0, 1, 0]));
    assert!(not_busted(&[0, 2, 0, 2, 0, 0]) == false);
}

#[test]
fn count_sides_counts_each_face() {
    let sides = [DiceSide::One, DiceSide::Five, DiceSide::One, DiceSide::Six];
    assert_eq!(count_sides(&sides), [2, 0, 0, 0, 1, 1]);
    assert_eq!(count_sides(&[]), [0, 0, 0, 0, 0, 0]);
}

#[test]
fn dice_side_from_u8() {
    assert_eq!(DiceSide::from(0), DiceSide::One);
    assert_eq!(DiceSide::from(4), DiceSide::Five);
    assert_eq!(DiceSide::from(5), DiceSide::Six);
    assert_eq!(DiceSide::from(9), DiceSide::Six);
    assert_eq!(DiceSide::Three.index(), 2);
}

#[test]
fn farkle_score_accessors() {
    let s = FarkleScore::new(350);
    assert_eq!(s.score(), 350);
    assert_eq!(s.value, 350);
}

#[test]
fn best_selection_clears_unused_dice() {
    let s = sample_of([Some(0), Some(1), Some(1), Some(2), None, Some(4)]);
    let r = best_selection(s);
    assert_eq!(r, sample_of([Some(0), None, None, None, None, Some(4)]));
}

#[test]
fn best_selection_keeps_a_triple_and_drops_extra_twos() {
    let s = sample_of([Some(3), Some(1), Some(3), Some(1), Some(3), Some(5)]);
    let r = best_selection(s);
    assert_eq!(r, sample_of([Some(3), None, Some(3), None, Some(3), None]));
}

#[test]
fn best_selection_of_full_straight_keeps_all() {
    let s = sample_of([Some(5), Some(4), Some(3), Some(2), Some(1), Some(0)]);
    assert_eq!(best_selection(s), s);
}

#[test]
fn best_selection_clears_only_the_leftover_count_of_a_face() {
    // Two fives: one straight uses one five, the other five scores alone.
    let s = sample_of([Some(4), Some(0), Some(1), Some(2), Some(3), Some(4)]);
    assert_eq!(best_selection(s), s);
    // Ones with a leftover two: only the two is cleared.
    let s = sample_of([Some(0), Some(1), Some(0), None, None, None]);
    assert_eq!(best_selection(s), sample_of([Some(0), None, Some(0), None, None, None]));
}

#[test]
fn farkle_score_derefs_to_its_value() {
    let s = FarkleScore::new(750);
    assert_eq!(*s, 750);
}
