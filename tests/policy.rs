use kcd_farkle_solver::farkle::{DiceSetSample, DiceSide, FarkleScore};
use kcd_farkle_solver::hash::PerfectHashMap;
use kcd_farkle_solver::policy::{
    bank_selection, sample_best_score, sample_busted, sample_score, wrap_masks, wrap_scores,
};

fn sample_of(faces: [Option<u8>; 6]) -> DiceSetSample {
    DiceSetSample::new(faces.map(|o| o.map(DiceSide::from)))
}

#[test]
fn sample_scores() {
    let s = sample_of([Some(0), Some(1), None, Some(1), Some(2), None]);
    assert_eq!(sample_score(&s), 0);
    assert_eq!(sample_best_score(&s), 100);
    assert!(!sample_busted(&s));
    let b = sample_of([Some(1), Some(2), None, Some(3), Some(5), None]);
    assert!(sample_busted(&b));
    assert_eq!(sample_best_score(&b), 0);
}

#[test]
fn banking_a_selection() {
    let sel = sample_of([Some(0), None, None, None, Some(4), None]);
    let (points, next, rest) = bank_selection(FarkleScore::new(300), &sel).unwrap();
    assert_eq!(points, 150);
    assert_eq!(next.score(), 450);
    assert_eq!(rest, [false, true, true, true, false, true]);
    let capped = bank_selection(FarkleScore::new(5900), &sel).unwrap();
    assert_eq!(capped.1.score(), 5950);
    let bad = sample_of([Some(0), Some(1), None, None, None, None]);
    assert!(bank_selection(FarkleScore::new(0), &bad).is_none());
}

#[test]
fn wrap_rule_copies_all_dice_entry_to_no_dice_entry() {
    let values: Vec<u32> = (0..7680).collect();
    let mut t: PerfectHashMap<(FarkleScore, [bool; 6]), u32> =
        PerfectHashMap::from_values(values).unwrap();
    wrap_scores(&mut t);
    for b in 0..120u32 {
        let p = FarkleScore::new(b * 50);
        assert_eq!(*t.get(&(p, [false; 6])), *t.get(&(p, [true; 6])));
        assert_eq!(*t.get(&(p, [false; 6])), b * 64 + 63);
        assert_eq!(*t.get(&(p, [true, false, false, false, false, false])), b * 64 + 1);
    }
    let mut m: PerfectHashMap<[bool; 6], u32> = PerfectHashMap::from_values((0..64).collect()).unwrap();
    wrap_masks(&mut m);
    assert_eq!(*m.get(&[false; 6]), 63);
    assert_eq!(*m.get(&[true, false, false, false, false, false]), 1);
}
