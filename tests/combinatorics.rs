use kcd_farkle_solver::farkle::{DiceSet, DiceSetSample, DiceSide};

fn sample_of(faces: [Option<u8>; 6]) -> DiceSetSample {
    DiceSetSample::new(faces.map(|o| o.map(DiceSide::from)))
}

#[test]
fn present_and_present_mask() {
    let s = sample_of([Some(2), None, Some(0), None, None, Some(5)]);
    assert_eq!(s.present(), vec![DiceSide::Three, DiceSide::One, DiceSide::Six]);
    assert_eq!(s.present_mask(), [true, false, true, false, false, true]);
    assert_eq!(DiceSetSample::default().present(), vec![]);
}

#[test]
fn selections_count_distinct_nonempty_subsets() {
    let s = sample_of([Some(2), None, Some(0), None, None, Some(5)]);
    let sels = s.iter_selections();
    assert_eq!(sels.len(), 7);
    for (i, a) in sels.iter().enumerate() {
        assert!(!a.present().is_empty());
        for j in 0..6 {
            assert!(a.sample[j].is_none() || a.sample[j] == s.sample[j]);
        }
        for b in sels.iter().skip(i + 1) {
            assert_ne!(a, b);
        }
    }
    assert!(sels.contains(&s));
}

#[test]
fn selections_of_six_dice_and_of_none() {
    let s = sample_of([Some(0), Some(1), Some(2), Some(3), Some(4), Some(5)]);
    assert_eq!(s.iter_selections().len(), 63);
    assert_eq!(DiceSetSample::default().iter_selections().len(), 0);
}

#[test]
fn selections_follow_bit_order() {
    let s = sample_of([Some(0), Some(4), None, None, None, None]);
    let sels = s.iter_selections();
    assert_eq!(
        sels,
        vec![
            sample_of([Some(0), None, None, None, None, None]),
            sample_of([None, Some(4), None, None, None, None]),
            sample_of([Some(0), Some(4), None, None, None, None]),
        ]
    );
}

#[test]
fn outcomes_enumerate_six_to_the_k() {
    let dice = [0u8; 6];
    let set = DiceSet::new(&dice, [true, false, true, false, false, false]);
    let outs = set.iter_outcomes();
    assert_eq!(outs.len(), 36);
    for (i, a) in outs.iter().enumerate() {
        assert_eq!(a.present_mask(), [true, false, true, false, false, false]);
        for b in outs.iter().skip(i + 1) {
            assert_ne!(a, b);
        }
    }
    assert_eq!(outs[0], sample_of([Some(0), None, Some(0), None, None, None]));
    assert_eq!(outs[7], sample_of([Some(1), None, Some(1), None, None, None]));
    let all = DiceSet::new(&dice, [true; 6]);
    assert_eq!(all.iter_outcomes().len(), 46656);
    let none = DiceSet::new(&dice, [false; 6]);
    assert_eq!(none.iter_outcomes(), vec![DiceSetSample::default()]);
}

#[test]
fn subsets_complement_and_intersection() {
    let dice = [0u8; 6];
    let set = DiceSet::new(&dice, [true, true, false, false, true, false]);
    let subs = set.iter_subsets();
    assert_eq!(subs.len(), 7);
    assert_eq!(subs[0].select_mask, [true, false, false, false, false, false]);
    assert_eq!(subs[6].select_mask, [true, true, false, false, true, false]);
    for (i, a) in subs.iter().enumerate() {
        assert!(a.select_mask.iter().any(|b| *b));
        for j in 0..6 {
            assert!(!a.select_mask[j] || set.select_mask[j]);
        }
        for b in subs.iter().skip(i + 1) {
            assert_ne!(a.select_mask, b.select_mask);
        }
    }
    let c = set.complement();
    assert_eq!(c.select_mask, [false, false, true, true, false, true]);
    let n = set.new_subset(&[true, false, true, false, true, true]);
    assert_eq!(n.select_mask, [true, false, false, false, true, false]);
}
