use kcd_farkle_solver::farkle::{DiceSetSample, DiceSide, FarkleScore};
use kcd_farkle_solver::hash::{PerfectHash, PerfectHashMap, PerfectHashing};

#[test]
fn sample_hash_round_trips_over_the_whole_domain() {
    assert_eq!(DiceSetSample::set_size(), 117649);
    for h in 0..DiceSetSample::set_size() {
        let s = DiceSetSample::from_perfhash(PerfectHash::new(h));
        assert_eq!(s.to_perfhash().get(), h);
        let back = DiceSetSample::from_perfhash(s.to_perfhash());
        assert_eq!(back, s);
    }
}

#[test]
fn sample_hash_values() {
    let s = DiceSetSample::new([Some(DiceSide::One), None, None, None, None, None]);
    assert_eq!(usize::from(s.to_perfhash()), 1);
    let s = DiceSetSample::new([None, Some(DiceSide::Six), None, None, None, None]);
    assert_eq!(s.to_perfhash().get(), 42);
    let s = DiceSetSample::new([Some(DiceSide::Six); 6]);
    assert_eq!(s.to_perfhash().get(), 117648);
    assert_eq!(DiceSetSample::default().to_perfhash().get(), 0);
}

#[test]
fn mask_hash_round_trips() {
    assert_eq!(<[bool; 6]>::set_size(), 64);
    for h in 0..64usize {
        let m = <[bool; 6]>::from_perfhash(PerfectHash::new(h));
        assert_eq!(m.to_perfhash().get(), h);
        assert_eq!(<[bool; 6]>::from_perfhash(m.to_perfhash()), m);
    }
    assert_eq!([true, false, true, false, false, false].to_perfhash().get(), 5);
}

#[test]
fn score_hash_round_trips_only_the_bucket() {
    assert_eq!(FarkleScore::set_size(), 120);
    let s = FarkleScore::new(1234);
    assert_eq!(s.to_perfhash().get(), 24);
    let back = FarkleScore::from_perfhash(s.to_perfhash());
    assert_eq!(back.score(), 1200);
    assert_eq!(back.to_perfhash().get(), 24);
    assert_eq!(FarkleScore::from_perfhash(PerfectHash::new(119)).score(), 5950);
}

#[test]
fn pair_hash_is_row_major() {
    assert_eq!(<(FarkleScore, [bool; 6])>::set_size(), 7680);
    let k = (FarkleScore::new(100), [true, true, false, false, false, false]);
    assert_eq!(k.to_perfhash().get(), 2 * 64 + 3);
    let back = <(FarkleScore, [bool; 6])>::from_perfhash(PerfectHash::new(2 * 64 + 3));
    assert_eq!(back.0.score(), 100);
    assert_eq!(back.1, [true, true, false, false, false, false]);
    assert_eq!(<(FarkleScore, DiceSetSample)>::set_size(), 120 * 117649);
}

#[test]
fn map_new_get_set() {
    let mut m: PerfectHashMap<[bool; 6], u32> = PerfectHashMap::new();
    assert_eq!(m.len(), 64);
    assert_eq!(*m.get(&[true; 6]), 0);
    m.set(&[true; 6], 7);
    assert_eq!(*m.get(&[true; 6]), 7);
    assert_eq!(*m.get(&[false; 6]), 0);
}

#[test]
fn map_iter_walks_keys_in_hash_order() {
    let mut m: PerfectHashMap<[bool; 6], u32> = PerfectHashMap::new();
    m.set(&[true, false, false, false, false, false], 9);
    let items = m.iter();
    assert_eq!(items.len(), 64);
    assert_eq!(items[1].0, [true, false, false, false, false, false]);
    assert_eq!(*items[1].1, 9);
    assert_eq!(items[0].0, [false; 6]);
}

#[test]
fn map_iter_mut_updates_every_value() {
    let mut m: PerfectHashMap<[bool; 6], u32> = PerfectHashMap::new();
    m.iter_mut(|k: &[bool; 6], v: &u32| *v + k.iter().filter(|b| **b).count() as u32);
    assert_eq!(*m.get(&[true; 6]), 6);
    assert_eq!(*m.get(&[false, true, true, false, false, false]), 2);
}

#[test]
fn map_from_values_checks_length() {
    let ok: Option<PerfectHashMap<[bool; 6], u32>> = PerfectHashMap::from_values((0..64).collect());
    assert_eq!(*ok.unwrap().get(&[false, true, false, false, false, false]), 2);
    let bad: Option<PerfectHashMap<[bool; 6], u32>> = PerfectHashMap::from_values(vec![0; 63]);
    assert!(bad.is_none());
}
