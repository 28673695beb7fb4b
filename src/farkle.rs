//! Scoring of Farkle hands and enumeration of dice outcomes, subsets and selections.

use vstd::prelude::*;
use crate::hash::lemma_horner_decode;

verus! {

/// The face of a six-sided die.
#[derive(Clone, Copy, Debug, PartialEq, Eq, Structural)]
pub enum DiceSide {
    One,
    Two,
    Three,
    Four,
    Five,
    Six,
}

impl DiceSide {
    /// Zero-based position of the face: `One` is 0, `Six` is 5.
    pub open spec fn spec_index(self) -> int {
        match self {
            DiceSide::One => 0,
            DiceSide::Two => 1,
            DiceSide::Three => 2,
            DiceSide::Four => 3,
            DiceSide::Five => 4,
            DiceSide::Six => 5,
        }
    }

    /// The face at a zero-based position; anything past 5 is `Six`.
    pub open spec fn spec_from_index(v: int) -> DiceSide {
        if v == 0 {
            DiceSide::One
        } else if v == 1 {
            DiceSide::Two
        } else if v == 2 {
            DiceSide::Three
        } else if v == 3 {
            DiceSide::Four
        } else if v == 4 {
            DiceSide::Five
        } else {
            DiceSide::Six
        }
    }

    pub fn index(self) -> (r: usize)
        ensures
            r as int == self.spec_index(),
            r < 6,
    {
        match self {
            DiceSide::One => 0,
            DiceSide::Two => 1,
            DiceSide::Three => 2,
            DiceSide::Four => 3,
            DiceSide::Five => 4,
            DiceSide::Six => 5,
        }
    }
}

impl From<u8> for DiceSide {
    fn from(val: u8) -> (r: DiceSide) {
        if val == 0 {
            DiceSide::One
        } else if val == 1 {
            DiceSide::Two
        } else if val == 2 {
            DiceSide::Three
        } else if val == 3 {
            DiceSide::Four
        } else if val == 4 {
            DiceSide::Five
        } else {
            DiceSide::Six
        }
    }
}

impl vstd::std_specs::convert::FromSpecImpl<u8> for DiceSide {
    open spec fn obeys_from_spec() -> bool {
        true
    }

    open spec fn from_spec(v: u8) -> DiceSide {
        DiceSide::spec_from_index(v as int)
    }
}

/// Number of entries of `s` that show the face at zero-based position `f`.
pub open spec fn count_face(s: Seq<DiceSide>, f: int) -> int
    decreases s.len(),
{
    if s.len() == 0 {
        0
    } else {
        count_face(s.drop_last(), f) + if s.last().spec_index() == f {
            1int
        } else {
            0int
        }
    }
}

proof fn lemma_count_face_bound(s: Seq<DiceSide>, f: int)
    ensures
        0 <= count_face(s, f) <= s.len(),
    decreases s.len(),
{
    if s.len() > 0 {
        lemma_count_face_bound(s.drop_last(), f);
    }
}

/// Counts how often each face occurs: entry `i` is the number of dice showing face `i + 1`.
pub fn count_sides(sides: &[DiceSide]) -> (r: [u8; 6])
    requires
        sides@.len() <= 255,
    ensures
        forall|f: int| 0 <= f < 6 ==> r[f] as int == count_face(sides@, f),
{
    let mut acc: [u8; 6] = [0u8; 6];
    let mut i: usize = 0;
    while i < sides.len()
        invariant
            i <= sides@.len() <= 255,
            forall|f: int| 0 <= f < 6 ==> acc[f] as int == count_face(sides@.take(i as int), f),
        decreases sides@.len() - i,
    {
        let k = sides[i].index();
        proof {
            assert(sides@.take(i as int + 1).drop_last() =~= sides@.take(i as int));
            lemma_count_face_bound(sides@.take(i as int), k as int);
        }
        acc[k] = acc[k] + 1;
        i = i + 1;
    }
    proof {
        assert(sides@.take(i as int) =~= sides@);
    }
    acc
}


/// Total number of dice in a six-face histogram.
pub open spec fn hist_total(h: Seq<u8>) -> int {
    h[0] as int + h[1] as int + h[2] as int + h[3] as int + h[4] as int + h[5] as int
}

/// A histogram within the supported domain: six faces, at most six of each.
pub open spec fn hist_in_domain(h: Seq<u8>) -> bool {
    h.len() == 6 && forall|i: int| 0 <= i < 6 ==> h[i] <= 6
}

/// One of each face.
pub open spec fn has_full_straight(h: Seq<u8>) -> bool {
    h[0] >= 1 && h[1] >= 1 && h[2] >= 1 && h[3] >= 1 && h[4] >= 1 && h[5] >= 1
}

/// One of each of the faces 2 to 6.
pub open spec fn has_high_straight(h: Seq<u8>) -> bool {
    h[1] >= 1 && h[2] >= 1 && h[3] >= 1 && h[4] >= 1 && h[5] >= 1
}

/// One of each of the faces 1 to 5.
pub open spec fn has_low_straight(h: Seq<u8>) -> bool {
    h[0] >= 1 && h[1] >= 1 && h[2] >= 1 && h[3] >= 1 && h[4] >= 1
}

/// `x` doubled `k` times.
pub open spec fn doubled(x: int, k: nat) -> int
    decreases k,
{
    if k == 0 {
        x
    } else {
        2 * doubled(x, (k - 1) as nat)
    }
}

/// Points for `count` (at least three) dice of face `face` (1-based): 1000 for ones,
/// 100 times the face otherwise, doubled once for each die past the third.
pub open spec fn multi_points(face: int, count: int) -> int {
    doubled(if face == 1 { 1000 } else { 100 * face }, (count - 3) as nat)
}

/// The best run of three or more among the first `n` faces, as (1-based face, count,
/// points), scanning upwards and keeping the first of equal scores; face 0 when none.
pub open spec fn best_multi(h: Seq<u8>, n: int) -> (int, int, int)
    decreases n,
{
    if n <= 0 {
        (0, 0, 0)
    } else {
        let prev = best_multi(h, n - 1);
        let c = h[n - 1] as int;
        if c >= 3 && multi_points(n, c) > prev.2 {
            (n, c, multi_points(n, c))
        } else {
            prev
        }
    }
}

/// `h` with one die taken from each face position in `lo..hi`.
pub open spec fn take_run(h: Seq<u8>, lo: int, hi: int) -> Seq<u8> {
    Seq::new(h.len(), |i: int| if lo <= i < hi { (h[i] - 1) as u8 } else { h[i] })
}

/// The first scoring rule that applies to `h`, in priority order, as the points it
/// gives and the dice that remain; `None` when no rule applies.
pub open spec fn scoring_step(h: Seq<u8>) -> Option<(int, Seq<u8>)> {
    if has_full_straight(h) {
        Some((1500, take_run(h, 0, 6)))
    } else if has_high_straight(h) {
        Some((750, take_run(h, 1, 6)))
    } else if has_low_straight(h) {
        Some((500, take_run(h, 0, 5)))
    } else if best_multi(h, 6).0 != 0 {
        let m = best_multi(h, 6);
        Some((m.2, h.update(m.0 - 1, 0u8)))
    } else if h[0] > 0 {
        Some((100, h.update(0, (h[0] - 1) as u8)))
    } else if h[4] > 0 {
        Some((50, h.update(4, (h[4] - 1) as u8)))
    } else {
        None
    }
}

/// Applies scoring rules until none applies: the points gathered and the dice left over.
pub open spec fn consume(h: Seq<u8>) -> (int, Seq<u8>)
    decreases hist_total(h),
    when h.len() == 6
    via consume_decreases
{
    match scoring_step(h) {
        Some((p, rest)) => {
            let next = consume(rest);
            (p + next.0, next.1)
        },
        None => (0, h),
    }
}

#[via_fn]
proof fn consume_decreases(h: Seq<u8>) {
    lemma_best_multi(h, 6);
    match scoring_step(h) {
        Some((p, rest)) => {
            assert(hist_total(rest) < hist_total(h));
        },
        None => {},
    }
}

/// Every die is used by some rule.
pub open spec fn all_used(rest: Seq<u8>) -> bool {
    forall|i: int| 0 <= i < 6 ==> rest[i] == 0
}

/// Score of a complete hand: the points gathered when every die is used, else 0.
pub open spec fn spec_score(h: Seq<u8>) -> int {
    let c = consume(h);
    if all_used(c.1) {
        c.0
    } else {
        0
    }
}

/// Best-effort score: the points gathered, whatever dice are left over.
pub open spec fn spec_best_score(h: Seq<u8>) -> int {
    consume(h).0
}

/// The histogram holds a combination that scores.
pub open spec fn spec_not_busted(h: Seq<u8>) -> bool {
    has_full_straight(h) || has_high_straight(h) || has_low_straight(h) || (exists|i: int|
        0 <= i < 6 && h[i] >= 3) || h[0] > 0 || h[4] > 0
}

proof fn lemma_multi_points_bound(face: int, count: int)
    requires
        1 <= face <= 6,
        3 <= count <= 6,
    ensures
        0 < multi_points(face, count) <= 8000,
{
    reveal_with_fuel(doubled, 4);
}

proof fn lemma_best_multi(h: Seq<u8>, n: int)
    requires
        0 <= n <= 6,
        h.len() == 6,
    ensures
        best_multi(h, n).0 == 0 ==> best_multi(h, n).2 == 0,
        best_multi(h, n).0 == 0 <==> (forall|i: int| 0 <= i < n ==> h[i] < 3),
        best_multi(h, n).0 != 0 ==> {
            let m = best_multi(h, n);
            &&& 1 <= m.0 <= n
            &&& m.1 == h[m.0 - 1]
            &&& m.1 >= 3
            &&& m.2 == multi_points(m.0, m.1)
        },
        hist_in_domain(h) && best_multi(h, n).0 != 0 ==> 0 < best_multi(h, n).2 <= 8000,
    decreases n,
{
    if n > 0 {
        lemma_best_multi(h, n - 1);
        if h[n - 1] >= 3 && h[n - 1] <= 6 {
            lemma_multi_points_bound(n, h[n - 1] as int);
        }
        if h[n - 1] >= 3 {
            assert(multi_points(n, h[n - 1] as int) > 0) by {
                lemma_doubled_pos(if n == 1 { 1000 } else { 100 * n }, (h[n - 1] - 3) as nat);
            }
        }
    }
}

proof fn lemma_doubled_pos(x: int, k: nat)
    requires
        x > 0,
    ensures
        doubled(x, k) > 0,
    decreases k,
{
    if k > 0 {
        lemma_doubled_pos(x, (k - 1) as nat);
    }
}


/// Finds the highest scoring run of three or more equal faces, as (1-based face,
/// count, points); face 0 when there is none. Equal scores keep the lower face.
fn highest_multi(occurances: &[u8; 6]) -> (r: (u8, u8, u32))
    requires
        hist_in_domain(occurances@),
    ensures
        r.0 as int == best_multi(occurances@, 6).0,
        r.1 as int == best_multi(occurances@, 6).1,
        r.2 as int == best_multi(occurances@, 6).2,
{
    let mut best_side: u8 = 0;
    let mut best_count: u8 = 0;
    let mut best_score: u32 = 0;
    let mut i: usize = 0;
    while i < 6
        invariant
            i <= 6,
            hist_in_domain(occurances@),
            best_side as int == best_multi(occurances@, i as int).0,
            best_count as int == best_multi(occurances@, i as int).1,
            best_score as int == best_multi(occurances@, i as int).2,
        decreases 6 - i,
    {
        let count = occurances[i];
        if count >= 3 {
            let side: u32 = (i + 1) as u32;
            let mut score: u32 = if side == 1 {
                1000
            } else {
                side * 100
            };
            let mut k: u8 = 3;
            while k < count
                invariant
                    3 <= k <= count <= 6,
                    score as int == doubled(
                        if side == 1 { 1000 } else { 100 * side as int },
                        (k - 3) as nat,
                    ),
                    score as int <= doubled(1000, (k - 3) as nat),
                decreases count - k,
            {
                proof {
                    reveal_with_fuel(doubled, 4);
                    assert(doubled(1000, (k - 3) as nat) <= 4000);
                    assert(doubled(1000, (k - 2) as nat) == 2 * doubled(1000, (k - 3) as nat));
                }
                score = score * 2;
                k = k + 1;
            }
            if score > best_score {
                best_side = side as u8;
                best_count = count;
                best_score = score;
            }
        }
        i = i + 1;
    }
    (best_side, best_count, best_score)
}

/// Applies the first scoring rule that fits the histogram, removing the dice it uses,
/// and returns the points; `None`, and the histogram unchanged, when none fits.
fn scoring_step_exec(occ: &mut [u8; 6]) -> (r: Option<u32>)
    requires
        hist_in_domain(old(occ)@),
    ensures
        match scoring_step(old(occ)@) {
            Some((p, rest)) => r == Some(p as u32) && final(occ)@ == rest && p <= 8000,
            None => r is None && final(occ)@ == old(occ)@,
        },
{
    proof {
        lemma_best_multi(occ@, 6);
    }
    if occ[0] >= 1 && occ[1] >= 1 && occ[2] >= 1 && occ[3] >= 1 && occ[4] >= 1 && occ[5] >= 1 {
        let ghost h = occ@;
        let mut i: usize = 0;
        while i < 6
            invariant
                i <= 6,
                occ@.len() == 6,
                forall|j: int| 0 <= j < 6 ==> occ@[j] == if j < i { (h[j] - 1) as u8 } else { h[j] },
                has_full_straight(h),
            decreases 6 - i,
        {
            occ[i] = occ[i] - 1;
            i = i + 1;
        }
        assert(occ@ =~= take_run(h, 0, 6));
        return Some(1500);
    }
    if occ[1] >= 1 && occ[2] >= 1 && occ[3] >= 1 && occ[4] >= 1 && occ[5] >= 1 {
        let ghost h = occ@;
        let mut i: usize = 1;
        while i < 6
            invariant
                1 <= i <= 6,
                occ@.len() == 6,
                forall|j: int| 0 <= j < 6 ==> occ@[j] == if 1 <= j < i { (h[j] - 1) as u8 } else { h[j] },
                has_high_straight(h),
            decreases 6 - i,
        {
            occ[i] = occ[i] - 1;
            i = i + 1;
        }
        assert(occ@ =~= take_run(h, 1, 6));
        return Some(750);
    }
    if occ[0] >= 1 && occ[1] >= 1 && occ[2] >= 1 && occ[3] >= 1 && occ[4] >= 1 {
        let ghost h = occ@;
        let mut i: usize = 0;
        while i < 5
            invariant
                i <= 5,
                occ@.len() == 6,
                forall|j: int| 0 <= j < 6 ==> occ@[j] == if j < i { (h[j] - 1) as u8 } else { h[j] },
                has_low_straight(h),
            decreases 5 - i,
        {
            occ[i] = occ[i] - 1;
            i = i + 1;
        }
        assert(occ@ =~= take_run(h, 0, 5));
        return Some(500);
    }
    let (side, count, points) = highest_multi(occ);
    if side != 0 {
        let k = (side - 1) as usize;
        occ[k] = occ[k] - count;
        return Some(points);
    }
    if occ[0] > 0 {
        occ[0] = occ[0] - 1;
        return Some(100);
    }
    if occ[4] > 0 {
        occ[4] = occ[4] - 1;
        return Some(50);
    }
    None
}

proof fn lemma_step_keeps_domain(h: Seq<u8>)
    requires
        hist_in_domain(h),
    ensures
        match scoring_step(h) {
            Some((p, rest)) => hist_in_domain(rest) && hist_total(rest) < hist_total(h) && 0 < p
                <= 8000 && p <= 8000 * (hist_total(h) - hist_total(rest)),
            None => true,
        },
{
    lemma_best_multi(h, 6);
    if has_full_straight(h) {
        assert(hist_total(take_run(h, 0, 6)) == hist_total(h) - 6);
    } else if has_high_straight(h) {
        assert(hist_total(take_run(h, 1, 6)) == hist_total(h) - 5);
    } else if has_low_straight(h) {
        assert(hist_total(take_run(h, 0, 5)) == hist_total(h) - 5);
    } else if best_multi(h, 6).0 != 0 {
        let m = best_multi(h, 6);
        assert(hist_total(h.update(m.0 - 1, 0u8)) == hist_total(h) - m.1);
    }
}

/// Runs the scoring rules to exhaustion: the points gathered and the dice left unused.
fn consume_hand(occurances: [u8; 6]) -> (r: (u32, [u8; 6]))
    requires
        hist_in_domain(occurances@),
    ensures
        r.0 as int == consume(occurances@).0,
        r.1@ == consume(occurances@).1,
{
    let mut occ = occurances;
    let mut output: u32 = 0;
    loop
        invariant
            hist_in_domain(occ@),
            output as int + consume(occ@).0 == consume(occurances@).0,
            consume(occ@).1 == consume(occurances@).1,
            output as int + 8000 * hist_total(occ@) <= 8000 * 36,
        ensures
            output as int == consume(occurances@).0,
            occ@ == consume(occurances@).1,
        decreases hist_total(occ@),
    {
        let ghost before = occ@;
        proof {
            lemma_step_keeps_domain(before);
        }
        match scoring_step_exec(&mut occ) {
            Some(p) => {
                output = output + p;
            },
            None => {
                break;
            },
        }
    }
    (output, occ)
}


/// Detects whether a roll can score any points at all.
pub fn not_busted(occurances: &[u8; 6]) -> (r: bool)
    ensures
        r == spec_not_busted(occurances@),
{
    let h = occurances;
    if h[0] >= 1 && h[1] >= 1 && h[2] >= 1 && h[3] >= 1 && h[4] >= 1 && h[5] >= 1 {
        return true;
    }
    if h[1] >= 1 && h[2] >= 1 && h[3] >= 1 && h[4] >= 1 && h[5] >= 1 {
        return true;
    }
    if h[0] >= 1 && h[1] >= 1 && h[2] >= 1 && h[3] >= 1 && h[4] >= 1 {
        return true;
    }
    let mut i: usize = 0;
    while i < 6
        invariant
            i <= 6,
            forall|j: int| 0 <= j < i ==> occurances@[j] < 3,
        decreases 6 - i,
    {
        let c = occurances[i];
        if c >= 3 {
            assert(occurances@[i as int] >= 3);
            return true;
        }
        assert(occurances@[i as int] < 3);
        i = i + 1;
    }
    if h[0] > 0 {
        return true;
    }
    if h[4] > 0 {
        return true;
    }
    false
}

/// A score within a game of Farkle.
#[derive(Debug, Copy, Clone)]
pub struct FarkleScore {
    pub value: u32,
}

impl FarkleScore {
    pub fn new(score: u32) -> (r: FarkleScore)
        ensures
            r.value == score,
    {
        FarkleScore { value: score }
    }

    pub fn score(&self) -> (r: u32)
        ensures
            r == self.value,
    {
        self.value
    }
}

impl std::ops::Deref for FarkleScore {
    type Target = u32;

    fn deref(&self) -> (r: &u32)
        ensures
            *r == self.value,
    {
        &self.value
    }
}

/// Scores a complete hand given as a histogram of faces (entry `i` counts face `i + 1`):
/// straights, runs of three or more, single ones and single fives are taken in that
/// priority order until none is left; a hand with any die unused scores 0.
pub fn score(occurances: [u8; 6]) -> (r: FarkleScore)
    requires
        hist_in_domain(occurances@),
    ensures
        r.value as int == spec_score(occurances@),
{
    let (total, rest) = consume_hand(occurances);
    if rest[0] != 0 || rest[1] != 0 || rest[2] != 0 || rest[3] != 0 || rest[4] != 0 || rest[5]
        != 0 {
        return FarkleScore::new(0);
    }
    FarkleScore::new(total)
}

/// The best score that the dice in the histogram can make, ignoring dice that no rule uses.
pub fn best_score(occurances: [u8; 6]) -> (r: FarkleScore)
    requires
        hist_in_domain(occurances@),
    ensures
        r.value as int == spec_best_score(occurances@),
{
    let (total, _rest) = consume_hand(occurances);
    FarkleScore::new(total)
}


/// The faces of the dice that are present, in slot order.
pub open spec fn present_seq(s: Seq<Option<DiceSide>>) -> Seq<DiceSide>
    decreases s.len(),
{
    if s.len() == 0 {
        Seq::empty()
    } else {
        let r = present_seq(s.drop_last());
        match s.last() {
            Some(d) => r.push(d),
            None => r,
        }
    }
}

/// Face histogram of the dice present in a sample.
pub open spec fn sample_hist(s: Seq<Option<DiceSide>>) -> Seq<u8> {
    Seq::new(6, |f: int| count_face(present_seq(s), f) as u8)
}

/// Number of dice showing `d` in the slots before slot `j`.
pub open spec fn occ_before(s: Seq<Option<DiceSide>>, j: int, d: DiceSide) -> int {
    count_face(present_seq(s.take(j)), d.spec_index())
}

/// Slot `j` after clearing, face by face, the first `left[f]` dice showing face `f`.
pub open spec fn kept_slot(s: Seq<Option<DiceSide>>, j: int, left: Seq<u8>) -> Option<DiceSide> {
    match s[j] {
        None => None,
        Some(d) => if occ_before(s, j, d) < left[d.spec_index()] {
            None
        } else {
            Some(d)
        },
    }
}

pub(crate) proof fn lemma_present_len(s: Seq<Option<DiceSide>>)
    ensures
        present_seq(s).len() <= s.len(),
    decreases s.len(),
{
    if s.len() > 0 {
        lemma_present_len(s.drop_last());
    }
}

pub(crate) proof fn lemma_sample_hist_in_domain(s: Seq<Option<DiceSide>>)
    requires
        s.len() == 6,
    ensures
        hist_in_domain(sample_hist(s)),
        forall|f: int| 0 <= f < 6 ==> sample_hist(s)[f] as int == count_face(present_seq(s), f),
{
    lemma_present_len(s);
    assert forall|f: int| 0 <= f < 6 implies 0 <= #[trigger] count_face(present_seq(s), f) <= 6 by {
        lemma_count_face_bound(present_seq(s), f);
    }
}

/// A result of rolling up to six dice: each slot holds a face, or `None` where that die
/// is not part of the roll.
#[derive(Clone, Copy, Debug, PartialEq, Eq)]
pub struct DiceSetSample {
    pub sample: [Option<DiceSide>; 6],
}

impl Default for DiceSetSample {
    /// The sample with no die present.
    fn default() -> (r: DiceSetSample)
        ensures
            forall|i: int| 0 <= i < 6 ==> r.sample[i] is None,
    {
        DiceSetSample { sample: [None; 6] }
    }
}

impl DiceSetSample {
    pub fn new(sample: [Option<DiceSide>; 6]) -> (r: DiceSetSample)
        ensures
            r.sample == sample,
    {
        DiceSetSample { sample }
    }

    /// The faces of the dice present, in slot order.
    pub fn present(&self) -> (r: Vec<DiceSide>)
        ensures
            r@ == present_seq(self.sample@),
    {
        let mut out: Vec<DiceSide> = Vec::new();
        let mut i: usize = 0;
        while i < 6
            invariant
                i <= 6,
                out@ == present_seq(self.sample@.take(i as int)),
            decreases 6 - i,
        {
            proof {
                assert(self.sample@.take(i as int + 1).drop_last() =~= self.sample@.take(i as int));
            }
            match self.sample[i] {
                Some(d) => out.push(d),
                None => {},
            }
            i = i + 1;
        }
        proof {
            assert(self.sample@.take(6) =~= self.sample@);
        }
        out
    }

    /// Which slots hold a die.
    pub fn present_mask(&self) -> (r: [bool; 6])
        ensures
            forall|i: int| 0 <= i < 6 ==> r[i] == self.sample[i] is Some,
    {
        let mut mask: [bool; 6] = [false; 6];
        let mut i: usize = 0;
        while i < 6
            invariant
                i <= 6,
                forall|j: int| 0 <= j < i ==> mask[j] == self.sample[j] is Some,
            decreases 6 - i,
        {
            mask[i] = self.sample[i].is_some();
            i = i + 1;
        }
        mask
    }
}

/// The dice of the sample that form its best scoring hand: the dice that the scoring
/// rules leave unused are cleared, the first ones in slot order for each face.
pub fn best_selection(sample: DiceSetSample) -> (r: DiceSetSample)
    ensures
        forall|j: int|
            0 <= j < 6 ==> r.sample[j] == kept_slot(
                sample.sample@,
                j,
                consume(sample_hist(sample.sample@)).1,
            ),
{
    let ghost s = sample.sample@;
    let present = sample.present();
    proof {
        lemma_present_len(s);
        lemma_sample_hist_in_domain(s);
    }
    let hist = count_sides(present.as_slice());
    assert(hist@ =~= sample_hist(s));
    let (_total, left) = consume_hand(hist);
    let mut out = sample;
    let mut cleared: [u8; 6] = [0u8; 6];
    let mut j: usize = 0;
    while j < 6
        invariant
            j <= 6,
            s == sample.sample@,
            left@.len() == 6,
            forall|f: int|
                0 <= f < 6 ==> cleared[f] as int == if count_face(
                    present_seq(s.take(j as int)),
                    f,
                ) < left[f] {
                    count_face(present_seq(s.take(j as int)), f)
                } else {
                    left[f] as int
                },
            forall|k: int| 0 <= k < j ==> out.sample[k] == kept_slot(s, k, left@),
            forall|k: int| j <= k < 6 ==> out.sample[k] == s[k],
        decreases 6 - j,
    {
        proof {
            let t = s.take(j as int);
            let t1 = s.take(j as int + 1);
            assert(t1.drop_last() =~= t);
            assert(t1.last() == s[j as int]);
            let p = present_seq(t);
            match s[j as int] {
                Some(d) => {
                    assert(present_seq(t1) == p.push(d));
                    assert(p.push(d).drop_last() =~= p);
                    assert(p.push(d).last() == d);
                },
                None => {
                    assert(present_seq(t1) == p);
                },
            }
        }
        match sample.sample[j] {
            Some(d) => {
                let f = d.index();
                if cleared[f] < left[f] {
                    out.sample[j] = None;
                    cleared[f] = cleared[f] + 1;
                }
            },
            None => {},
        }
        j = j + 1;
    }
    out
}


/// `b` raised to the power `e`.
pub open spec fn power(b: int, e: nat) -> int
    decreases e,
{
    if e == 0 {
        1
    } else {
        b * power(b, (e - 1) as nat)
    }
}

/// Digit `k` of `i` written in base `b`.
pub open spec fn digit(i: int, b: int, k: nat) -> int {
    (i / power(b, k)) % b
}

/// Number of `true` entries.
pub open spec fn count_true(m: Seq<bool>) -> nat
    decreases m.len(),
{
    if m.len() == 0 {
        0
    } else {
        count_true(m.drop_last()) + if m.last() {
            1nat
        } else {
            0nat
        }
    }
}

/// Which slots of a sample hold a die.
pub open spec fn sample_mask(s: Seq<Option<DiceSide>>) -> Seq<bool> {
    Seq::new(s.len(), |j: int| s[j] is Some)
}

/// The selection numbered `i`: the present die of rank `k` (counting present dice in
/// slot order from 0) is kept when bit `k` of `i` is set, and every other slot is empty.
pub open spec fn selection_of(s: Seq<Option<DiceSide>>, i: int) -> Seq<Option<DiceSide>> {
    Seq::new(
        6,
        |j: int|
            if s[j] is Some && digit(i, 2, count_true(sample_mask(s).take(j))) == 1 {
                s[j]
            } else {
                None
            },
    )
}

pub proof fn lemma_power_pos(b: int, e: nat)
    requires
        b >= 1,
    ensures
        power(b, e) >= 1,
    decreases e,
{
    if e > 0 {
        lemma_power_pos(b, (e - 1) as nat);
        assert(b * power(b, (e - 1) as nat) >= 1) by (nonlinear_arith)
            requires
                b >= 1,
                power(b, (e - 1) as nat) >= 1,
        ;
    }
}

pub proof fn lemma_power_mono(b: int, e1: nat, e2: nat)
    requires
        b >= 1,
        e1 <= e2,
    ensures
        power(b, e1) <= power(b, e2),
    decreases e2,
{
    if e1 < e2 {
        lemma_power_mono(b, e1, (e2 - 1) as nat);
        lemma_power_pos(b, (e2 - 1) as nat);
        assert(power(b, (e2 - 1) as nat) <= b * power(b, (e2 - 1) as nat)) by (nonlinear_arith)
            requires
                b >= 1,
                power(b, (e2 - 1) as nat) >= 1,
        ;
    }
}

/// Dividing by the base once more moves to the next digit.
pub proof fn lemma_digit_step(i: int, b: int, k: nat)
    requires
        i >= 0,
        b >= 2,
    ensures
        (i / power(b, k)) / b == i / power(b, k + 1),
        power(b, k) >= 1,
{
    lemma_power_pos(b, k);
    vstd::arithmetic::div_mod::lemma_div_denominator(i, power(b, k), b);
    assert(power(b, k + 1) == b * power(b, k));
    assert(power(b, k) * b == b * power(b, k)) by (nonlinear_arith);
}

impl DiceSetSample {
    /// Number of dice present.
    fn count_present(&self) -> (r: usize)
        ensures
            r as int == count_true(sample_mask(self.sample@)),
            r <= 6,
    {
        let ghost m = sample_mask(self.sample@);
        let mut n: usize = 0;
        let mut j: usize = 0;
        while j < 6
            invariant
                j <= 6,
                m == sample_mask(self.sample@),
                n as int == count_true(m.take(j as int)),
                n <= j,
            decreases 6 - j,
        {
            proof {
                assert(m.take(j as int + 1).drop_last() =~= m.take(j as int));
            }
            if self.sample[j].is_some() {
                n = n + 1;
            }
            j = j + 1;
        }
        proof {
            assert(m.take(6) =~= m);
        }
        n
    }

    /// The selection numbered `i` (see `selection_of`).
    fn selection_at(&self, i: usize) -> (r: DiceSetSample)
        ensures
            forall|j: int| 0 <= j < 6 ==> r.sample[j] == selection_of(self.sample@, i as int)[j],
    {
        let ghost s = self.sample@;
        let ghost m = sample_mask(s);
        let mut out = *self;
        let mut val: usize = i;
        let mut j: usize = 0;
        while j < 6
            invariant
                j <= 6,
                s == self.sample@,
                m == sample_mask(s),
                val as int == i as int / power(2, count_true(m.take(j as int))),
                forall|k: int| 0 <= k < j ==> out.sample[k] == selection_of(s, i as int)[k],
                forall|k: int| j <= k < 6 ==> out.sample[k] == s[k],
            decreases 6 - j,
        {
            proof {
                assert(m.take(j as int + 1).drop_last() =~= m.take(j as int));
                lemma_digit_step(i as int, 2, count_true(m.take(j as int)));
            }
            if self.sample[j].is_some() {
                if val % 2 == 0 {
                    out.sample[j] = None;
                }
                val = val / 2;
            }
            j = j + 1;
        }
        out
    }

    /// Every non-empty selection of the dice present: for `p` dice present, `2^p - 1`
    /// samples, the one at position `t` being `selection_of(self, t + 1)`.
    pub fn iter_selections(&self) -> (r: Vec<DiceSetSample>)
        ensures
            r@.len() == power(2, count_true(sample_mask(self.sample@))) - 1,
            forall|t: int, j: int|
                0 <= t < r@.len() && 0 <= j < 6 ==> #[trigger] r@[t].sample[j] == selection_of(
                    self.sample@,
                    t + 1,
                )[j],
    {
        let n = self.count_present();
        let mut total: usize = 1;
        let mut e: usize = 0;
        while e < n
            invariant
                e <= n <= 6,
                total as int == power(2, e as nat),
            decreases n - e,
        {
            proof {
                lemma_power_mono(2, e as nat, 5);
                reveal_with_fuel(power, 6);
            }
            total = total * 2;
            e = e + 1;
        }
        let mut out: Vec<DiceSetSample> = Vec::new();
        let mut i: usize = 1;
        proof {
            lemma_power_pos(2, n as nat);
        }
        while i < total
            invariant
                1 <= i <= total,
                out@.len() == i - 1,
                forall|t: int, j: int|
                    0 <= t < out@.len() && 0 <= j < 6 ==> #[trigger] out@[t].sample[j]
                        == selection_of(self.sample@, t + 1)[j],
            decreases total - i,
        {
            let sel = self.selection_at(i);
            out.push(sel);
            i = i + 1;
        }
        out
    }
}


/// The roll numbered `i` of the dice marked in `mask`: the marked die of rank `k`
/// (counting marked dice in slot order from 0) shows the face at position digit `k`
/// of `i` in base 6; unmarked slots are empty.
pub open spec fn outcome_of(mask: Seq<bool>, i: int) -> Seq<Option<DiceSide>> {
    Seq::new(
        6,
        |j: int|
            if mask[j] {
                Some(DiceSide::spec_from_index(digit(i, 6, count_true(mask.take(j)))))
            } else {
                None
            },
    )
}

/// The sub-mask numbered `i` of `mask`: the marked slot of rank `k` stays marked when
/// bit `k` of `i` is set.
pub open spec fn submask_of(mask: Seq<bool>, i: int) -> Seq<bool> {
    Seq::new(6, |j: int| mask[j] && digit(i, 2, count_true(mask.take(j))) == 1)
}

/// A set of up to six dice: a borrowed view of six dice and a mask of those taking part.
pub struct DiceSet<'a, D> {
    pub dices: &'a [D; 6],
    pub select_mask: [bool; 6],
}

fn count_marked(mask: &[bool; 6]) -> (r: usize)
    ensures
        r as int == count_true(mask@),
        r <= 6,
{
    let mut n: usize = 0;
    let mut j: usize = 0;
    while j < 6
        invariant
            j <= 6,
            n as int == count_true(mask@.take(j as int)),
            n <= j,
        decreases 6 - j,
    {
        proof {
            assert(mask@.take(j as int + 1).drop_last() =~= mask@.take(j as int));
        }
        if mask[j] {
            n = n + 1;
        }
        j = j + 1;
    }
    proof {
        assert(mask@.take(6) =~= mask@);
    }
    n
}

/// `b` to the power `e`, for the small powers that enumeration needs.
fn small_power(b: usize, e: usize) -> (r: usize)
    requires
        2 <= b <= 7,
        e <= 6,
    ensures
        r as int == power(b as int, e as nat),
{
    let mut total: usize = 1;
    let mut k: usize = 0;
    while k < e
        invariant
            k <= e <= 6,
            2 <= b <= 7,
            total as int == power(b as int, k as nat),
        decreases e - k,
    {
        proof {
            lemma_power_mono(b as int, k as nat, 5);
            assert(power(b as int, 5) <= power(7, 5)) by {
                lemma_power_base_mono(b as int, 7, 5);
            }
            reveal_with_fuel(power, 6);
            assert(power(b as int, k as nat + 1) == b * power(b as int, k as nat));
            assert(total * b <= 117649 && total * b == b * total) by (nonlinear_arith)
                requires
                    total <= 16807,
                    b <= 7,
            ;
        }
        total = total * b;
        k = k + 1;
    }
    total
}

pub proof fn lemma_power_base_mono(b1: int, b2: int, e: nat)
    requires
        1 <= b1 <= b2,
    ensures
        power(b1, e) <= power(b2, e),
    decreases e,
{
    if e > 0 {
        lemma_power_base_mono(b1, b2, (e - 1) as nat);
        lemma_power_pos(b1, (e - 1) as nat);
        let p1 = power(b1, (e - 1) as nat);
        let p2 = power(b2, (e - 1) as nat);
        assert(b1 * p1 <= b2 * p2) by (nonlinear_arith)
            requires
                1 <= b1 <= b2,
                1 <= p1 <= p2,
        ;
    }
}

impl<'a, D> DiceSet<'a, D> {
    pub fn new(dices: &'a [D; 6], select_mask: [bool; 6]) -> (r: DiceSet<'a, D>)
        ensures
            r.dices == dices,
            r.select_mask == select_mask,
    {
        DiceSet { dices, select_mask }
    }

    /// The same dice with the mask inverted.
    pub fn complement(&self) -> (r: DiceSet<'a, D>)
        ensures
            r.dices == self.dices,
            forall|j: int| 0 <= j < 6 ==> r.select_mask[j] == !self.select_mask[j],
    {
        let mut mask: [bool; 6] = [false; 6];
        let mut j: usize = 0;
        while j < 6
            invariant
                j <= 6,
                forall|k: int| 0 <= k < j ==> mask[k] == !self.select_mask[k],
            decreases 6 - j,
        {
            mask[j] = !self.select_mask[j];
            j = j + 1;
        }
        DiceSet { dices: self.dices, select_mask: mask }
    }

    /// The roll numbered `i` (see `outcome_of`).
    fn outcome_at(&self, i: usize) -> (r: DiceSetSample)
        ensures
            forall|j: int| 0 <= j < 6 ==> r.sample[j] == outcome_of(self.select_mask@, i as int)[j],
    {
        let ghost m = self.select_mask@;
        let mut out = DiceSetSample { sample: [None; 6] };
        let mut val: usize = i;
        let mut j: usize = 0;
        while j < 6
            invariant
                j <= 6,
                m == self.select_mask@,
                val as int == i as int / power(6, count_true(m.take(j as int))),
                forall|k: int| 0 <= k < j ==> out.sample[k] == outcome_of(m, i as int)[k],
                forall|k: int| j <= k < 6 ==> out.sample[k] is None,
            decreases 6 - j,
        {
            proof {
                assert(m.take(j as int + 1).drop_last() =~= m.take(j as int));
                lemma_digit_step(i as int, 6, count_true(m.take(j as int)));
            }
            if self.select_mask[j] {
                out.sample[j] = Some(DiceSide::from((val % 6) as u8));
                val = val / 6;
            }
            j = j + 1;
        }
        out
    }

    /// Every roll of the dice taking part: for `k` of them, `6^k` samples, the one at
    /// position `i` being `outcome_of(mask, i)`.
    pub fn iter_outcomes(&self) -> (r: Vec<DiceSetSample>)
        ensures
            r@.len() == power(6, count_true(self.select_mask@)),
            forall|i: int, j: int|
                0 <= i < r@.len() && 0 <= j < 6 ==> #[trigger] r@[i].sample[j] == outcome_of(
                    self.select_mask@,
                    i,
                )[j],
    {
        let n = count_marked(&self.select_mask);
        let total = small_power(6, n);
        let mut out: Vec<DiceSetSample> = Vec::new();
        let mut i: usize = 0;
        while i < total
            invariant
                i <= total,
                out@.len() == i,
                forall|t: int, j: int|
                    0 <= t < out@.len() && 0 <= j < 6 ==> #[trigger] out@[t].sample[j]
                        == outcome_of(self.select_mask@, t)[j],
            decreases total - i,
        {
            let o = self.outcome_at(i);
            out.push(o);
            i = i + 1;
        }
        out
    }

    /// The sub-mask numbered `i` (see `submask_of`).
    fn submask_at(&self, i: usize) -> (r: [bool; 6])
        ensures
            forall|j: int| 0 <= j < 6 ==> r[j] == submask_of(self.select_mask@, i as int)[j],
    {
        let ghost m = self.select_mask@;
        let mut out: [bool; 6] = [false; 6];
        let mut val: usize = i;
        let mut j: usize = 0;
        while j < 6
            invariant
                j <= 6,
                m == self.select_mask@,
                val as int == i as int / power(2, count_true(m.take(j as int))),
                forall|k: int| 0 <= k < j ==> out[k] == submask_of(m, i as int)[k],
                forall|k: int| j <= k < 6 ==> !out[k],
            decreases 6 - j,
        {
            proof {
                assert(m.take(j as int + 1).drop_last() =~= m.take(j as int));
                lemma_digit_step(i as int, 2, count_true(m.take(j as int)));
            }
            if self.select_mask[j] {
                out[j] = val % 2 != 0;
                val = val / 2;
            }
            j = j + 1;
        }
        out
    }

    /// Every non-empty subset of the dice taking part (the whole set included): for `k`
    /// of them, `2^k - 1` sets, the one at position `t` masked by `submask_of(mask, t + 1)`.
    pub fn iter_subsets(&self) -> (r: Vec<DiceSet<'a, D>>)
        ensures
            r@.len() == power(2, count_true(self.select_mask@)) - 1,
            forall|t: int, j: int|
                0 <= t < r@.len() && 0 <= j < 6 ==> #[trigger] r@[t].select_mask[j]
                    == submask_of(self.select_mask@, t + 1)[j],
            forall|t: int| 0 <= t < r@.len() ==> #[trigger] r@[t].dices == self.dices,
    {
        let n = count_marked(&self.select_mask);
        let total = small_power(2, n);
        proof {
            lemma_power_pos(2, n as nat);
        }
        let mut out: Vec<DiceSet<'a, D>> = Vec::new();
        let mut i: usize = 1;
        while i < total
            invariant
                1 <= i <= total,
                out@.len() == i - 1,
                forall|t: int, j: int|
                    0 <= t < out@.len() && 0 <= j < 6 ==> #[trigger] out@[t].select_mask[j]
                        == submask_of(self.select_mask@, t + 1)[j],
                forall|t: int| 0 <= t < out@.len() ==> #[trigger] out@[t].dices == self.dices,
            decreases total - i,
        {
            let m = self.submask_at(i);
            out.push(DiceSet { dices: self.dices, select_mask: m });
            i = i + 1;
        }
        out
    }

    /// The dice marked both here and in `select_mask`.
    pub fn new_subset(&self, select_mask: &[bool; 6]) -> (r: DiceSet<'a, D>)
        ensures
            r.dices == self.dices,
            forall|j: int| 0 <= j < 6 ==> r.select_mask[j] == (self.select_mask[j] && select_mask[j]),
    {
        let mut mask: [bool; 6] = [false; 6];
        let mut j: usize = 0;
        while j < 6
            invariant
                j <= 6,
                forall|k: int| 0 <= k < j ==> mask[k] == (self.select_mask[k] && select_mask[k]),
            decreases 6 - j,
        {
            mask[j] = self.select_mask[j] && select_mask[j];
            j = j + 1;
        }
        DiceSet { dices: self.dices, select_mask: mask }
    }
}


/// The first `p` digits of `i` in base `b`, lowest first.
pub open spec fn low_digits(i: int, b: int, p: nat) -> Seq<int> {
    Seq::new(p, |k: int| digit(i, b, k as nat))
}

/// Two numbers below `b^p` that differ have a differing digit below `p`.
proof fn lemma_digits_differ(i1: int, i2: int, b: int, p: nat)
    requires
        b >= 2,
        0 <= i1 < power(b, p),
        0 <= i2 < power(b, p),
        i1 != i2,
    ensures
        exists|k: int| 0 <= k < p && #[trigger] digit(i1, b, k as nat) != digit(i2, b, k as nat),
{
    let d1 = low_digits(i1, b, p);
    let d2 = low_digits(i2, b, p);
    lemma_horner_decode(d1, b, i1, 0);
    lemma_horner_decode(d2, b, i2, 0);
    if forall|k: int| 0 <= k < p ==> #[trigger] digit(i1, b, k as nat) == digit(i2, b, k as nat) {
        assert(d1 =~= d2);
    }
}

/// For `k` below the number of marked entries, some marked entry has exactly `k` marked
/// entries before it.
proof fn lemma_rank_exists(m: Seq<bool>, k: int)
    requires
        0 <= k < count_true(m),
    ensures
        exists|j: int| 0 <= j < m.len() && m[j] && #[trigger] count_true(m.take(j)) == k,
    decreases m.len(),
{
    let d = m.drop_last();
    if k < count_true(d) {
        lemma_rank_exists(d, k);
        let j = choose|j: int| 0 <= j < d.len() && d[j] && #[trigger] count_true(d.take(j)) == k;
        assert(d.take(j) =~= m.take(j));
    } else {
        let j = m.len() - 1;
        assert(m.take(j) =~= d);
        assert(m[j] && count_true(m.take(j)) == k);
    }
}

/// The selections numbered `1` to `2^p - 1` (for `p` dice present) are pairwise
/// different, none of them is empty, and each keeps only dice of the sample.
pub proof fn lemma_selections_distinct_nonempty(s: DiceSetSample, i1: int, i2: int)
    requires
        1 <= i1 < power(2, count_true(sample_mask(s.sample@))),
        1 <= i2 < power(2, count_true(sample_mask(s.sample@))),
        i1 != i2,
    ensures
        selection_of(s.sample@, i1) != selection_of(s.sample@, i2),
        exists|j: int| 0 <= j < 6 && (#[trigger] selection_of(s.sample@, i1)[j]) is Some,
        forall|j: int|
            0 <= j < 6 ==> (#[trigger] selection_of(s.sample@, i1)[j] == s.sample[j]
                || selection_of(s.sample@, i1)[j] is None),
{
    let m = sample_mask(s.sample@);
    let p = count_true(m);
    lemma_power_pos(2, p);
    lemma_digits_differ(i1, i2, 2, p);
    let k = choose|k: int| 0 <= k < p && #[trigger] digit(i1, 2, k as nat) != digit(i2, 2, k as nat);
    lemma_rank_exists(m, k);
    let j = choose|j: int| 0 <= j < m.len() && m[j] && #[trigger] count_true(m.take(j)) == k;
    lemma_power_pos(2, k as nat);
    assert(selection_of(s.sample@, i1)[j] != selection_of(s.sample@, i2)[j]);
    lemma_digits_differ(i1, 0, 2, p);
    let k0 = choose|k0: int| 0 <= k0 < p && #[trigger] digit(i1, 2, k0 as nat) != digit(0, 2, k0 as nat);
    lemma_rank_exists(m, k0);
    let j0 = choose|j0: int| 0 <= j0 < m.len() && m[j0] && #[trigger] count_true(m.take(j0)) == k0;
    lemma_power_pos(2, k0 as nat);
    assert(0int / power(2, k0 as nat) == 0);
    assert(selection_of(s.sample@, i1)[j0] is Some);
}


/// A roll holding a straight, three or more of one face, a one or a five is no bust.
pub proof fn lemma_scoring_combination_not_busted(h: Seq<u8>)
    requires
        h.len() == 6,
        has_full_straight(h) || has_high_straight(h) || has_low_straight(h) || (exists|i: int|
            0 <= i < 6 && h[i] >= 3) || h[0] > 0 || h[4] > 0,
    ensures
        spec_not_busted(h),
{
}

/// A roll is a bust exactly when no scoring rule applies to it.
pub proof fn lemma_not_busted_iff_rule_applies(h: Seq<u8>)
    requires
        h.len() == 6,
    ensures
        spec_not_busted(h) <==> scoring_step(h) is Some,
{
    lemma_best_multi(h, 6);
}


/// The rolls numbered `0` to `6^k - 1` (for `k` dice taking part) are pairwise different,
/// and each has a die exactly in the slots taking part.
pub proof fn lemma_outcomes_distinct(mask: Seq<bool>, i1: int, i2: int)
    requires
        mask.len() == 6,
        0 <= i1 < power(6, count_true(mask)),
        0 <= i2 < power(6, count_true(mask)),
        i1 != i2,
    ensures
        outcome_of(mask, i1) != outcome_of(mask, i2),
        forall|j: int| 0 <= j < 6 ==> ((#[trigger] outcome_of(mask, i1)[j]) is Some <==> mask[j]),
{
    let p = count_true(mask);
    lemma_digits_differ(i1, i2, 6, p);
    let k = choose|k: int| 0 <= k < p && #[trigger] digit(i1, 6, k as nat) != digit(i2, 6, k as nat);
    lemma_rank_exists(mask, k);
    let j = choose|j: int| 0 <= j < mask.len() && mask[j] && #[trigger] count_true(mask.take(j)) == k;
    lemma_power_pos(6, k as nat);
    assert(outcome_of(mask, i1)[j] != outcome_of(mask, i2)[j]);
}


/// The sub-masks numbered `1` to `2^k - 1` (for `k` dice taking part) are pairwise
/// different, none of them is empty, and each marks only dice taking part.
pub proof fn lemma_subsets_distinct_nonempty(mask: Seq<bool>, i1: int, i2: int)
    requires
        mask.len() == 6,
        1 <= i1 < power(2, count_true(mask)),
        1 <= i2 < power(2, count_true(mask)),
        i1 != i2,
    ensures
        submask_of(mask, i1) != submask_of(mask, i2),
        exists|j: int| 0 <= j < 6 && #[trigger] submask_of(mask, i1)[j],
        forall|j: int| 0 <= j < 6 && #[trigger] submask_of(mask, i1)[j] ==> mask[j],
{
    let p = count_true(mask);
    lemma_power_pos(2, p);
    lemma_digits_differ(i1, i2, 2, p);
    let k = choose|k: int| 0 <= k < p && #[trigger] digit(i1, 2, k as nat) != digit(i2, 2, k as nat);
    lemma_rank_exists(mask, k);
    let j = choose|j: int| 0 <= j < mask.len() && mask[j] && #[trigger] count_true(mask.take(j)) == k;
    lemma_power_pos(2, k as nat);
    assert(submask_of(mask, i1)[j] != submask_of(mask, i2)[j]);
    lemma_digits_differ(i1, 0, 2, p);
    let k0 = choose|k0: int| 0 <= k0 < p && #[trigger] digit(i1, 2, k0 as nat) != digit(0, 2, k0 as nat);
    lemma_rank_exists(mask, k0);
    let j0 = choose|j0: int| 0 <= j0 < mask.len() && mask[j0] && #[trigger] count_true(mask.take(j0)) == k0;
    lemma_power_pos(2, k0 as nat);
    assert(0int / power(2, k0 as nat) == 0);
    assert(submask_of(mask, i1)[j0]);
}

} // verus!
