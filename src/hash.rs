//! Perfect hashing: a bijection between a finite domain and `0..set_size`, and a dense
//! map keyed through it.

use std::marker::PhantomData;
use vstd::prelude::*;
use crate::farkle::{
    DiceSide, DiceSetSample, FarkleScore, digit, lemma_digit_step, lemma_power_mono, lemma_power_pos,
    power,
};

verus! {

/// A hash value that belongs to the domain of `T`.
pub struct PerfectHash<T> {
    hash: usize,
    associated: PhantomData<T>,
}

impl<T> PerfectHash<T> {
    /// The hash value.
    pub closed spec fn code(self) -> nat {
        self.hash as nat
    }

    pub fn new(hash: usize) -> (r: PerfectHash<T>)
        ensures
            r.code() == hash,
    {
        PerfectHash { hash, associated: PhantomData }
    }

    pub fn get(&self) -> (r: usize)
        ensures
            r == self.code(),
    {
        self.hash
    }
}

impl<T> Clone for PerfectHash<T> {
    fn clone(&self) -> (r: PerfectHash<T>)
        ensures
            r == *self,
    {
        PerfectHash { hash: self.hash, associated: PhantomData }
    }
}

impl<T> Copy for PerfectHash<T> {

}

impl<T> From<PerfectHash<T>> for usize {
    fn from(value: PerfectHash<T>) -> (r: usize) {
        value.hash
    }
}

impl<T> vstd::std_specs::convert::FromSpecImpl<PerfectHash<T>> for usize {
    open spec fn obeys_from_spec() -> bool {
        true
    }

    open spec fn from_spec(v: PerfectHash<T>) -> usize {
        v.code() as usize
    }
}

/// A finite domain numbered by `0..set_size`. Every number of the range decodes to a
/// value that encodes back to it; where `hash_exact` holds, the encoding is also one to
/// one, so that decoding an encoding gives back the value itself.
pub trait PerfectHashing: Sized {
    /// Size of the domain: hash values lie in `0..set_size_spec()`.
    spec fn set_size_spec() -> nat;

    /// The value belongs to the hashed domain.
    spec fn in_domain(&self) -> bool;

    /// The hash value of a value of the domain.
    spec fn hash_spec(&self) -> nat;

    /// Equal hash values mean equal values.
    spec fn hash_exact() -> bool;

    proof fn lemma_hash_bound(v: Self)
        requires
            v.in_domain(),
        ensures
            v.hash_spec() < Self::set_size_spec(),
    ;

    proof fn lemma_hash_injective(a: Self, b: Self)
        requires
            Self::hash_exact(),
            a.in_domain(),
            b.in_domain(),
            a.hash_spec() == b.hash_spec(),
        ensures
            a == b,
    ;

    fn set_size() -> (r: usize)
        ensures
            r == Self::set_size_spec(),
    ;

    fn to_perfhash(&self) -> (r: PerfectHash<Self>)
        requires
            self.in_domain(),
        ensures
            r.code() == self.hash_spec(),
            r.code() < Self::set_size_spec(),
    ;

    fn from_perfhash(hash: PerfectHash<Self>) -> (r: Self)
        requires
            hash.code() < Self::set_size_spec(),
        ensures
            r.in_domain(),
            r.hash_spec() == hash.code(),
    ;
}

/// Digits `j..` of `ds` read as a number in base `b`, lowest digit first.
pub open spec fn horner(ds: Seq<int>, b: int, j: int) -> int
    decreases ds.len() - j,
{
    if j >= ds.len() || j < 0 {
        0
    } else {
        ds[j] + b * horner(ds, b, j + 1)
    }
}

/// Every digit lies in `0..b`.
pub open spec fn digits_in_base(ds: Seq<int>, b: int) -> bool {
    forall|k: int| 0 <= k < ds.len() ==> 0 <= #[trigger] ds[k] < b
}

pub proof fn lemma_horner_bound(ds: Seq<int>, b: int, j: int)
    requires
        b >= 2,
        0 <= j <= ds.len(),
        digits_in_base(ds, b),
    ensures
        0 <= horner(ds, b, j) < power(b, (ds.len() - j) as nat),
    decreases ds.len() - j,
{
    if j < ds.len() {
        lemma_horner_bound(ds, b, j + 1);
        let p = power(b, (ds.len() - j - 1) as nat);
        let x = ds[j];
        let y = horner(ds, b, j + 1);
        assert(power(b, (ds.len() - j) as nat) == b * p);
        assert(0 <= x + b * y < b * p) by (nonlinear_arith)
            requires
                0 <= x < b,
                0 <= y < p,
                b >= 2,
        ;
    }
}

pub proof fn lemma_horner_decode(ds: Seq<int>, b: int, h: int, j: int)
    requires
        b >= 2,
        0 <= j <= ds.len(),
        0 <= h < power(b, ds.len()),
        forall|k: int| j <= k < ds.len() ==> #[trigger] ds[k] == digit(h, b, k as nat),
    ensures
        horner(ds, b, j) == h / power(b, j as nat),
    decreases ds.len() - j,
{
    lemma_power_pos(b, j as nat);
    if j == ds.len() {
        vstd::arithmetic::div_mod::lemma_basic_div(h, power(b, j as nat));
    } else {
        lemma_horner_decode(ds, b, h, j + 1);
        lemma_digit_step(h, b, j as nat);
        let x = h / power(b, j as nat);
        vstd::arithmetic::div_mod::lemma_fundamental_div_mod(x, b);
    }
}

pub proof fn lemma_horner_injective(d1: Seq<int>, d2: Seq<int>, b: int, j: int)
    requires
        b >= 2,
        0 <= j <= d1.len(),
        d1.len() == d2.len(),
        digits_in_base(d1, b),
        digits_in_base(d2, b),
        horner(d1, b, j) == horner(d2, b, j),
    ensures
        forall|k: int| j <= k < d1.len() ==> d1[k] == d2[k],
    decreases d1.len() - j,
{
    if j < d1.len() {
        let x1 = d1[j];
        let x2 = d2[j];
        let y1 = horner(d1, b, j + 1);
        let y2 = horner(d2, b, j + 1);
        assert(x1 == x2 && y1 == y2) by (nonlinear_arith)
            requires
                0 <= x1 < b,
                0 <= x2 < b,
                x1 + b * y1 == x2 + b * y2,
        ;
        lemma_horner_injective(d1, d2, b, j + 1);
    }
}


/// Digit of one slot of a sample: 0 when empty, else the face (1 to 6).
pub open spec fn slot_digit(o: Option<DiceSide>) -> int {
    match o {
        None => 0,
        Some(d) => d.spec_index() + 1,
    }
}

/// The slots of a sample as base-7 digits.
pub open spec fn sample_digits(s: DiceSetSample) -> Seq<int> {
    Seq::new(6, |j: int| slot_digit(s.sample[j]))
}

/// The slots of a mask as bits.
pub open spec fn mask_digits(m: [bool; 6]) -> Seq<int> {
    Seq::new(6, |j: int| if m[j] { 1int } else { 0int })
}

fn slot_code(o: Option<DiceSide>) -> (r: usize)
    ensures
        r as int == slot_digit(o),
        r < 7,
{
    match o {
        None => 0,
        Some(d) => d.index() + 1,
    }
}

impl PerfectHashing for DiceSetSample {
    open spec fn set_size_spec() -> nat {
        117649
    }

    open spec fn in_domain(&self) -> bool {
        true
    }

    open spec fn hash_spec(&self) -> nat {
        horner(sample_digits(*self), 7, 0) as nat
    }

    open spec fn hash_exact() -> bool {
        true
    }

    proof fn lemma_hash_bound(v: Self) {
        lemma_horner_bound(sample_digits(v), 7, 0);
        reveal_with_fuel(power, 7);
    }

    proof fn lemma_hash_injective(a: Self, b: Self) {
        let da = sample_digits(a);
        let db = sample_digits(b);
        lemma_horner_bound(da, 7, 0);
        lemma_horner_bound(db, 7, 0);
        lemma_horner_injective(da, db, 7, 0);
        assert forall|j: int| 0 <= j < 6 implies a.sample[j] == b.sample[j] by {
            assert(da[j] == db[j]);
        }
        assert(a.sample =~= b.sample);
    }

    fn set_size() -> (r: usize) {
        117649
    }

    fn to_perfhash(&self) -> (r: PerfectHash<Self>) {
        let ghost ds = sample_digits(*self);
        let mut val: usize = 0;
        let mut j: usize = 6;
        while j > 0
            invariant
                j <= 6,
                ds == sample_digits(*self),
                val as int == horner(ds, 7, j as int),
            decreases j,
        {
            j = j - 1;
            let d = slot_code(self.sample[j]);
            proof {
                lemma_horner_bound(ds, 7, j as int);
                lemma_power_mono(7, (6 - j) as nat, 6);
                reveal_with_fuel(power, 7);
            }
            val = val * 7 + d;
        }
        proof {
            lemma_horner_bound(ds, 7, 0);
            reveal_with_fuel(power, 7);
        }
        PerfectHash::new(val)
    }

    fn from_perfhash(hash: PerfectHash<Self>) -> (r: Self) {
        let h = hash.get();
        let mut n: usize = h;
        let mut out = DiceSetSample { sample: [None; 6] };
        let mut j: usize = 0;
        while j < 6
            invariant
                j <= 6,
                n as int == h as int / power(7, j as nat),
                forall|k: int| 0 <= k < j ==> slot_digit(#[trigger] out.sample[k]) == digit(h as int, 7, k as nat),
            decreases 6 - j,
        {
            proof {
                lemma_digit_step(h as int, 7, j as nat);
            }
            let d = n % 7;
            if d == 0 {
                out.sample[j] = None;
            } else {
                out.sample[j] = Some(DiceSide::from((d - 1) as u8));
            }
            n = n / 7;
            j = j + 1;
        }
        proof {
            let ds = sample_digits(out);
            reveal_with_fuel(power, 7);
            assert forall|k: int| 0 <= k < 6 implies #[trigger] ds[k] == digit(h as int, 7, k as nat) by {
                assert(slot_digit(out.sample[k]) == digit(h as int, 7, k as nat));
            }
            lemma_horner_decode(ds, 7, h as int, 0);
        }
        out
    }
}

impl PerfectHashing for [bool; 6] {
    open spec fn set_size_spec() -> nat {
        64
    }

    open spec fn in_domain(&self) -> bool {
        true
    }

    open spec fn hash_spec(&self) -> nat {
        horner(mask_digits(*self), 2, 0) as nat
    }

    open spec fn hash_exact() -> bool {
        true
    }

    proof fn lemma_hash_bound(v: Self) {
        lemma_horner_bound(mask_digits(v), 2, 0);
        reveal_with_fuel(power, 7);
    }

    proof fn lemma_hash_injective(a: Self, b: Self) {
        let da = mask_digits(a);
        let db = mask_digits(b);
        lemma_horner_bound(da, 2, 0);
        lemma_horner_bound(db, 2, 0);
        lemma_horner_injective(da, db, 2, 0);
        assert forall|j: int| 0 <= j < 6 implies a[j] == b[j] by {
            assert(da[j] == db[j]);
        }
        assert(a =~= b);
    }

    fn set_size() -> (r: usize) {
        64
    }

    fn to_perfhash(&self) -> (r: PerfectHash<Self>) {
        let ghost ds = mask_digits(*self);
        let mut val: usize = 0;
        let mut j: usize = 6;
        while j > 0
            invariant
                j <= 6,
                ds == mask_digits(*self),
                val as int == horner(ds, 2, j as int),
            decreases j,
        {
            j = j - 1;
            let d: usize = if self[j] {
                1
            } else {
                0
            };
            proof {
                lemma_horner_bound(ds, 2, j as int);
                lemma_power_mono(2, (6 - j) as nat, 6);
                reveal_with_fuel(power, 7);
            }
            val = val * 2 + d;
        }
        proof {
            lemma_horner_bound(ds, 2, 0);
            reveal_with_fuel(power, 7);
        }
        PerfectHash::new(val)
    }

    fn from_perfhash(hash: PerfectHash<Self>) -> (r: Self) {
        let h = hash.get();
        let mut n: usize = h;
        let mut mask: [bool; 6] = [false; 6];
        let mut j: usize = 0;
        while j < 6
            invariant
                j <= 6,
                n as int == h as int / power(2, j as nat),
                forall|k: int| 0 <= k < j ==> (if #[trigger] mask[k] { 1int } else { 0int }) == digit(h as int, 2, k as nat),
            decreases 6 - j,
        {
            proof {
                lemma_digit_step(h as int, 2, j as nat);
            }
            mask[j] = n % 2 != 0;
            n = n / 2;
            j = j + 1;
        }
        proof {
            let ds = mask_digits(mask);
            reveal_with_fuel(power, 7);
            assert forall|k: int| 0 <= k < 6 implies #[trigger] ds[k] == digit(h as int, 2, k as nat) by {
                assert((if mask[k] { 1int } else { 0int }) == digit(h as int, 2, k as nat));
            }
            lemma_horner_decode(ds, 2, h as int, 0);
        }
        mask
    }
}


/// Width of a score bucket.
pub const HASH_DIV: u32 = 50;

/// Scores are hashed by bucket (`value / 50`, 120 buckets), so decoding gives the lowest
/// score of the bucket rather than the score itself.
impl PerfectHashing for FarkleScore {
    open spec fn set_size_spec() -> nat {
        120
    }

    open spec fn in_domain(&self) -> bool {
        self.value < 6000
    }

    open spec fn hash_spec(&self) -> nat {
        (self.value / 50) as nat
    }

    open spec fn hash_exact() -> bool {
        false
    }

    proof fn lemma_hash_bound(v: Self) {
    }

    proof fn lemma_hash_injective(a: Self, b: Self) {
    }

    fn set_size() -> (r: usize) {
        120
    }

    fn to_perfhash(&self) -> (r: PerfectHash<Self>) {
        PerfectHash::new((self.value / HASH_DIV) as usize)
    }

    fn from_perfhash(hash: PerfectHash<Self>) -> (r: Self)
        ensures
            r.value == hash.code() * 50,
    {
        let h = hash.get();
        FarkleScore::new((h as u32) * HASH_DIV)
    }
}

/// Pairs are numbered row by row: the first component's hash times the second domain's
/// size, plus the second component's hash. A pair of domains whose product does not fit
/// in a `usize` has size 0, and no value of it is in the domain.
impl<T1: PerfectHashing, T2: PerfectHashing> PerfectHashing for (T1, T2) {
    open spec fn set_size_spec() -> nat {
        if T1::set_size_spec() * T2::set_size_spec() <= usize::MAX {
            T1::set_size_spec() * T2::set_size_spec()
        } else {
            0
        }
    }

    open spec fn in_domain(&self) -> bool {
        &&& self.0.in_domain()
        &&& self.1.in_domain()
        &&& T1::set_size_spec() * T2::set_size_spec() <= usize::MAX
    }

    open spec fn hash_spec(&self) -> nat {
        self.0.hash_spec() * T2::set_size_spec() + self.1.hash_spec()
    }

    open spec fn hash_exact() -> bool {
        T1::hash_exact() && T2::hash_exact()
    }

    proof fn lemma_hash_bound(v: Self) {
        T1::lemma_hash_bound(v.0);
        T2::lemma_hash_bound(v.1);
        lemma_row_major_bound(
            v.0.hash_spec() as int,
            v.1.hash_spec() as int,
            T1::set_size_spec() as int,
            T2::set_size_spec() as int,
        );
    }

    proof fn lemma_hash_injective(a: Self, b: Self) {
        T2::lemma_hash_bound(a.1);
        T2::lemma_hash_bound(b.1);
        let s2 = T2::set_size_spec() as int;
        let x1 = a.1.hash_spec() as int;
        let x2 = b.1.hash_spec() as int;
        let y1 = a.0.hash_spec() as int;
        let y2 = b.0.hash_spec() as int;
        assert(x1 == x2 && y1 == y2) by (nonlinear_arith)
            requires
                0 <= x1 < s2,
                0 <= x2 < s2,
                y1 * s2 + x1 == y2 * s2 + x2,
        ;
        T1::lemma_hash_injective(a.0, b.0);
        T2::lemma_hash_injective(a.1, b.1);
    }

    fn set_size() -> (r: usize) {
        let s1 = T1::set_size();
        let s2 = T2::set_size();
        match s1.checked_mul(s2) {
            Some(s) => s,
            None => 0,
        }
    }

    fn to_perfhash(&self) -> (r: PerfectHash<Self>) {
        let h1 = self.0.to_perfhash().get();
        let h2 = self.1.to_perfhash().get();
        let s2 = T2::set_size();
        proof {
            lemma_row_major_bound(
                h1 as int,
                h2 as int,
                T1::set_size_spec() as int,
                s2 as int,
            );
        }
        PerfectHash::new(h1 * s2 + h2)
    }

    fn from_perfhash(hash: PerfectHash<Self>) -> (r: Self) {
        let n = hash.get();
        let s2 = T2::set_size();
        proof {
            lemma_row_major_split(n as int, T1::set_size_spec() as int, s2 as int);
        }
        let t2 = T2::from_perfhash(PerfectHash::new(n % s2));
        let t1 = T1::from_perfhash(PerfectHash::new(n / s2));
        (t1, t2)
    }
}

proof fn lemma_row_major_bound(h1: int, h2: int, s1: int, s2: int)
    requires
        0 <= h1 < s1,
        0 <= h2 < s2,
    ensures
        0 <= h1 * s2 + h2 < s1 * s2,
{
    assert(0 <= h1 * s2 + h2 < s1 * s2) by (nonlinear_arith)
        requires
            0 <= h1 < s1,
            0 <= h2 < s2,
    ;
}

proof fn lemma_row_major_split(n: int, s1: int, s2: int)
    requires
        0 <= n < s1 * s2,
        s1 >= 0,
        s2 >= 0,
    ensures
        s2 > 0,
        0 <= n / s2 < s1,
        0 <= n % s2 < s2,
        (n / s2) * s2 + n % s2 == n,
{
    assert(s2 > 0) by (nonlinear_arith)
        requires
            0 <= n < s1 * s2,
            s1 >= 0,
            s2 >= 0,
    ;
    vstd::arithmetic::div_mod::lemma_fundamental_div_mod(n, s2);
    let q = n / s2;
    let m = n % s2;
    assert(0 <= m < s2);
    assert(q * s2 == s2 * q) by (nonlinear_arith);
    assert(0 <= q < s1) by (nonlinear_arith)
        requires
            n == s2 * q + m,
            0 <= m < s2,
            0 <= n < s1 * s2,
            s2 > 0,
    ;
}


/// A map whose keys are numbered by a perfect hash: one slot per key of the domain, in
/// a vector indexed by the key's hash.
pub struct PerfectHashMap<K: PerfectHashing, V> {
    map: Vec<V>,
    associated: PhantomData<K>,
}

impl<K: PerfectHashing, V> PerfectHashMap<K, V> {
    /// The values, in the order of their keys' hashes.
    pub closed spec fn values(self) -> Seq<V> {
        self.map@
    }

    /// One value for each key of the domain.
    pub open spec fn wf(self) -> bool {
        self.values().len() == K::set_size_spec()
    }

    /// The value stored for `key`.
    pub open spec fn spec_get(self, key: K) -> V {
        self.values()[key.hash_spec() as int]
    }

    /// A map holding the default value under every key.
    pub fn new() -> (r: Self)
        where
            V: Default,
        ensures
            r.wf(),
    {
        let size = K::set_size();
        let mut vec: Vec<V> = Vec::with_capacity(size);
        let mut i: usize = 0;
        while i < size
            invariant
                i <= size,
                vec@.len() == i,
            decreases size - i,
        {
            vec.push(V::default());
            i = i + 1;
        }
        PerfectHashMap { map: vec, associated: PhantomData }
    }

    /// A map holding `values[h]` under the key whose hash is `h`; `None` unless there is
    /// exactly one value for each key of the domain.
    pub fn from_values(values: Vec<V>) -> (r: Option<Self>)
        ensures
            r is Some <==> values@.len() == K::set_size_spec(),
            r is Some ==> r->0.values() == values@ && r->0.wf(),
    {
        if values.len() == K::set_size() {
            Some(PerfectHashMap { map: values, associated: PhantomData })
        } else {
            None
        }
    }

    /// Number of keys of the domain.
    pub fn len(&self) -> (r: usize)
        ensures
            r == self.values().len(),
    {
        self.map.len()
    }

    pub fn get(&self, key: &K) -> (r: &V)
        requires
            self.wf(),
            key.in_domain(),
        ensures
            *r == self.spec_get(*key),
    {
        let h = key.to_perfhash().get();
        &self.map[h]
    }

    pub fn set(&mut self, key: &K, value: V)
        requires
            old(self).wf(),
            key.in_domain(),
        ensures
            final(self).values() == old(self).values().update(key.hash_spec() as int, value),
            final(self).wf(),
    {
        let h = key.to_perfhash().get();
        self.map.set(h, value);
    }

    /// Every key of the domain with its value, in the order of the keys' hashes.
    pub fn iter(&self) -> (r: Vec<(K, &V)>)
        requires
            self.wf(),
        ensures
            r@.len() == K::set_size_spec(),
            forall|i: int|
                0 <= i < r@.len() ==> {
                    &&& (#[trigger] r@[i]).0.in_domain()
                    &&& r@[i].0.hash_spec() == i
                    &&& *r@[i].1 == self.values()[i]
                },
    {
        let size = K::set_size();
        let mut out: Vec<(K, &V)> = Vec::with_capacity(size);
        let mut i: usize = 0;
        while i < size
            invariant
                i <= size,
                size == K::set_size_spec(),
                self.wf(),
                out@.len() == i,
                forall|t: int|
                    0 <= t < out@.len() ==> {
                        &&& (#[trigger] out@[t]).0.in_domain()
                        &&& out@[t].0.hash_spec() == t
                        &&& *out@[t].1 == self.values()[t]
                    },
            decreases size - i,
        {
            let k = K::from_perfhash(PerfectHash::new(i));
            out.push((k, &self.map[i]));
            i = i + 1;
        }
        out
    }

    /// Replaces the value of every key by `f(key, value)`, in the order of the keys' hashes.
    pub fn iter_mut<F: Fn(&K, &V) -> V>(&mut self, f: F)
        requires
            old(self).wf(),
            forall|k: &K, v: &V| #[trigger] f.requires((k, v)),
        ensures
            final(self).wf(),
            forall|i: int|
                0 <= i < final(self).values().len() ==> #[trigger] updated_by(
                    f,
                    i,
                    old(self).values()[i],
                    final(self).values()[i],
                ),
    {
        let ghost before = self.values();
        let size = K::set_size();
        let mut i: usize = 0;
        while i < size
            invariant
                i <= size,
                size == K::set_size_spec(),
                self.wf(),
                before.len() == size,
                before == old(self).values(),
                forall|k: &K, v: &V| #[trigger] f.requires((k, v)),
                forall|t: int| i <= t < size ==> self.values()[t] == before[t],
                forall|t: int|
                    0 <= t < i ==> #[trigger] updated_by(f, t, before[t], self.values()[t]),
            decreases size - i,
        {
            let k = K::from_perfhash(PerfectHash::new(i));
            let v = f(&k, &self.map[i]);
            self.map.set(i, v);
            proof {
                assert(f.ensures((&k, &before[i as int]), self.values()[i as int]));
                assert(updated_by(f, i as int, before[i as int], self.values()[i as int]));
            }
            i = i + 1;
        }
    }
}

/// `new_v` is what `f` may return for some key numbered `i` and the value `old_v`.
pub open spec fn updated_by<K: PerfectHashing, V, F: Fn(&K, &V) -> V>(
    f: F,
    i: int,
    old_v: V,
    new_v: V,
) -> bool {
    exists|k: K| k.in_domain() && k.hash_spec() == i && #[trigger] f.ensures((&k, &old_v), new_v)
}


/// In a domain whose hash is exact, decoding the hash of a value gives back the value:
/// `from_perfhash` returns a value of the domain with the same hash, and that is `v`.
pub proof fn lemma_exact_round_trip<K: PerfectHashing>(v: K, decoded: K)
    requires
        K::hash_exact(),
        v.in_domain(),
        decoded.in_domain(),
        decoded.hash_spec() == v.hash_spec(),
    ensures
        decoded == v,
{
    K::lemma_hash_injective(decoded, v);
}

/// Samples, masks and pairs of them are hashed exactly.
pub proof fn lemma_sample_and_mask_hashes_exact()
    ensures
        DiceSetSample::hash_exact(),
        <[bool; 6]>::hash_exact(),
        <(DiceSetSample, [bool; 6])>::hash_exact(),
{
}

/// A score decodes to the lowest score of its bucket: the bucket round-trips, the score
/// itself only when it is a multiple of 50.
pub proof fn lemma_score_bucket_round_trip(v: FarkleScore, decoded: FarkleScore)
    requires
        v.in_domain(),
        decoded.value == v.hash_spec() * 50,
    ensures
        decoded.in_domain(),
        decoded.hash_spec() == v.hash_spec(),
        decoded.value <= v.value < decoded.value + 50,
        decoded.value == v.value <==> v.value % 50 == 0,
{
}

} // verus!
