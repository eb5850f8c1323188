//! The fitness-score family: comparable, scalarizable representations of
//! multi-objective fitness, in the minimization convention.
//!
//! All score values are fixed-point numbers (see `fixed`): `SCALE` is one
//! whole unit.

use vstd::prelude::*;
use vstd::string::StringExecFns;
use core::cmp::Ordering;

use crate::fixed::{sat_add, fp_div_spec, add_score, div_score, mul_score, sqrt_score, SCALE};
use crate::score_map::{spec_get, distinct_keys, spec_insert, ScoreMap};
use crate::score_map::{lemma_insert_effect, lemma_get_present, lemma_present_get};

verus! {

/// A type that can serve as a candidate's fitness during selection.
pub trait FitnessScore: Sized + Clone {

}

/// Two named-score collections cover the same objective names.
pub open spec fn same_objectives(a: Seq<(Seq<char>, i64)>, b: Seq<(Seq<char>, i64)>) -> bool {
    forall|k: Seq<char>| spec_get(a, k) is Some <==> #[trigger] spec_get(b, k) is Some
}

/// Pareto dominance, minimization convention: `a` dominates `b` when it is
/// no worse on every objective and strictly better on at least one.
pub open spec fn dominates(a: Seq<(Seq<char>, i64)>, b: Seq<(Seq<char>, i64)>) -> bool {
    &&& forall|i: int|
        0 <= i < a.len() ==> ((#[trigger] spec_get(b, a[i].0)) is Some && a[i].1 <= spec_get(
            b,
            a[i].0,
        )->Some_0)
    &&& exists|i: int|
        0 <= i < a.len() && a[i].1 < (#[trigger] spec_get(b, a[i].0))->Some_0
}

/// Element-wise equality of the scores, as a relation distinct from the
/// dominance partial order.
pub open spec fn values_equal(a: Seq<(Seq<char>, i64)>, b: Seq<(Seq<char>, i64)>) -> bool {
    forall|i: int| 0 <= i < a.len() ==> #[trigger] spec_get(b, a[i].0) == Some(a[i].1)
}

/// The scalar reduction of a named-score collection: the saturating sum of
/// its values, in entry order.
pub open spec fn scalar_of(s: Seq<(Seq<char>, i64)>) -> i64
    decreases s.len(),
{
    if s.len() == 0 {
        0
    } else {
        sat_add(scalar_of(s.drop_last()) as int, s.last().1 as int) as i64
    }
}

/// An ordered mapping from objective name to score, compared by Pareto
/// dominance under minimization.
pub struct Pareto {
    scores: ScoreMap,
}

impl Pareto {
    /// The named scores, for specification purposes.
    pub closed spec fn view(&self) -> Seq<(Seq<char>, i64)> {
        self.scores@
    }

    /// Key distinctness, maintained by every operation.
    pub open spec fn wf(&self) -> bool {
        distinct_keys(self@)
    }

    /// An empty score vector.
    pub fn new() -> (r: Self)
        ensures
            r.wf(),
            r@ == Seq::<(Seq<char>, i64)>::empty(),
    {
        Pareto { scores: ScoreMap::new() }
    }

    /// Records `value` under the objective `name`.
    pub fn insert(&mut self, name: String, value: i64)
        requires
            old(self).wf(),
        ensures
            final(self).wf(),
            final(self)@ == spec_insert(old(self)@, name@, value),
    {
        self.scores.insert(name, value);
    }

    /// The score recorded under `name`, if any.
    pub fn get(&self, name: &str) -> (r: Option<i64>)
        ensures
            r == spec_get(self@, name@),
    {
        self.scores.get(name)
    }

    /// Number of objectives.
    pub fn len(&self) -> (r: usize)
        ensures
            r == self@.len(),
    {
        self.scores.len()
    }

    /// The scores in entry order.
    pub fn values(&self) -> (r: Vec<i64>)
        ensures
            r@.len() == self@.len(),
            forall|i: int| 0 <= i < r@.len() ==> #[trigger] r@[i] == self@[i].1,
    {
        let mut out: Vec<i64> = Vec::new();
        let n = self.scores.len();
        for i in 0..n
            invariant
                n == self@.len(),
                out@.len() == i,
                forall|j: int| 0 <= j < i ==> #[trigger] out@[j] == self@[j].1,
        {
            out.push(self.scores.value_at(i));
        }
        out
    }

    /// The scalar reduction: the saturating sum of all scores.
    pub fn scalar(&self) -> (r: i64)
        ensures
            r == scalar_of(self@),
    {
        let mut acc: i64 = 0;
        let n = self.scores.len();
        for i in 0..n
            invariant
                n == self@.len(),
                acc == scalar_of(self@.take(i as int)),
        {
            proof {
                assert(self@.take(i + 1).drop_last() =~= self@.take(i as int));
                assert(self@.take(i + 1).last() == self@[i as int]);
            }
            acc = add_score(acc, self.scores.value_at(i));
        }
        proof {
            assert(self@.take(self@.len() as int) =~= self@);
        }
        acc
    }

    /// Whether `self` dominates `other` (is strictly fitter) under the
    /// minimization convention. Comparing score vectors over different
    /// objective sets is caller misuse, left out by precondition.
    pub fn lt(&self, other: &Pareto) -> (r: bool)
        requires
            self.wf(),
            other.wf(),
            same_objectives(self@, other@),
        ensures
            r == dominates(self@, other@),
    {
        let n = self.scores.len();
        let mut all_le = true;
        let mut any_lt = false;
        for i in 0..n
            invariant
                n == self@.len(),
                same_objectives(self@, other@),
                all_le == (forall|j: int|
                    0 <= j < i ==> ((#[trigger] spec_get(other@, self@[j].0)) is Some && self@[j].1
                        <= spec_get(other@, self@[j].0)->Some_0)),
                any_lt == (exists|j: int|
                    0 <= j < i && self@[j].1 < (#[trigger] spec_get(other@, self@[j].0))->Some_0),
        {
            proof {
                lemma_get_present(self@, i as int);
                assert(spec_get(other@, self@[i as int].0) is Some);
            }
            let name = self.scores.key_at(i);
            let mine = self.scores.value_at(i);
            let theirs = match other.scores.get(name.as_str()) {
                Some(v) => v,
                None => 0,
            };
            let ghost prev_all = all_le;
            let ghost prev_any = any_lt;
            if mine > theirs {
                all_le = false;
            }
            if mine < theirs {
                any_lt = true;
            }
            proof {
                assert(theirs == spec_get(other@, self@[i as int].0)->Some_0);
                if all_le {
                    assert forall|j: int|
                        0 <= j < i + 1 implies ((#[trigger] spec_get(other@, self@[j].0)) is Some
                        && self@[j].1 <= spec_get(other@, self@[j].0)->Some_0) by {
                        if j == i as int {
                        }
                    }
                } else if prev_all {
                    assert(spec_get(other@, self@[i as int].0) is Some && mine > theirs);
                    assert(!(forall|j: int|
                        0 <= j < i + 1 ==> ((#[trigger] spec_get(other@, self@[j].0)) is Some
                            && self@[j].1 <= spec_get(other@, self@[j].0)->Some_0)));
                }
                if any_lt {
                    if !prev_any {
                        assert(self@[i as int].1 < spec_get(
                            other@,
                            self@[i as int].0,
                        )->Some_0);
                    }
                } else {
                    assert forall|j: int|
                        0 <= j < i + 1 implies !(self@[j].1 < (#[trigger] spec_get(
                        other@,
                        self@[j].0,
                    ))->Some_0) by {
                        if j == i as int {
                        }
                    }
                }
            }
        }
        all_le && any_lt
    }

    /// The dominance partial order: strictly fitter, strictly less fit, or
    /// incomparable. Two element-wise equal vectors are incomparable here;
    /// `eq_values` reports them equal.
    pub fn partial_cmp(&self, other: &Pareto) -> (r: Option<Ordering>)
        requires
            self.wf(),
            other.wf(),
            same_objectives(self@, other@),
        ensures
            r == (if dominates(self@, other@) {
                Some(Ordering::Less)
            } else if dominates(other@, self@) {
                Some(Ordering::Greater)
            } else {
                None::<Ordering>
            }),
    {
        if self.lt(other) {
            Some(Ordering::Less)
        } else if other.lt(self) {
            Some(Ordering::Greater)
        } else {
            None
        }
    }

    /// Element-wise numeric equality of the two score vectors.
    pub fn eq_values(&self, other: &Pareto) -> (r: bool)
        requires
            self.wf(),
            other.wf(),
            same_objectives(self@, other@),
        ensures
            r == values_equal(self@, other@),
    {
        let n = self.scores.len();
        let mut all_eq = true;
        for i in 0..n
            invariant
                n == self@.len(),
                same_objectives(self@, other@),
                all_eq == (forall|j: int|
                    0 <= j < i ==> #[trigger] spec_get(other@, self@[j].0) == Some(self@[j].1)),
        {
            proof {
                lemma_get_present(self@, i as int);
            }
            let name = self.scores.key_at(i);
            let mine = self.scores.value_at(i);
            let theirs = match other.scores.get(name.as_str()) {
                Some(v) => v,
                None => 0,
            };
            let ghost prev_eq = all_eq;
            if mine != theirs {
                all_eq = false;
            }
            proof {
                if all_eq {
                    assert forall|j: int|
                        0 <= j < i + 1 implies #[trigger] spec_get(other@, self@[j].0) == Some(
                        self@[j].1,
                    ) by {
                        if j == i as int {
                        }
                    }
                } else if prev_eq {
                    assert(spec_get(other@, self@[i as int].0) != Some(self@[i as int].1));
                    assert(!(forall|j: int|
                        0 <= j < i + 1 ==> #[trigger] spec_get(other@, self@[j].0) == Some(
                            self@[j].1,
                        )));
                }
            }
        }
        all_eq
    }
}

impl Clone for Pareto {
    fn clone(&self) -> (r: Self)
        ensures
            r@ == self@,
    {
        Pareto { scores: self.scores.clone() }
    }
}

impl FitnessScore for Pareto {

}

/// Dominance demands a strictly better objective, so two element-wise equal
/// score vectors are incomparable under the dominance order even though the
/// equality relation reports them equal: the two relations genuinely differ.
pub proof fn lemma_equal_values_are_incomparable(a: Seq<(Seq<char>, i64)>, b: Seq<(Seq<char>, i64)>)
    requires
        values_equal(a, b),
        values_equal(b, a),
    ensures
        !dominates(a, b),
        !dominates(b, a),
{
    assert forall|i: int| 0 <= i < a.len() implies !(a[i].1 < (#[trigger] spec_get(
        b,
        a[i].0,
    ))->Some_0) by {
        assert(spec_get(b, a[i].0) == Some(a[i].1));
    }
    assert forall|i: int| 0 <= i < b.len() implies !(b[i].1 < (#[trigger] spec_get(
        a,
        b[i].0,
    ))->Some_0) by {
        assert(spec_get(a, b[i].0) == Some(b[i].1));
    }
}

/// The dominance order is asymmetric: two score vectors never dominate each
/// other at once.
pub proof fn lemma_dominance_asymmetric(a: Seq<(Seq<char>, i64)>, b: Seq<(Seq<char>, i64)>)
    requires
        distinct_keys(a),
        distinct_keys(b),
        dominates(a, b),
    ensures
        !dominates(b, a),
{
    if dominates(b, a) {
        let i = choose|i: int| 0 <= i < a.len() && a[i].1 < spec_get(b, a[i].0)->Some_0;
        lemma_present_get(b, a[i].0);
        let j = choose|j: int| 0 <= j < b.len() && b[j].0 == a[i].0;
        lemma_get_first_entry(b, j);
        lemma_get_first_entry(a, i);
        assert(spec_get(a, b[j].0) is Some);
    }
}

/// With distinct keys, `spec_get` at an entry's key returns that entry's
/// value.
pub proof fn lemma_get_first_entry(s: Seq<(Seq<char>, i64)>, i: int)
    requires
        distinct_keys(s),
        0 <= i < s.len(),
    ensures
        spec_get(s, s[i].0) == Some(s[i].1),
    decreases s.len(),
{
    if i > 0 {
        assert(s[0].0 != s[i].0);
        assert(forall|j: int| 0 <= j < s.drop_first().len() ==> #[trigger] s.drop_first()[j] == s[j
            + 1]);
        lemma_get_first_entry(s.drop_first(), i - 1);
    }
}

/// 256 to the `i`-th power.
pub open spec fn pow256(i: int) -> int
    decreases i,
{
    if i <= 0 {
        1
    } else {
        256 * pow256(i - 1)
    }
}

/// One round of the FNV-1a mix: fold a byte in, then multiply by the FNV
/// prime, wrapping at 64 bits.
pub open spec fn fnv_mix(h: u64, b: u64) -> u64 {
    ((((h ^ b) as int) * 0x100_0000_01b3) % 0x1_0000_0000_0000_0000) as u64
}

/// FNV-1a folded over the remaining little-endian bytes of `x`, from byte
/// index `i`.
pub open spec fn fnv_from(h: u64, x: u64, i: int) -> u64
    decreases 8 - i,
{
    if i < 0 || i >= 8 {
        h
    } else {
        fnv_from(fnv_mix(h, (((x as int) / pow256(i)) % 256) as u64), x, i + 1)
    }
}

/// The FNV-1a hash of the eight little-endian bytes of `x`.
pub open spec fn fnv1a_u64(x: u64) -> u64 {
    fnv_from(0xcbf2_9ce4_8422_2325u64, x, 0)
}

proof fn lemma_pow256_unfold()
    ensures
        pow256(0) == 1,
        pow256(1) == 0x100,
        pow256(2) == 0x1_0000,
        pow256(3) == 0x100_0000,
        pow256(4) == 0x1_0000_0000,
        pow256(5) == 0x100_0000_0000,
        pow256(6) == 0x1_0000_0000_0000,
        pow256(7) == 0x100_0000_0000_0000,
{
    assert(pow256(0) == 1);
    assert(pow256(1) == 0x100);
    assert(pow256(2) == 0x1_0000);
    assert(pow256(3) == 0x100_0000);
    assert(pow256(4) == 0x1_0000_0000);
    assert(pow256(5) == 0x100_0000_0000);
    assert(pow256(6) == 0x1_0000_0000_0000);
    assert(pow256(7) == 0x100_0000_0000_0000);
}

/// The little-endian byte divisors for `fnv1a_u64`.
pub(crate) fn e_pow256(i: usize) -> (r: u64)
    requires
        i < 8,
    ensures
        r as int == pow256(i as int),
        r >= 1,
{
    proof {
        lemma_pow256_unfold();
    }
    if i == 0 {
        1
    } else if i == 1 {
        0x100
    } else if i == 2 {
        0x1_0000
    } else if i == 3 {
        0x100_0000
    } else if i == 4 {
        0x1_0000_0000
    } else if i == 5 {
        0x100_0000_0000
    } else if i == 6 {
        0x1_0000_0000_0000
    } else {
        0x100_0000_0000_0000
    }
}

/// The FNV-1a hash of the epoch counter's little-endian bytes.
pub fn fnv_hash_epoch(x: u64) -> (r: u64)
    ensures
        r == fnv1a_u64(x),
{
    let mut h: u64 = 0xcbf2_9ce4_8422_2325;
    for i in 0..8usize
        invariant
            fnv1a_u64(x) == fnv_from(h, x, i as int),
    {
        let d = e_pow256(i);
        let b = (x / d) % 256;
        proof {
            assert(((h ^ b) as u128) as int * 0x100_0000_01b3 <= 0xffff_ffff_ffff_ffff
                * 0x100_0000_01b3) by (nonlinear_arith)
                requires
                    ((h ^ b) as u128) <= 0xffff_ffff_ffff_ffff,
            ;
        }
        let t: u128 = ((h ^ b) as u128) * 0x100_0000_01b3;
        let ghost h_old = h;
        h = (t % 0x1_0000_0000_0000_0000) as u64;
        proof {
            assert(b == (((x as int) / pow256(i as int)) % 256) as u64);
            assert(h == fnv_mix(h_old, b));
        }
    }
    h
}

/// A named-score mapping whose comparison key rotates across objectives:
/// hashing an epoch counter picks one objective, and two instances compare
/// on that objective's value alone, so no single objective permanently
/// dominates selection pressure.
pub struct ShuffleFit {
    scores: ScoreMap,
}

impl ShuffleFit {
    /// The named scores, for specification purposes.
    pub closed spec fn view(&self) -> Seq<(Seq<char>, i64)> {
        self.scores@
    }

    /// Key distinctness, maintained by every operation.
    pub open spec fn wf(&self) -> bool {
        distinct_keys(self@)
    }

    /// An empty score mapping.
    pub fn new() -> (r: Self)
        ensures
            r.wf(),
            r@ == Seq::<(Seq<char>, i64)>::empty(),
    {
        ShuffleFit { scores: ScoreMap::new() }
    }

    /// Records `value` under the objective `name`.
    pub fn insert(&mut self, name: String, value: i64)
        requires
            old(self).wf(),
        ensures
            final(self).wf(),
            final(self)@ == spec_insert(old(self)@, name@, value),
    {
        self.scores.insert(name, value);
    }

    /// The score recorded under `name`, if any.
    pub fn get(&self, name: &str) -> (r: Option<i64>)
        ensures
            r == spec_get(self@, name@),
    {
        self.scores.get(name)
    }

    /// Number of objectives.
    pub fn len(&self) -> (r: usize)
        ensures
            r == self@.len(),
    {
        self.scores.len()
    }

    /// The scores in entry order.
    pub fn values(&self) -> (r: Vec<i64>)
        ensures
            r@.len() == self@.len(),
            forall|i: int| 0 <= i < r@.len() ==> #[trigger] r@[i] == self@[i].1,
    {
        let mut out: Vec<i64> = Vec::new();
        let n = self.scores.len();
        for i in 0..n
            invariant
                n == self@.len(),
                out@.len() == i,
                forall|j: int| 0 <= j < i ==> #[trigger] out@[j] == self@[j].1,
        {
            out.push(self.scores.value_at(i));
        }
        out
    }

    /// The entry position selected by the epoch counter: the FNV-1a hash of
    /// the epoch, reduced modulo the number of objectives.
    pub open spec fn spec_epoch_index(&self, epoch: u64) -> int {
        (fnv1a_u64(epoch) as int) % (self@.len() as int)
    }

    /// The objective name that governs comparisons during `epoch`. Asking an
    /// empty mapping is caller misuse, left out by precondition.
    pub fn epoch_key(&self, epoch: u64) -> (r: String)
        requires
            self@.len() > 0,
        ensures
            r@ == self@[self.spec_epoch_index(epoch)].0,
    {
        let h = fnv_hash_epoch(epoch);
        let n = self.scores.len();
        let idx = (h % (n as u64)) as usize;
        self.scores.key_at(idx).clone()
    }

    /// Compares on the single objective selected by `epoch`. Both mappings
    /// must cover the same objectives, and at least one objective must
    /// exist.
    pub fn partial_cmp(&self, other: &ShuffleFit, epoch: u64) -> (r: Option<Ordering>)
        requires
            self.wf(),
            other.wf(),
            same_objectives(self@, other@),
            self@.len() > 0,
        ensures
            ({
                let k = self@[self.spec_epoch_index(epoch)].0;
                let a = spec_get(self@, k)->Some_0;
                let b = spec_get(other@, k)->Some_0;
                r == (if a < b {
                    Some(Ordering::Less)
                } else if a == b {
                    Some(Ordering::Equal)
                } else {
                    Some(Ordering::Greater)
                })
            }),
    {
        let key = self.epoch_key(epoch);
        proof {
            lemma_get_first_entry(self@, self.spec_epoch_index(epoch));
        }
        let a = match self.scores.get(key.as_str()) {
            Some(v) => v,
            None => 0,
        };
        let b = match other.scores.get(key.as_str()) {
            Some(v) => v,
            None => 0,
        };
        if a < b {
            Some(Ordering::Less)
        } else if a == b {
            Some(Ordering::Equal)
        } else {
            Some(Ordering::Greater)
        }
    }

    /// The scalar reduction: the saturating sum of all scores.
    pub fn scalar(&self) -> (r: i64)
        ensures
            r == scalar_of(self@),
    {
        let mut acc: i64 = 0;
        let n = self.scores.len();
        for i in 0..n
            invariant
                n == self@.len(),
                acc == scalar_of(self@.take(i as int)),
        {
            proof {
                assert(self@.take(i + 1).drop_last() =~= self@.take(i as int));
                assert(self@.take(i + 1).last() == self@[i as int]);
            }
            acc = add_score(acc, self.scores.value_at(i));
        }
        proof {
            assert(self@.take(self@.len() as int) =~= self@);
        }
        acc
    }
}

impl Clone for ShuffleFit {
    fn clone(&self) -> (r: Self)
        ensures
            r@ == self@,
    {
        ShuffleFit { scores: self.scores.clone() }
    }
}

impl FitnessScore for ShuffleFit {

}

impl FitnessScore for Vec<i64> {

}

/// A sequence of sub-scores compared element by element, first difference
/// deciding; a shared prefix defers to the shorter sequence.
pub type Lexical<T> = Vec<T>;

/// Lexicographic order on sub-score sequences.
pub open spec fn spec_lexical_cmp(a: Seq<i64>, b: Seq<i64>) -> Ordering
    decreases a.len(),
{
    if a.len() == 0 && b.len() == 0 {
        Ordering::Equal
    } else if a.len() == 0 {
        Ordering::Less
    } else if b.len() == 0 {
        Ordering::Greater
    } else if a[0] < b[0] {
        Ordering::Less
    } else if a[0] > b[0] {
        Ordering::Greater
    } else {
        spec_lexical_cmp(a.drop_first(), b.drop_first())
    }
}

/// Compares two lexical fitness values element by element: the first
/// differing sub-score decides; a shared prefix defers to length.
pub fn lexical_cmp(a: &Vec<i64>, b: &Vec<i64>) -> (r: Ordering)
    ensures
        r == spec_lexical_cmp(a@, b@),
{
    let n = if a.len() < b.len() {
        a.len()
    } else {
        b.len()
    };
    proof {
        assert(a@.skip(0) =~= a@);
        assert(b@.skip(0) =~= b@);
    }
    for i in 0..n
        invariant
            n == (if a@.len() < b@.len() {
                a@.len()
            } else {
                b@.len()
            }),
            spec_lexical_cmp(a@, b@) == spec_lexical_cmp(a@.skip(i as int), b@.skip(i as int)),
            forall|j: int| 0 <= j < i ==> a@[j] == b@[j],
    {
        proof {
            assert(a@.skip(i as int)[0] == a@[i as int]);
            assert(b@.skip(i as int)[0] == b@[i as int]);
            assert(a@.skip(i as int).drop_first() =~= a@.skip(i + 1));
            assert(b@.skip(i as int).drop_first() =~= b@.skip(i + 1));
        }
        if a[i] < b[i] {
            return Ordering::Less;
        }
        if a[i] > b[i] {
            return Ordering::Greater;
        }
    }
    proof {
        assert(spec_lexical_cmp(a@, b@) == spec_lexical_cmp(a@.skip(n as int), b@.skip(n as int)));
        if a@.len() <= b@.len() {
            assert(a@.skip(n as int).len() == 0);
        } else {
            assert(b@.skip(n as int).len() == 0);
            assert(a@.skip(n as int).len() > 0);
        }
    }
    if a.len() < b.len() {
        Ordering::Less
    } else if a.len() > b.len() {
        Ordering::Greater
    } else {
        Ordering::Equal
    }
}

/// The scalar reduction of a lexical fitness value: the saturating sum of
/// its sub-scores.
pub fn lexical_scalar(v: &Vec<i64>) -> (r: i64)
    ensures
        r == seq_sum_sat(v@),
{
    let mut acc: i64 = 0;
    let n = v.len();
    for i in 0..n
        invariant
            n == v@.len(),
            acc == seq_sum_sat(v@.take(i as int)),
    {
        proof {
            assert(v@.take(i + 1).drop_last() =~= v@.take(i as int));
            assert(v@.take(i + 1).last() == v@[i as int]);
        }
        acc = add_score(acc, v[i]);
    }
    proof {
        assert(v@.take(v@.len() as int) =~= v@);
    }
    acc
}

/// The saturating sum of a sub-score sequence, in order.
pub open spec fn seq_sum_sat(s: Seq<i64>) -> i64
    decreases s.len(),
{
    if s.len() == 0 {
        0
    } else {
        sat_add(seq_sum_sat(s.drop_last()) as int, s.last() as int) as i64
    }
}

} // verus!

verus! {

/// Key-wise combination used when two named-score collections are added:
/// a missing name counts as zero, and sums saturate.
pub open spec fn merge_val(x: Option<i64>, y: Option<i64>) -> Option<i64> {
    match (x, y) {
        (None, None) => None,
        (Some(a), None) => Some(a),
        (None, Some(b)) => Some(b),
        (Some(a), Some(b)) => Some(sat_add(a as int, b as int) as i64),
    }
}

/// The value bound to `k` after key-wise addition of a sample of named-score
/// collections, in order.
pub open spec fn sum_scores(ms: Seq<Seq<(Seq<char>, i64)>>, k: Seq<char>) -> Option<i64>
    decreases ms.len(),
{
    if ms.len() == 0 {
        None
    } else {
        merge_val(sum_scores(ms.drop_last(), k), spec_get(ms.last(), k))
    }
}

/// Division of an optional score by a fixed-point factor.
pub open spec fn div_opt(x: Option<i64>, f: int) -> Option<i64> {
    match x {
        Some(v) => Some(fp_div_spec(v as int, f) as i64),
        None => None,
    }
}

/// Negation of an optional score, as division by minus one whole unit.
pub open spec fn neg_opt(x: Option<i64>) -> Option<i64> {
    match x {
        Some(v) => Some(fp_div_spec(v as int, -(SCALE as int)) as i64),
        None => None,
    }
}

/// Fixed-point square of an optional score.
pub open spec fn sq_opt(x: Option<i64>) -> Option<i64> {
    match x {
        Some(v) => Some(crate::fixed::fp_mul_spec(v as int, v as int) as i64),
        None => None,
    }
}

/// The floor square root of a nonnegative score, in fixed point; zero for a
/// negative score (which only an ill-posed deviation could produce).
pub open spec fn fp_sqrt(v: int) -> int {
    if v < 0 {
        0
    } else {
        choose|r: int| 0 <= r && (#[trigger] (r * r)) <= v * (SCALE as int) < (r + 1) * (r + 1)
    }
}

/// Square root of an optional score.
pub open spec fn sqrt_opt(x: Option<i64>) -> Option<i64> {
    match x {
        Some(v) => Some(fp_sqrt(v as int) as i64),
        None => None,
    }
}

/// The value bound to `k` after summing, over a sample, the squared
/// deviations of each member from the mean.
pub open spec fn dev_sq_sum(
    ms: Seq<Seq<(Seq<char>, i64)>>,
    mean: Seq<(Seq<char>, i64)>,
    k: Seq<char>,
) -> Option<i64>
    decreases ms.len(),
{
    if ms.len() == 0 {
        None
    } else {
        merge_val(
            dev_sq_sum(ms.drop_last(), mean, k),
            sq_opt(merge_val(spec_get(ms.last(), k), neg_opt(spec_get(mean, k)))),
        )
    }
}

/// The square-root characterization pins a unique value.
proof fn lemma_fp_sqrt_unique(v: int, r: int)
    requires
        v >= 0,
        0 <= r,
        r * r <= v * (SCALE as int),
        v * (SCALE as int) < (r + 1) * (r + 1),
    ensures
        fp_sqrt(v) == r,
{
    let c = fp_sqrt(v);
    assert(0 <= c && c * c <= v * (SCALE as int) < (c + 1) * (c + 1)) by {
        assert(exists|x: int|
            0 <= x && (#[trigger] (x * x)) <= v * (SCALE as int) < (x + 1) * (x + 1)) by {
            assert(0 <= r && (r * r) <= v * (SCALE as int) < (r + 1) * (r + 1));
        }
    }
    assert(c == r) by (nonlinear_arith)
        requires
            0 <= c,
            0 <= r,
            c * c <= v * (SCALE as int),
            v * (SCALE as int) < (c + 1) * (c + 1),
            r * r <= v * (SCALE as int),
            v * (SCALE as int) < (r + 1) * (r + 1),
    ;
}

/// `spec_get` after appending one entry.
proof fn lemma_get_push(s: Seq<(Seq<char>, i64)>, e: (Seq<char>, i64), k: Seq<char>)
    ensures
        spec_get(s.push(e), k) == (if spec_get(s, k) is Some {
            spec_get(s, k)
        } else if e.0 == k {
            Some(e.1)
        } else {
            None
        }),
    decreases s.len(),
{
    if s.len() == 0 {
        assert(s.push(e)[0] == e);
        assert(s.push(e).drop_first() =~= Seq::<(Seq<char>, i64)>::empty());
    } else {
        assert(s.push(e)[0] == s[0]);
        assert(s.push(e).drop_first() =~= s.drop_first().push(e));
        lemma_get_push(s.drop_first(), e, k);
    }
}

/// `spec_get` over a one-longer prefix.
proof fn lemma_get_take_step(s: Seq<(Seq<char>, i64)>, j: int, k: Seq<char>)
    requires
        0 <= j < s.len(),
    ensures
        spec_get(s.take(j + 1), k) == (if spec_get(s.take(j), k) is Some {
            spec_get(s.take(j), k)
        } else if s[j].0 == k {
            Some(s[j].1)
        } else {
            None
        }),
{
    assert(s.take(j + 1) =~= s.take(j).push(s[j]));
    lemma_get_push(s.take(j), s[j], k);
}

/// Two entry sequences that agree key-by-key after a value transformation
/// look the same to `spec_get`, transformed.
proof fn lemma_get_pointwise(
    s: Seq<(Seq<char>, i64)>,
    t: Seq<(Seq<char>, i64)>,
    f: spec_fn(i64) -> i64,
)
    requires
        t.len() == s.len(),
        forall|i: int|
            0 <= i < s.len() ==> (#[trigger] t[i]).0 == s[i].0 && t[i].1 == f(s[i].1),
    ensures
        forall|k: Seq<char>|
            #[trigger] spec_get(t, k) == (match spec_get(s, k) {
                Some(v) => Some(f(v)),
                None => None,
            }),
    decreases s.len(),
{
    if s.len() > 0 {
        assert(t[0].0 == s[0].0 && t[0].1 == f(s[0].1));
        assert forall|i: int|
            0 <= i < s.drop_first().len() implies (#[trigger] t.drop_first()[i]).0
            == s.drop_first()[i].0 && t.drop_first()[i].1 == f(s.drop_first()[i].1) by {
            assert(t.drop_first()[i] == t[i + 1]);
            assert(s.drop_first()[i] == s[i + 1]);
        }
        lemma_get_pointwise(s.drop_first(), t.drop_first(), f);
        assert forall|k: Seq<char>|
            #[trigger] spec_get(t, k) == (match spec_get(s, k) {
                Some(v) => Some(f(v)),
                None => None,
            }) by {
            if s[0].0 != k {
                assert(spec_get(t, k) == spec_get(t.drop_first(), k));
                assert(spec_get(s, k) == spec_get(s.drop_first(), k));
            }
        }
    }
}

/// A named-score mapping scalarized by a weighting expression, with a
/// memoized scalar. The cache is deliberately not invalidated by later score
/// mutations: a stale scalar is an intentional, observable property of this
/// representation.
pub struct Weighted {
    weighting: String,
    scores: ScoreMap,
    cached_scalar: Option<i64>,
}

impl Weighted {
    /// The named scores, for specification purposes.
    pub closed spec fn view(&self) -> Seq<(Seq<char>, i64)> {
        self.scores@
    }

    /// The weighting expression.
    pub closed spec fn spec_weighting(&self) -> Seq<char> {
        self.weighting@
    }

    /// The memoized scalar, if one has been computed.
    pub closed spec fn spec_cache(&self) -> Option<i64> {
        self.cached_scalar
    }

    /// Key distinctness, maintained by every operation.
    pub open spec fn wf(&self) -> bool {
        distinct_keys(self@)
    }

    /// An empty mapping under the given weighting expression.
    pub fn new(weighting: &str) -> (r: Self)
        ensures
            r.wf(),
            r@ == Seq::<(Seq<char>, i64)>::empty(),
            r.spec_weighting() == weighting@,
            r.spec_cache() is None,
    {
        Weighted {
            weighting: String::from_str(weighting),
            scores: ScoreMap::new(),
            cached_scalar: None,
        }
    }

    /// The weighting expression.
    pub fn weighting(&self) -> (r: &String)
        ensures
            r@ == self.spec_weighting(),
    {
        &self.weighting
    }

    /// Records `val` under the objective `key`. The cached scalar, if any,
    /// deliberately survives unchanged.
    pub fn insert(&mut self, key: String, val: i64)
        requires
            old(self).wf(),
        ensures
            final(self).wf(),
            final(self)@ == spec_insert(old(self)@, key@, val),
            final(self).spec_weighting() == old(self).spec_weighting(),
            final(self).spec_cache() == old(self).spec_cache(),
    {
        self.scores.insert(key, val);
    }

    /// The score recorded under `key`, if any.
    pub fn get(&self, key: &str) -> (r: Option<i64>)
        ensures
            r == spec_get(self@, key@),
    {
        self.scores.get(key)
    }

    /// Number of objectives.
    pub fn len(&self) -> (r: usize)
        ensures
            r == self@.len(),
    {
        self.scores.len()
    }

    /// Adds `val` to the score under `key`, treating an absent key as zero.
    /// The cached scalar, if any, deliberately survives unchanged.
    pub fn insert_or_add(&mut self, key: String, val: i64)
        requires
            old(self).wf(),
        ensures
            final(self).wf(),
            final(self)@ == spec_insert(
                old(self)@,
                key@,
                sat_add(
                    (match spec_get(old(self)@, key@) {
                        Some(x) => x,
                        None => 0,
                    }) as int,
                    val as int,
                ) as i64,
            ),
            final(self).spec_weighting() == old(self).spec_weighting(),
            final(self).spec_cache() == old(self).spec_cache(),
    {
        self.scores.insert_or_add(key, val);
    }

    /// Divides every score by the fixed-point `factor` (so a factor of
    /// `3 * SCALE` divides by three). The cached scalar survives unchanged.
    pub fn scale_by(&mut self, factor: i64)
        requires
            old(self).wf(),
            factor != 0,
        ensures
            final(self).wf(),
            final(self)@.len() == old(self)@.len(),
            forall|i: int|
                0 <= i < old(self)@.len() ==> (#[trigger] final(self)@[i]).0 == old(self)@[i].0
                    && final(self)@[i].1 == fp_div_spec(old(self)@[i].1 as int, factor as int),
            final(self).spec_weighting() == old(self).spec_weighting(),
            final(self).spec_cache() == old(self).spec_cache(),
    {
        let n = self.scores.len();
        for i in 0..n
            invariant
                old(self).wf(),
                factor != 0,
                n == old(self)@.len(),
                self@.len() == n,
                self.wf(),
                self.spec_weighting() == old(self).spec_weighting(),
                self.spec_cache() == old(self).spec_cache(),
                forall|j: int|
                    0 <= j < n ==> (#[trigger] self@[j]).0 == old(self)@[j].0,
                forall|j: int|
                    0 <= j < i ==> (#[trigger] self@[j]).1 == fp_div_spec(
                        old(self)@[j].1 as int,
                        factor as int,
                    ),
                forall|j: int| i <= j < n ==> (#[trigger] self@[j]).1 == old(self)@[j].1,
        {
            let v = self.scores.value_at(i);
            let w = div_score(v, factor);
            self.scores.set_value_at(i, w);
        }
    }

    /// Squares every score in place, saturating.
    fn square_values(&mut self)
        requires
            old(self).wf(),
        ensures
            final(self).wf(),
            final(self)@.len() == old(self)@.len(),
            forall|i: int|
                0 <= i < old(self)@.len() ==> (#[trigger] final(self)@[i]).0 == old(self)@[i].0
                    && final(self)@[i].1 == crate::fixed::fp_mul_spec(
                    old(self)@[i].1 as int,
                    old(self)@[i].1 as int,
                ),
            final(self).spec_weighting() == old(self).spec_weighting(),
            final(self).spec_cache() == old(self).spec_cache(),
    {
        let n = self.scores.len();
        for i in 0..n
            invariant
                old(self).wf(),
                n == old(self)@.len(),
                self@.len() == n,
                self.wf(),
                self.spec_weighting() == old(self).spec_weighting(),
                self.spec_cache() == old(self).spec_cache(),
                forall|j: int|
                    0 <= j < n ==> (#[trigger] self@[j]).0 == old(self)@[j].0,
                forall|j: int|
                    0 <= j < i ==> (#[trigger] self@[j]).1 == crate::fixed::fp_mul_spec(
                        old(self)@[j].1 as int,
                        old(self)@[j].1 as int,
                    ),
                forall|j: int| i <= j < n ==> (#[trigger] self@[j]).1 == old(self)@[j].1,
        {
            let v = self.scores.value_at(i);
            let w = mul_score(v, v);
            self.scores.set_value_at(i, w);
        }
    }

    /// Replaces every score by its fixed-point square root (zero for a
    /// negative score).
    fn sqrt_values(&mut self)
        requires
            old(self).wf(),
        ensures
            final(self).wf(),
            final(self)@.len() == old(self)@.len(),
            forall|i: int|
                0 <= i < old(self)@.len() ==> (#[trigger] final(self)@[i]).0 == old(self)@[i].0
                    && final(self)@[i].1 == fp_sqrt(old(self)@[i].1 as int),
            final(self).spec_weighting() == old(self).spec_weighting(),
            final(self).spec_cache() == old(self).spec_cache(),
    {
        let n = self.scores.len();
        for i in 0..n
            invariant
                old(self).wf(),
                n == old(self)@.len(),
                self@.len() == n,
                self.wf(),
                self.spec_weighting() == old(self).spec_weighting(),
                self.spec_cache() == old(self).spec_cache(),
                forall|j: int|
                    0 <= j < n ==> (#[trigger] self@[j]).0 == old(self)@[j].0,
                forall|j: int|
                    0 <= j < i ==> (#[trigger] self@[j]).1 == fp_sqrt(old(self)@[j].1 as int),
                forall|j: int| i <= j < n ==> (#[trigger] self@[j]).1 == old(self)@[j].1,
        {
            let v = self.scores.value_at(i);
            let w = if v < 0 {
                0
            } else {
                sqrt_score(v)
            };
            proof {
                if v >= 0 {
                    lemma_fp_sqrt_unique(v as int, w as int);
                }
            }
            self.scores.set_value_at(i, w);
        }
    }

    /// The scores in entry order.
    pub fn values(&self) -> (r: Vec<i64>)
        ensures
            r@.len() == self@.len(),
            forall|i: int| 0 <= i < r@.len() ==> #[trigger] r@[i] == self@[i].1,
    {
        let mut out: Vec<i64> = Vec::new();
        let n = self.scores.len();
        for i in 0..n
            invariant
                n == self@.len(),
                out@.len() == i,
                forall|j: int| 0 <= j < i ==> #[trigger] out@[j] == self@[j].1,
        {
            out.push(self.scores.value_at(i));
        }
        out
    }

    /// The weighted scalar of the current scores: the greatest representable
    /// score for an empty mapping, otherwise the value of the weighting
    /// expression. A weighting that cannot be evaluated over the scores is a
    /// fatal configuration error, left out by precondition.
    pub fn scalar_with_expression(&self, expr: &str) -> (r: i64)
        requires
            self@.len() == 0 || crate::weighting::spec_eval(expr@, self@) is Some,
        ensures
            r == (if self@.len() == 0 {
                i64::MAX
            } else {
                crate::weighting::spec_eval(expr@, self@)->Some_0
            }),
    {
        if self.scores.is_empty() {
            i64::MAX
        } else {
            match crate::weighting::eval_weighting(expr, &self.scores) {
                Some(v) => v,
                None => i64::MAX,
            }
        }
    }

    /// The memoized weighted scalar. The first call evaluates the weighting
    /// expression and caches the result; later calls return the cache even
    /// if the scores have changed since (the deliberate staleness property).
    pub fn scalar(&mut self) -> (r: i64)
        requires
            old(self).spec_cache() is Some || old(self)@.len() == 0 || crate::weighting::spec_eval(
                old(self).spec_weighting(),
                old(self)@,
            ) is Some,
        ensures
            r == (match old(self).spec_cache() {
                Some(c) => c,
                None => if old(self)@.len() == 0 {
                    i64::MAX
                } else {
                    crate::weighting::spec_eval(old(self).spec_weighting(), old(self)@)->Some_0
                },
            }),
            final(self).spec_cache() == Some(r),
            final(self)@ == old(self)@,
            final(self).spec_weighting() == old(self).spec_weighting(),
    {
        match self.cached_scalar {
            Some(c) => c,
            None => {
                let v = if self.scores.is_empty() {
                    i64::MAX
                } else {
                    match crate::weighting::eval_weighting(self.weighting.as_str(), &self.scores) {
                        Some(v) => v,
                        None => i64::MAX,
                    }
                };
                self.cached_scalar = Some(v);
                v
            }
        }
    }

    /// Force-sets the cached scalar to the greatest representable score,
    /// marking the candidate as maximally unfit without recomputation.
    pub fn declare_failure(&mut self)
        ensures
            final(self).spec_cache() == Some(i64::MAX),
            final(self)@ == old(self)@,
            final(self).spec_weighting() == old(self).spec_weighting(),
    {
        self.cached_scalar = Some(i64::MAX);
    }
}

impl Clone for Weighted {
    /// A clone starts with a cold scalar cache, as a fresh instance would.
    fn clone(&self) -> (r: Self)
        ensures
            r@ == self@,
            r.spec_weighting() == self.spec_weighting(),
            r.spec_cache() is None,
    {
        Weighted {
            weighting: self.weighting.clone(),
            scores: self.scores.clone(),
            cached_scalar: None,
        }
    }
}

impl FitnessScore for Weighted {

}

/// Key-wise sum of two weighted score mappings: a name missing on one side
/// counts as zero. The result carries the first mapping's weighting and a
/// cold cache.
pub fn add_weighted(a: &Weighted, b: &Weighted) -> (r: Weighted)
    requires
        a.wf(),
        b.wf(),
    ensures
        r.wf(),
        r.spec_weighting() == a.spec_weighting(),
        r.spec_cache() is None,
        forall|k: Seq<char>|
            #[trigger] spec_get(r@, k) == merge_val(spec_get(a@, k), spec_get(b@, k)),
{
    let mut res = a.clone();
    let n = b.scores.len();
    for j in 0..n
        invariant
            a.wf(),
            b.wf(),
            res.wf(),
            n == b@.len(),
            res.spec_weighting() == a.spec_weighting(),
            res.spec_cache() is None,
            forall|k: Seq<char>|
                #[trigger] spec_get(res@, k) == merge_val(
                    spec_get(a@, k),
                    spec_get(b@.take(j as int), k),
                ),
    {
        let ghost pre = res@;
        let key = b.scores.key_at(j).clone();
        let val = b.scores.value_at(j);
        res.insert_or_add(key, val);
        proof {
            lemma_insert_effect(
                pre,
                b@[j as int].0,
                sat_add(
                    (match spec_get(pre, b@[j as int].0) {
                        Some(x) => x,
                        None => 0,
                    }) as int,
                    val as int,
                ) as i64,
            );
            assert forall|k: Seq<char>|
                #[trigger] spec_get(res@, k) == merge_val(
                    spec_get(a@, k),
                    spec_get(b@.take(j + 1), k),
                ) by {
                lemma_get_take_step(b@, j as int, k);
                if k == b@[j as int].0 {
                    if spec_get(b@.take(j as int), k) is Some {
                        crate::score_map::lemma_present_get(b@.take(j as int), k);
                        let i = choose|i: int|
                            0 <= i < b@.take(j as int).len() && (#[trigger] b@.take(
                                j as int,
                            )[i]).0 == k;
                        assert(b@[i].0 == b@[j as int].0);
                        assert(false);
                    }
                }
            }
        }
    }
    proof {
        assert(b@.take(n as int) =~= b@);
    }
    res
}

/// The element-wise average of a nonempty sample of weighted score mappings
/// that is small enough for its size to be a representable fixed-point
/// factor. A name missing from a member counts as zero for the sum; the sum
/// over each name is divided by the sample size.
pub fn average_weighted(ws: &Vec<Weighted>) -> (r: Weighted)
    requires
        ws@.len() > 0,
        ws@.len() * (SCALE as int) <= i64::MAX,
        forall|i: int| 0 <= i < ws@.len() ==> (#[trigger] ws@[i]).wf(),
    ensures
        r.wf(),
        r.spec_weighting() == ws@[0].spec_weighting(),
        forall|k: Seq<char>|
            #[trigger] spec_get(r@, k) == div_opt(
                sum_scores(ws@.map_values(|w: Weighted| w@), k),
                ws@.len() * (SCALE as int),
            ),
{
    let ghost maps = ws@.map_values(|w: Weighted| w@);
    let len = ws.len();
    let mut acc = ws[0].clone();
    proof {
        assert(maps.take(1).drop_last() =~= Seq::<Seq<(Seq<char>, i64)>>::empty());
        assert(maps.take(1).last() == ws@[0]@);
        assert forall|k: Seq<char>| #[trigger] sum_scores(maps.take(1), k) == merge_val(
            None,
            spec_get(ws@[0]@, k),
        ) by {
            assert(sum_scores(Seq::<Seq<(Seq<char>, i64)>>::empty(), k) is None);
            assert(sum_scores(maps.take(1).drop_last(), k) is None);
        }
    }
    for j in 1..len
        invariant
            len == ws@.len(),
            1 <= len,
            maps == ws@.map_values(|w: Weighted| w@),
            forall|i: int| 0 <= i < ws@.len() ==> (#[trigger] ws@[i]).wf(),
            acc.wf(),
            acc.spec_weighting() == ws@[0].spec_weighting(),
            forall|k: Seq<char>|
                #[trigger] spec_get(acc@, k) == sum_scores(maps.take(j as int), k),
    {
        let stepped = add_weighted(&acc, &ws[j]);
        proof {
            assert(maps.take(j + 1).drop_last() =~= maps.take(j as int));
            assert(maps.take(j + 1).last() == ws@[j as int]@);
        }
        acc = stepped;
    }
    proof {
        assert(maps.take(len as int) =~= maps);
    }
    proof {
        assert(len as int <= i64::MAX && (len as int) * (SCALE as int) >= SCALE as int)
            by (nonlinear_arith)
            requires
                1 <= len as int,
                (len as int) * (SCALE as int) <= i64::MAX,
                SCALE == 1_000_000,
        ;
    }
    let factor = (len as i64) * SCALE;
    let ghost pre = acc@;
    acc.scale_by(factor);
    proof {
        lemma_get_pointwise(pre, acc@, |v: i64| fp_div_spec(v as int, factor as int) as i64);
    }
    acc
}

} // verus!

verus! {

/// The element-wise sample standard deviation of a sample of weighted score
/// mappings around `mean`: for each objective, the square root of the sum of
/// squared deviations divided by one less than the sample size. The sample
/// must have at least two members, few enough for the divisor to be a
/// representable fixed-point factor.
pub fn stdev_weighted(ws: &Vec<Weighted>, mean: &Weighted) -> (r: Weighted)
    requires
        ws@.len() >= 2,
        (ws@.len() - 1) * (SCALE as int) <= i64::MAX,
        forall|i: int| 0 <= i < ws@.len() ==> (#[trigger] ws@[i]).wf(),
        mean.wf(),
    ensures
        r.wf(),
        r.spec_weighting() == mean.spec_weighting(),
        forall|k: Seq<char>|
            #[trigger] spec_get(r@, k) == sqrt_opt(
                div_opt(
                    dev_sq_sum(ws@.map_values(|w: Weighted| w@), mean@, k),
                    (ws@.len() - 1) * (SCALE as int),
                ),
            ),
{
    let ghost maps = ws@.map_values(|w: Weighted| w@);
    let len = ws.len();
    let mut neg_mean = mean.clone();
    neg_mean.scale_by(-SCALE);
    proof {
        lemma_get_pointwise(
            mean@,
            neg_mean@,
            |v: i64| fp_div_spec(v as int, -(SCALE as int)) as i64,
        );
    }
    let mut res = Weighted::new(neg_mean.weighting().as_str());
    proof {
        assert forall|k: Seq<char>| #[trigger] spec_get(res@, k) == dev_sq_sum(
            maps.take(0),
            mean@,
            k,
        ) by {
            assert(maps.take(0) =~= Seq::<Seq<(Seq<char>, i64)>>::empty());
            assert(spec_get(res@, k) is None);
            assert(dev_sq_sum(maps.take(0), mean@, k) is None);
        }
    }
    for j in 0..len
        invariant
            len == ws@.len(),
            maps == ws@.map_values(|w: Weighted| w@),
            forall|i: int| 0 <= i < ws@.len() ==> (#[trigger] ws@[i]).wf(),
            mean.wf(),
            neg_mean.wf(),
            forall|k: Seq<char>|
                #[trigger] spec_get(neg_mean@, k) == neg_opt(spec_get(mean@, k)),
            res.wf(),
            res.spec_weighting() == mean.spec_weighting(),
            forall|k: Seq<char>|
                #[trigger] spec_get(res@, k) == dev_sq_sum(maps.take(j as int), mean@, k),
    {
        let mut t = add_weighted(&ws[j], &neg_mean);
        let ghost pre_t = t@;
        t.square_values();
        proof {
            lemma_get_pointwise(
                pre_t,
                t@,
                |v: i64| crate::fixed::fp_mul_spec(v as int, v as int) as i64,
            );
        }
        let stepped = add_weighted(&res, &t);
        proof {
            assert(maps.take(j + 1).drop_last() =~= maps.take(j as int));
            assert(maps.take(j + 1).last() == ws@[j as int]@);
            assert forall|k: Seq<char>| #[trigger] spec_get(stepped@, k) == dev_sq_sum(
                maps.take(j + 1),
                mean@,
                k,
            ) by {
                assert(spec_get(t@, k) == sq_opt(
                    merge_val(spec_get(ws@[j as int]@, k), neg_opt(spec_get(mean@, k))),
                ));
            }
        }
        res = stepped;
    }
    proof {
        assert(maps.take(len as int) =~= maps);
        assert((len - 1) as int * (SCALE as int) >= SCALE as int) by (nonlinear_arith)
            requires
                2 <= len as int,
                SCALE == 1_000_000,
        ;
        assert(len - 1 <= i64::MAX) by (nonlinear_arith)
            requires
                2 <= len as int,
                ((len - 1) as int) * (SCALE as int) <= i64::MAX,
                SCALE == 1_000_000,
        ;
    }
    let factor = ((len - 1) as i64) * SCALE;
    let ghost pre_scale = res@;
    res.scale_by(factor);
    proof {
        lemma_get_pointwise(pre_scale, res@, |v: i64| fp_div_spec(v as int, factor as int) as i64);
    }
    let ghost pre_sqrt = res@;
    res.sqrt_values();
    proof {
        lemma_get_pointwise(pre_sqrt, res@, |v: i64| fp_sqrt(v as int) as i64);
    }
    res
}

} // verus!

verus! {

/// Key-wise accumulation of one named-score collection into another: a name
/// missing on either side counts as zero, sums saturate.
fn accumulate_scores(acc: &mut ScoreMap, m: &ScoreMap)
    requires
        old(acc).wf(),
        m.wf(),
    ensures
        final(acc).wf(),
        forall|k: Seq<char>|
            #[trigger] spec_get(final(acc)@, k) == merge_val(
                spec_get(old(acc)@, k),
                spec_get(m@, k),
            ),
{
    let n = m.len();
    for j in 0..n
        invariant
            m.wf(),
            acc.wf(),
            n == m@.len(),
            forall|k: Seq<char>|
                #[trigger] spec_get(acc@, k) == merge_val(
                    spec_get(old(acc)@, k),
                    spec_get(m@.take(j as int), k),
                ),
    {
        let ghost pre = acc@;
        let key = m.key_at(j).clone();
        let val = m.value_at(j);
        acc.insert_or_add(key, val);
        proof {
            lemma_insert_effect(
                pre,
                m@[j as int].0,
                sat_add(
                    (match spec_get(pre, m@[j as int].0) {
                        Some(x) => x,
                        None => 0,
                    }) as int,
                    val as int,
                ) as i64,
            );
            assert forall|k: Seq<char>|
                #[trigger] spec_get(acc@, k) == merge_val(
                    spec_get(old(acc)@, k),
                    spec_get(m@.take(j + 1), k),
                ) by {
                lemma_get_take_step(m@, j as int, k);
                if k == m@[j as int].0 {
                    if spec_get(m@.take(j as int), k) is Some {
                        crate::score_map::lemma_present_get(m@.take(j as int), k);
                        let i = choose|i: int|
                            0 <= i < m@.take(j as int).len() && (#[trigger] m@.take(j as int)[i]).0
                                == k;
                        assert(m@[i].0 == m@[j as int].0);
                        assert(false);
                    }
                }
            }
        }
    }
    proof {
        assert(m@.take(n as int) =~= m@);
    }
}

/// Divides every score of a named-score collection by a fixed-point factor.
fn scale_scores(m: &mut ScoreMap, factor: i64)
    requires
        old(m).wf(),
        factor != 0,
    ensures
        final(m).wf(),
        forall|k: Seq<char>|
            #[trigger] spec_get(final(m)@, k) == div_opt(spec_get(old(m)@, k), factor as int),
{
    let n = m.len();
    for i in 0..n
        invariant
            old(m).wf(),
            factor != 0,
            n == old(m)@.len(),
            m@.len() == n,
            m.wf(),
            forall|j: int| 0 <= j < n ==> (#[trigger] m@[j]).0 == old(m)@[j].0,
            forall|j: int|
                0 <= j < i ==> (#[trigger] m@[j]).1 == fp_div_spec(
                    old(m)@[j].1 as int,
                    factor as int,
                ),
            forall|j: int| i <= j < n ==> (#[trigger] m@[j]).1 == old(m)@[j].1,
    {
        let v = m.value_at(i);
        let w = div_score(v, factor);
        m.set_value_at(i, w);
    }
    proof {
        lemma_get_pointwise(old(m)@, m@, |v: i64| fp_div_spec(v as int, factor as int) as i64);
    }
}

/// The element-wise average of a nonempty sample of Pareto score vectors: a
/// name missing from a member counts as zero for the sum, and each name's
/// sum is divided by the sample size.
pub fn average_pareto(frame: &Vec<Pareto>) -> (r: Pareto)
    requires
        frame@.len() > 0,
        frame@.len() * (SCALE as int) <= i64::MAX,
        forall|i: int| 0 <= i < frame@.len() ==> (#[trigger] frame@[i]).wf(),
    ensures
        r.wf(),
        forall|k: Seq<char>|
            #[trigger] spec_get(r@, k) == div_opt(
                sum_scores(frame@.map_values(|p: Pareto| p@), k),
                frame@.len() * (SCALE as int),
            ),
{
    let ghost maps = frame@.map_values(|p: Pareto| p@);
    let len = frame.len();
    let mut acc = ScoreMap::new();
    proof {
        assert forall|k: Seq<char>| #[trigger] spec_get(acc@, k) == sum_scores(
            maps.take(0),
            k,
        ) by {
            assert(maps.take(0) =~= Seq::<Seq<(Seq<char>, i64)>>::empty());
            assert(spec_get(acc@, k) is None);
            assert(sum_scores(maps.take(0), k) is None);
        }
    }
    for i in 0..len
        invariant
            len == frame@.len(),
            maps == frame@.map_values(|p: Pareto| p@),
            forall|j: int| 0 <= j < frame@.len() ==> (#[trigger] frame@[j]).wf(),
            acc.wf(),
            forall|k: Seq<char>|
                #[trigger] spec_get(acc@, k) == sum_scores(maps.take(i as int), k),
    {
        let ghost pre = acc@;
        accumulate_scores(&mut acc, &frame[i].scores);
        proof {
            assert(maps.take(i + 1).drop_last() =~= maps.take(i as int));
            assert(maps.take(i + 1).last() == frame@[i as int]@);
        }
    }
    proof {
        assert(maps.take(len as int) =~= maps);
        assert(len as int <= i64::MAX && (len as int) * (SCALE as int) >= SCALE as int)
            by (nonlinear_arith)
            requires
                1 <= len as int,
                (len as int) * (SCALE as int) <= i64::MAX,
                SCALE == 1_000_000,
        ;
    }
    let factor = (len as i64) * SCALE;
    scale_scores(&mut acc, factor);
    Pareto { scores: acc }
}

/// The element-wise average of a nonempty sample of shuffle-compared score
/// mappings.
pub fn average_shuffle(frame: &Vec<ShuffleFit>) -> (r: ShuffleFit)
    requires
        frame@.len() > 0,
        frame@.len() * (SCALE as int) <= i64::MAX,
        forall|i: int| 0 <= i < frame@.len() ==> (#[trigger] frame@[i]).wf(),
    ensures
        r.wf(),
        forall|k: Seq<char>|
            #[trigger] spec_get(r@, k) == div_opt(
                sum_scores(frame@.map_values(|p: ShuffleFit| p@), k),
                frame@.len() * (SCALE as int),
            ),
{
    let ghost maps = frame@.map_values(|p: ShuffleFit| p@);
    let len = frame.len();
    let mut acc = ScoreMap::new();
    proof {
        assert forall|k: Seq<char>| #[trigger] spec_get(acc@, k) == sum_scores(
            maps.take(0),
            k,
        ) by {
            assert(maps.take(0) =~= Seq::<Seq<(Seq<char>, i64)>>::empty());
            assert(spec_get(acc@, k) is None);
            assert(sum_scores(maps.take(0), k) is None);
        }
    }
    for i in 0..len
        invariant
            len == frame@.len(),
            maps == frame@.map_values(|p: ShuffleFit| p@),
            forall|j: int| 0 <= j < frame@.len() ==> (#[trigger] frame@[j]).wf(),
            acc.wf(),
            forall|k: Seq<char>|
                #[trigger] spec_get(acc@, k) == sum_scores(maps.take(i as int), k),
    {
        accumulate_scores(&mut acc, &frame[i].scores);
        proof {
            assert(maps.take(i + 1).drop_last() =~= maps.take(i as int));
            assert(maps.take(i + 1).last() == frame@[i as int]@);
        }
    }
    proof {
        assert(maps.take(len as int) =~= maps);
        assert(len as int <= i64::MAX && (len as int) * (SCALE as int) >= SCALE as int)
            by (nonlinear_arith)
            requires
                1 <= len as int,
                (len as int) * (SCALE as int) <= i64::MAX,
                SCALE == 1_000_000,
        ;
    }
    let factor = (len as i64) * SCALE;
    scale_scores(&mut acc, factor);
    ShuffleFit { scores: acc }
}

} // verus!
