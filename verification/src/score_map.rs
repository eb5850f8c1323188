//! An insertion-order-preserving mapping from objective names to scores.
//!
//! This is the named-score container shared by the fitness-score family:
//! keys keep the position of their first insertion, and inserting an
//! existing key updates its value in place.

use vstd::prelude::*;
use vstd::string::StringExecFns;

verus! {

/// The value bound to `k` in the entry sequence, by first match.
pub open spec fn spec_get(s: Seq<(Seq<char>, i64)>, k: Seq<char>) -> Option<i64>
    decreases s.len(),
{
    if s.len() == 0 {
        None
    } else if s[0].0 == k {
        Some(s[0].1)
    } else {
        spec_get(s.drop_first(), k)
    }
}

/// The keys of an entry sequence, in order.
pub open spec fn keys_of(s: Seq<(Seq<char>, i64)>) -> Seq<Seq<char>> {
    s.map_values(|p: (Seq<char>, i64)| p.0)
}

/// Entry sequences with pairwise distinct keys.
pub open spec fn distinct_keys(s: Seq<(Seq<char>, i64)>) -> bool {
    forall|i: int, j: int| 0 <= i < j < s.len() ==> (#[trigger] s[i]).0 != (#[trigger] s[j]).0
}

/// The result of inserting `(k, v)`: the value is updated in place if `k` is
/// already bound, else the pair is appended.
pub open spec fn spec_insert(s: Seq<(Seq<char>, i64)>, k: Seq<char>, v: i64) -> Seq<
    (Seq<char>, i64),
>
    decreases s.len(),
{
    if s.len() == 0 {
        seq![(k, v)]
    } else if s[0].0 == k {
        seq![(k, v)] + s.drop_first()
    } else {
        seq![s[0]] + spec_insert(s.drop_first(), k, v)
    }
}

/// Inserting binds `k` to `v`, leaves every other key's binding unchanged,
/// keeps the key order, appends `k` only if it was absent, and preserves
/// key distinctness.
pub proof fn lemma_insert_effect(s: Seq<(Seq<char>, i64)>, k: Seq<char>, v: i64)
    ensures
        spec_get(spec_insert(s, k, v), k) == Some(v),
        forall|k2: Seq<char>|
            k2 != k ==> #[trigger] spec_get(spec_insert(s, k, v), k2) == spec_get(s, k2),
        spec_get(s, k) is Some ==> keys_of(spec_insert(s, k, v)) == keys_of(s),
        spec_get(s, k) is None ==> keys_of(spec_insert(s, k, v)) == keys_of(s).push(k),
        distinct_keys(s) ==> distinct_keys(spec_insert(s, k, v)),
        spec_insert(s, k, v).len() == (if spec_get(s, k) is Some {
            s.len() as int
        } else {
            s.len() + 1int
        }),
    decreases s.len(),
{
    if s.len() == 0 {
        let t = spec_insert(s, k, v);
        assert(keys_of(t) =~= keys_of(s).push(k));
        assert(t.drop_first() =~= Seq::<(Seq<char>, i64)>::empty());
        assert forall|k2: Seq<char>| k2 != k implies #[trigger] spec_get(t, k2) == spec_get(
            s,
            k2,
        ) by {
            assert(spec_get(t.drop_first(), k2) is None);
        }
    } else if s[0].0 == k {
        let t = spec_insert(s, k, v);
        assert(t.drop_first() =~= s.drop_first());
        assert(keys_of(t) =~= keys_of(s));
        assert(forall|k2: Seq<char>|
            k2 != k ==> #[trigger] spec_get(t, k2) == spec_get(s, k2)) by {
            assert forall|k2: Seq<char>| k2 != k implies #[trigger] spec_get(t, k2) == spec_get(
                s,
                k2,
            ) by {
                assert(spec_get(t, k2) == spec_get(t.drop_first(), k2));
            }
        }
        if distinct_keys(s) {
            assert forall|i: int, j: int| 0 <= i < j < t.len() implies (#[trigger] t[i]).0 != (
            #[trigger] t[j]).0 by {
                assert(t[i] == (if i == 0 {
                    (k, v)
                } else {
                    s[i]
                }));
                assert(t[j] == s[j]);
            }
        }
    } else {
        lemma_insert_effect(s.drop_first(), k, v);
        let t = spec_insert(s, k, v);
        assert(t[0] == s[0]);
        assert(t.drop_first() =~= spec_insert(s.drop_first(), k, v));
        assert(spec_get(t, k) == spec_get(t.drop_first(), k));
        assert(spec_get(s, k) == spec_get(s.drop_first(), k));
        assert forall|k2: Seq<char>| k2 != k implies #[trigger] spec_get(t, k2) == spec_get(
            s,
            k2,
        ) by {
            if k2 != s[0].0 {
                assert(spec_get(t, k2) == spec_get(t.drop_first(), k2));
                assert(spec_get(s, k2) == spec_get(s.drop_first(), k2));
            }
        }
        if spec_get(s, k) is Some {
            assert(keys_of(spec_insert(s.drop_first(), k, v)) == keys_of(s.drop_first()));
            assert forall|i: int| 0 <= i < t.len() implies keys_of(t)[i] == keys_of(s)[i] by {
                if i > 0 {
                    assert(t[i] == spec_insert(s.drop_first(), k, v)[i - 1]);
                    assert(keys_of(spec_insert(s.drop_first(), k, v))[i - 1] == keys_of(
                        s.drop_first(),
                    )[i - 1]);
                    assert(s.drop_first()[i - 1] == s[i]);
                }
            }
            assert(keys_of(t) =~= keys_of(s));
        } else {
            assert(keys_of(spec_insert(s.drop_first(), k, v)) == keys_of(s.drop_first()).push(k));
            assert forall|i: int| 0 <= i < t.len() implies keys_of(t)[i] == keys_of(s).push(k)[i]
                by {
                if i > 0 {
                    assert(t[i] == spec_insert(s.drop_first(), k, v)[i - 1]);
                    assert(keys_of(spec_insert(s.drop_first(), k, v))[i - 1] == keys_of(
                        s.drop_first(),
                    ).push(k)[i - 1]);
                    if i < t.len() - 1 {
                        assert(s.drop_first()[i - 1] == s[i]);
                    }
                }
            }
            assert(keys_of(t) =~= keys_of(s).push(k));
        }
        if distinct_keys(s) {
            assert(distinct_keys(s.drop_first())) by {
                assert(forall|i: int|
                    0 <= i < s.drop_first().len() ==> #[trigger] s.drop_first()[i] == s[i + 1]);
            }
            assert forall|i: int, j: int| 0 <= i < j < t.len() implies (#[trigger] t[i]).0 != (
            #[trigger] t[j]).0 by {
                if i == 0 {
                    assert(t[j] == t.drop_first()[j - 1]);
                    if spec_get(s.drop_first(), t[j].0) is None {
                        lemma_get_present(spec_insert(s.drop_first(), k, v), j - 1);
                        assert(t[j].0 == k);
                    } else {
                        lemma_get_present(spec_insert(s.drop_first(), k, v), j - 1);
                        lemma_present_get(s.drop_first(), t[j].0);
                    }
                } else {
                    assert(t[i] == t.drop_first()[i - 1]);
                    assert(t[j] == t.drop_first()[j - 1]);
                }
            }
        }
    }
}

/// An entry's key is bound: `spec_get` finds some value for it.
pub proof fn lemma_get_present(s: Seq<(Seq<char>, i64)>, i: int)
    requires
        0 <= i < s.len(),
    ensures
        spec_get(s, s[i].0) is Some,
    decreases s.len(),
{
    if s[0].0 != s[i].0 {
        assert(s.drop_first()[i - 1] == s[i]);
        lemma_get_present(s.drop_first(), i - 1);
    }
}

/// A bound key appears among the entries.
pub proof fn lemma_present_get(s: Seq<(Seq<char>, i64)>, k: Seq<char>)
    requires
        spec_get(s, k) is Some,
    ensures
        exists|i: int| 0 <= i < s.len() && (#[trigger] s[i]).0 == k,
    decreases s.len(),
{
    if s.len() > 0 && s[0].0 != k {
        lemma_present_get(s.drop_first(), k);
        let i = choose|i: int| 0 <= i < s.drop_first().len() && (#[trigger] s.drop_first()[i]).0 == k;
        assert(s[i + 1].0 == k);
    }
}

/// The named-score mapping: a vector of `(name, score)` entries in insertion
/// order, with pairwise distinct names.
pub struct ScoreMap {
    entries: Vec<(String, i64)>,
}

impl ScoreMap {
    /// The entry sequence, as names and scores.
    pub closed spec fn view(&self) -> Seq<(Seq<char>, i64)> {
        self.entries@.map_values(|p: (String, i64)| (p.0@, p.1))
    }

    /// Key distinctness, maintained by every operation.
    pub open spec fn wf(&self) -> bool {
        distinct_keys(self@)
    }

    /// An empty mapping.
    pub fn new() -> (r: Self)
        ensures
            r.wf(),
            r@ == Seq::<(Seq<char>, i64)>::empty(),
    {
        let r = ScoreMap { entries: Vec::new() };
        proof {
            assert(r@ =~= Seq::<(Seq<char>, i64)>::empty());
        }
        r
    }

    /// Number of named scores.
    pub fn len(&self) -> (r: usize)
        ensures
            r == self@.len(),
    {
        self.entries.len()
    }

    /// Whether no score is recorded.
    pub fn is_empty(&self) -> (r: bool)
        ensures
            r == (self@.len() == 0),
    {
        self.entries.len() == 0
    }

    /// The score recorded under `name`, if any.
    pub fn get(&self, name: &str) -> (r: Option<i64>)
        ensures
            r == spec_get(self@, name@),
    {
        let key = String::from_str(name);
        let n = self.entries.len();
        proof {
            assert(self@.skip(0) =~= self@);
        }
        for i in 0..n
            invariant
                n == self.entries@.len(),
                key@ == name@,
                spec_get(self@, name@) == spec_get(self@.skip(i as int), name@),
                self@.len() == self.entries@.len(),
        {
            proof {
                assert(self@.skip(i as int)[0] == self@[i as int]);
                assert(self@.skip(i as int).drop_first() =~= self@.skip(i + 1));
            }
            if self.entries[i].0 == key {
                proof {
                    assert(self@[i as int].0 == self.entries@[i as int].0@);
                }
                return Some(self.entries[i].1);
            }
        }
        proof {
            assert(self@.skip(n as int) =~= Seq::<(Seq<char>, i64)>::empty());
        }
        None
    }

    /// Records `value` under `name`: in place if the name is already bound,
    /// appended otherwise.
    pub fn insert(&mut self, name: String, value: i64)
        requires
            old(self).wf(),
        ensures
            final(self).wf(),
            final(self)@ == spec_insert(old(self)@, name@, value),
    {
        proof {
            lemma_insert_effect(old(self)@, name@, value);
        }
        let n = self.entries.len();
        for i in 0..n
            invariant
                n == self.entries@.len(),
                self == old(self),
                old(self).wf(),
                forall|j: int| 0 <= j < i ==> (#[trigger] self@[j]).0 != name@,
        {
            if self.entries[i].0 == name {
                proof {
                    assert(old(self)@[i as int].0 == old(self).entries@[i as int].0@);
                    lemma_insert_effect(old(self)@, name@, value);
                    lemma_insert_found(old(self)@, name@, value, i as int);
                }
                self.entries.set(i, (name, value));
                proof {
                    assert(self@ =~= old(self)@.update(i as int, (name@, value)));
                    assert(self@ == spec_insert(old(self)@, name@, value));
                    assert(distinct_keys(self@));
                }
                return ;
            }
        }
        self.entries.push((name, value));
        proof {
            lemma_insert_absent(old(self)@, name@, value);
            assert(self@ =~= old(self)@.push((name@, value)));
        }
    }

    /// Adds `value` to the score under `name`, treating an absent name as
    /// zero; the sum saturates.
    pub fn insert_or_add(&mut self, name: String, value: i64)
        requires
            old(self).wf(),
        ensures
            final(self).wf(),
            final(self)@ == spec_insert(
                old(self)@,
                name@,
                crate::fixed::sat_add(
                    (match spec_get(old(self)@, name@) {
                        Some(x) => x,
                        None => 0,
                    }) as int,
                    value as int,
                ) as i64,
            ),
    {
        let base = match self.get(name.as_str()) {
            Some(x) => x,
            None => 0,
        };
        let sum = crate::fixed::add_score(base, value);
        self.insert(name, sum);
    }

    /// Replaces the score at entry position `i`, keeping its name.
    pub fn set_value_at(&mut self, i: usize, v: i64)
        requires
            old(self).wf(),
            i < old(self)@.len(),
        ensures
            final(self).wf(),
            final(self)@ == old(self)@.update(i as int, (old(self)@[i as int].0, v)),
    {
        let name = self.entries[i].0.clone();
        self.entries.set(i, (name, v));
        proof {
            assert(self@ =~= old(self)@.update(i as int, (old(self)@[i as int].0, v)));
            assert forall|a: int, b: int| 0 <= a < b < self@.len() implies (#[trigger] self@[a]).0
                != (#[trigger] self@[b]).0 by {
                assert(old(self)@[a].0 == self@[a].0);
                assert(old(self)@[b].0 == self@[b].0);
            }
        }
    }

    /// The name at entry position `i`.
    pub fn key_at(&self, i: usize) -> (r: &String)
        requires
            i < self@.len(),
        ensures
            r@ == self@[i as int].0,
    {
        &self.entries[i].0
    }

    /// The score at entry position `i`.
    pub fn value_at(&self, i: usize) -> (r: i64)
        requires
            i < self@.len(),
        ensures
            r == self@[i as int].1,
    {
        self.entries[i].1
    }
}

impl Clone for ScoreMap {
    fn clone(&self) -> (r: Self)
        ensures
            r@ == self@,
    {
        let mut entries: Vec<(String, i64)> = Vec::new();
        let n = self.entries.len();
        for i in 0..n
            invariant
                n == self.entries@.len(),
                entries@.len() == i,
                forall|j: int|
                    0 <= j < i ==> (#[trigger] entries@[j]).0@ == self.entries@[j].0@
                        && entries@[j].1 == self.entries@[j].1,
        {
            let k = self.entries[i].0.clone();
            let v = self.entries[i].1;
            entries.push((k, v));
        }
        let r = ScoreMap { entries };
        proof {
            assert(r@ =~= self@);
        }
        r
    }
}

/// Inserting at a key found at position `i` (with all earlier keys distinct
/// from it) updates position `i` in place.
proof fn lemma_insert_found(s: Seq<(Seq<char>, i64)>, k: Seq<char>, v: i64, i: int)
    requires
        0 <= i < s.len(),
        s[i].0 == k,
        forall|j: int| 0 <= j < i ==> (#[trigger] s[j]).0 != k,
    ensures
        spec_insert(s, k, v) == s.update(i, (k, v)),
    decreases s.len(),
{
    if i == 0 {
        assert(spec_insert(s, k, v) =~= s.update(0, (k, v)));
    } else {
        assert(s.drop_first()[i - 1] == s[i]);
        assert(forall|j: int| 0 <= j < i - 1 ==> #[trigger] s.drop_first()[j] == s[j + 1]);
        lemma_insert_found(s.drop_first(), k, v, i - 1);
        assert(spec_insert(s, k, v) =~= s.update(i, (k, v)));
    }
}

/// Inserting an absent key appends the pair.
proof fn lemma_insert_absent(s: Seq<(Seq<char>, i64)>, k: Seq<char>, v: i64)
    requires
        forall|j: int| 0 <= j < s.len() ==> (#[trigger] s[j]).0 != k,
    ensures
        spec_insert(s, k, v) == s.push((k, v)),
    decreases s.len(),
{
    if s.len() == 0 {
        assert(spec_insert(s, k, v) =~= s.push((k, v)));
    } else {
        assert(forall|j: int| 0 <= j < s.drop_first().len() ==> #[trigger] s.drop_first()[j] == s[j
            + 1]);
        lemma_insert_absent(s.drop_first(), k, v);
        assert(spec_insert(s, k, v) =~= s.push((k, v)));
    }
}

} // verus!
