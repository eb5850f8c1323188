//! Specification vocabulary for keyed entry sequences in insertion order,
//! shared by the contracts of the insertion-ordered maps that the profile
//! collator relies on.

use vstd::prelude::*;

verus! {

/// The value bound to `k`, by first match.
pub open spec fn assoc_find<K, V>(s: Seq<(K, V)>, k: K) -> Option<V>
    decreases s.len(),
{
    if s.len() == 0 {
        None
    } else if s[0].0 == k {
        Some(s[0].1)
    } else {
        assoc_find(s.drop_first(), k)
    }
}

/// Entry sequences with pairwise distinct keys.
pub open spec fn assoc_distinct<K, V>(s: Seq<(K, V)>) -> bool {
    forall|i: int, j: int| 0 <= i < j < s.len() ==> (#[trigger] s[i]).0 != (#[trigger] s[j]).0
}

/// The result of binding `k` to `v`: the value is updated in place if `k` is
/// already bound, else the pair is appended — the insertion-order-preserving
/// map update.
pub open spec fn assoc_put<K, V>(s: Seq<(K, V)>, k: K, v: V) -> Seq<(K, V)>
    decreases s.len(),
{
    if s.len() == 0 {
        seq![(k, v)]
    } else if s[0].0 == k {
        seq![(k, v)] + s.drop_first()
    } else {
        seq![s[0]] + assoc_put(s.drop_first(), k, v)
    }
}

/// An entry's key is bound.
pub proof fn lemma_assoc_find_present<K, V>(s: Seq<(K, V)>, i: int)
    requires
        0 <= i < s.len(),
    ensures
        assoc_find(s, s[i].0) is Some,
    decreases s.len(),
{
    if s[0].0 != s[i].0 {
        assert(s.drop_first()[i - 1] == s[i]);
        lemma_assoc_find_present(s.drop_first(), i - 1);
    }
}

/// A bound key appears among the entries.
pub proof fn lemma_assoc_present_find<K, V>(s: Seq<(K, V)>, k: K)
    requires
        assoc_find(s, k) is Some,
    ensures
        exists|i: int| 0 <= i < s.len() && (#[trigger] s[i]).0 == k,
    decreases s.len(),
{
    if s.len() > 0 && s[0].0 != k {
        lemma_assoc_present_find(s.drop_first(), k);
        let i = choose|i: int| 0 <= i < s.drop_first().len() && (#[trigger] s.drop_first()[i]).0 == k;
        assert(s[i + 1].0 == k);
    }
}

/// With distinct keys, `assoc_find` at an entry's key returns that entry's
/// value.
pub proof fn lemma_assoc_entry_value<K, V>(s: Seq<(K, V)>, i: int)
    requires
        assoc_distinct(s),
        0 <= i < s.len(),
    ensures
        assoc_find(s, s[i].0) == Some(s[i].1),
    decreases s.len(),
{
    if i > 0 {
        assert(s[0].0 != s[i].0);
        assert(forall|j: int| 0 <= j < s.drop_first().len() ==> #[trigger] s.drop_first()[j] == s[j
            + 1]);
        lemma_assoc_entry_value(s.drop_first(), i - 1);
    }
}

/// Binding `k` binds it alone: other keys keep their values, the key order
/// is kept (with `k` appended only when it was absent), and distinctness is
/// preserved.
pub proof fn lemma_assoc_put_effect<K, V>(s: Seq<(K, V)>, k: K, v: V)
    ensures
        assoc_find(assoc_put(s, k, v), k) == Some(v),
        forall|k2: K| k2 != k ==> #[trigger] assoc_find(assoc_put(s, k, v), k2) == assoc_find(s, k2),
        assoc_find(s, k) is Some ==> assoc_put(s, k, v).len() == s.len(),
        assoc_find(s, k) is None ==> assoc_put(s, k, v) == s.push((k, v)),
        assoc_distinct(s) ==> assoc_distinct(assoc_put(s, k, v)),
        assoc_find(s, k) is Some ==> forall|i: int|
            0 <= i < s.len() ==> (#[trigger] assoc_put(s, k, v)[i]).0 == s[i].0,
    decreases s.len(),
{
    if s.len() == 0 {
        let t = assoc_put(s, k, v);
        assert(t.drop_first() =~= Seq::<(K, V)>::empty());
        assert(t =~= s.push((k, v)));
        assert forall|k2: K| k2 != k implies #[trigger] assoc_find(t, k2) == assoc_find(s, k2) by {
            assert(assoc_find(t.drop_first(), k2) is None);
        }
    } else if s[0].0 == k {
        let t = assoc_put(s, k, v);
        assert(t.drop_first() =~= s.drop_first());
        assert forall|k2: K| k2 != k implies #[trigger] assoc_find(t, k2) == assoc_find(s, k2) by {
            assert(assoc_find(t, k2) == assoc_find(t.drop_first(), k2));
        }
        if assoc_distinct(s) {
            assert forall|i: int, j: int| 0 <= i < j < t.len() implies (#[trigger] t[i]).0 != (
            #[trigger] t[j]).0 by {
                assert(t[j] == s[j]);
                if i > 0 {
                    assert(t[i] == s[i]);
                }
            }
        }
        assert(forall|i: int| 0 <= i < s.len() ==> (#[trigger] t[i]).0 == s[i].0);
    } else {
        lemma_assoc_put_effect(s.drop_first(), k, v);
        let t = assoc_put(s, k, v);
        assert(t[0] == s[0]);
        assert(t.drop_first() =~= assoc_put(s.drop_first(), k, v));
        assert(assoc_find(t, k) == assoc_find(t.drop_first(), k));
        assert(assoc_find(s, k) == assoc_find(s.drop_first(), k));
        assert forall|k2: K| k2 != k implies #[trigger] assoc_find(t, k2) == assoc_find(s, k2) by {
            if k2 != s[0].0 {
                assert(assoc_find(t, k2) == assoc_find(t.drop_first(), k2));
                assert(assoc_find(s, k2) == assoc_find(s.drop_first(), k2));
            }
        }
        if assoc_find(s, k) is None {
            assert(t =~= s.push((k, v)));
        }
        if assoc_find(s, k) is Some {
            assert forall|i: int| 0 <= i < s.len() implies (#[trigger] t[i]).0 == s[i].0 by {
                if i > 0 {
                    assert(t[i] == t.drop_first()[i - 1]);
                    assert(s.drop_first()[i - 1] == s[i]);
                }
            }
        }
        if assoc_distinct(s) {
            assert(assoc_distinct(s.drop_first())) by {
                assert(forall|i: int|
                    0 <= i < s.drop_first().len() ==> #[trigger] s.drop_first()[i] == s[i + 1]);
            }
            assert forall|i: int, j: int| 0 <= i < j < t.len() implies (#[trigger] t[i]).0 != (
            #[trigger] t[j]).0 by {
                if i == 0 {
                    assert(t[j] == t.drop_first()[j - 1]);
                    lemma_assoc_find_present(assoc_put(s.drop_first(), k, v), j - 1);
                    if t[j].0 == k {
                    } else {
                        lemma_assoc_present_find(s.drop_first(), t[j].0);
                    }
                } else {
                    assert(t[i] == t.drop_first()[i - 1]);
                    assert(t[j] == t.drop_first()[j - 1]);
                }
            }
        }
    }
}

/// The sum of the counts of a histogram's entries.
pub open spec fn count_sum(s: Seq<(u32, usize)>) -> int
    decreases s.len(),
{
    if s.len() == 0 {
        0
    } else {
        count_sum(s.drop_last()) + s.last().1
    }
}

/// Raising one bound count raises the sum by the difference; binding a fresh
/// key adds its count.
pub proof fn lemma_count_sum_put(s: Seq<(u32, usize)>, k: u32, v: usize)
    requires
        assoc_distinct(s),
    ensures
        count_sum(assoc_put(s, k, v)) == count_sum(s) + v - (match assoc_find(s, k) {
            Some(x) => x as int,
            None => 0,
        }),
    decreases s.len(),
{
    reveal_with_fuel(count_sum, 3);
    lemma_assoc_put_effect(s, k, v);
    let t = assoc_put(s, k, v);
    if s.len() == 0 {
        assert(t.drop_last() =~= Seq::<(u32, usize)>::empty());
        assert(count_sum(t) == v);
    } else if s[0].0 == k {
        if s.len() == 1 {
            assert(t =~= seq![(k, v)]);
            assert(t.drop_last() =~= Seq::<(u32, usize)>::empty());
            assert(s.drop_last() =~= Seq::<(u32, usize)>::empty());
            assert(assoc_find(s, k) == Some(s[0].1));
            assert(count_sum(t) == v);
            assert(count_sum(s) == s[0].1);
        } else {
            assert(t.last() == s.last());
            assert(t.drop_last() =~= assoc_put(s.drop_last(), k, v)) by {
                assert(s.drop_last()[0] == s[0]);
                assert(assoc_put(s.drop_last(), k, v) =~= seq![(k, v)] + s.drop_last().drop_first());
                assert(t.drop_last() =~= seq![(k, v)] + s.drop_first().drop_last());
                assert(s.drop_last().drop_first() =~= s.drop_first().drop_last());
            }
            assert(assoc_distinct(s.drop_last())) by {
                assert(forall|i: int|
                    0 <= i < s.drop_last().len() ==> #[trigger] s.drop_last()[i] == s[i]);
            }
            lemma_count_sum_put(s.drop_last(), k, v);
            assert(assoc_find(s.drop_last(), k) == Some(s[0].1)) by {
                assert(s.drop_last()[0] == s[0]);
                lemma_assoc_entry_value(s.drop_last(), 0);
            }
            assert(assoc_find(s, k) == Some(s[0].1));
        }
    } else {
        {
            if assoc_find(s, k) is None {
                assert(t =~= s.push((k, v)));
                assert(t.drop_last() =~= s);
                assert(t.last() == (k, v));
            } else {
                lemma_assoc_present_find(s, k);
                let i = choose|i: int| 0 <= i < s.len() && (#[trigger] s[i]).0 == k;
                lemma_assoc_entry_value(s, i);
                if i == s.len() - 1 {
                    assert(t.last() == (k, v)) by {
                        lemma_assoc_put_last(s, k, v);
                    }
                    assert(t.drop_last() =~= s.drop_last()) by {
                        lemma_assoc_put_last(s, k, v);
                    }
                } else {
                    assert(s.last().0 != k);
                    assert(t.last() == s.last() && t.drop_last() =~= assoc_put(
                        s.drop_last(),
                        k,
                        v,
                    )) by {
                        lemma_assoc_put_inner(s, k, v);
                    }
                    assert(assoc_distinct(s.drop_last())) by {
                        assert(forall|j: int|
                            0 <= j < s.drop_last().len() ==> #[trigger] s.drop_last()[j] == s[j]);
                    }
                    lemma_count_sum_put(s.drop_last(), k, v);
                    assert(s.drop_last()[i] == s[i]);
                    lemma_assoc_entry_value(s.drop_last(), i);
                }
            }
        }
    }
}

/// When the bound key is the last entry's, `assoc_put` rewrites the last
/// entry alone.
proof fn lemma_assoc_put_last<K, V>(s: Seq<(K, V)>, k: K, v: V)
    requires
        assoc_distinct(s),
        s.len() > 0,
        s.last().0 == k,
    ensures
        assoc_put(s, k, v).len() == s.len(),
        assoc_put(s, k, v).last() == (k, v),
        assoc_put(s, k, v).drop_last() =~= s.drop_last(),
    decreases s.len(),
{
    lemma_assoc_put_effect(s, k, v);
    lemma_assoc_entry_value(s, s.len() - 1);
    let t = assoc_put(s, k, v);
    if s.len() == 1 {
        assert(t =~= seq![(k, v)]);
    } else {
        assert(s[0].0 != k);
        assert(s.drop_first().last() == s.last());
        assert(assoc_distinct(s.drop_first())) by {
            assert(forall|i: int|
                0 <= i < s.drop_first().len() ==> #[trigger] s.drop_first()[i] == s[i + 1]);
        }
        lemma_assoc_put_last(s.drop_first(), k, v);
        assert(t.drop_first() =~= assoc_put(s.drop_first(), k, v));
        assert(t.last() == t.drop_first().last());
        assert(t.drop_last() =~= s.drop_last()) by {
            assert(t.drop_last()[0] == s[0]);
            assert(forall|i: int|
                1 <= i < s.len() - 1 ==> #[trigger] t.drop_last()[i] == assoc_put(
                    s.drop_first(),
                    k,
                    v,
                ).drop_last()[i - 1]);
            assert(forall|i: int|
                1 <= i < s.len() - 1 ==> #[trigger] s.drop_last()[i] == s.drop_first().drop_last()[i
                    - 1]);
        }
    }
}

/// When the bound key sits strictly before the last entry, `assoc_put`
/// leaves the last entry alone and updates the front.
proof fn lemma_assoc_put_inner<K, V>(s: Seq<(K, V)>, k: K, v: V)
    requires
        s.len() > 0,
        s.last().0 != k,
        assoc_find(s, k) is Some,
    ensures
        assoc_put(s, k, v).len() == s.len(),
        assoc_put(s, k, v).last() == s.last(),
        assoc_put(s, k, v).drop_last() =~= assoc_put(s.drop_last(), k, v),
    decreases s.len(),
{
    lemma_assoc_put_effect(s, k, v);
    let t = assoc_put(s, k, v);
    if s[0].0 == k {
        assert(s.len() >= 2);
        assert(t.drop_last() =~= assoc_put(s.drop_last(), k, v)) by {
            assert(s.drop_last()[0] == s[0]);
            assert(assoc_put(s.drop_last(), k, v) =~= seq![(k, v)] + s.drop_last().drop_first());
            assert(s.drop_last().drop_first() =~= s.drop_first().drop_last());
        }
    } else {
        assert(s.len() >= 2) by {
            if s.len() == 1 {
                assert(assoc_find(s.drop_first(), k) is None);
            }
        }
        assert(assoc_find(s, k) == assoc_find(s.drop_first(), k));
        lemma_assoc_put_inner(s.drop_first(), k, v);
        assert(t.drop_first() =~= assoc_put(s.drop_first(), k, v));
        assert(t.last() == t.drop_first().last());
        assert(t.drop_last() =~= assoc_put(s.drop_last(), k, v)) by {
            assert(s.drop_last()[0] == s[0]);
            assert(assoc_put(s.drop_last(), k, v) =~= seq![s[0]] + assoc_put(
                s.drop_last().drop_first(),
                k,
                v,
            ));
            assert(s.drop_last().drop_first() =~= s.drop_first().drop_last());
            assert(forall|i: int|
                1 <= i < s.len() - 1 ==> #[trigger] t.drop_last()[i] == assoc_put(
                    s.drop_first(),
                    k,
                    v,
                ).drop_last()[i - 1]);
        }
    }
}

} // verus!
