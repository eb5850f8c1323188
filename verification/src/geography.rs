//! A spatially structured population container ("trivial geography").
//!
//! The population lives in an ordered sequence of slots (`deme`), some of
//! which may be vacant; vacant slot indices are tracked in a LIFO list.
//! Selection operators only compete individuals that are near one another:
//! a bounded window of consecutive slots (the `radius`) is drawn at a random
//! base index, which slows the spread of a single dominant genotype.
//!
//! For a description and justification of the "trivial geography" algorithm,
//! see Lee Spector & Jon Klein, "Trivial Geography in Genetic Programming"
//! in _Genetic Programming Theory and Practice III_ (ed. Tina Yu, Rick Riolo,
//! Bill Worzel), Springer: 2006.

use vstd::prelude::*;
use vstd::multiset::Multiset;
use vstd::pervasive::arbitrary;

use crate::error::Error;

verus! {

broadcast use
    vstd::multiset::group_multiset_axioms,
    vstd::seq_lib::group_to_multiset_ensures,
;

/// The multiset of occupants of a slot sequence.
pub open spec fn occupants<P>(s: Seq<Option<P>>) -> Multiset<P>
    decreases s.len(),
{
    if s.len() == 0 {
        Multiset::empty()
    } else {
        match s.last() {
            Some(p) => occupants(s.drop_last()).insert(p),
            None => occupants(s.drop_last()),
        }
    }
}

/// The number of vacant slots in a slot sequence.
pub open spec fn vacant_count<P>(s: Seq<Option<P>>) -> nat
    decreases s.len(),
{
    if s.len() == 0 {
        0
    } else if s.last() is None {
        vacant_count(s.drop_last()) + 1
    } else {
        vacant_count(s.drop_last())
    }
}

proof fn lemma_occupants_push<P>(s: Seq<Option<P>>, x: Option<P>)
    ensures
        occupants(s.push(x)) == (match x {
            Some(p) => occupants(s).insert(p),
            None => occupants(s),
        }),
{
    assert(s.push(x).drop_last() =~= s);
    assert(s.push(x).last() == x);
}

proof fn lemma_occupants_member<P>(s: Seq<Option<P>>, i: int)
    requires
        0 <= i < s.len(),
        s[i] is Some,
    ensures
        occupants(s).count(s[i]->Some_0) >= 1,
    decreases s.len(),
{
    if i < s.len() - 1 {
        lemma_occupants_member(s.drop_last(), i);
        assert(s.drop_last()[i] == s[i]);
    }
}

proof fn lemma_occupants_update<P>(s: Seq<Option<P>>, i: int, x: Option<P>)
    requires
        0 <= i < s.len(),
    ensures
        occupants(s.update(i, x)) =~= (match (s[i], x) {
            (Some(p), Some(q)) => occupants(s).remove(p).insert(q),
            (Some(p), None) => occupants(s).remove(p),
            (None, Some(q)) => occupants(s).insert(q),
            (None, None) => occupants(s),
        }),
    decreases s.len(),
{
    let t = s.update(i, x);
    if i == s.len() - 1 {
        assert(t.drop_last() =~= s.drop_last());
        assert(t.last() == x);
        match (s.last(), x) {
            (Some(p), Some(q)) => {
                assert(occupants(s).remove(p).insert(q) =~= occupants(s.drop_last()).insert(q));
            }
            (Some(p), None) => {
                assert(occupants(s).remove(p) =~= occupants(s.drop_last()));
            }
            _ => {}
        }
    } else {
        assert(t.drop_last() =~= s.drop_last().update(i, x));
        assert(t.last() == s.last());
        lemma_occupants_update(s.drop_last(), i, x);
        assert(s.drop_last()[i] == s[i]);
        if s[i] is Some {
            lemma_occupants_member(s.drop_last(), i);
        }
        match (s.last(), s[i], x) {
            (Some(r), Some(p), Some(q)) => {
                assert(occupants(s.drop_last()).remove(p).insert(q).insert(r) =~= occupants(
                    s.drop_last(),
                ).insert(r).remove(p).insert(q));
            }
            (Some(r), Some(p), None) => {
                assert(occupants(s.drop_last()).remove(p).insert(r) =~= occupants(
                    s.drop_last(),
                ).insert(r).remove(p));
            }
            _ => {}
        }
    }
}

proof fn lemma_vacant_count_update<P>(s: Seq<Option<P>>, i: int, x: Option<P>)
    requires
        0 <= i < s.len(),
    ensures
        vacant_count(s.update(i, x)) == vacant_count(s) + (if x is None {
            1int
        } else {
            0int
        }) - (if s[i] is None {
            1int
        } else {
            0int
        }),
    decreases s.len(),
{
    let t = s.update(i, x);
    if i == s.len() - 1 {
        assert(t.drop_last() =~= s.drop_last());
        assert(t.last() == x);
    } else {
        assert(t.drop_last() =~= s.drop_last().update(i, x));
        assert(t.last() == s.last());
        lemma_vacant_count_update(s.drop_last(), i, x);
        assert(s.drop_last()[i] == s[i]);
    }
}

proof fn lemma_vacant_count_none_free<P>(s: Seq<Option<P>>)
    requires
        forall|j: int| 0 <= j < s.len() ==> !(#[trigger] s[j] is None),
    ensures
        vacant_count(s) == 0,
    decreases s.len(),
{
    if s.len() > 0 {
        assert(forall|j: int| 0 <= j < s.drop_last().len() ==> s.drop_last()[j] == s[j]);
        lemma_vacant_count_none_free(s.drop_last());
    }
}

proof fn lemma_occupancy_split<P>(s: Seq<Option<P>>)
    ensures
        occupants(s).len() + vacant_count(s) == s.len(),
    decreases s.len(),
{
    if s.len() > 0 {
        lemma_occupancy_split(s.drop_last());
    }
}

/// A vacancy list that is duplicate-free, points only at vacant slots, and
/// covers every vacant slot, counts the vacant slots exactly.
proof fn lemma_vacancies_count_vacants<P>(s: Seq<Option<P>>, vac: Seq<usize>)
    requires
        s.len() <= usize::MAX,
        vac.no_duplicates(),
        forall|k: int| 0 <= k < vac.len() ==> (#[trigger] vac[k]) < s.len() && s[vac[k] as int] is None,
        forall|j: int| 0 <= j < s.len() && (#[trigger] s[j]) is None ==> vac.contains(j as usize),
    ensures
        vacant_count(s) == vac.len(),
    decreases vac.len(),
{
    if vac.len() == 0 {
        assert(forall|j: int| 0 <= j < s.len() ==> !(#[trigger] s[j] is None));
        lemma_vacant_count_none_free(s);
    } else {
        let v = vac.last();
        assert(vac[vac.len() - 1] < s.len() && s[vac[vac.len() - 1] as int] is None);
        let s2 = s.update(v as int, Some(arbitrary::<P>()));
        let vac2 = vac.drop_last();
        assert forall|k: int| 0 <= k < vac2.len() implies (#[trigger] vac2[k]) < s2.len()
            && s2[vac2[k] as int] is None by {
            assert(vac2[k] == vac[k]);
            assert(vac[k] != v);
        }
        assert forall|j: int| 0 <= j < s2.len() && (#[trigger] s2[j]) is None implies vac2.contains(
            j as usize,
        ) by {
            assert(s2[v as int] is Some);
            assert(j != v as int);
            assert(s[j] is None);
            assert(vac.contains(j as usize));
            let k = choose|k: int| 0 <= k < vac.len() && vac[k] == j as usize;
            assert(vac[vac.len() - 1] == v);
            assert(k != vac.len() - 1);
            assert(vac2[k] == j as usize);
            assert(vac2.contains(j as usize));
        }
        lemma_vacancies_count_vacants(s2, vac2);
        lemma_vacant_count_update(s, v as int, Some(arbitrary::<P>()));
    }
}

/// The population container. `deme` is the slot sequence, `vacancies` the
/// LIFO list of vacant slot indices, and `radius` the width of the selection
/// neighborhood.
pub struct TrivialGeography<P> {
    radius: usize,
    deme: Vec<Option<P>>,
    vacancies: Vec<usize>,
}

impl<P> TrivialGeography<P> {
    /// The slot sequence, for specification purposes.
    pub closed spec fn slots(&self) -> Seq<Option<P>> {
        self.deme@
    }

    /// The vacancy list, for specification purposes.
    pub closed spec fn vacancy_list(&self) -> Seq<usize> {
        self.vacancies@
    }

    /// The current selection radius.
    pub closed spec fn spec_radius(&self) -> usize {
        self.radius
    }

    /// The multiset of candidates currently held.
    pub open spec fn population(&self) -> Multiset<P> {
        occupants(self.slots())
    }

    /// Occupied-slot count: slot count minus vacancy count.
    pub open spec fn spec_len(&self) -> int {
        self.slots().len() - self.vacancy_list().len()
    }

    /// Structural invariant: the vacancy list is duplicate-free, points only
    /// at vacant slots, and covers every vacant slot.
    pub open spec fn wf(&self) -> bool {
        &&& self.vacancy_list().no_duplicates()
        &&& forall|k: int|
            0 <= k < self.vacancy_list().len() ==> (#[trigger] self.vacancy_list()[k])
                < self.slots().len() && self.slots()[self.vacancy_list()[k] as int] is None
        &&& forall|j: int|
            0 <= j < self.slots().len() && (#[trigger] self.slots()[j]) is None
                ==> self.vacancy_list().contains(j as usize)
        &&& self.vacancy_list().len() <= self.slots().len()
    }

    /// The occupied-slot count equals the population size. Together with the
    /// per-operation contracts this shows that, after any sequence of
    /// `extract`/`insert` operations, `len()` equals the slot count minus the
    /// vacancy count, and both track the candidates actually held.
    pub proof fn lemma_population_accounting(&self)
        requires
            self.wf(),
        ensures
            self.population().len() == self.spec_len(),
    {
        vstd::std_specs::vec::axiom_spec_len(&self.deme);
        lemma_vacancies_count_vacants(self.deme@, self.vacancies@);
        lemma_occupancy_split(self.deme@);
    }

    /// Builds a container from an ordered source of candidates: slot order is
    /// the source order, every slot is occupied, and the initial radius is
    /// the population size (no locality restriction). A caller that produced
    /// the candidates in a nondeterministic order (say, in parallel) should
    /// canonicalize the order first, so that equal multisets of candidates
    /// yield equal containers.
    pub fn from_vec(v: Vec<P>) -> (r: Self)
        ensures
            r.wf(),
            r.slots().len() == v@.len(),
            forall|i: int| 0 <= i < v@.len() ==> r.slots()[i] == Some(v@[i]),
            r.spec_len() == v@.len(),
            r.population() =~= v@.to_multiset(),
            r.spec_radius() == v@.len(),
    {
        let ghost v0 = v@;
        let n = v.len();
        let mut deme: Vec<Option<P>> = Vec::new();
        proof {
            assert(v0.take(0) =~= Seq::<P>::empty());
            assert(occupants(deme@) =~= v0.take(0).to_multiset());
        }
        for p in it: v.into_iter()
            invariant
                it.seq() == v0,
                deme@.len() == it.index(),
                forall|i: int| 0 <= i < deme@.len() ==> deme@[i] == Some(v0[i]),
                occupants(deme@) =~= v0.take(it.index() as int).to_multiset(),
        {
            let ghost pre = deme@;
            let ghost k = it.index() as int;
            deme.push(Some(p));
            proof {
                assert(p == v0[k]);
                lemma_occupants_push(pre, Some(p));
                assert(v0.take(k + 1) =~= v0.take(k).push(v0[k]));
                assert(occupants(deme@) =~= v0.take(k + 1).to_multiset());
            }
        }
        proof {
            assert(v0.take(v0.len() as int) =~= v0);
        }
        TrivialGeography { radius: n, deme, vacancies: Vec::new() }
    }

    /// Occupied-slot count.
    pub fn len(&self) -> (r: usize)
        requires
            self.wf(),
        ensures
            r == self.spec_len(),
    {
        self.deme.len() - self.vacancies.len()
    }

    /// Narrows the selection neighborhood. A radius of `0` is a sentinel
    /// meaning "use the whole population" and leaves the radius unchanged;
    /// otherwise the effective radius is `radius`, capped at the population
    /// size. Calling this before any candidates exist is caller misuse, left
    /// out by precondition.
    pub fn set_radius(&mut self, radius: usize)
        requires
            old(self).wf(),
            old(self).spec_len() > 0,
        ensures
            final(self).wf(),
            final(self).slots() == old(self).slots(),
            final(self).vacancy_list() == old(self).vacancy_list(),
            final(self).spec_radius() as int == (if radius == 0 {
                old(self).spec_radius() as int
            } else if radius <= old(self).spec_len() {
                radius as int
            } else {
                old(self).spec_len()
            }),
    {
        if radius == 0 {
            return ;
        }
        let len = self.len();
        self.radius = if radius < len {
            radius
        } else {
            len
        };
    }

    /// Fills the most recently vacated slot if one exists (LIFO reuse),
    /// otherwise appends a new slot. Always succeeds.
    pub fn insert(&mut self, creature: P) -> (r: Result<(), Error>)
        requires
            old(self).wf(),
        ensures
            final(self).wf(),
            r is Ok,
            final(self).spec_len() == old(self).spec_len() + 1,
            final(self).spec_radius() == old(self).spec_radius(),
            final(self).population() =~= old(self).population().insert(creature),
            old(self).vacancy_list().len() > 0 ==> {
                &&& final(self).slots() == old(self).slots().update(
                    old(self).vacancy_list().last() as int,
                    Some(creature),
                )
                &&& final(self).vacancy_list() == old(self).vacancy_list().drop_last()
            },
            old(self).vacancy_list().len() == 0 ==> {
                &&& final(self).slots() == old(self).slots().push(Some(creature))
                &&& final(self).vacancy_list() == old(self).vacancy_list()
            },
    {
        let ghost pre = self.deme@;
        match self.vacancies.pop() {
            Some(i) => {
                proof {
                    vstd::std_specs::vec::axiom_spec_len(&self.deme);
                    assert(old(self).vacancy_list()[old(self).vacancy_list().len() - 1] == i);
                    lemma_occupants_update(pre, i as int, Some(creature));
                }
                self.deme.set(i, Some(creature));
                proof {
                    assert forall|j: int|
                        0 <= j < self.deme@.len() && (#[trigger] self.deme@[j]) is None implies self
                        .vacancies@.contains(j as usize) by {
                        assert(j != i as int);
                        assert(pre[j] is None);
                        assert(old(self).vacancy_list().contains(j as usize));
                        let k = choose|k: int|
                            0 <= k < old(self).vacancy_list().len() && old(self).vacancy_list()[k]
                                == j as usize;
                        assert(k != old(self).vacancy_list().len() - 1);
                        assert(self.vacancies@[k] == j as usize);
                    }
                }
                Ok(())
            }
            None => {
                self.deme.push(Some(creature));
                proof {
                    lemma_occupants_push(pre, Some(creature));
                    assert forall|j: int|
                        0 <= j < self.deme@.len() && (#[trigger] self.deme@[j]) is None implies self
                        .vacancies@.contains(j as usize) by {
                        assert(j < pre.len());
                        assert(pre[j] is None);
                    }
                }
                Ok(())
            }
        }
    }

    /// Removes and returns the occupant of the first occupied slot at or
    /// (cyclically) after `index % capacity`, marking that slot vacant.
    /// Probing slides past vacant slots, so it succeeds whenever at least one
    /// occupied slot exists; calling it on an empty container is caller
    /// misuse, left out by precondition.
    pub fn extract(&mut self, index: usize) -> (r: Option<P>)
        requires
            old(self).wf(),
            old(self).spec_len() > 0,
        ensures
            final(self).wf(),
            r is Some,
            final(self).spec_len() == old(self).spec_len() - 1,
            final(self).spec_radius() == old(self).spec_radius(),
            final(self).slots().len() == old(self).slots().len(),
            old(self).population() =~= final(self).population().insert(r->Some_0),
            exists|j: int, off: int|
                #[trigger] extract_witness(
                    old(self).slots(),
                    old(self).vacancy_list(),
                    final(self).slots(),
                    final(self).vacancy_list(),
                    index,
                    r->Some_0,
                    j,
                    off,
                ),
    {
        let len = self.deme.len();
        proof {
            vstd::std_specs::vec::axiom_spec_len(&self.deme);
        }
        let start = index % len;
        let mut off: usize = 0;
        let mut j = start;
        while self.deme[j].is_none()
            invariant
                self == old(self),
                self.wf(),
                self.spec_len() > 0,
                len == self.deme@.len(),
                len <= usize::MAX,
                0 < len,
                start < len,
                start == index as int % len as int,
                j < len,
                off < len,
                j == cyc(start as int, off as int, len as int),
                forall|o: int|
                    0 <= o < off ==> self.deme@[cyc(start as int, o, len as int)] is None,
            decreases len - off,
        {
            proof {
                assert(self.deme@[cyc(start as int, off as int, len as int)] is None);
                if off + 1 == len {
                    assert forall|k: int| 0 <= k < len implies (#[trigger] self.deme@[k]) is None by {
                        let o = if k >= start {
                            k - start
                        } else {
                            k + len - start
                        };
                        assert(0 <= o < len);
                        assert(cyc(start as int, o, len as int) == k);
                    }
                    lemma_vacant_count_none_free_converse(self.deme@);
                    lemma_vacancies_count_vacants(self.deme@, self.vacancies@);
                    assert(false);
                }
            }
            off = off + 1;
            j = if j == len - 1 {
                0
            } else {
                j + 1
            };
        }
        let ghost pre = self.deme@;
        let occupant = self.deme.remove(j);
        self.deme.insert(j, None);
        self.vacancies.push(j);
        proof {
            assert(self.deme@ =~= pre.update(j as int, None::<P>));
            lemma_occupants_update(pre, j as int, None::<P>);
            lemma_occupants_member(pre, j as int);
            assert(occupants(pre) =~= occupants(self.deme@).insert(occupant->Some_0));
            assert forall|jj: int|
                0 <= jj < self.deme@.len() && (#[trigger] self.deme@[jj]) is None implies self
                .vacancies@.contains(jj as usize) by {
                if jj == j as int {
                    assert(self.vacancies@[self.vacancies@.len() - 1] == j);
                } else {
                    assert(pre[jj] is None);
                    assert(old(self).vacancy_list().contains(jj as usize));
                    let k = choose|k: int|
                        0 <= k < old(self).vacancy_list().len() && old(self).vacancy_list()[k]
                            == jj as usize;
                    assert(self.vacancies@[k] == jj as usize);
                }
            }
            assert(self.vacancies@.no_duplicates()) by {
                assert(!old(self).vacancy_list().contains(j));
            }
            assert(extract_witness(
                pre,
                old(self).vacancy_list(),
                self.deme@,
                self.vacancies@,
                index,
                occupant->Some_0,
                j as int,
                off as int,
            ));
        }
        occupant
    }

    /// Draws the selection neighborhood: `radius` consecutive slot positions
    /// starting at a random base, wrapping cyclically, with no duplicates.
    /// This is the contiguous window all selection operators sample from.
    pub fn get_range(&self, rng: &mut rand::rngs::StdRng) -> (r: Vec<usize>)
        requires
            self.wf(),
            self.spec_len() > 0,
            1 <= self.spec_radius(),
            self.spec_radius() <= self.spec_len(),
        ensures
            r@.len() == self.spec_radius(),
            r@.no_duplicates(),
            forall|i: int| 0 <= i < r@.len() ==> (#[trigger] r@[i]) < self.spec_len(),
            exists|base: int|
                0 <= base < self.spec_len() && is_window(r@, base, self.spec_len()),
            self.spec_radius() == self.spec_len() ==> forall|j: usize|
                j < self.spec_len() ==> r@.contains(j),
    {
        let len = self.len();
        let radius = self.radius;
        let base = crate::rng::gen_index(rng, len);
        let mut range: Vec<usize> = Vec::new();
        for i in 0..radius
            invariant
                len as int == self.spec_len(),
                base < len,
                radius <= len,
                range@.len() == i,
                forall|k: int|
                    0 <= k < range@.len() ==> (#[trigger] range@[k]) as int == cyc(
                        base as int,
                        k,
                        len as int,
                    ),
        {
            let j = if i < len - base {
                base + i
            } else {
                i - (len - base)
            };
            range.push(j);
        }
        proof {
            assert(is_window(range@, base as int, len as int));
            assert forall|a: int, b: int|
                0 <= a < b < range@.len() implies range@[a] != range@[b] by {
                assert(range@[a] as int == cyc(base as int, a, len as int));
                assert(range@[b] as int == cyc(base as int, b, len as int));
            }
            assert forall|k: int| 0 <= k < range@.len() implies (#[trigger] range@[k]) < len by {
                assert(range@[k] as int == cyc(base as int, k, len as int));
            }
            if radius == len {
                assert forall|j: usize| j < len implies range@.contains(j) by {
                    let o = if j >= base {
                        j - base
                    } else {
                        j + len - base
                    };
                    assert(range@[o as int] as int == cyc(base as int, o as int, len as int));
                    assert(range@[o as int] == j);
                }
            }
        }
        range
    }

    /// Removes and returns exactly `n` candidates sampled without
    /// replacement from a fresh neighborhood window. Callers reinsert the
    /// candidates after use.
    pub fn choose_combatants(&mut self, n: usize, rng: &mut rand::rngs::StdRng) -> (r: Vec<P>)
        requires
            old(self).wf(),
            old(self).spec_len() > 0,
            n < old(self).spec_radius(),
            old(self).spec_radius() <= old(self).spec_len(),
        ensures
            final(self).wf(),
            r@.len() == n,
            final(self).spec_len() == old(self).spec_len() - n,
            final(self).spec_radius() == old(self).spec_radius(),
            final(self).slots().len() == old(self).slots().len(),
            old(self).population() =~= final(self).population().add(r@.to_multiset()),
    {
        let range = self.get_range(rng);
        self.choose_with_range(&range, n, rng)
    }

    /// Removes `n` candidates sampled from the given duplicate-free index
    /// window, extracting each chosen occupant.
    fn choose_with_range(
        &mut self,
        range: &Vec<usize>,
        n: usize,
        rng: &mut rand::rngs::StdRng,
    ) -> (r: Vec<P>)
        requires
            old(self).wf(),
            range@.no_duplicates(),
            n <= range@.len(),
            n <= old(self).spec_len(),
        ensures
            final(self).wf(),
            r@.len() == n,
            final(self).spec_len() == old(self).spec_len() - n,
            final(self).spec_radius() == old(self).spec_radius(),
            final(self).slots().len() == old(self).slots().len(),
            old(self).population() =~= final(self).population().add(r@.to_multiset()),
    {
        let chosen = crate::rng::choose_distinct(range, n, rng);
        let mut out: Vec<P> = Vec::new();
        proof {
            assert(out@.to_multiset() =~= Multiset::<P>::empty());
            assert(old(self).population() =~= self.population().add(out@.to_multiset()));
        }
        for k in 0..n
            invariant
                self.wf(),
                out@.len() == k,
                chosen@.len() == n,
                n < old(self).spec_len() + 1,
                self.spec_len() == old(self).spec_len() - k,
                self.spec_radius() == old(self).spec_radius(),
                self.slots().len() == old(self).slots().len(),
                old(self).population() =~= self.population().add(out@.to_multiset()),
        {
            let ghost pre_pop = self.population();
            let ghost pre_out = out@;
            let c = self.extract(chosen[k]);
            let p = c.unwrap();
            out.push(p);
            proof {
                assert(pre_pop =~= self.population().insert(p));
                assert(out@ == pre_out.push(p));
                assert(out@.to_multiset() =~= pre_out.to_multiset().insert(p));
                assert(self.population().insert(p).add(pre_out.to_multiset())
                    =~= self.population().add(out@.to_multiset()));
            }
        }
        out
    }

    /// As `choose_combatants`, plus an independent sample of `n_spec`
    /// candidates drawn from the mirror window: the neighborhood window
    /// offset by half the population size, a geographically distant
    /// comparison group.
    pub fn choose_combatants_and_spectators(
        &mut self,
        n_com: usize,
        n_spec: usize,
        rng: &mut rand::rngs::StdRng,
    ) -> (r: (Vec<P>, Vec<P>))
        requires
            old(self).wf(),
            old(self).spec_len() > 0,
            n_com < old(self).spec_radius(),
            n_spec < old(self).spec_radius(),
            old(self).spec_radius() <= old(self).spec_len(),
            n_com + n_spec <= old(self).spec_len(),
        ensures
            final(self).wf(),
            r.0@.len() == n_com,
            r.1@.len() == n_spec,
            final(self).spec_len() == old(self).spec_len() - n_com - n_spec,
            final(self).spec_radius() == old(self).spec_radius(),
            final(self).slots().len() == old(self).slots().len(),
            old(self).population() =~= final(self).population().add(r.0@.to_multiset()).add(
                r.1@.to_multiset(),
            ),
    {
        let range = self.get_range(rng);
        let len = self.len();
        let half = len / 2;
        let mut mirror: Vec<usize> = Vec::new();
        for i in 0..range.len()
            invariant
                len as int == self.spec_len(),
                half == len as int / 2,
                half < len || len == 0,
                forall|k: int| 0 <= k < range@.len() ==> (#[trigger] range@[k]) < len,
                mirror@.len() == i,
                forall|k: int|
                    0 <= k < mirror@.len() ==> (#[trigger] mirror@[k]) as int == cyc(
                        range@[k] as int,
                        half as int,
                        len as int,
                    ),
        {
            let x = range[i];
            let m = if x < len - half {
                x + half
            } else {
                x - (len - half)
            };
            mirror.push(m);
        }
        proof {
            assert forall|a: int, b: int|
                0 <= a < b < mirror@.len() implies mirror@[a] != mirror@[b] by {
                assert(mirror@[a] as int == cyc(range@[a] as int, half as int, len as int));
                assert(mirror@[b] as int == cyc(range@[b] as int, half as int, len as int));
                assert(range@[a] != range@[b]);
            }
        }
        let combatants = self.choose_with_range(&range, n_com, rng);
        let spectators = self.choose_with_range(&mirror, n_spec, rng);
        (combatants, spectators)
    }
}

/// `w` is the cyclic window of consecutive slot positions starting at
/// `base`, through a population of size `len`.
pub open spec fn is_window(w: Seq<usize>, base: int, len: int) -> bool {
    forall|i: int| 0 <= i < w.len() ==> (#[trigger] w[i]) as int == cyc(base, i, len)
}

/// The neighborhood window is the contiguous run of indices from its base,
/// deduplicated by construction: strictly increasing until it wraps past the
/// end of the population, then strictly increasing again below the base.
pub proof fn lemma_window_strictly_increasing_pre_wrap(w: Seq<usize>, base: int, len: int)
    requires
        0 <= base < len,
        w.len() <= len,
        is_window(w, base, len),
    ensures
        forall|i: int, j: int|
            0 <= i < j < w.len() && j < len - base ==> w[i] < w[j],
        forall|i: int, j: int|
            len - base <= i < j < w.len() ==> w[i] < w[j],
        forall|i: int, j: int|
            0 <= i < len - base <= j < w.len() ==> w[j] < w[i],
{
    assert forall|i: int, j: int|
        0 <= i < j < w.len() && j < len - base implies w[i] < w[j] by {
        assert(w[i] as int == cyc(base, i, len));
        assert(w[j] as int == cyc(base, j, len));
    }
    assert forall|i: int, j: int| len - base <= i < j < w.len() implies w[i] < w[j] by {
        assert(w[i] as int == cyc(base, i, len));
        assert(w[j] as int == cyc(base, j, len));
    }
    assert forall|i: int, j: int| 0 <= i < len - base <= j < w.len() implies w[j] < w[i] by {
        assert(w[i] as int == cyc(base, i, len));
        assert(w[j] as int == cyc(base, j, len));
    }
}

/// The slot index reached from `start` after `off` cyclic steps through
/// `len` slots, for `start < len` and `off < len`.
pub open spec fn cyc(start: int, off: int, len: int) -> int {
    if start + off < len {
        start + off
    } else {
        start + off - len
    }
}

/// What `extract` did: slot `j` -- the first occupied slot reached from
/// `index % len` after `off` cyclic probe steps -- held `p`, was emptied, and
/// was pushed onto the vacancy list.
pub open spec fn extract_witness<P>(
    pre: Seq<Option<P>>,
    pre_vac: Seq<usize>,
    post: Seq<Option<P>>,
    post_vac: Seq<usize>,
    index: usize,
    p: P,
    j: int,
    off: int,
) -> bool {
    &&& 0 <= j < pre.len()
    &&& pre[j] == Some(p)
    &&& post == pre.update(j, None::<P>)
    &&& post_vac == pre_vac.push(j as usize)
    &&& 0 <= off < pre.len()
    &&& j == cyc(index as int % pre.len() as int, off, pre.len() as int)
    &&& forall|o: int|
        0 <= o < off ==> (#[trigger] pre[cyc(index as int % pre.len() as int, o, pre.len() as int)])
            is None
}

/// A slot sequence with no vacancies has vacant count zero; conversely, a
/// fully vacant sequence has vacant count equal to its length.
proof fn lemma_vacant_count_none_free_converse<P>(s: Seq<Option<P>>)
    requires
        forall|j: int| 0 <= j < s.len() ==> (#[trigger] s[j]) is None,
    ensures
        vacant_count(s) == s.len(),
    decreases s.len(),
{
    if s.len() > 0 {
        assert(forall|j: int| 0 <= j < s.drop_last().len() ==> s.drop_last()[j] == s[j]);
        lemma_vacant_count_none_free_converse(s.drop_last());
    }
}

} // verus!
