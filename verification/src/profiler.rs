//! Per-execution trace capture and population-level collation.
//!
//! A `Profiler` records one candidate execution: the basic-block trace, the
//! final values of a watch-list of registers, an optional execution-error
//! code, and the elapsed computation time in microseconds. `Profile::collate`
//! aggregates a batch of finished profilers into population-level summaries.

use vstd::prelude::*;
use indexmap::IndexMap;
use std::collections::hash_map::RandomState;
use prefix_tree::PrefixSet;

use crate::assoc::{assoc_find, assoc_distinct, lemma_assoc_put_effect, lemma_count_sum_put,
    count_sum};
use crate::paths::{path_elems, path_set_new, path_set_insert, path_set_contains, path_set_len};
use crate::reg_map::{reg_entries, err_entries, reg_map_new, reg_map_insert, reg_map_get,
    reg_map_clone, err_map_new, err_map_get, err_map_insert};
use crate::register_pattern::RegisterPatternConfig;

verus! {

/// A basic-block descriptor: entry address and size.
#[derive(Copy, Clone, PartialEq, Eq, PartialOrd, Ord, Hash, Debug, Structural)]
pub struct Block {
    pub entry: u64,
    pub size: usize,
}

/// One recorded memory write: where the program counter stood, the address
/// written, how many bytes, and the value.
#[derive(Copy, Clone, PartialEq, Eq, PartialOrd, Ord, Hash, Debug, Structural)]
pub struct MemLogEntry {
    pub program_counter: u64,
    pub mem_address: u64,
    pub num_bytes_written: usize,
    pub value: i64,
}

/// The execution capability's register-read access, implemented by an
/// adapter around whichever concrete emulation backend is chosen: a read
/// yields the register's 64-bit value or a backend error code.
pub trait RegisterReader {
    fn read_register(&mut self, name: &str) -> Result<u64, u32>;
}

/// One candidate execution's recorded trace. The block log is appended to by
/// the execution engine's instrumentation hook (`record_block`); the adapter
/// owning the engine is responsible for serializing those callbacks.
pub struct Profiler {
    /// The basic-block trace, in execution order.
    pub block_log: Vec<Block>,
    /// The execution-error code the engine reported, if any.
    pub cpu_error: Option<u32>,
    /// Elapsed computation time, in microseconds.
    pub computation_time: u64,
    /// The final values of the watched registers.
    pub registers: IndexMap<String, u64, RandomState>,
    /// The watch-list of register names copied out after execution.
    pub registers_to_read: Vec<String>,
}

impl Profiler {
    /// The watch-list of register names, for specification purposes.
    pub closed spec fn spec_watch(&self) -> Seq<Seq<char>> {
        self.registers_to_read@.map_values(|s: String| s@)
    }

    /// A fresh profiler watching the given registers.
    pub fn new(output_registers: &Vec<String>) -> (r: Self)
        ensures
            r.block_log@ == Seq::<Block>::empty(),
            r.cpu_error is None,
            r.computation_time == 0,
            reg_entries(r.registers) == Seq::<(Seq<char>, u64)>::empty(),
            r.spec_watch() == output_registers@.map_values(|s: String| s@),
    {
        let mut watch: Vec<String> = Vec::new();
        let n = output_registers.len();
        for i in 0..n
            invariant
                n == output_registers@.len(),
                watch@.len() == i,
                forall|j: int| 0 <= j < i ==> (#[trigger] watch@[j])@ == output_registers@[j]@,
        {
            watch.push(output_registers[i].clone());
        }
        let r = Profiler {
            block_log: Vec::new(),
            cpu_error: None,
            computation_time: 0,
            registers: reg_map_new(),
            registers_to_read: watch,
        };
        proof {
            assert(r.spec_watch() =~= output_registers@.map_values(|s: String| s@));
        }
        r
    }

    /// Appends one executed basic block to the trace. This is the entry
    /// point for the execution engine's block-instrumentation callback.
    pub fn record_block(&mut self, block: Block)
        ensures
            final(self).block_log@ == old(self).block_log@.push(block),
            final(self).cpu_error == old(self).cpu_error,
            final(self).computation_time == old(self).computation_time,
            final(self).registers == old(self).registers,
            final(self).spec_watch() == old(self).spec_watch(),
    {
        self.block_log.push(block);
    }

    /// Records the execution-error code the engine reported.
    pub fn set_error(&mut self, error: u32)
        ensures
            final(self).cpu_error == Some(error),
            final(self).block_log@ == old(self).block_log@,
            final(self).computation_time == old(self).computation_time,
            final(self).registers == old(self).registers,
            final(self).spec_watch() == old(self).spec_watch(),
    {
        self.cpu_error = Some(error);
    }

    /// Records the elapsed computation time, in microseconds.
    pub fn set_computation_time(&mut self, micros: u64)
        ensures
            final(self).computation_time == micros,
            final(self).block_log@ == old(self).block_log@,
            final(self).cpu_error == old(self).cpu_error,
            final(self).registers == old(self).registers,
            final(self).spec_watch() == old(self).spec_watch(),
    {
        self.computation_time = micros;
    }

    /// The recorded final value of a watched register, if it was read.
    pub fn register(&self, reg: &String) -> (r: Option<u64>)
        ensures
            r == assoc_find(reg_entries(self.registers), reg@),
    {
        reg_map_get(&self.registers, reg)
    }

    /// Copies the watched registers out of the execution capability. A read
    /// failure signals a misconfigured watch-list: the backend's error code
    /// is surfaced at once and the remaining reads are abandoned.
    pub fn read_registers<R: RegisterReader>(&mut self, emu: &mut R) -> (r: Result<(), u32>)
        ensures
            final(self).block_log@ == old(self).block_log@,
            final(self).cpu_error == old(self).cpu_error,
            final(self).computation_time == old(self).computation_time,
            final(self).spec_watch() == old(self).spec_watch(),
            r is Ok ==> forall|j: int|
                0 <= j < old(self).spec_watch().len() ==> (#[trigger] assoc_find(
                    reg_entries(final(self).registers),
                    old(self).spec_watch()[j],
                )) is Some,
    {
        let n = self.registers_to_read.len();
        for i in 0..n
            invariant
                n == self.registers_to_read@.len(),
                self.block_log@ == old(self).block_log@,
                self.cpu_error == old(self).cpu_error,
                self.computation_time == old(self).computation_time,
                self.registers_to_read == old(self).registers_to_read,
                forall|j: int|
                    0 <= j < i ==> (#[trigger] assoc_find(
                        reg_entries(self.registers),
                        self.registers_to_read@[j]@,
                    )) is Some,
        {
            let name = self.registers_to_read[i].clone();
            let val = match emu.read_register(name.as_str()) {
                Ok(v) => v,
                Err(code) => {
                    return Err(code);
                }
            };
            let ghost pre = reg_entries(self.registers);
            reg_map_insert(&mut self.registers, name, val);
            proof {
                lemma_assoc_put_effect(pre, self.registers_to_read@[i as int]@, val);
            }
        }
        Ok(())
    }
}

/// The set of distinct block traces a batch of profilers observed.
pub open spec fn traces_of(ps: Seq<Profiler>) -> Set<Seq<Block>> {
    Set::new(|t: Seq<Block>| exists|i: int| 0 <= i < ps.len() && (#[trigger] ps[i]).block_log@ == t)
}

/// How many of the profilers reported the error code `c`.
pub open spec fn err_count(ps: Seq<Profiler>, c: u32) -> int
    decreases ps.len(),
{
    if ps.len() == 0 {
        0
    } else {
        err_count(ps.drop_last(), c) + (if ps.last().cpu_error == Some(c) {
            1int
        } else {
            0int
        })
    }
}

/// How many of the profilers reported any error at all.
pub open spec fn err_total(ps: Seq<Profiler>) -> int
    decreases ps.len(),
{
    if ps.len() == 0 {
        0
    } else {
        err_total(ps.drop_last()) + (if ps.last().cpu_error is Some {
            1int
        } else {
            0int
        })
    }
}

/// Aggregation of many profilers into population-level statistics: the
/// deduplicated set of block traces in a shared-prefix store, the frequency
/// histogram of error codes, the per-run timings in input order, and the
/// per-run register snapshots in canonical named-register form.
pub struct Profile {
    /// Every distinct block trace observed, stored with shared prefixes.
    pub paths: PrefixSet<Block>,
    /// How often each distinct error code was reported.
    pub cpu_errors: IndexMap<u32, usize, RandomState>,
    /// Per-run computation times, in input order, in microseconds.
    pub computation_times: Vec<u64>,
    /// Per-run register snapshots, in input order.
    pub registers: Vec<RegisterPatternConfig>,
}

impl Profile {
    /// Collates a batch of completed profilers: the path set holds exactly
    /// the distinct traces observed; each error code's histogram count is
    /// the number of profilers that reported it, and the counts sum to the
    /// number of profilers that reported any error; timings and register
    /// snapshots carry over in input order.
    pub fn collate(profilers: Vec<Profiler>) -> (r: Profile)
        ensures
            path_elems(r.paths) == traces_of(profilers@),
            path_elems(r.paths).finite(),
            forall|c: u32|
                #[trigger] assoc_find(err_entries(r.cpu_errors), c) == (if err_count(
                    profilers@,
                    c,
                ) == 0 {
                    None::<usize>
                } else {
                    Some(err_count(profilers@, c) as usize)
                }),
            count_sum(err_entries(r.cpu_errors)) == err_total(profilers@),
            r.computation_times@ == profilers@.map_values(|p: Profiler| p.computation_time),
            r.registers@.len() == profilers@.len(),
            forall|i: int|
                0 <= i < profilers@.len() ==> reg_entries((#[trigger] r.registers@[i]).0)
                    == reg_entries(profilers@[i].registers),
    {
        let ghost ps = profilers@;
        let mut paths = path_set_new();
        let mut cpu_errors = err_map_new();
        let mut computation_times: Vec<u64> = Vec::new();
        let mut register_maps: Vec<RegisterPatternConfig> = Vec::new();
        let n = profilers.len();
        proof {
            assert(path_elems(paths) =~= traces_of(ps.take(0)));
            assert forall|c: u32| #[trigger] assoc_find(err_entries(cpu_errors), c) == (if err_count(
                ps.take(0),
                c,
            ) == 0 {
                None::<usize>
            } else {
                Some(err_count(ps.take(0), c) as usize)
            }) by {
                assert(err_count(ps.take(0), c) == 0);
                assert(assoc_find(err_entries(cpu_errors), c) is None);
            }
        }
        for i in 0..n
            invariant
                n == ps.len(),
                profilers@ == ps,
                path_elems(paths).finite(),
                path_elems(paths) == traces_of(ps.take(i as int)),
                assoc_distinct(err_entries(cpu_errors)),
                forall|c: u32|
                    #[trigger] assoc_find(err_entries(cpu_errors), c) == (if err_count(
                        ps.take(i as int),
                        c,
                    ) == 0 {
                        None::<usize>
                    } else {
                        Some(err_count(ps.take(i as int), c) as usize)
                    }),
                count_sum(err_entries(cpu_errors)) == err_total(ps.take(i as int)),
                computation_times@ == ps.take(i as int).map_values(
                    |p: Profiler| p.computation_time,
                ),
                register_maps@.len() == i,
                forall|j: int|
                    0 <= j < i ==> reg_entries((#[trigger] register_maps@[j]).0) == reg_entries(
                        ps[j].registers,
                    ),
        {
            proof {
                assert(ps.take(i + 1).drop_last() =~= ps.take(i as int));
                assert(ps.take(i + 1).last() == ps[i as int]);
            }
            let p = &profilers[i];
            path_set_insert(&mut paths, &p.block_log);
            proof {
                assert(path_elems(paths) =~= traces_of(ps.take(i + 1))) by {
                    assert forall|t: Seq<Block>| #[trigger]
                        traces_of(ps.take(i + 1)).contains(t) implies path_elems(paths).contains(
                        t,
                    ) by {
                        let j = choose|j: int|
                            0 <= j < ps.take(i + 1).len() && (#[trigger] ps.take(
                                i + 1,
                            )[j]).block_log@ == t;
                        if j < i as int {
                            assert(ps.take(i as int)[j].block_log@ == t);
                            assert(traces_of(ps.take(i as int)).contains(t));
                        }
                    }
                    assert forall|t: Seq<Block>| #[trigger] path_elems(paths).contains(t) implies
                        traces_of(ps.take(i + 1)).contains(t) by {
                        if t == ps[i as int].block_log@ {
                            assert(ps.take(i + 1)[i as int].block_log@ == t);
                        } else {
                            assert(traces_of(ps.take(i as int)).contains(t));
                            let j = choose|j: int|
                                0 <= j < ps.take(i as int).len() && (#[trigger] ps.take(
                                    i as int,
                                )[j]).block_log@ == t;
                            assert(ps.take(i + 1)[j].block_log@ == t);
                        }
                    }
                }
            }
            let ghost pre_hist = err_entries(cpu_errors);
            match p.cpu_error {
                Some(code) => {
                    let prev = match err_map_get(&cpu_errors, code) {
                        Some(c) => c,
                        None => 0,
                    };
                    proof {
                        lemma_err_count_le_total(ps.take(i as int), code);
                        lemma_err_total_bound(ps.take(i as int));
                        assert(prev as int == err_count(ps.take(i as int), code));
                        assert(prev as int <= i as int);
                        lemma_assoc_put_effect(pre_hist, code, (prev + 1) as usize);
                        lemma_count_sum_put(pre_hist, code, (prev + 1) as usize);
                    }
                    err_map_insert(&mut cpu_errors, code, prev + 1);
                    proof {
                        assert forall|c: u32| #[trigger] assoc_find(err_entries(cpu_errors), c)
                            == (if err_count(ps.take(i + 1), c) == 0 {
                            None::<usize>
                        } else {
                            Some(err_count(ps.take(i + 1), c) as usize)
                        }) by {
                            lemma_err_count_le_total(ps.take(i + 1), c);
                            lemma_err_total_bound(ps.take(i + 1));
                            if c == code {
                                assert(err_count(ps.take(i + 1), c) == err_count(
                                    ps.take(i as int),
                                    c,
                                ) + 1);
                            } else {
                                assert(err_count(ps.take(i + 1), c) == err_count(
                                    ps.take(i as int),
                                    c,
                                ));
                                assert(assoc_find(err_entries(cpu_errors), c) == assoc_find(
                                    pre_hist,
                                    c,
                                ));
                            }
                        }
                    }
                }
                None => {
                    proof {
                        assert forall|c: u32| #[trigger] assoc_find(err_entries(cpu_errors), c)
                            == (if err_count(ps.take(i + 1), c) == 0 {
                            None::<usize>
                        } else {
                            Some(err_count(ps.take(i + 1), c) as usize)
                        }) by {
                            assert(err_count(ps.take(i + 1), c) == err_count(
                                ps.take(i as int),
                                c,
                            ));
                        }
                    }
                },
            }
            computation_times.push(p.computation_time);
            proof {
                assert(computation_times@ =~= ps.take(i + 1).map_values(
                    |q: Profiler| q.computation_time,
                ));
            }
            register_maps.push(RegisterPatternConfig(reg_map_clone(&p.registers)));
        }
        proof {
            assert(ps.take(n as int) =~= ps);
        }
        Profile { paths, cpu_errors, computation_times, registers: register_maps }
    }
}

impl Profile {
    /// Whether the given block trace was observed by any collated profiler.
    pub fn path_recorded(&self, trace: &Vec<Block>) -> (r: bool)
        ensures
            r == path_elems(self.paths).contains(trace@),
    {
        path_set_contains(&self.paths, trace)
    }

    /// How many distinct block traces were observed.
    pub fn num_distinct_paths(&self) -> (r: usize)
        requires
            path_elems(self.paths).finite(),
        ensures
            r == path_elems(self.paths).len(),
    {
        path_set_len(&self.paths)
    }
}

/// No code's count exceeds the total number of erroring profilers.
proof fn lemma_err_count_le_total(ps: Seq<Profiler>, c: u32)
    ensures
        0 <= err_count(ps, c) <= err_total(ps),
    decreases ps.len(),
{
    if ps.len() > 0 {
        lemma_err_count_le_total(ps.drop_last(), c);
    }
}

/// No more profilers err than exist.
proof fn lemma_err_total_bound(ps: Seq<Profiler>)
    ensures
        0 <= err_total(ps) <= ps.len(),
    decreases ps.len(),
{
    if ps.len() > 0 {
        lemma_err_total_bound(ps.drop_last());
    }
}

} // verus!
