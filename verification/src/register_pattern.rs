//! Canonical named-register patterns and their approximate similarity.
//!
//! A `RegisterPatternConfig` maps register names to 64-bit values, keeping
//! insertion order. It serializes to the little-endian bytes of its values,
//! and two patterns are compared by a MinHash estimate of the Jaccard
//! similarity of their `(byte, positional bucket)` pair sets: for each of a
//! number of independent hash seeds, the minimum hash of each pattern's pair
//! set is computed, and the similarity is the fraction of seeds on which the
//! two minima agree.

use vstd::prelude::*;
use indexmap::IndexMap;
use std::collections::hash_map::RandomState;

use crate::assoc::assoc_find;
use crate::fitness::pow256;
use crate::fixed::SCALE;
use crate::reg_map::{reg_entries, reg_map_new, reg_map_get, reg_map_insert, reg_map_len,
    reg_map_values, reg_map_entries_vec, reg_map_clone};

verus! {

/// Byte `i` (little-endian) of a 64-bit word.
pub open spec fn u64_byte(v: u64, i: int) -> u8 {
    (((v as int) / pow256(i)) % 256) as u8
}

/// The eight little-endian bytes of a 64-bit word.
pub open spec fn word_bytes(v: u64) -> Seq<u8> {
    Seq::new(8, |i: int| u64_byte(v, i))
}

/// The concatenated little-endian bytes of a word sequence.
pub open spec fn words_bytes(vs: Seq<u64>) -> Seq<u8>
    decreases vs.len(),
{
    if vs.len() == 0 {
        Seq::empty()
    } else {
        words_bytes(vs.drop_last()) + word_bytes(vs.last())
    }
}

/// A `(byte, positional bucket)` pair, packed into four bytes: the byte,
/// then the bucket's three low little-endian bytes.
pub open spec fn pair_bytes(b: u8, pos: int) -> Seq<u8> {
    seq![b, (pos % 256) as u8, ((pos / 256) % 256) as u8, ((pos / 65536) % 256) as u8]
}

/// The packed pair set of a byte string: each byte with its bucket, where a
/// bucket spans `len / grain` consecutive positions.
pub open spec fn pair_seq(bytes: Seq<u8>, grain: int) -> Seq<Seq<u8>> {
    Seq::new(bytes.len(), |i: int| pair_bytes(bytes[i], i / ((bytes.len() as int) / grain)))
}

/// What `seahash::hash_seeded` returns for the given bytes and first seed:
/// a digest depending on them alone.
pub uninterp spec fn seahash_of(data: Seq<u8>, seed: u64) -> u64;

/// Relies on seahash::hash_seeded, with the three remaining seed words fixed
/// to zero: the digest is a function of the bytes and the seed alone.
#[verifier::external_body]
fn seahash_seeded(data: &[u8; 4], seed: u64) -> (r: u64)
    ensures
        r == seahash_of(data@, seed),
{
    seahash::hash_seeded(data, seed, 0, 0, 0)
}

/// The least digest of a pair set under one seed.
pub open spec fn min_hash(pairs: Seq<Seq<u8>>, seed: u64) -> Option<u64>
    decreases pairs.len(),
{
    if pairs.len() == 0 {
        None
    } else {
        match min_hash(pairs.drop_last(), seed) {
            None => Some(seahash_of(pairs.last(), seed)),
            Some(m) => Some(
                if seahash_of(pairs.last(), seed) < m {
                    seahash_of(pairs.last(), seed)
                } else {
                    m
                },
            ),
        }
    }
}

/// On how many of the seeds `0 .. seeds` the two pair sets' minimum digests
/// agree.
pub open spec fn agree_count(pa: Seq<Seq<u8>>, pb: Seq<Seq<u8>>, seeds: int) -> int
    decreases seeds,
{
    if seeds <= 0 {
        0
    } else {
        agree_count(pa, pb, seeds - 1) + (if min_hash(pa, (seeds - 1) as u64) == min_hash(
            pb,
            (seeds - 1) as u64,
        ) {
            1int
        } else {
            0int
        })
    }
}

/// The MinHash similarity estimate of two serialized patterns: the fraction
/// of seeds on which the minimum digests agree, as a fixed-point score.
pub open spec fn jaccard_spec(a: Seq<u8>, b: Seq<u8>, grain: int, n: int) -> int
    recommends
        n >= 1,
{
    (agree_count(pair_seq(a, grain), pair_seq(b, grain), n) * (SCALE as int)) / n
}

/// A pattern is perfectly similar to itself, whatever the grain and however
/// many seeds are drawn.
pub proof fn lemma_jaccard_self(a: Seq<u8>, grain: int, n: int)
    requires
        n >= 1,
    ensures
        jaccard_spec(a, a, grain, n) == SCALE,
{
    lemma_agree_self(pair_seq(a, grain), n);
    vstd::arithmetic::div_mod::lemma_div_multiples_vanish(SCALE as int, n);
    assert(n * (SCALE as int) == agree_count(pair_seq(a, grain), pair_seq(a, grain), n) * (
    SCALE as int));
}

proof fn lemma_agree_self(p: Seq<Seq<u8>>, n: int)
    requires
        n >= 0,
    ensures
        agree_count(p, p, n) == n,
    decreases n,
{
    if n > 0 {
        lemma_agree_self(p, n - 1);
    }
}

/// Similarity is symmetric.
pub proof fn lemma_jaccard_symmetric(a: Seq<u8>, b: Seq<u8>, grain: int, n: int)
    ensures
        jaccard_spec(a, b, grain, n) == jaccard_spec(b, a, grain, n),
{
    lemma_agree_symmetric(pair_seq(a, grain), pair_seq(b, grain), n);
}

proof fn lemma_agree_symmetric(pa: Seq<Seq<u8>>, pb: Seq<Seq<u8>>, n: int)
    ensures
        agree_count(pa, pb, n) == agree_count(pb, pa, n),
    decreases n,
{
    if n > 0 {
        lemma_agree_symmetric(pa, pb, n - 1);
    }
}

/// Agreement never exceeds the number of seeds.
proof fn lemma_agree_bound(pa: Seq<Seq<u8>>, pb: Seq<Seq<u8>>, n: int)
    requires
        n >= 0,
    ensures
        0 <= agree_count(pa, pb, n) <= n,
    decreases n,
{
    if n > 0 {
        lemma_agree_bound(pa, pb, n - 1);
    }
}

/// A canonical named-register-to-value mapping, insertion order preserved.
/// It serves both as a user-declared target pattern and as the canonical
/// form of a profiler's register snapshot.
pub struct RegisterPatternConfig(pub IndexMap<String, u64, RandomState>);

impl RegisterPatternConfig {
    /// An empty pattern.
    pub fn new() -> (r: Self)
        ensures
            reg_entries(r.0) == Seq::<(Seq<char>, u64)>::empty(),
    {
        RegisterPatternConfig(reg_map_new())
    }

    /// Binds a register name to a value, in place if already bound.
    pub fn insert(&mut self, name: String, value: u64)
        ensures
            reg_entries(final(self).0) == crate::assoc::assoc_put(
                reg_entries(old(self).0),
                name@,
                value,
            ),
    {
        reg_map_insert(&mut self.0, name, value);
    }

    /// The value bound to a register name, if any.
    pub fn get(&self, name: &String) -> (r: Option<u64>)
        ensures
            r == assoc_find(reg_entries(self.0), name@),
    {
        reg_map_get(&self.0, name)
    }

    /// The number of named registers.
    pub fn len(&self) -> (r: usize)
        ensures
            r == reg_entries(self.0).len(),
    {
        reg_map_len(&self.0)
    }

    /// The entries in insertion order, for callers that need to walk them.
    pub fn entries(&self) -> (r: Vec<(String, u64)>)
        ensures
            r@.map_values(|p: (String, u64)| (p.0@, p.1)) == reg_entries(self.0),
    {
        reg_map_entries_vec(&self.0)
    }

    /// The serialized pattern: the little-endian bytes of the register
    /// values, in insertion order.
    pub fn to_bytes(&self) -> (r: Vec<u8>)
        ensures
            r@ == words_bytes(reg_entries(self.0).map_values(|p: (Seq<char>, u64)| p.1)),
    {
        let vals = reg_map_values(&self.0);
        let ghost vs = reg_entries(self.0).map_values(|p: (Seq<char>, u64)| p.1);
        let mut buf: Vec<u8> = Vec::new();
        let n = vals.len();
        proof {
            assert(vs.take(0) =~= Seq::<u64>::empty());
            assert(buf@ =~= words_bytes(vs.take(0)));
        }
        for i in 0..n
            invariant
                n == vals@.len(),
                vals@ == vs,
                buf@ == words_bytes(vs.take(i as int)),
        {
            let v = vals[i];
            let ghost pre = buf@;
            for j in 0..8usize
                invariant
                    v == vs[i as int],
                    i < vs.len(),
                    buf@ == pre + Seq::new(j as nat, |k: int| u64_byte(v, k)),
            {
                let d = crate::fitness::e_pow256(j);
                let b = ((v / d) % 256) as u8;
                buf.push(b);
                proof {
                    assert(buf@ =~= pre + Seq::new((j + 1) as nat, |k: int| u64_byte(v, k)));
                }
            }
            proof {
                assert(Seq::new(8, |k: int| u64_byte(v, k)) =~= word_bytes(v));
                assert(vs.take(i + 1).drop_last() =~= vs.take(i as int));
                assert(vs.take(i + 1).last() == vs[i as int]);
                assert(buf@ =~= words_bytes(vs.take(i + 1)));
            }
        }
        proof {
            assert(vs.take(vs.len() as int) =~= vs);
        }
        buf
    }

    /// Estimates the Jaccard similarity of two patterns' byte content by
    /// MinHash, as a fixed-point score in `[0, SCALE]`: for each of
    /// `num_hashes` seeds the minimum digest of each pattern's
    /// `(byte, bucket)` pair set is computed, and the estimate is the
    /// fraction of seeds on which the two minima agree. The grain must be at
    /// least one and strictly below each serialized length, and the seed
    /// count must be at least one and small enough to scale.
    pub fn jaccard(&self, other: &Self, grain: usize, num_hashes: u64) -> (r: i64)
        requires
            grain >= 1,
            grain < 8 * reg_entries(self.0).len(),
            grain < 8 * reg_entries(other.0).len(),
            num_hashes >= 1,
            (num_hashes as int) * (SCALE as int) <= i64::MAX,
        ensures
            r == jaccard_spec(
                words_bytes(reg_entries(self.0).map_values(|p: (Seq<char>, u64)| p.1)),
                words_bytes(reg_entries(other.0).map_values(|p: (Seq<char>, u64)| p.1)),
                grain as int,
                num_hashes as int,
            ),
            0 <= r <= SCALE,
    {
        let self_bytes = self.to_bytes();
        let other_bytes = other.to_bytes();
        proof {
            lemma_words_bytes_len(reg_entries(self.0).map_values(|p: (Seq<char>, u64)| p.1));
            lemma_words_bytes_len(reg_entries(other.0).map_values(|p: (Seq<char>, u64)| p.1));
        }
        let self_pairs = byte_positions(&self_bytes, grain);
        let other_pairs = byte_positions(&other_bytes, grain);
        let ghost spa = pair_seq(self_bytes@, grain as int);
        let ghost opa = pair_seq(other_bytes@, grain as int);
        proof {
            assert(self_pairs@.map_values(|a: [u8; 4]| a@) =~= spa);
            assert(other_pairs@.map_values(|a: [u8; 4]| a@) =~= opa);
        }
        let mut count: u64 = 0;
        for seed in 0..num_hashes
            invariant
                self_pairs@.map_values(|a: [u8; 4]| a@) == spa,
                other_pairs@.map_values(|a: [u8; 4]| a@) == opa,
                count == agree_count(spa, opa, seed as int),
                count <= seed,
        {
            let s = min_hash_exec(&self_pairs, seed);
            let o = min_hash_exec(&other_pairs, seed);
            let same = match (s, o) {
                (Some(x), Some(y)) => x == y,
                (None, None) => true,
                _ => false,
            };
            if same {
                count = count + 1;
            }
        }
        proof {
            lemma_agree_bound(spa, opa, num_hashes as int);
            assert((count as int) * (SCALE as int) <= (num_hashes as int) * (SCALE as int))
                by (nonlinear_arith)
                requires
                    0 <= count as int <= num_hashes as int,
                    SCALE == 1_000_000,
            ;
        }
        let scaled: i64 = (count as i64) * SCALE;
        let r = scaled / (num_hashes as i64);
        proof {
            vstd::arithmetic::div_mod::lemma_div_is_ordered(
                (count as int) * (SCALE as int),
                (num_hashes as int) * (SCALE as int),
                num_hashes as int,
            );
            vstd::arithmetic::div_mod::lemma_div_multiples_vanish(
                SCALE as int,
                num_hashes as int,
            );
            assert((num_hashes as int) * (SCALE as int) == (num_hashes as int) * (SCALE as int));
        }
        r
    }
}

impl Clone for RegisterPatternConfig {
    fn clone(&self) -> (r: Self)
        ensures
            reg_entries(r.0) == reg_entries(self.0),
    {
        RegisterPatternConfig(reg_map_clone(&self.0))
    }
}

/// Serialization yields eight bytes per register.
pub proof fn lemma_words_bytes_len(vs: Seq<u64>)
    ensures
        words_bytes(vs).len() == 8 * vs.len(),
    decreases vs.len(),
{
    if vs.len() > 0 {
        lemma_words_bytes_len(vs.drop_last());
    }
}

/// Decomposes a byte string into its packed `(byte, bucket)` pairs, where
/// `bucket = position / (length / grain)`.
pub fn byte_positions(bytes: &Vec<u8>, grain: usize) -> (r: Vec<[u8; 4]>)
    requires
        grain >= 1,
        grain < bytes@.len(),
    ensures
        r@.len() == bytes@.len(),
        forall|i: int|
            0 <= i < r@.len() ==> (#[trigger] r@[i])@ == pair_bytes(
                bytes@[i],
                i / ((bytes@.len() as int) / (grain as int)),
            ),
{
    let len = bytes.len();
    let chunk = len / grain;
    proof {
        vstd::arithmetic::div_mod::lemma_div_non_zero(len as int, grain as int);
    }
    let mut out: Vec<[u8; 4]> = Vec::new();
    for i in 0..len
        invariant
            len == bytes@.len(),
            grain >= 1,
            chunk == (len as int) / (grain as int),
            chunk >= 1,
            out@.len() == i,
            forall|j: int|
                0 <= j < i ==> (#[trigger] out@[j])@ == pair_bytes(
                    bytes@[j],
                    j / ((bytes@.len() as int) / (grain as int)),
                ),
    {
        let b = bytes[i];
        let pos = i / chunk;
        let entry: [u8; 4] = [b, (pos % 256) as u8, ((pos / 256) % 256) as u8, ((pos / 65536)
            % 256) as u8];
        out.push(entry);
        proof {
            assert(entry@ =~= pair_bytes(bytes@[i as int], i as int / ((bytes@.len() as int) / (
            grain as int))));
        }
    }
    out
}

/// The least digest of a packed pair set under one seed.
fn min_hash_exec(pairs: &Vec<[u8; 4]>, seed: u64) -> (r: Option<u64>)
    ensures
        r == min_hash(pairs@.map_values(|a: [u8; 4]| a@), seed),
{
    let ghost pv = pairs@.map_values(|a: [u8; 4]| a@);
    let mut acc: Option<u64> = None;
    let n = pairs.len();
    proof {
        assert(pv.take(0) =~= Seq::<Seq<u8>>::empty());
    }
    for i in 0..n
        invariant
            n == pairs@.len(),
            pv == pairs@.map_values(|a: [u8; 4]| a@),
            acc == min_hash(pv.take(i as int), seed),
    {
        let h = seahash_seeded(&pairs[i], seed);
        proof {
            assert(pv.take(i + 1).drop_last() =~= pv.take(i as int));
            assert(pv.take(i + 1).last() == pv[i as int]);
            assert(pairs@[i as int]@ == pv[i as int]);
        }
        acc = match acc {
            None => Some(h),
            Some(m) => Some(
                if h < m {
                    h
                } else {
                    m
                },
            ),
        };
    }
    proof {
        assert(pv.take(pv.len() as int) =~= pv);
    }
    acc
}

} // verus!
