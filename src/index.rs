//! Search indexes: candidate blocks, their scan by distance, and index statistics.
use crate::bits::{words_distance, Bits};
use crate::util::{extended_binary_search_by, is_comparator, sorted_by_cmp};
use core::cmp::Ordering;
use vstd::prelude::*;
use vstd::std_specs::cmp::PartialEqSpec;

verus! {

/// A distance in specifications: a natural number.
pub type SpecDistance = nat;

/// Keys whose distance to one another can be measured. A key type states in `comparable` and
/// `spec_distance` what its `xor_dist` computes.
pub trait Distance: Sized {
    /// Whether the two keys can be compared (same width, within the counting range).
    spec fn comparable(&self, other: &Self) -> bool;

    /// Number of differing bits of the two keys.
    spec fn spec_distance(&self, other: &Self) -> SpecDistance;

    /// Compute distance as number of different bits between `self` and `other`.
    fn xor_dist(&self, other: &Self) -> (r: u32)
        requires
            self.comparable(other),
        ensures
            r == self.spec_distance(other),
    ;
}

impl Distance for Bits {
    open spec fn comparable(&self, other: &Self) -> bool {
        &&& self.wf()
        &&& other.wf()
        &&& self.word_bits == other.word_bits
        &&& self.data@.len() == other.data@.len()
        &&& self.data@.len() * self.word_bits <= u32::MAX
    }

    open spec fn spec_distance(&self, other: &Self) -> nat {
        words_distance(self.data@, other.data@)
    }

    fn xor_dist(&self, other: &Self) -> (r: u32) {
        Bits::xor_dist(self, other)
    }
}

/// A value found by a search, with the distance of its key to the probe. Two items are equal,
/// and hash alike, when their values are: a search names each value once.
#[derive(Clone, Copy, Debug)]
pub struct SearchResultItem<V> {
    pub data: V,
    pub distance: u32,
}

impl<V: PartialEq> PartialEq for SearchResultItem<V> {
    fn eq(&self, other: &Self) -> (r: bool) {
        self.data == other.data
    }
}

impl<V: PartialEq> vstd::std_specs::cmp::PartialEqSpecImpl for SearchResultItem<V> {
    open spec fn obeys_eq_spec() -> bool {
        V::obeys_eq_spec()
    }

    open spec fn eq_spec(&self, other: &Self) -> bool {
        self.data.eq_spec(&other.data)
    }
}

impl<V: Eq> Eq for SearchResultItem<V> {
}

impl<V: core::hash::Hash> core::hash::Hash for SearchResultItem<V> {
    /// Relies on std's `Hash::hash` of the value: the item hashes as its value does.
    #[verifier::external_body]
    fn hash<H: core::hash::Hasher>(&self, state: &mut H) {
        self.data.hash(state);
    }
}

impl<V> SearchResultItem<V> {
    pub fn new(data: V, distance: u32) -> (r: Self)
        ensures
            r.data == data,
            r.distance == distance,
    {
        Self { data, distance }
    }

    pub fn data(&self) -> (r: &V)
        ensures
            *r == self.data,
    {
        &self.data
    }

    pub fn distance(&self) -> (r: u32)
        ensures
            r == self.distance,
    {
        self.distance
    }
}

/// The items of `block` within distance `d` of `key`, in order, with their distances.
pub open spec fn scan_spec<K: Distance, V>(key: K, block: Seq<(K, V)>, d: u32) -> Seq<
    SearchResultItem<V>,
>
    decreases block.len(),
{
    if block.len() == 0 {
        Seq::empty()
    } else {
        let rest = scan_spec(key, block.drop_last(), d);
        let e = block.last();
        let dist = e.0.spec_distance(&key);
        if dist <= d {
            rest.push(SearchResultItem { data: e.1, distance: dist as u32 })
        } else {
            rest
        }
    }
}

/// Represents a single block of potential candidates for a distance search.
pub struct Candidates<'a, K, V> {
    pub key: K,
    pub block: &'a [(K, V)],
}

impl<'a, K: Distance, V: Copy> Candidates<'a, K, V> {
    /// Every key of the block can be compared with the probe.
    pub open spec fn comparable(&self) -> bool {
        forall|i: int| 0 <= i < self.block@.len() ==> (#[trigger] self.block@[i]).0.comparable(&self.key)
    }

    pub fn new(key: K, block: &'a [(K, V)]) -> (r: Self)
        ensures
            r.key == key,
            r.block@ == block@,
    {
        Self { key, block }
    }

    /// How many candidates there are.
    pub fn len(&self) -> (r: usize)
        ensures
            r == self.block@.len(),
    {
        self.block.len()
    }

    pub fn is_empty(&self) -> (r: bool)
        ensures
            r == (self.block@.len() == 0),
    {
        self.block.len() == 0
    }

    /// Performs a full scan of candidates and returns results.
    pub fn scan(&self, distance: u32) -> (r: Vec<SearchResultItem<V>>)
        requires
            self.comparable(),
        ensures
            r@ == scan_spec(self.key, self.block@, distance),
    {
        let mut out: Vec<SearchResultItem<V>> = Vec::new();
        let mut i: usize = 0;
        while i < self.block.len()
            invariant
                self.comparable(),
                i <= self.block@.len(),
                out@ == scan_spec(self.key, self.block@.take(i as int), distance),
            decreases self.block@.len() - i,
        {
            let (this_key, value) = &self.block[i];
            let dist = this_key.xor_dist(&self.key);
            proof {
                assert(self.block@.take(i + 1).drop_last() =~= self.block@.take(i as int));
                assert(self.block@.take(i + 1).last() == self.block@[i as int]);
            }
            if dist <= distance {
                out.push(SearchResultItem::new(*value, dist));
            }
            i = i + 1;
        }
        proof {
            assert(self.block@.take(i as int) =~= self.block@);
        }
        out
    }
}

/// Perform a naive distance search for a key with a given distance.
pub fn naive_search<K: Distance, V: Copy>(data: &[(K, V)], key: K, distance: u32) -> (r: Vec<
    SearchResultItem<V>,
>)
    requires
        forall|i: int| 0 <= i < data@.len() ==> (#[trigger] data@[i]).0.comparable(&key),
    ensures
        r@ == scan_spec(key, data@, distance),
{
    let c = Candidates::new(key, data);
    c.scan(distance)
}

/// Extract first element from a tuple.
pub fn extract_key<K: Copy, V>(item: &(K, V)) -> (r: K)
    ensures
        r == item.0,
{
    item.0
}

/// Locates continuous blocks in sorted slices.
#[derive(Clone, Copy, Debug, PartialEq, Eq, Structural)]
pub enum BlockLocator {
    /// Performs well on any block size.
    BinarySearch,
}

impl BlockLocator {
    /// The run of elements of `slice` on which `f` answers Equal.
    pub fn locate_by<'a, T, F: Fn(&T) -> Ordering>(&self, slice: &'a [T], f: F) -> (r: &'a [T])
        requires
            is_comparator(slice@, f),
            sorted_by_cmp(slice@, f),
            slice@.len() < usize::MAX / 2,
        ensures
            exists|lo: int, hi: int|
                crate::util::is_equal_range(slice@, f, lo, hi) && r@ == slice@.subrange(lo, hi),
    {
        match self {
            BlockLocator::BinarySearch => extended_binary_search_by(slice, f),
        }
    }
}

/// Lengths of the maximal runs of equal neighbours in `ms`, in order.
pub open spec fn run_lengths<M: PartialEq>(ms: Seq<M>) -> Seq<nat>
    decreases ms.len(),
{
    if ms.len() == 0 {
        Seq::empty()
    } else if ms.len() == 1 {
        seq![1nat]
    } else {
        let r = run_lengths(ms.drop_last());
        if ms[ms.len() - 2].eq_spec(&ms.last()) {
            r.update(r.len() - 1, r.last() + 1)
        } else {
            r.push(1nat)
        }
    }
}

/// Smallest element of a non-empty sequence.
pub open spec fn seq_min(s: Seq<nat>) -> nat
    decreases s.len(),
{
    if s.len() <= 1 {
        if s.len() == 0 { 0 } else { s[0] }
    } else {
        let m = seq_min(s.drop_last());
        if s.last() < m { s.last() } else { m }
    }
}

/// Largest element of a sequence, 0 when it is empty.
pub open spec fn seq_max(s: Seq<nat>) -> nat
    decreases s.len(),
{
    if s.len() == 0 {
        0
    } else {
        let m = seq_max(s.drop_last());
        if s.last() > m { s.last() } else { m }
    }
}

/// Statistics of the index.
#[derive(Default, Debug, Clone, Copy)]
pub struct IndexStats {
    pub n_items: usize,
    pub n_blocks: usize,
    pub min_block_size: usize,
    pub avg_block_size: usize,
    pub max_block_size: usize,
}

impl IndexStats {
    /// The statistics of entries whose masks, in order, are `ms`: a block is a maximal run of
    /// equal masks.
    pub open spec fn describes<M: PartialEq>(&self, ms: Seq<M>) -> bool {
        let runs = run_lengths(ms);
        &&& self.n_items == ms.len()
        &&& self.n_blocks == runs.len()
        &&& self.min_block_size == seq_min(runs)
        &&& self.max_block_size == seq_max(runs)
        &&& self.avg_block_size == if runs.len() == 0 {
            0
        } else {
            ms.len() / runs.len()
        }
    }

    pub fn empty() -> (r: Self)
        ensures
            r.describes(Seq::<Vec<u64>>::empty()),
    {
        IndexStats { n_items: 0, n_blocks: 0, min_block_size: 0, avg_block_size: 0, max_block_size: 0 }
    }

    /// Compute the statistics of `data`, where two neighbouring entries share a block when
    /// `mask_fn` maps their keys to equal values.
    pub fn from_data<K, V, M: PartialEq, F: Fn(&K) -> M>(data: &[(K, V)], mask_fn: F) -> (r: Self)
        requires
            M::obeys_eq_spec(),
            forall|i: int| 0 <= i < data@.len() ==> #[trigger] mask_fn.requires((&data@[i].0,)),
        ensures
            exists|ms: Seq<M>|
                {
                    &&& ms.len() == data@.len()
                    &&& forall|i: int| 0 <= i < ms.len() ==> mask_fn.ensures((&data@[i].0,), #[trigger] ms[i])
                    &&& r.describes(ms)
                },
    {
        let n = data.len();
        if n == 0 {
            proof {
                let ms = Seq::<M>::empty();
                assert(run_lengths(ms).len() == 0);
            }
            return IndexStats {
                n_items: 0,
                n_blocks: 0,
                min_block_size: 0,
                avg_block_size: 0,
                max_block_size: 0,
            };
        }
        let mut prev_key = mask_fn(&data[0].0);
        let ghost mut ms: Seq<M> = seq![prev_key];
        let mut curr_size: usize = 1;
        let mut n_blocks: usize = 1;
        let mut min: usize = usize::MAX;
        let mut max: usize = 0;
        let mut i: usize = 1;
        proof {
            assert(run_lengths(ms) == seq![1nat]);
        }
        while i < n
            invariant
                n == data@.len(),
                M::obeys_eq_spec(),
                forall|j: int| 0 <= j < data@.len() ==> #[trigger] mask_fn.requires((&data@[j].0,)),
                1 <= i <= n,
                ms.len() == i,
                forall|j: int| 0 <= j < i ==> mask_fn.ensures((&data@[j].0,), #[trigger] ms[j]),
                prev_key == ms.last(),
                run_lengths(ms).len() == n_blocks,
                run_lengths(ms).last() == curr_size,
                1 <= curr_size <= i,
                1 <= n_blocks <= i,
                min == (if n_blocks == 1 {
                    usize::MAX as nat
                } else {
                    seq_min(run_lengths(ms).drop_last())
                }),
                max == (if n_blocks == 1 {
                    0
                } else {
                    seq_max(run_lengths(ms).drop_last())
                }),
                min <= usize::MAX,
            decreases n - i,
        {
            let key = mask_fn(&data[i].0);
            let ghost old_ms = ms;
            proof {
                ms = ms.push(key);
                assert(ms.drop_last() =~= old_ms);
            }
            if prev_key == key {
                curr_size = curr_size + 1;
                proof {
                    let r = run_lengths(old_ms);
                    assert(run_lengths(ms).drop_last() =~= r.drop_last());
                }
                prev_key = key;
            } else {
                proof {
                    let r = run_lengths(old_ms);
                    assert(run_lengths(ms).drop_last() =~= r);
                    if n_blocks > 1 {
                        assert(r.drop_last().push(r.last()) =~= r);
                    } else {
                        assert(r.len() == 1);
                        assert(r.drop_last().len() == 0);
                        assert(seq_max(r.drop_last()) == 0);
                        assert(seq_max(r) == r.last());
                        assert(seq_min(r) == r[0]);
                    }
                }
                min = if curr_size < min {
                    curr_size
                } else {
                    min
                };
                max = if curr_size > max {
                    curr_size
                } else {
                    max
                };
                prev_key = key;
                n_blocks = n_blocks + 1;
                curr_size = 1;
            }
            i = i + 1;
        }
        let runs = Ghost(run_lengths(ms));
        proof {
            let r = runs@;
            if n_blocks > 1 {
                assert(r.drop_last().push(r.last()) =~= r);
            } else {
                assert(r.len() == 1);
            }
        }
        let min_block_size = if curr_size < min {
            curr_size
        } else {
            min
        };
        let max_block_size = if curr_size > max {
            curr_size
        } else {
            max
        };
        IndexStats {
            n_blocks,
            n_items: n,
            min_block_size,
            avg_block_size: n / n_blocks,
            max_block_size,
        }
    }
}

} // verus!
