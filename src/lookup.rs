//! The lookup coordinator: one index per permutation variant, searched together.
use crate::bits::Bits;
use crate::index::{scan_spec, Distance, SearchResultItem};
use crate::mem_index::{entries_view, max_entries, MemIndex};
use crate::permuter::Permuter;
use vstd::prelude::*;
use vstd::std_specs::cmp::PartialEqSpec;

verus! {

/// Why a search was refused.
#[derive(Clone, Copy, Debug, PartialEq, Eq, Structural)]
pub enum SearchError {
    /// The search distance `distance` is above `max`, the largest distance a search accepts: one
    /// less than the number of blocks a key is split into.
    DistanceExceedsMax { distance: u32, max: u32 },
}

/// Results of a search, one list per index, and how many candidates were scanned in all.
pub struct SearchResult<V> {
    pub candidates_scanned: usize,
    pub result: Vec<Vec<SearchResultItem<V>>>,
}

/// The concatenation of lists of results.
pub open spec fn flat_results<V>(lists: Seq<Vec<SearchResultItem<V>>>) -> Seq<SearchResultItem<V>> {
    lists.map_values(|l: Vec<SearchResultItem<V>>| l@).flatten()
}

/// `r` holds each value of `flat` once: no two items of `r` share a value, every item of `r` is
/// one of `flat`, and every value of `flat` is in `r`.
pub open spec fn dedup_of<V>(r: Seq<SearchResultItem<V>>, flat: Seq<SearchResultItem<V>>) -> bool {
    &&& forall|a: int, b: int| 0 <= a < b < r.len() ==> (#[trigger] r[a]).data != (#[trigger] r[b]).data
    &&& forall|t: int| 0 <= t < r.len() ==> flat.contains(#[trigger] r[t])
    &&& forall|t: int| 0 <= t < flat.len() ==> #[trigger] value_in(r, flat[t].data)
}

/// Some item of `r` carries value `x`.
pub open spec fn value_in<V>(r: Seq<SearchResultItem<V>>, x: V) -> bool {
    exists|u: int| 0 <= u < r.len() && (#[trigger] r[u]).data == x
}

/// Number of entries of all the indexes together.
pub open spec fn total_entries<V>(indexes: Seq<MemIndex<V>>) -> int
    decreases indexes.len(),
{
    if indexes.len() == 0 {
        0
    } else {
        total_entries(indexes.drop_last()) + indexes.last().data@.len()
    }
}

/// The indexes of a prefix hold no more entries than all of them.
proof fn lemma_total_entries_prefix<V>(indexes: Seq<MemIndex<V>>, n: int)
    requires
        0 <= n <= indexes.len(),
    ensures
        0 <= total_entries(indexes.take(n)) <= total_entries(indexes),
    decreases indexes.len() - n,
{
    if n < indexes.len() {
        lemma_total_entries_prefix(indexes, n + 1);
        assert(indexes.take(n + 1).drop_last() =~= indexes.take(n));
    } else {
        assert(indexes.take(n) =~= indexes);
    }
    lemma_total_entries_nonneg(indexes.take(n));
}

proof fn lemma_total_entries_nonneg<V>(indexes: Seq<MemIndex<V>>)
    ensures
        0 <= total_entries(indexes),
    decreases indexes.len(),
{
    if indexes.len() > 0 {
        lemma_total_entries_nonneg(indexes.drop_last());
    }
}

/// Sum of a sequence of counts.
pub open spec fn sum_counts(s: Seq<int>) -> int
    decreases s.len(),
{
    if s.len() == 0 {
        0
    } else {
        sum_counts(s.drop_last()) + s.last()
    }
}

/// What one index answers to a search for `key` at distance `d`: the candidates are the run of
/// entries whose mask equals the mask of the permuted probe, `scanned` of them, and `items` are
/// those within distance `d`.
pub open spec fn index_answer<V: Copy>(
    index: MemIndex<V>,
    key: Bits,
    d: u32,
    items: Seq<SearchResultItem<V>>,
    scanned: int,
) -> bool {
    exists|pk: Bits, lo: int, hi: int|
        {
            &&& index.permuter.fits(&pk)
            &&& pk.bits() == index.permuter.apply_spec(key.bits())
            &&& 0 <= lo <= hi <= index.data@.len()
            &&& scanned == hi - lo
            &&& forall|i: int|
                0 <= i < index.data@.len() ==> (lo <= i < hi <==> index.mask_of(
                    #[trigger] index.data@[i].0.data@,
                ) == index.mask_of(pk.data@))
            &&& items == scan_spec(pk, index.data@.subrange(lo, hi), d)
        }
}

impl<V: Copy> SearchResult<V> {
    /// All results, index after index.
    pub fn flat_iter(&self) -> (r: Vec<SearchResultItem<V>>)
        ensures
            r@ == flat_results(self.result@),
    {
        let mut out: Vec<SearchResultItem<V>> = Vec::new();
        let mut i: usize = 0;
        while i < self.result.len()
            invariant
                i <= self.result@.len(),
                out@ == flat_results(self.result@.take(i as int)),
            decreases self.result@.len() - i,
        {
            let list = &self.result[i];
            let ghost before = out@;
            let mut j: usize = 0;
            while j < list.len()
                invariant
                    j <= list@.len(),
                    out@ == before + list@.take(j as int),
                decreases list@.len() - j,
            {
                out.push(list[j]);
                j = j + 1;
                proof {
                    assert(out@ =~= before + list@.take(j as int));
                }
            }
            proof {
                let f = |l: Vec<SearchResultItem<V>>| l@;
                assert(list@.take(j as int) =~= list@);
                assert(self.result@.take(i + 1).map_values(f) =~= self.result@.take(i as int).map_values(
                    f,
                ).push(list@));
                self.result@.take(i as int).map_values(f).lemma_flatten_push(list@);
            }
            i = i + 1;
        }
        proof {
            assert(self.result@.take(i as int) =~= self.result@);
        }
        out
    }

    /// All results, index after index.
    pub fn iter(&self) -> (r: Vec<SearchResultItem<V>>)
        ensures
            r@ == flat_results(self.result@),
    {
        self.flat_iter()
    }

    /// All results, index after index, taking them out of this value.
    #[allow(clippy::should_implement_trait)]
    pub fn into_iter(self) -> (r: Vec<SearchResultItem<V>>)
        ensures
            r@ == flat_results(self.result@),
    {
        self.flat_iter()
    }

    /// All results, index after index, taking them out of this value.
    pub fn into_flat_iter(self) -> (r: Vec<SearchResultItem<V>>)
        ensures
            r@ == flat_results(self.result@),
    {
        self.flat_iter()
    }
}

/// One index per permutation variant, all holding the same items.
pub struct Lookup<V> {
    pub indexes: Vec<MemIndex<V>>,
}

/// The lookup over in-memory indexes.
pub type SimpleLookup<V> = Lookup<V>;

impl<V: Copy> Lookup<V> {
    /// At least one index, each valid, all for keys of one shape and one number of blocks.
    pub open spec fn wf(&self) -> bool {
        &&& 0 < self.indexes@.len()
        &&& forall|i: int| 0 <= i < self.indexes@.len() ==> (#[trigger] self.indexes@[i]).wf()
        &&& forall|i: int|
            0 <= i < self.indexes@.len() ==> {
                let p = (#[trigger] self.indexes@[i]).permuter;
                &&& p.total_bits == self.indexes@[0].permuter.total_bits
                &&& p.word_bits == self.indexes@[0].permuter.word_bits
                &&& p.blocks@.len() == self.indexes@[0].permuter.blocks@.len()
            }
    }

    /// The permuter of the first index, which fixes the shape of keys.
    pub open spec fn shape(&self) -> Permuter {
        self.indexes@[0].permuter
    }

    /// A key this lookup works on.
    pub open spec fn fits(&self, key: &Bits) -> bool {
        self.shape().fits(key)
    }

    /// Largest distance a search accepts: one less than the number of blocks of a key.
    pub open spec fn spec_max_distance(&self) -> int {
        self.shape().blocks@.len() - 1
    }

    /// `lists` holds, index by index, what each index answers to a search for `key` at distance `d`.
    pub open spec fn answers_lists(&self, key: Bits, d: u32, lists: Seq<Vec<SearchResultItem<V>>>) -> bool {
        &&& lists.len() == self.indexes@.len()
        &&& exists|counts: Seq<int>|
            {
                &&& counts.len() == self.indexes@.len()
                &&& forall|i: int|
                    0 <= i < self.indexes@.len() ==> index_answer(
                        #[trigger] self.indexes@[i],
                        key,
                        d,
                        lists[i]@,
                        counts[i],
                    )
            }
    }

    /// Keys that fit one index fit them all.
    proof fn lemma_fits_all(&self, key: &Bits)
        requires
            self.wf(),
            self.fits(key),
        ensures
            forall|i: int| 0 <= i < self.indexes@.len() ==> (#[trigger] self.indexes@[i]).permuter.fits(key),
    {
        assert forall|i: int| 0 <= i < self.indexes@.len() implies (
        #[trigger] self.indexes@[i]).permuter.fits(key) by {
            let p = self.indexes@[i].permuter;
            assert(p.total_bits == self.shape().total_bits);
        }
    }

    pub fn new(indexes: Vec<MemIndex<V>>) -> (r: Self)
        ensures
            r.indexes@ == indexes@,
    {
        Self { indexes }
    }

    /// Empty in-memory indexes, one per permuter.
    pub fn from_permuters(permuters: Vec<Permuter>) -> (r: Self)
        requires
            0 < permuters@.len(),
            forall|i: int| 0 <= i < permuters@.len() ==> (#[trigger] permuters@[i]).wf(),
            forall|i: int|
                0 <= i < permuters@.len() ==> {
                    let p = #[trigger] permuters@[i];
                    &&& p.total_bits == permuters@[0].total_bits
                    &&& p.word_bits == permuters@[0].word_bits
                    &&& p.blocks@.len() == permuters@[0].blocks@.len()
                },
        ensures
            r.wf(),
            r.indexes@.len() == permuters@.len(),
            forall|i: int|
                0 <= i < r.indexes@.len() ==> (#[trigger] r.indexes@[i]).permuter == permuters@[i]
                    && r.indexes@[i].data@.len() == 0,
    {
        let ghost ps = permuters@;
        let mut permuters = permuters;
        let mut rev: Vec<MemIndex<V>> = Vec::new();
        while permuters.len() > 0
            invariant
                permuters@.len() + rev@.len() == ps.len(),
                permuters@ == ps.take(permuters@.len() as int),
                forall|i: int| 0 <= i < ps.len() ==> (#[trigger] ps[i]).wf(),
                forall|i: int|
                    0 <= i < rev@.len() ==> (#[trigger] rev@[i]).wf() && rev@[i].permuter
                        == ps[ps.len() - 1 - i] && rev@[i].data@.len() == 0,
            decreases permuters@.len(),
        {
            let p = permuters.pop().unwrap();
            proof {
                assert(permuters@ =~= ps.take(permuters@.len() as int));
            }
            rev.push(MemIndex::new(p));
        }
        let mut indexes: Vec<MemIndex<V>> = Vec::new();
        while rev.len() > 0
            invariant
                rev@.len() + indexes@.len() == ps.len(),
                forall|i: int|
                    0 <= i < rev@.len() ==> (#[trigger] rev@[i]).wf() && rev@[i].permuter
                        == ps[ps.len() - 1 - i] && rev@[i].data@.len() == 0,
                forall|i: int|
                    0 <= i < indexes@.len() ==> (#[trigger] indexes@[i]).wf() && indexes@[i].permuter
                        == ps[i] && indexes@[i].data@.len() == 0,
            decreases rev@.len(),
        {
            let ix = rev.pop().unwrap();
            indexes.push(ix);
        }
        Self { indexes }
    }

    pub fn indexes(&self) -> (r: &[MemIndex<V>])
        ensures
            r@ == self.indexes@,
    {
        self.indexes.as_slice()
    }

    /// Largest distance a search accepts.
    pub fn max_search_distance(&self) -> (r: u32)
        requires
            self.wf(),
        ensures
            r == self.spec_max_distance(),
    {
        self.indexes[0].permuter().n_blocks() - 1
    }

    /// Insert items into this lookup: every index receives them, then refreshes its stats.
    pub fn insert(&mut self, items: &[(Bits, V)]) -> (r: Result<(), ()>)
        requires
            old(self).wf(),
            forall|i: int| 0 <= i < items@.len() ==> old(self).fits(&(#[trigger] items@[i]).0),
            forall|i: int|
                0 <= i < old(self).indexes@.len() ==> (#[trigger] old(self).indexes@[i]).data@.len()
                    + items@.len() <= max_entries(),
        ensures
            r is Ok,
            final(self).wf(),
            final(self).indexes@.len() == old(self).indexes@.len(),
            forall|i: int|
                0 <= i < final(self).indexes@.len() ==> {
                    let before = old(self).indexes@[i];
                    let after = #[trigger] final(self).indexes@[i];
                    &&& after.permuter == before.permuter
                    &&& after.stats_fresh()
                    &&& entries_view(after.data@).to_multiset() == entries_view(before.data@).to_multiset().add(
                        items@.map_values(
                            |e: (Bits, V)| (before.permuter.apply_spec(e.0.bits()), e.1),
                        ).to_multiset(),
                    )
                },
    {
        let ghost start = self.indexes@;
        let mut i: usize = 0;
        while i < self.indexes.len()
            invariant
                self.indexes@.len() == start.len(),
                0 < start.len(),
                i <= start.len(),
                forall|j: int| 0 <= j < start.len() ==> (#[trigger] start[j]).wf(),
                forall|j: int|
                    0 <= j < start.len() ==> {
                        let p = (#[trigger] start[j]).permuter;
                        &&& p.total_bits == start[0].permuter.total_bits
                        &&& p.word_bits == start[0].permuter.word_bits
                        &&& p.blocks@.len() == start[0].permuter.blocks@.len()
                    },
                forall|j: int| 0 <= j < items@.len() ==> start[0].permuter.fits(&(#[trigger] items@[j]).0),
                forall|j: int|
                    0 <= j < start.len() ==> (#[trigger] start[j]).data@.len() + items@.len()
                        <= max_entries(),
                forall|j: int| i <= j < start.len() ==> self.indexes@[j] == #[trigger] start[j],
                forall|j: int|
                    0 <= j < i ==> {
                        let after = #[trigger] self.indexes@[j];
                        &&& after.wf()
                        &&& after.stats_fresh()
                        &&& after.permuter == start[j].permuter
                        &&& entries_view(after.data@).to_multiset() == entries_view(start[j].data@).to_multiset().add(
                            items@.map_values(
                                |e: (Bits, V)| (start[j].permuter.apply_spec(e.0.bits()), e.1),
                            ).to_multiset(),
                        )
                    },
            decreases start.len() - i,
        {
            proof {
                assert forall|j: int| 0 <= j < items@.len() implies start[i as int].permuter.fits(
                    &(#[trigger] items@[j]).0,
                ) by {
                    assert(start[0].permuter.fits(&items@[j].0));
                }
            }
            let mut ix = self.indexes.remove(i);
            let _ = ix.insert(items);
            ix.refresh();
            self.indexes.insert(i, ix);
            i = i + 1;
        }
        Ok(())
    }

    /// Remove items from the lookup by keys, from every index, then refresh their stats.
    pub fn remove(&mut self, keys: &[Bits]) -> (r: Result<(), ()>)
        requires
            old(self).wf(),
            forall|i: int| 0 <= i < keys@.len() ==> old(self).fits(&(#[trigger] keys@[i])),
        ensures
            r is Ok,
            final(self).wf(),
            final(self).indexes@.len() == old(self).indexes@.len(),
            forall|i: int|
                0 <= i < final(self).indexes@.len() ==> {
                    let before = old(self).indexes@[i];
                    let after = #[trigger] final(self).indexes@[i];
                    &&& after.permuter == before.permuter
                    &&& after.stats_fresh()
                    &&& entries_view(after.data@) == entries_view(before.data@).filter(
                        |e: (Seq<bool>, V)|
                            !(exists|j: int|
                                0 <= j < keys@.len() && e.0 == before.permuter.apply_spec(
                                    (#[trigger] keys@[j]).bits(),
                                )),
                    )
                },
    {
        let ghost start = self.indexes@;
        let mut i: usize = 0;
        while i < self.indexes.len()
            invariant
                self.indexes@.len() == start.len(),
                0 < start.len(),
                i <= start.len(),
                forall|j: int| 0 <= j < start.len() ==> (#[trigger] start[j]).wf(),
                forall|j: int|
                    0 <= j < start.len() ==> {
                        let p = (#[trigger] start[j]).permuter;
                        &&& p.total_bits == start[0].permuter.total_bits
                        &&& p.word_bits == start[0].permuter.word_bits
                        &&& p.blocks@.len() == start[0].permuter.blocks@.len()
                    },
                forall|j: int| 0 <= j < keys@.len() ==> start[0].permuter.fits(&(#[trigger] keys@[j])),
                forall|j: int| i <= j < start.len() ==> self.indexes@[j] == #[trigger] start[j],
                forall|j: int|
                    0 <= j < i ==> {
                        let after = #[trigger] self.indexes@[j];
                        &&& after.wf()
                        &&& after.stats_fresh()
                        &&& after.permuter == start[j].permuter
                        &&& entries_view(after.data@) == entries_view(start[j].data@).filter(
                            |e: (Seq<bool>, V)|
                                !(exists|t: int|
                                    0 <= t < keys@.len() && e.0 == start[j].permuter.apply_spec(
                                        (#[trigger] keys@[t]).bits(),
                                    )),
                        )
                    },
            decreases start.len() - i,
        {
            proof {
                assert forall|j: int| 0 <= j < keys@.len() implies start[i as int].permuter.fits(
                    &(#[trigger] keys@[j]),
                ) by {
                    assert(start[0].permuter.fits(&keys@[j]));
                }
            }
            let mut ix = self.indexes.remove(i);
            let _ = ix.remove(keys);
            ix.refresh();
            self.indexes.insert(i, ix);
            i = i + 1;
        }
        Ok(())
    }

    /// Perform a distance search in every index.
    pub fn search(&self, key: &Bits, distance: u32) -> (r: Result<SearchResult<V>, SearchError>)
        requires
            self.wf(),
            self.fits(key),
            total_entries(self.indexes@) <= usize::MAX,
        ensures
            distance > self.spec_max_distance() ==> r == Err::<SearchResult<V>, SearchError>(
                SearchError::DistanceExceedsMax { distance, max: self.spec_max_distance() as u32 },
            ),
            distance <= self.spec_max_distance() ==> (r is Ok && {
                let res = r->Ok_0;
                &&& res.result@.len() == self.indexes@.len()
                &&& exists|counts: Seq<int>|
                    {
                        &&& counts.len() == self.indexes@.len()
                        &&& sum_counts(counts) == res.candidates_scanned
                        &&& forall|i: int|
                            0 <= i < self.indexes@.len() ==> index_answer(
                                #[trigger] self.indexes@[i],
                                *key,
                                distance,
                                res.result@[i]@,
                                counts[i],
                            )
                    }
            }),
    {
        let max_distance = self.max_search_distance();
        if distance > max_distance {
            return Err(SearchError::DistanceExceedsMax { distance, max: max_distance });
        }
        proof {
            self.lemma_fits_all(key);
        }
        let mut candidates_scanned: usize = 0;
        let mut result: Vec<Vec<SearchResultItem<V>>> = Vec::new();
        let ghost mut counts: Seq<int> = Seq::empty();
        let mut i: usize = 0;
        while i < self.indexes.len()
            invariant
                self.wf(),
                forall|j: int| 0 <= j < self.indexes@.len() ==> (#[trigger] self.indexes@[j]).permuter.fits(key),
                i <= self.indexes@.len(),
                result@.len() == i,
                counts.len() == i,
                sum_counts(counts) == candidates_scanned,
                total_entries(self.indexes@) <= usize::MAX,
                candidates_scanned <= total_entries(self.indexes@.take(i as int)),
                forall|j: int|
                    0 <= j < i ==> index_answer(
                        #[trigger] self.indexes@[j],
                        *key,
                        distance,
                        result@[j]@,
                        counts[j],
                    ),
            decreases self.indexes@.len() - i,
        {
            let index = &self.indexes[i];
            let candidates = index.get_candidates(key);
            let ghost (lo, hi) = choose|lo: int, hi: int|
                {
                    &&& 0 <= lo <= hi <= index.data@.len()
                    &&& candidates.block@ == index.data@.subrange(lo, hi)
                    &&& forall|t: int|
                        0 <= t < index.data@.len() ==> (lo <= t < hi <==> index.mask_of(
                            #[trigger] index.data@[t].0.data@,
                        ) == index.mask_of(candidates.key.data@))
                };
            proof {
                assert forall|t: int| 0 <= t < candidates.block@.len() implies (
                #[trigger] candidates.block@[t]).0.comparable(&candidates.key) by {
                    assert(candidates.block@[t] == index.data@[lo + t]);
                    crate::permuter::lemma_fits_comparable(
                        index.permuter,
                        candidates.block@[t].0,
                        candidates.key,
                    );
                }
                assert(self.indexes@.take(i + 1).drop_last() =~= self.indexes@.take(i as int));
                lemma_total_entries_prefix(self.indexes@, i + 1);
            }
            let n = candidates.len();
            candidates_scanned = candidates_scanned + n;
            let items = candidates.scan(distance);
            proof {
                let old_counts = counts;
                counts = counts.push(hi - lo);
                assert(counts.drop_last() =~= old_counts);
                assert(index_answer(*index, *key, distance, items@, hi - lo));
            }
            result.push(items);
            proof {
                assert forall|j: int| 0 <= j < i + 1 implies index_answer(
                    #[trigger] self.indexes@[j],
                    *key,
                    distance,
                    result@[j]@,
                    counts[j],
                ) by {
                }
            }
            i = i + 1;
        }
        Ok(SearchResult { candidates_scanned, result })
    }

}

impl<V: Copy + PartialEq> Lookup<V> {
    /// Perform a distance search and return each value found once.
    pub fn search_simple(&self, key: &Bits, distance: u32) -> (r: Vec<SearchResultItem<V>>)
        requires
            self.wf(),
            self.fits(key),
            distance <= self.spec_max_distance(),
            total_entries(self.indexes@) <= usize::MAX,
            vstd::laws_eq::obeys_concrete_eq::<V>(),
        ensures
            exists|lists: Seq<Vec<SearchResultItem<V>>>|
                #[trigger] self.answers_lists(*key, distance, lists) && dedup_of(r@, flat_results(lists)),
    {
        let res = match self.search(key, distance) {
            Ok(res) => res,
            Err(_) => {
                proof {
                    assert(false);
                }
                return Vec::new();
            },
        };
        let flat = res.flat_iter();
        let ghost fl = flat@;
        proof {
            reveal(vstd::laws_eq::obeys_concrete_eq);
        }
        let mut out: Vec<SearchResultItem<V>> = Vec::new();
        let mut t: usize = 0;
        while t < flat.len()
            invariant
                vstd::laws_eq::obeys_concrete_eq::<V>(),
                V::obeys_eq_spec(),
                forall|x: V, y: V| x.eq_spec(&y) <==> x == y,
                fl == flat@,
                t <= fl.len(),
                forall|a: int, b: int| 0 <= a < b < out@.len() ==> (#[trigger] out@[a]).data != (#[trigger] out@[b]).data,
                forall|u: int| 0 <= u < out@.len() ==> fl.contains(#[trigger] out@[u]),
                forall|s: int| 0 <= s < t ==> #[trigger] value_in(out@, fl[s].data),
            decreases fl.len() - t,
        {
            let item = flat[t];
            let mut seen = false;
            let mut u: usize = 0;
            while u < out.len()
                invariant
                    V::obeys_eq_spec(),
                    forall|x: V, y: V| x.eq_spec(&y) <==> x == y,
                    u <= out@.len(),
                    seen == exists|w: int| 0 <= w < u && (#[trigger] out@[w]).data == item.data,
                decreases out@.len() - u,
            {
                if out[u].data == item.data {
                    seen = true;
                }
                u = u + 1;
            }
            let ghost prev = out@;
            if !seen {
                out.push(item);
                proof {
                    assert(fl.contains(item)) by {
                        assert(fl[t as int] == item);
                    }
                }
            }
            proof {
                assert forall|s: int| 0 <= s < t + 1 implies #[trigger] value_in(out@, fl[s].data) by {
                    if s == t {
                        if seen {
                            let w = choose|w: int| 0 <= w < out@.len() && (#[trigger] out@[w]).data == item.data;
                            assert(out@[w].data == fl[s].data);
                        } else {
                            assert(out@[out@.len() - 1].data == fl[s].data);
                        }
                    } else {
                        assert(value_in(prev, fl[s].data));
                        let w = choose|w: int| 0 <= w < prev.len() && (#[trigger] prev[w]).data == fl[s].data;
                        assert(out@[w] == prev[w]);
                    }
                }
            }
            t = t + 1;
        }
        proof {
            assert(fl == flat_results(res.result@));
            assert(self.answers_lists(*key, distance, res.result@));
            assert(t == fl.len());
            assert(dedup_of(out@, fl));
        }
        out
    }
}

} // verus!
