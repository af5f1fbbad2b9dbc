//! The in-memory index: entries sorted by permuted key, located by masked prefix.
use crate::bits::{
    lemma_bits_determine_words, lemma_lex_cmp_antisym, lemma_lex_cmp_equal, lemma_lex_le_trans,
    lex_cmp, lex_le, Bits,
};
use crate::index::{scan_spec, BlockLocator, Candidates, Distance, IndexStats};
use crate::lookup::SearchError;
use crate::permuter::{lemma_mask_monotone, Permuter};
use crate::util::{agrees, equal_range_by, ord_rank};
use core::cmp::Ordering;
use vstd::multiset::Multiset;
use vstd::prelude::*;

verus! {

/// Entries in nondecreasing lexicographic order of their key words.
pub open spec fn sorted_entries<V>(s: Seq<(Bits, V)>) -> bool {
    forall|i: int, j: int| 0 <= i < j < s.len() ==> lex_le(#[trigger] s[i].0.data@, #[trigger] s[j].0.data@)
}

/// What an index holds, seen by key bits and value.
pub open spec fn entries_view<V>(s: Seq<(Bits, V)>) -> Seq<(Seq<bool>, V)> {
    s.map_values(|e: (Bits, V)| (e.0.bits(), e.1))
}

/// An index never holds more entries than this: a quarter of the address space, which keeps the
/// position arithmetic of the searches within a `usize`.
pub open spec fn max_entries() -> int {
    (usize::MAX / 4) as int
}

/// In-memory sorted index for one permutation variant.
pub struct MemIndex<V> {
    pub permuter: Permuter,
    pub block_locator: BlockLocator,
    pub current_stats: IndexStats,
    pub data: Vec<(Bits, V)>,
}

/// The in-memory index.
pub type MemoryIndex<V> = MemIndex<V>;

/// Ordering by key words is monotone in the first argument.
proof fn lemma_cmp_rank_monotone(a: Seq<u64>, b: Seq<u64>, q: Seq<u64>)
    requires
        lex_le(a, b),
    ensures
        ord_rank(lex_cmp(a, q)) <= ord_rank(lex_cmp(b, q)),
{
    lemma_lex_cmp_equal(a, q);
    lemma_lex_cmp_equal(b, q);
    lemma_lex_cmp_antisym(a, q);
    lemma_lex_cmp_antisym(q, a);
    lemma_lex_cmp_antisym(b, q);
    lemma_lex_cmp_antisym(q, b);
    if lex_cmp(b, q) == Ordering::Less {
        lemma_lex_le_trans(a, b, q);
    } else if lex_cmp(b, q) == Ordering::Equal {
        assert(b == q);
    }
}

impl<V: Copy> MemIndex<V> {
    /// The permuter is valid, every stored key is a key it works on, and the entries are sorted.
    pub open spec fn wf(&self) -> bool {
        &&& self.permuter.wf()
        &&& forall|i: int| 0 <= i < self.data@.len() ==> self.permuter.fits(&(#[trigger] self.data@[i]).0)
        &&& sorted_entries(self.data@)
        &&& self.data@.len() <= max_entries()
    }

    /// The masked prefix of key words `k` under this index's permuter.
    pub open spec fn mask_of(&self, k: Seq<u64>) -> Seq<u64> {
        self.permuter.mask_spec(k)
    }

    pub fn new(permuter: Permuter) -> (r: Self)
        requires
            permuter.wf(),
        ensures
            r.wf(),
            r.permuter == permuter,
            r.data@.len() == 0,
    {
        Self {
            permuter,
            block_locator: BlockLocator::BinarySearch,
            current_stats: IndexStats::empty(),
            data: Vec::new(),
        }
    }

    /// Get data as a slice.
    pub fn data(&self) -> (r: &[(Bits, V)])
        ensures
            r@ == self.data@,
    {
        self.data.as_slice()
    }

    /// Get permuter reference.
    pub fn permuter(&self) -> (r: &Permuter)
        ensures
            *r == self.permuter,
    {
        &self.permuter
    }

    /// Get currently used BlockLocator.
    pub fn block_locator(&self) -> (r: BlockLocator)
        ensures
            r == self.block_locator,
    {
        self.block_locator
    }

    /// Get stats for this index.
    pub fn stats(&self) -> (r: &IndexStats)
        ensures
            *r == self.current_stats,
    {
        &self.current_stats
    }

    /// Compute stats for this index: a block is a maximal run of entries with equal masks.
    pub fn compute_stats(&self) -> (r: IndexStats)
        requires
            self.wf(),
        ensures
            exists|ms: Seq<Vec<u64>>|
                {
                    &&& ms.len() == self.data@.len()
                    &&& forall|i: int|
                        0 <= i < ms.len() ==> (#[trigger] ms[i])@ == self.mask_of(self.data@[i].0.data@)
                    &&& r.describes(ms)
                },
    {
        let permuter = &self.permuter;
        let mask_fn = |k: &Bits| -> (m: Vec<u64>)
            requires
                permuter.wf(),
                permuter.fits(k),
            ensures
                m@ == permuter.mask_spec(k.data@),
            { permuter.mask(k).data };
        proof {
            assert(<u64 as vstd::std_specs::cmp::PartialEqSpec>::obeys_eq_spec());
        }
        let r = IndexStats::from_data(self.data.as_slice(), mask_fn);
        r
    }

    /// The stored statistics describe the current entries: a block is a maximal run of entries
    /// with equal masks.
    pub open spec fn stats_fresh(&self) -> bool {
        exists|ms: Seq<Vec<u64>>|
            {
                &&& ms.len() == self.data@.len()
                &&& forall|i: int|
                    0 <= i < ms.len() ==> (#[trigger] ms[i])@ == self.mask_of(self.data@[i].0.data@)
                &&& self.current_stats.describes(ms)
            }
    }

    /// Refresh index: recompute stats.
    pub fn refresh(&mut self)
        requires
            old(self).wf(),
        ensures
            final(self).wf(),
            final(self).data == old(self).data,
            final(self).permuter == old(self).permuter,
            final(self).stats_fresh(),
    {
        self.current_stats = self.compute_stats();
    }

    /// The first position whose key is greater than `key`.
    fn upper_bound(&self, key: &Bits) -> (pos: usize)
        requires
            sorted_entries(self.data@),
        ensures
            pos <= self.data@.len(),
            forall|i: int| 0 <= i < pos ==> lex_le(#[trigger] self.data@[i].0.data@, key.data@),
            forall|i: int|
                pos <= i < self.data@.len() ==> lex_cmp(key.data@, #[trigger] self.data@[i].0.data@)
                    == Ordering::Less,
    {
        let mut lo: usize = 0;
        let mut hi: usize = self.data.len();
        while lo < hi
            invariant
                sorted_entries(self.data@),
                lo <= hi <= self.data@.len(),
                forall|i: int| 0 <= i < lo ==> lex_le(#[trigger] self.data@[i].0.data@, key.data@),
                forall|i: int|
                    hi <= i < self.data@.len() ==> lex_cmp(key.data@, #[trigger] self.data@[i].0.data@)
                        == Ordering::Less,
            decreases hi - lo,
        {
            let mid = lo + (hi - lo) / 2;
            let o = self.data[mid].0.cmp_words(key);
            proof {
                lemma_lex_cmp_antisym(self.data@[mid as int].0.data@, key.data@);
                lemma_lex_cmp_antisym(key.data@, self.data@[mid as int].0.data@);
            }
            if matches!(o, Ordering::Greater) {
                proof {
                    assert forall|i: int| mid <= i < self.data@.len() implies lex_cmp(
                        key.data@,
                        #[trigger] self.data@[i].0.data@,
                    ) == Ordering::Less by {
                        if i > mid {
                            assert(lex_le(self.data@[mid as int].0.data@, self.data@[i].0.data@));
                            lemma_lex_cmp_antisym(self.data@[i].0.data@, key.data@);
                            lemma_lex_cmp_antisym(key.data@, self.data@[i].0.data@);
                            lemma_lex_cmp_equal(key.data@, self.data@[i].0.data@);
                            lemma_lex_cmp_equal(self.data@[mid as int].0.data@, key.data@);
                            if lex_le(self.data@[i].0.data@, key.data@) {
                                lemma_lex_le_trans(
                                    self.data@[mid as int].0.data@,
                                    self.data@[i].0.data@,
                                    key.data@,
                                );
                            }
                        }
                    }
                }
                hi = mid;
            } else {
                proof {
                    assert forall|i: int| 0 <= i < mid + 1 implies lex_le(
                        #[trigger] self.data@[i].0.data@,
                        key.data@,
                    ) by {
                        if i < mid {
                            assert(lex_le(self.data@[i].0.data@, self.data@[mid as int].0.data@));
                            lemma_lex_le_trans(
                                self.data@[i].0.data@,
                                self.data@[mid as int].0.data@,
                                key.data@,
                            );
                        }
                    }
                }
                lo = mid + 1;
            }
        }
        lo
    }

    /// Insert items into this index: each key is permuted, and the entries stay sorted.
    pub fn insert(&mut self, items: &[(Bits, V)]) -> (r: Result<(), ()>)
        requires
            old(self).wf(),
            forall|i: int| 0 <= i < items@.len() ==> old(self).permuter.fits(&(#[trigger] items@[i]).0),
            old(self).data@.len() + items@.len() <= max_entries(),
        ensures
            r is Ok,
            final(self).wf(),
            final(self).permuter == old(self).permuter,
            final(self).data@.len() == old(self).data@.len() + items@.len(),
            entries_view(final(self).data@).to_multiset() == entries_view(old(self).data@).to_multiset().add(
                items@.map_values(
                    |e: (Bits, V)| (old(self).permuter.apply_spec(e.0.bits()), e.1),
                ).to_multiset(),
            ),
    {
        let ghost perm = self.permuter;
        let ghost start = entries_view(self.data@);
        let ghost start_len = self.data@.len();
        let ghost f = |e: (Bits, V)| (perm.apply_spec(e.0.bits()), e.1);
        let mut i: usize = 0;
        proof {
            assert(items@.take(0).map_values(f).to_multiset() =~= Multiset::empty()) by {
                let e = items@.take(0).map_values(f);
                assert(e.len() == 0);
                broadcast use vstd::seq_lib::group_to_multiset_ensures;

                assert forall|x: (Seq<bool>, V)| e.to_multiset().count(x) == 0 by {
                    assert(!e.contains(x));
                }
            }
            assert(start.to_multiset().add(Multiset::empty()) =~= start.to_multiset());
        }
        while i < items.len()
            invariant
                self.wf(),
                self.permuter == perm,
                f == (|e: (Bits, V)| (perm.apply_spec(e.0.bits()), e.1)),
                forall|j: int| 0 <= j < items@.len() ==> perm.fits(&(#[trigger] items@[j]).0),
                i <= items@.len(),
                self.data@.len() + (items@.len() - i) <= max_entries(),
                self.data@.len() == start_len + i,
                entries_view(self.data@).to_multiset() == start.to_multiset().add(
                    items@.take(i as int).map_values(f).to_multiset(),
                ),
            decreases items@.len() - i,
        {
            let (k, v) = &items[i];
            let p = self.permuter.apply(k);
            let pos = self.upper_bound(&p);
            let ghost before = self.data@;
            self.data.insert(pos, (p, *v));
            proof {
                let e = (p, *v);
                assert(self.data@ == before.insert(pos as int, e));
                assert forall|a: int, b: int| 0 <= a < b < self.data@.len() implies lex_le(
                    #[trigger] self.data@[a].0.data@,
                    #[trigger] self.data@[b].0.data@,
                ) by {
                    if b < pos {
                        assert(self.data@[a] == before[a] && self.data@[b] == before[b]);
                    } else if b == pos {
                        assert(self.data@[a] == before[a]);
                    } else if a < pos {
                        assert(self.data@[a] == before[a] && self.data@[b] == before[b - 1]);
                        assert(lex_le(before[a].0.data@, p.data@));
                        assert(lex_cmp(p.data@, before[b - 1].0.data@) == Ordering::Less);
                        lemma_lex_le_trans(before[a].0.data@, p.data@, before[b - 1].0.data@);
                    } else if a == pos {
                        assert(self.data@[b] == before[b - 1]);
                    } else {
                        assert(self.data@[a] == before[a - 1] && self.data@[b] == before[b - 1]);
                    }
                }
                assert forall|j: int| 0 <= j < self.data@.len() implies perm.fits(
                    &(#[trigger] self.data@[j]).0,
                ) by {
                    if j < pos {
                        assert(self.data@[j] == before[j]);
                    } else if j > pos {
                        assert(self.data@[j] == before[j - 1]);
                    }
                }
                let ev = entries_view(self.data@);
                let evb = entries_view(before);
                assert(ev =~= evb.insert(pos as int, (p.bits(), *v)));
                lemma_multiset_insert_at(evb, pos as int, (p.bits(), *v));
                assert(items@.take(i + 1).map_values(f) =~= items@.take(i as int).map_values(f).push(
                    f(items@[i as int]),
                ));
                vstd::seq_lib::to_multiset_build(items@.take(i as int).map_values(f), f(items@[i as int]));
                assert(f(items@[i as int]) == (p.bits(), *v));
                assert(ev.to_multiset() =~= start.to_multiset().add(
                    items@.take(i + 1).map_values(f).to_multiset(),
                ));
            }
            i = i + 1;
        }
        proof {
            assert(items@.take(i as int) =~= items@);
        }
        Ok(())
    }

    /// Remove items from this index by keys: every entry whose key is the permuted form of one of
    /// `keys` goes, the others stay in order.
    pub fn remove(&mut self, keys: &[Bits]) -> (r: Result<(), ()>)
        requires
            old(self).wf(),
            forall|i: int| 0 <= i < keys@.len() ==> old(self).permuter.fits(&(#[trigger] keys@[i])),
        ensures
            r is Ok,
            final(self).wf(),
            final(self).permuter == old(self).permuter,
            entries_view(final(self).data@) == entries_view(old(self).data@).filter(
                |e: (Seq<bool>, V)|
                    !(exists|j: int|
                        0 <= j < keys@.len() && e.0 == old(self).permuter.apply_spec(
                            (#[trigger] keys@[j]).bits(),
                        )),
            ),
    {
        let ghost perm = self.permuter;
        let ghost keep = |e: (Bits, V)|
            !(exists|j: int|
                0 <= j < keys@.len() && e.0.bits() == perm.apply_spec((#[trigger] keys@[j]).bits()));
        let ghost keep_view = |e: (Seq<bool>, V)|
            !(exists|j: int|
                0 <= j < keys@.len() && e.0 == perm.apply_spec((#[trigger] keys@[j]).bits()));
        let mut permuted: Vec<Bits> = Vec::new();
        let mut i: usize = 0;
        while i < keys.len()
            invariant
                self.wf(),
                self.permuter == perm,
                forall|j: int| 0 <= j < keys@.len() ==> perm.fits(&(#[trigger] keys@[j])),
                i <= keys@.len(),
                permuted@.len() == i,
                forall|j: int|
                    0 <= j < i ==> perm.fits(&(#[trigger] permuted@[j])) && permuted@[j].bits()
                        == perm.apply_spec(keys@[j].bits()),
            decreases keys@.len() - i,
        {
            let p = self.permuter.apply(&keys[i]);
            permuted.push(p);
            i = i + 1;
        }
        let ghost old_data = self.data@;
        let mut kept: Vec<(Bits, V)> = Vec::new();
        let ghost mut chosen: Seq<(Bits, V)> = Seq::empty();
        let mut n: usize = 0;
        while n < self.data.len()
            invariant
                self.wf(),
                self.permuter == perm,
                self.data@ == old_data,
                permuted@.len() == keys@.len(),
                forall|j: int|
                    0 <= j < keys@.len() ==> perm.fits(&(#[trigger] permuted@[j])) && permuted@[j].bits()
                        == perm.apply_spec(keys@[j].bits()),
                keep == (|e: (Bits, V)|
                    !(exists|j: int|
                        0 <= j < keys@.len() && e.0.bits() == perm.apply_spec(
                            (#[trigger] keys@[j]).bits(),
                        ))),
                n <= old_data.len(),
                chosen == old_data.take(n as int).filter(keep),
                kept@.len() == chosen.len(),
                forall|t: int|
                    0 <= t < chosen.len() ==> (#[trigger] kept@[t]).0.data@ == chosen[t].0.data@
                        && kept@[t].0.word_bits == chosen[t].0.word_bits && kept@[t].1 == chosen[t].1,
            decreases old_data.len() - n,
        {
            let entry = &self.data[n];
            let mut hit = false;
            let mut j: usize = 0;
            while j < permuted.len()
                invariant
                    self.wf(),
                    self.permuter == perm,
                    n < old_data.len(),
                    *entry == old_data[n as int],
                    self.data@ == old_data,
                    permuted@.len() == keys@.len(),
                    forall|t: int|
                        0 <= t < keys@.len() ==> perm.fits(&(#[trigger] permuted@[t]))
                            && permuted@[t].bits() == perm.apply_spec(keys@[t].bits()),
                    j <= permuted@.len(),
                    hit == exists|t: int|
                        0 <= t < j && entry.0.bits() == perm.apply_spec((#[trigger] keys@[t]).bits()),
                decreases permuted@.len() - j,
            {
                let same = entry.0.eq_words(&permuted[j]);
                proof {
                    assert(perm.fits(&entry.0));
                    if same {
                        assert(entry.0.bits() =~= permuted@[j as int].bits());
                    } else if entry.0.bits() == permuted@[j as int].bits() {
                        lemma_bits_determine_words(entry.0, permuted@[j as int]);
                    }
                    if hit {
                        let t = choose|t: int|
                            0 <= t < j && entry.0.bits() == perm.apply_spec(
                                (#[trigger] keys@[t]).bits(),
                            );
                        assert(0 <= t < j + 1);
                    }
                    if exists|t: int|
                        0 <= t < j + 1 && entry.0.bits() == perm.apply_spec(
                            (#[trigger] keys@[t]).bits(),
                        ) {
                        let t = choose|t: int|
                            0 <= t < j + 1 && entry.0.bits() == perm.apply_spec(
                                (#[trigger] keys@[t]).bits(),
                            );
                        if t < j {
                            assert(hit);
                        } else {
                            assert(same);
                        }
                    }
                }
                if same {
                    hit = true;
                }
                j = j + 1;
            }
            proof {
                assert(old_data.take(n + 1) =~= old_data.take(n as int).push(old_data[n as int]));
                crate::util::lemma_filter_push(old_data.take(n as int), old_data[n as int], keep);
                assert(keep(old_data[n as int]) == !hit);
            }
            if !hit {
                let k = entry.0.duplicate();
                kept.push((k, entry.1));
                proof {
                    chosen = chosen.push(old_data[n as int]);
                }
            }
            n = n + 1;
        }
        proof {
            assert(old_data.take(n as int) =~= old_data);
            lemma_filter_keeps_order(old_data, keep);
            lemma_filter_keeps_fits(old_data, keep, perm);
            old_data.lemma_filter_len(keep);
            assert forall|a: int, b: int| 0 <= a < b < kept@.len() implies lex_le(
                #[trigger] kept@[a].0.data@,
                #[trigger] kept@[b].0.data@,
            ) by {
                assert(lex_le(chosen[a].0.data@, chosen[b].0.data@));
            }
            assert forall|t: int| 0 <= t < kept@.len() implies perm.fits(&(#[trigger] kept@[t]).0) by {
                assert(perm.fits(&chosen[t].0));
                assert(kept@[t].0.bits() =~= chosen[t].0.bits());
            }
            lemma_filter_view(old_data, keep, keep_view);
            assert forall|t: int| 0 <= t < kept@.len() implies #[trigger] entries_view(kept@)[t]
                == entries_view(chosen)[t] by {
                assert(kept@[t].0.bits() =~= chosen[t].0.bits());
            }
            assert(entries_view(kept@) =~= entries_view(chosen));
        }
        self.data = kept;
        Ok(())
    }

    /// Retrieve candidates for a given search: the permuted probe, and the run of entries whose
    /// masked prefix equals the probe's.
    pub fn get_candidates<'a>(&'a self, key: &Bits) -> (r: Candidates<'a, Bits, V>)
        requires
            self.wf(),
            self.permuter.fits(key),
        ensures
            self.permuter.fits(&r.key),
            r.key.bits() == self.permuter.apply_spec(key.bits()),
            exists|lo: int, hi: int|
                {
                    &&& 0 <= lo <= hi <= self.data@.len()
                    &&& r.block@ == self.data@.subrange(lo, hi)
                    &&& forall|i: int|
                        0 <= i < self.data@.len() ==> (lo <= i < hi <==> self.mask_of(
                            #[trigger] self.data@[i].0.data@,
                        ) == self.mask_of(r.key.data@))
                },
    {
        let permuter = &self.permuter;
        let permuted_key = permuter.apply(key);
        let masked_key = permuter.mask(&permuted_key);
        let ghost q = masked_key.data@;
        let ghost data = self.data@;
        let ghost key_of = |e: (Bits, V)| lex_cmp(permuter.mask_spec(e.0.data@), q);
        let cmp = |e: &(Bits, V)| -> (o: Ordering)
            requires
                permuter.wf(),
                permuter.fits(&e.0),
            ensures
                o == lex_cmp(permuter.mask_spec(e.0.data@), masked_key.data@),
            { permuter.mask_and_cmp(&e.0, &masked_key) };
        proof {
            assert(agrees(data, cmp, key_of));
            assert forall|i: int, j: int| 0 <= i <= j < data.len() implies ord_rank(
                #[trigger] key_of(data[i]),
            ) <= ord_rank(#[trigger] key_of(data[j])) by {
                if i < j {
                    assert(lex_le(data[i].0.data@, data[j].0.data@));
                    lemma_mask_monotone(*permuter, data[i].0.data@, data[j].0.data@);
                    lemma_cmp_rank_monotone(
                        permuter.mask_spec(data[i].0.data@),
                        permuter.mask_spec(data[j].0.data@),
                        q,
                    );
                }
            }
        }
        let (lo, hi) = match self.block_locator {
            BlockLocator::BinarySearch => equal_range_by(self.data.as_slice(), &cmp, Ghost(key_of)),
        };
        let block = &self.data.as_slice()[lo..hi];
        proof {
            assert forall|i: int| 0 <= i < data.len() implies (lo <= i < hi <==> self.mask_of(
                #[trigger] data[i].0.data@,
            ) == self.mask_of(permuted_key.data@)) by {
                assert(key_of(data[i]) == Ordering::Equal <==> lo <= i < hi);
                lemma_lex_cmp_equal(permuter.mask_spec(data[i].0.data@), q);
            }
        }
        Candidates::new(permuted_key, block)
    }

    /// Perform a distance search: the values of the candidates within `distance` of the probe.
    pub fn search(&self, key: &Bits, distance: u32) -> (r: Result<
        Vec<crate::index::SearchResultItem<V>>,
        SearchError,
    >)
        requires
            self.wf(),
            self.permuter.fits(key),
        ensures
            distance >= self.permuter.blocks@.len() ==> r == Err::<
                Vec<crate::index::SearchResultItem<V>>,
                SearchError,
            >(
                SearchError::DistanceExceedsMax {
                    distance,
                    max: (self.permuter.blocks@.len() - 1) as u32,
                },
            ),
            distance < self.permuter.blocks@.len() ==> (r is Ok && exists|pk: Bits, lo: int, hi: int|
                {
                    &&& pk.bits() == self.permuter.apply_spec(key.bits())
                    &&& 0 <= lo <= hi <= self.data@.len()
                    &&& forall|i: int|
                        0 <= i < self.data@.len() ==> (lo <= i < hi <==> self.mask_of(
                            #[trigger] self.data@[i].0.data@,
                        ) == self.mask_of(pk.data@))
                    &&& r->Ok_0@ == scan_spec(pk, self.data@.subrange(lo, hi), distance)
                }),
    {
        let r = self.permuter.n_blocks();
        if distance >= r {
            return Err(SearchError::DistanceExceedsMax { distance, max: r - 1 });
        }
        let candidates = self.get_candidates(key);
        let ghost (lo, hi) = choose|lo: int, hi: int|
            {
                &&& 0 <= lo <= hi <= self.data@.len()
                &&& candidates.block@ == self.data@.subrange(lo, hi)
                &&& forall|t: int|
                    0 <= t < self.data@.len() ==> (lo <= t < hi <==> self.mask_of(
                        #[trigger] self.data@[t].0.data@,
                    ) == self.mask_of(candidates.key.data@))
            };
        proof {
            assert forall|i: int| 0 <= i < candidates.block@.len() implies (
            #[trigger] candidates.block@[i]).0.comparable(&candidates.key) by {
                assert(candidates.block@[i] == self.data@[lo + i]);
                crate::permuter::lemma_fits_comparable(
                    self.permuter,
                    candidates.block@[i].0,
                    candidates.key,
                );
            }
        }
        let items = candidates.scan(distance);
        Ok(items)
    }
}

/// Inserting an element anywhere adds it to the multiset.
pub proof fn lemma_multiset_insert_at<A>(s: Seq<A>, pos: int, x: A)
    requires
        0 <= pos <= s.len(),
    ensures
        s.insert(pos, x).to_multiset() == s.to_multiset().insert(x),
{
    let t = s.insert(pos, x);
    assert(t.remove(pos) =~= s);
    broadcast use vstd::seq_lib::group_to_multiset_ensures;

    assert(t.to_multiset().remove(x) =~= s.to_multiset());
    assert(t.contains(x)) by {
        assert(t[pos] == x);
    }
    assert(t.to_multiset().count(x) > 0);
    assert(t.to_multiset() =~= s.to_multiset().insert(x));
}

/// Filtering a sorted sequence leaves it sorted.
proof fn lemma_filter_keeps_order<V>(s: Seq<(Bits, V)>, p: spec_fn((Bits, V)) -> bool)
    requires
        sorted_entries(s),
    ensures
        sorted_entries(s.filter(p)),
    decreases s.len(),
{
    reveal_with_fuel(Seq::filter, 1);
    if s.len() > 0 {
        let rest = s.drop_last();
        assert(sorted_entries(rest)) by {
            assert forall|i: int, j: int| 0 <= i < j < rest.len() implies lex_le(
                #[trigger] rest[i].0.data@,
                #[trigger] rest[j].0.data@,
            ) by {
                assert(rest[i] == s[i] && rest[j] == s[j]);
            }
        }
        lemma_filter_keeps_order(rest, p);
        let fr = rest.filter(p);
        if p(s.last()) {
            assert forall|i: int| 0 <= i < fr.len() implies lex_le(
                #[trigger] fr[i].0.data@,
                s.last().0.data@,
            ) by {
                broadcast use vstd::seq_lib::group_filter_ensures;

                assert(fr.contains(fr[i]));
                rest.lemma_filter_contains_rev(p, fr[i]);
                let t = choose|t: int| 0 <= t < rest.len() && #[trigger] rest[t] == fr[i];
                assert(s[t] == rest[t]);
            }
            let out = fr.push(s.last());
            assert forall|i: int, j: int| 0 <= i < j < out.len() implies lex_le(
                #[trigger] out[i].0.data@,
                #[trigger] out[j].0.data@,
            ) by {
                if j < fr.len() {
                    assert(out[i] == fr[i] && out[j] == fr[j]);
                } else {
                    assert(out[i] == fr[i]);
                }
            }
        }
    }
}

/// Filtering entries and then viewing them is viewing them and then filtering by the same test.
proof fn lemma_filter_view<V>(
    s: Seq<(Bits, V)>,
    p: spec_fn((Bits, V)) -> bool,
    pv: spec_fn((Seq<bool>, V)) -> bool,
)
    requires
        forall|e: (Bits, V)| #[trigger] p(e) == pv((e.0.bits(), e.1)),
    ensures
        entries_view(s.filter(p)) == entries_view(s).filter(pv),
    decreases s.len(),
{
    reveal_with_fuel(Seq::filter, 1);
    if s.len() > 0 {
        lemma_filter_view(s.drop_last(), p, pv);
        assert(entries_view(s).drop_last() =~= entries_view(s.drop_last()));
        assert(entries_view(s.drop_last().filter(p).push(s.last())) =~= entries_view(
            s.drop_last().filter(p),
        ).push((s.last().0.bits(), s.last().1)));
        assert(p(s.last()) == pv((s.last().0.bits(), s.last().1)));
    } else {
        assert(entries_view(s) =~= Seq::<(Seq<bool>, V)>::empty());
    }
}

/// Filtering keeps only entries that were there.
proof fn lemma_filter_keeps_fits<V>(s: Seq<(Bits, V)>, p: spec_fn((Bits, V)) -> bool, perm: Permuter)
    requires
        forall|i: int| 0 <= i < s.len() ==> perm.fits(&(#[trigger] s[i]).0),
    ensures
        forall|i: int| 0 <= i < s.filter(p).len() ==> perm.fits(&(#[trigger] s.filter(p)[i]).0),
{
    assert forall|i: int| 0 <= i < s.filter(p).len() implies perm.fits(&(#[trigger] s.filter(p)[i]).0) by {
        let e = s.filter(p)[i];
        assert(s.filter(p).contains(e));
        s.lemma_filter_contains_rev(p, e);
        let t = choose|t: int| 0 <= t < s.len() && #[trigger] s[t] == e;
    }
}

} // verus!
