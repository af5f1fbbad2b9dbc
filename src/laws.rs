//! Properties of indexes and searches that relate several operations.
use crate::bits::{popcount, popcount_below, words_distance, Bits};
use crate::index::{scan_spec, IndexStats, SearchResultItem};
use crate::lookup::index_answer;
use crate::mem_index::{entries_view, MemIndex};
use crate::permuter::lemma_apply_revert;
use vstd::prelude::*;
use vstd::std_specs::cmp::PartialEqSpec;

verus! {

/// Rebuilding a key from its bit sequence gives the key back: a valid key of the same word size
/// with the same bits has the same words.
pub proof fn lemma_bits_round_trip(b: Bits, rebuilt: Bits)
    requires
        b.wf(),
        rebuilt.wf(),
        rebuilt.word_bits == b.word_bits,
        rebuilt.bits() == b.bits(),
    ensures
        rebuilt.data@ == b.data@,
{
    let w = b.word_bits as int;
    assert(rebuilt.bits().len() == b.bits().len());
    assert(rebuilt.spec_size() >= 0 && b.spec_size() >= 0) by (nonlinear_arith)
        requires
            rebuilt.spec_size() == rebuilt.data@.len() * rebuilt.word_bits,
            b.spec_size() == b.data@.len() * b.word_bits,
    ;
    assert(rebuilt.bits().len() == rebuilt.spec_size() as nat);
    assert(b.bits().len() == b.spec_size() as nat);
    assert(rebuilt.spec_size() == b.spec_size());
    assert(rebuilt.data@.len() == b.data@.len()) by (nonlinear_arith)
        requires
            rebuilt.data@.len() * w == b.data@.len() * w,
            w > 0,
    ;
    crate::bits::lemma_bits_determine_words(rebuilt, b);
}

/// Decoding the little-endian bytes of a key gives the key back.
pub proof fn lemma_key_bytes_round_trip(b: Bits, bytes: Seq<u8>, back: Bits)
    requires
        b.wf(),
        bytes.len() == b.data@.len() * (b.word_bits / 8),
        forall|i: int|
            0 <= i < b.data@.len() ==> crate::bits::le_value(
                #[trigger] bytes.subrange(i * (b.word_bits / 8), (i + 1) * (b.word_bits / 8)),
            ) == b.data@[i],
        back.word_bits == b.word_bits,
        back.data@.len() == (bytes.len() as int) / (b.word_bits as int / 8),
        forall|i: int|
            0 <= i < back.data@.len() ==> #[trigger] back.data@[i] == crate::bits::le_value(
                bytes.subrange(i * (b.word_bits / 8), (i + 1) * (b.word_bits / 8)),
            ),
    ensures
        back.data@ == b.data@,
{
    let wb = (b.word_bits / 8) as int;
    assert(wb > 0);
    vstd::arithmetic::div_mod::lemma_div_multiples_vanish(b.data@.len() as int, wb);
    assert((b.data@.len() * wb) / wb == b.data@.len()) by (nonlinear_arith)
        requires
            wb > 0,
            (wb * b.data@.len()) / wb == b.data@.len(),
    ;
    assert(back.data@ =~= b.data@);
}

/// A word has no set bit only when it is zero.
proof fn lemma_popcount_zero(z: u64)
    ensures
        (popcount(z) == 0) == (z == 0),
{
    assert forall|n: nat| n <= 64 implies (popcount_below(z, n) == 0) == (forall|k: u64|
        k < n ==> #[trigger] ((z >> k) & 1u64) == 0u64) by {
        lemma_popcount_below_zero(z, n);
    }
    if z != 0 {
        vstd::std_specs::bits::axiom_u64_trailing_zeros(z);
        let t = vstd::std_specs::bits::u64_trailing_zeros(z) as u64;
        assert((z >> t) & 1u64 == 1u64);
    } else {
        assert forall|k: u64| k < 64 implies #[trigger] ((z >> k) & 1u64) == 0u64 by {
            assert((0u64 >> k) & 1u64 == 0u64) by (bit_vector);
        }
    }
}

proof fn lemma_popcount_below_zero(z: u64, n: nat)
    requires
        n <= 64,
    ensures
        (popcount_below(z, n) == 0) == (forall|k: u64| k < n ==> #[trigger] ((z >> k) & 1u64) == 0u64),
    decreases n,
{
    if n > 0 {
        lemma_popcount_below_zero(z, (n - 1) as nat);
        let k = (n - 1) as u64;
        assert((z >> k) & 1u64 == 0u64 || (z >> k) & 1u64 == 1u64) by (bit_vector);
        if forall|k2: u64| k2 < n ==> #[trigger] ((z >> k2) & 1u64) == 0u64 {
            assert((z >> k) & 1u64 == 0u64);
        }
    }
}

/// Two word sequences of one length are at distance zero exactly when they are equal.
pub proof fn lemma_distance_zero(a: Seq<u64>, b: Seq<u64>)
    requires
        a.len() == b.len(),
    ensures
        (words_distance(a, b) == 0) == (a == b),
    decreases a.len(),
{
    if a.len() > 0 {
        lemma_distance_zero(a.drop_last(), b.drop_last());
        lemma_popcount_zero(a.last() ^ b.last());
        let x = a.last();
        let y = b.last();
        assert((x ^ y == 0) == (x == y)) by (bit_vector);
        if a.drop_last() == b.drop_last() && x == y {
            assert(a =~= a.drop_last().push(x));
            assert(b =~= b.drop_last().push(y));
        }
        if a == b {
            assert(a.drop_last() =~= b.drop_last());
        }
    } else {
        assert(a =~= b);
    }
}

/// The entries of `block` whose key words are those of `key`, each with distance zero.
pub open spec fn exact_matches<V>(key: Bits, block: Seq<(Bits, V)>) -> Seq<SearchResultItem<V>>
    decreases block.len(),
{
    if block.len() == 0 {
        Seq::empty()
    } else {
        let rest = exact_matches(key, block.drop_last());
        if block.last().0.data@ == key.data@ {
            rest.push(SearchResultItem { data: block.last().1, distance: 0 })
        } else {
            rest
        }
    }
}

/// A search at distance zero returns exactly the exact matches.
pub proof fn lemma_exact_scan<V>(key: Bits, block: Seq<(Bits, V)>)
    requires
        forall|i: int| 0 <= i < block.len() ==> (#[trigger] block[i]).0.data@.len() == key.data@.len(),
    ensures
        scan_spec(key, block, 0) == exact_matches(key, block),
    decreases block.len(),
{
    if block.len() > 0 {
        let rest = block.drop_last();
        assert forall|i: int| 0 <= i < rest.len() implies (#[trigger] rest[i]).0.data@.len()
            == key.data@.len() by {
            assert(rest[i] == block[i]);
        }
        lemma_exact_scan(key, rest);
        lemma_distance_zero(block.last().0.data@, key.data@);
    }
}

/// Entries whose key is not `key` add no exact match: trimming them off the end changes nothing.
proof fn lemma_exact_take<V>(key: Bits, s: Seq<(Bits, V)>, hi: int)
    requires
        0 <= hi <= s.len(),
        forall|i: int| hi <= i < s.len() ==> (#[trigger] s[i]).0.data@ != key.data@,
    ensures
        exact_matches(key, s.take(hi)) == exact_matches(key, s),
    decreases s.len() - hi,
{
    if hi < s.len() {
        let t = s.take(hi + 1);
        assert forall|i: int| hi + 1 <= i < t.len() implies (#[trigger] t[i]).0.data@ != key.data@ by {
        }
        lemma_exact_take(key, s, hi + 1);
        assert(t.drop_last() =~= s.take(hi));
        assert(t.last() == s[hi]);
    } else {
        assert(s.take(hi) =~= s);
    }
}

/// Entries whose key is not `key` add no exact match: trimming them off the start changes nothing.
proof fn lemma_exact_skip<V>(key: Bits, s: Seq<(Bits, V)>, lo: int, hi: int)
    requires
        0 <= lo <= hi <= s.len(),
        forall|i: int| 0 <= i < lo ==> (#[trigger] s[i]).0.data@ != key.data@,
    ensures
        exact_matches(key, s.subrange(lo, hi)) == exact_matches(key, s.take(hi)),
    decreases hi - lo,
{
    if hi > lo {
        lemma_exact_skip(key, s, lo, hi - 1);
        assert(s.subrange(lo, hi).drop_last() =~= s.subrange(lo, hi - 1));
        assert(s.take(hi).drop_last() =~= s.take(hi - 1));
        assert(s.subrange(lo, hi).last() == s[hi - 1]);
        assert(s.take(hi).last() == s[hi - 1]);
    } else {
        lemma_exact_none(key, s.take(lo));
        assert(s.subrange(lo, hi) =~= Seq::<(Bits, V)>::empty());
    }
}

proof fn lemma_exact_none<V>(key: Bits, s: Seq<(Bits, V)>)
    requires
        forall|i: int| 0 <= i < s.len() ==> (#[trigger] s[i]).0.data@ != key.data@,
    ensures
        exact_matches(key, s) == Seq::<SearchResultItem<V>>::empty(),
    decreases s.len(),
{
    if s.len() > 0 {
        let t = s.drop_last();
        assert forall|i: int| 0 <= i < t.len() implies (#[trigger] t[i]).0.data@ != key.data@ by {
            assert(t[i] == s[i]);
        }
        lemma_exact_none(key, t);
    }
}

/// A search of an index at distance zero returns exactly the entries whose key is the permuted
/// probe, each with distance zero, in index order.
pub proof fn lemma_exact_index_answer<V: Copy>(
    index: MemIndex<V>,
    key: Bits,
    items: Seq<SearchResultItem<V>>,
    scanned: int,
)
    requires
        index.wf(),
        index.permuter.fits(&key),
        index_answer(index, key, 0, items, scanned),
    ensures
        exists|pk: Bits|
            index.permuter.fits(&pk) && pk.bits() == index.permuter.apply_spec(key.bits())
                && items == exact_matches(pk, index.data@),
{
    let (pk, lo, hi) = choose|pk: Bits, lo: int, hi: int|
        {
            &&& index.permuter.fits(&pk)
            &&& pk.bits() == index.permuter.apply_spec(key.bits())
            &&& 0 <= lo <= hi <= index.data@.len()
            &&& scanned == hi - lo
            &&& forall|i: int|
                0 <= i < index.data@.len() ==> (lo <= i < hi <==> index.mask_of(
                    #[trigger] index.data@[i].0.data@,
                ) == index.mask_of(pk.data@))
            &&& items == scan_spec(pk, index.data@.subrange(lo, hi), 0)
        };
    let d = index.data@;
    let sub = d.subrange(lo, hi);
    assert forall|i: int| 0 <= i < sub.len() implies (#[trigger] sub[i]).0.data@.len()
        == pk.data@.len() by {
        assert(sub[i] == d[lo + i]);
        assert(index.permuter.fits(&d[lo + i].0));
    }
    lemma_exact_scan(pk, sub);
    assert forall|i: int| (0 <= i < lo || hi <= i < d.len()) implies (#[trigger] d[i]).0.data@
        != pk.data@ by {
        if d[i].0.data@ == pk.data@ {
            assert(index.mask_of(d[i].0.data@) == index.mask_of(pk.data@));
        }
    }
    lemma_exact_take(pk, d, hi);
    lemma_exact_skip(pk, d, lo, hi);
}

/// Every item a scan returns is within the distance searched for, and comes with the value and
/// the distance of an entry of the block.
pub proof fn lemma_scan_sound<V>(key: Bits, block: Seq<(Bits, V)>, d: u32)
    ensures
        forall|t: int|
            0 <= t < scan_spec(key, block, d).len() ==> {
                let item = #[trigger] scan_spec(key, block, d)[t];
                &&& item.distance <= d
                &&& exists|i: int|
                    0 <= i < block.len() && block[i].1 == item.data && words_distance(
                        block[i].0.data@,
                        key.data@,
                    ) == item.distance
            },
    decreases block.len(),
{
    if block.len() > 0 {
        let rest = block.drop_last();
        lemma_scan_sound(key, rest, d);
        let s = scan_spec(key, block, d);
        assert forall|t: int| 0 <= t < s.len() implies {
            let item = #[trigger] s[t];
            &&& item.distance <= d
            &&& exists|i: int|
                0 <= i < block.len() && block[i].1 == item.data && words_distance(
                    block[i].0.data@,
                    key.data@,
                ) == item.distance
        } by {
            if t < scan_spec(key, rest, d).len() {
                let i = choose|i: int|
                    0 <= i < rest.len() && rest[i].1 == s[t].data && words_distance(
                        rest[i].0.data@,
                        key.data@,
                    ) == s[t].distance;
                assert(block[i] == rest[i]);
            } else {
                assert(block[block.len() - 1] == block.last());
            }
        }
    }
}

/// An empty index finds nothing and scans nothing.
pub proof fn lemma_empty_index_answer<V: Copy>(
    index: MemIndex<V>,
    key: Bits,
    d: u32,
    items: Seq<SearchResultItem<V>>,
    scanned: int,
)
    requires
        index.data@.len() == 0,
        index_answer(index, key, d, items, scanned),
    ensures
        items.len() == 0,
        scanned == 0,
{
    let (pk, lo, hi) = choose|pk: Bits, lo: int, hi: int|
        {
            &&& index.permuter.fits(&pk)
            &&& pk.bits() == index.permuter.apply_spec(key.bits())
            &&& 0 <= lo <= hi <= index.data@.len()
            &&& scanned == hi - lo
            &&& forall|i: int|
                0 <= i < index.data@.len() ==> (lo <= i < hi <==> index.mask_of(
                    #[trigger] index.data@[i].0.data@,
                ) == index.mask_of(pk.data@))
            &&& items == scan_spec(pk, index.data@.subrange(lo, hi), d)
        };
    assert(index.data@.subrange(lo, hi).len() == 0);
}

/// When every entry has the masked prefix of the permuted probe, the whole index is scanned; with
/// a single entry that is one candidate.
pub proof fn lemma_uniform_index_answer<V: Copy>(
    index: MemIndex<V>,
    key: Bits,
    pk: Bits,
    d: u32,
    items: Seq<SearchResultItem<V>>,
    scanned: int,
)
    requires
        index.wf(),
        index.permuter.fits(&key),
        index.permuter.fits(&pk),
        pk.bits() == index.permuter.apply_spec(key.bits()),
        forall|i: int| 0 <= i < index.data@.len() ==> (#[trigger] index.data@[i]).0.data@ == pk.data@,
        index_answer(index, key, d, items, scanned),
    ensures
        scanned == index.data@.len(),
{
    let (pk2, lo, hi) = choose|pk2: Bits, lo: int, hi: int|
        {
            &&& index.permuter.fits(&pk2)
            &&& pk2.bits() == index.permuter.apply_spec(key.bits())
            &&& 0 <= lo <= hi <= index.data@.len()
            &&& scanned == hi - lo
            &&& forall|i: int|
                0 <= i < index.data@.len() ==> (lo <= i < hi <==> index.mask_of(
                    #[trigger] index.data@[i].0.data@,
                ) == index.mask_of(pk2.data@))
            &&& items == scan_spec(pk2, index.data@.subrange(lo, hi), d)
        };
    crate::bits::lemma_bits_determine_words(pk2, pk);
    if lo > 0 {
        assert(index.mask_of(index.data@[0].0.data@) == index.mask_of(pk2.data@));
    }
    if hi < index.data@.len() {
        let last = index.data@.len() - 1;
        assert(index.mask_of(index.data@[last].0.data@) == index.mask_of(pk2.data@));
    }
}

/// After a removal no entry left is the permuted form of a removed key: reverting the key of any
/// entry that stayed gives none of the removed keys.
pub proof fn lemma_removed_keys_gone<V: Copy>(before: MemIndex<V>, after: MemIndex<V>, keys: Seq<Bits>)
    requires
        before.wf(),
        after.wf(),
        after.permuter == before.permuter,
        entries_view(after.data@) == entries_view(before.data@).filter(
            |e: (Seq<bool>, V)|
                !(exists|j: int|
                    0 <= j < keys.len() && e.0 == before.permuter.apply_spec((#[trigger] keys[j]).bits())),
        ),
    ensures
        forall|i: int, j: int|
            0 <= i < after.data@.len() && 0 <= j < keys.len() ==> after.permuter.revert_spec(
                (#[trigger] after.data@[i]).0.bits(),
            ) != (#[trigger] keys[j]).bits(),
{
    let p = before.permuter;
    let keep = |e: (Seq<bool>, V)|
        !(exists|j: int| 0 <= j < keys.len() && e.0 == p.apply_spec((#[trigger] keys[j]).bits()));
    let before_view = entries_view(before.data@);
    assert forall|i: int, j: int|
        0 <= i < after.data@.len() && 0 <= j < keys.len() implies after.permuter.revert_spec(
        (#[trigger] after.data@[i]).0.bits(),
    ) != (#[trigger] keys[j]).bits() by {
        let e = after.data@[i];
        let ev = entries_view(after.data@)[i];
        assert(ev == (e.0.bits(), e.1));
        before_view.lemma_filter_pred(keep, i);
        assert(keep(ev));
        assert(p.fits(&e.0));
        assert(e.0.bits().len() == p.total_bits) by {
            vstd::arithmetic::div_mod::lemma_fundamental_div_mod(p.total_bits as int, p.word_bits as int);
            assert(e.0.data@.len() * p.word_bits == p.word_bits * p.n_words()) by (nonlinear_arith)
                requires
                    e.0.data@.len() == p.n_words(),
            ;
        }
        lemma_apply_revert(p, e.0.bits());
        if p.revert_spec(e.0.bits()) == keys[j].bits() {
            assert(e.0.bits() == p.apply_spec(keys[j].bits()));
        }
    }
}

/// After a removal, a search at distance zero for a removed key finds nothing.
pub proof fn lemma_removed_key_not_found<V: Copy>(
    before: MemIndex<V>,
    after: MemIndex<V>,
    keys: Seq<Bits>,
    j: int,
    items: Seq<SearchResultItem<V>>,
    scanned: int,
)
    requires
        before.wf(),
        after.wf(),
        after.permuter == before.permuter,
        entries_view(after.data@) == entries_view(before.data@).filter(
            |e: (Seq<bool>, V)|
                !(exists|t: int|
                    0 <= t < keys.len() && e.0 == before.permuter.apply_spec((#[trigger] keys[t]).bits())),
        ),
        0 <= j < keys.len(),
        after.permuter.fits(&keys[j]),
        index_answer(after, keys[j], 0, items, scanned),
    ensures
        items.len() == 0,
{
    let p = before.permuter;
    let keep = |e: (Seq<bool>, V)|
        !(exists|t: int| 0 <= t < keys.len() && e.0 == p.apply_spec((#[trigger] keys[t]).bits()));
    lemma_exact_index_answer(after, keys[j], items, scanned);
    let pk = choose|pk: Bits|
        after.permuter.fits(&pk) && pk.bits() == after.permuter.apply_spec(keys[j].bits())
            && items == exact_matches(pk, after.data@);
    assert forall|i: int| 0 <= i < after.data@.len() implies (#[trigger] after.data@[i]).0.data@
        != pk.data@ by {
        let e = after.data@[i];
        entries_view(before.data@).lemma_filter_pred(keep, i);
        assert(entries_view(after.data@)[i] == (e.0.bits(), e.1));
        assert(keep((e.0.bits(), e.1)));
        assert(after.permuter.fits(&e.0));
        if e.0.data@ == pk.data@ {
            assert(e.0.bits() =~= pk.bits());
        }
    }
    lemma_exact_none(pk, after.data@);
}

/// Lengths of the runs of a sequence whose neighbours are all equal: one run of all of it.
proof fn lemma_runs_uniform<M: PartialEq>(ms: Seq<M>)
    requires
        ms.len() > 0,
        forall|i: int| 0 <= i < ms.len() - 1 ==> #[trigger] ms[i].eq_spec(&ms[i + 1]),
    ensures
        crate::index::run_lengths(ms) == seq![ms.len()],
    decreases ms.len(),
{
    if ms.len() > 1 {
        let rest = ms.drop_last();
        assert forall|i: int| 0 <= i < rest.len() - 1 implies #[trigger] rest[i].eq_spec(&rest[i + 1]) by {
            assert(rest[i] == ms[i] && rest[i + 1] == ms[i + 1]);
        }
        lemma_runs_uniform(rest);
        let i = ms.len() - 2;
        assert(ms[i].eq_spec(&ms[i + 1]));
        assert(crate::index::run_lengths(ms) =~= seq![ms.len()]);
    }
}

/// When all neighbouring masks are equal, the statistics report one block holding every entry.
pub proof fn lemma_uniform_stats<M: PartialEq>(s: IndexStats, ms: Seq<M>)
    requires
        s.describes(ms),
        ms.len() > 0,
        forall|i: int| 0 <= i < ms.len() - 1 ==> #[trigger] ms[i].eq_spec(&ms[i + 1]),
    ensures
        s.n_blocks == 1,
        s.n_items == ms.len(),
        s.min_block_size == ms.len(),
        s.max_block_size == ms.len(),
        s.avg_block_size == ms.len(),
{
    lemma_runs_uniform(ms);
    let r = crate::index::run_lengths(ms);
    assert(r.drop_last().len() == 0);
    assert(crate::index::seq_max(r.drop_last()) == 0);
    assert(r.len() == 1);
    assert(ms.len() as int / 1 == ms.len());
}

} // verus!
