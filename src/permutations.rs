//! The permutation compiler: block layouts of all variants and their word-level op lists.
use crate::bit_block::{
    mask_block_spec, split_spec, to_ops_spec, BitBlock, BitOp, PermutedBitBlock,
};
use itertools::Itertools;
use vstd::prelude::*;
use vstd::std_specs::bits::u64_leading_ones;

verus! {

/// Key of the group an operation belongs to: its destination and source words.
pub open spec fn op_key(op: BitOp) -> (usize, usize) {
    (op.spec_dst_word(), op.spec_src_word())
}

/// Concatenation of the operations of a list of groups.
pub open spec fn flatten_groups(groups: Seq<Vec<BitOp>>) -> Seq<BitOp> {
    groups.map_values(|g: Vec<BitOp>| g@).flatten()
}

/// Relies on itertools::Itertools::group_by: the maximal runs of consecutive operations that share
/// a destination and a source word, in order.
#[verifier::external_body]
fn group_runs(ops: Vec<BitOp>) -> (groups: Vec<Vec<BitOp>>)
    ensures
        flatten_groups(groups@) == ops@,
        forall|i: int| 0 <= i < groups@.len() ==> (#[trigger] groups@[i])@.len() > 0,
        forall|i: int, j: int|
            0 <= i < groups@.len() && 0 <= j < groups@[i]@.len() ==> op_key(
                #[trigger] groups@[i]@[j],
            ) == op_key(groups@[i]@[0]),
        forall|i: int|
            0 <= i < groups@.len() - 1 ==> op_key((#[trigger] groups@[i])@[0]) != op_key(
                groups@[i + 1]@[0],
            ),
{
    let grouped = ops.into_iter().group_by(|op| (op.dst_word(), op.src_word()));
    grouped.into_iter().map(|(_, group)| group.collect()).collect()
}

/// The `k`-element subsets of `lo..r`, each in increasing order, listed in lexicographic order:
/// first those that hold `lo`, then the others.
pub open spec fn combos(lo: nat, r: nat, k: nat) -> Seq<Seq<usize>>
    decreases r - lo,
{
    if k == 0 {
        seq![Seq::<usize>::empty()]
    } else if lo + k > r {
        Seq::empty()
    } else {
        combos(lo + 1, r, (k - 1) as nat).map_values(|c: Seq<usize>| seq![lo as usize] + c) + combos(
            lo + 1,
            r,
            k,
        )
    }
}

/// Binomial coefficient, by Pascal's rule.
pub open spec fn binom(n: nat, k: nat) -> nat
    decreases n,
{
    if k == 0 {
        1
    } else if n == 0 {
        0
    } else {
        binom((n - 1) as nat, (k - 1) as nat) + binom((n - 1) as nat, k)
    }
}

/// Relies on itertools::Itertools::combinations over `0..r`: the `k`-element subsets of `0..r`,
/// each in increasing order, in lexicographic order.
#[verifier::external_body]
fn index_combinations(r: usize, k: usize) -> (res: Vec<Vec<usize>>)
    ensures
        res@.map_values(|v: Vec<usize>| v@) == combos(0, r as nat, k as nat),
{
    (0..r).combinations(k).collect()
}

/// There are `C(r - lo, k)` subsets, each an increasing list of `k` numbers in `lo..r`.
pub proof fn lemma_combos(lo: nat, r: nat, k: nat)
    requires
        lo <= r,
        r < usize::MAX,
    ensures
        combos(lo, r, k).len() == binom((r - lo) as nat, k),
        forall|i: int|
            0 <= i < combos(lo, r, k).len() ==> {
                let c = #[trigger] combos(lo, r, k)[i];
                &&& c.len() == k
                &&& forall|a: int, b: int| 0 <= a < b < k ==> #[trigger] c[a] < #[trigger] c[b]
                &&& forall|a: int| 0 <= a < k ==> lo <= #[trigger] c[a] < r
            },
    decreases r - lo,
{
    if k == 0 {
    } else if lo + k > r {
        lemma_binom_zero((r - lo) as nat, k);
    } else {
        lemma_combos(lo + 1, r, (k - 1) as nat);
        lemma_combos(lo + 1, r, k);
        let with = combos(lo + 1, r, (k - 1) as nat).map_values(|c: Seq<usize>| seq![lo as usize] + c);
        let without = combos(lo + 1, r, k);
        assert(combos(lo, r, k) == with + without);
        assert forall|i: int| 0 <= i < combos(lo, r, k).len() implies {
            let c = #[trigger] combos(lo, r, k)[i];
            &&& c.len() == k
            &&& forall|a: int, b: int| 0 <= a < b < k ==> #[trigger] c[a] < #[trigger] c[b]
            &&& forall|a: int| 0 <= a < k ==> lo <= #[trigger] c[a] < r
        } by {
            if i < with.len() {
                let t = combos(lo + 1, r, (k - 1) as nat)[i];
                assert(combos(lo, r, k)[i] == seq![lo as usize] + t);
                let c = combos(lo, r, k)[i];
                assert forall|a: int, b: int| 0 <= a < b < k implies #[trigger] c[a] < #[trigger] c[b] by {
                    if a == 0 {
                        assert(c[b] == t[b - 1]);
                    } else {
                        assert(c[a] == t[a - 1] && c[b] == t[b - 1]);
                    }
                }
                assert forall|a: int| 0 <= a < k implies lo <= #[trigger] c[a] < r by {
                    if a > 0 {
                        assert(c[a] == t[a - 1]);
                    }
                }
            } else {
                assert(combos(lo, r, k)[i] == without[i - with.len()]);
            }
        }
    }
}

proof fn lemma_binom_pos(n: nat, k: nat)
    requires
        k <= n,
    ensures
        binom(n, k) > 0,
    decreases n,
{
    if k > 0 && n > 0 {
        lemma_binom_pos((n - 1) as nat, (k - 1) as nat);
    }
}

proof fn lemma_binom_zero(n: nat, k: nat)
    requires
        n < k,
    ensures
        binom(n, k) == 0,
    decreases n,
{
    if n > 0 {
        lemma_binom_zero((n - 1) as nat, (k - 1) as nat);
        lemma_binom_zero((n - 1) as nat, k);
    }
}

/// The operations of `ops` writing into word `dst`, in order.
pub open spec fn ops_into(ops: Seq<BitOp>, dst: usize) -> Seq<BitOp> {
    ops.filter(|op: BitOp| op.spec_dst_word() == dst)
}

/// Destination words are listed once each and every operation sits under its destination.
pub open spec fn well_grouped(result: Seq<(usize, Vec<BitOp>)>) -> bool {
    &&& forall|i: int, j: int|
        0 <= i < j < result.len() ==> (#[trigger] result[i]).0 != (#[trigger] result[j]).0
    &&& forall|i: int, j: int|
        0 <= i < result.len() && 0 <= j < result[i].1@.len() ==> (#[trigger] result[i].1@[j]).spec_dst_word()
            == result[i].0
}

/// Permutation of blocks: the first `head` blocks form the masked prefix.
pub struct Permutation {
    pub head: usize,
    pub blocks: Vec<PermutedBitBlock>,
}

impl Permutation {
    /// All blocks are valid, and the head is no longer than the block list.
    pub open spec fn wf(&self) -> bool {
        &&& self.head <= self.blocks@.len()
        &&& forall|i: int| 0 <= i < self.blocks@.len() ==> (#[trigger] self.blocks@[i]).wf()
    }

    pub fn from_blocks(head: usize, blocks: Vec<BitBlock>) -> (r: Self)
        requires
            forall|i: int| 0 <= i < blocks@.len() ==> (#[trigger] blocks@[i]).len > 0,
            prefix_len(blocks@, blocks@.len() as int) <= usize::MAX,
        ensures
            r.head == head,
            r.blocks@ == permuted_blocks_spec(blocks@),
    {
        let permuted_blocks = create_permuted_blocks(&blocks);
        Self { head, blocks: permuted_blocks }
    }

    pub fn compile_apply(&self, word_size: usize, optimize: bool) -> (r: Vec<(usize, Vec<BitOp>)>)
        requires
            self.wf(),
            0 < word_size <= 64,
        ensures
            well_grouped(r@),
            forall|d: usize|
                (#[trigger] entry_ops(r@, d)).len() > 0 <==> ops_into(
                    self.blocks@.map_values(|b: PermutedBitBlock| to_ops_spec(b, word_size)).flatten(),
                    d,
                ).len() > 0,
            !optimize ==> forall|d: usize|
                #[trigger] entry_ops(r@, d) == ops_into(
                    self.blocks@.map_values(|b: PermutedBitBlock| to_ops_spec(b, word_size)).flatten(),
                    d,
                ),
            !optimize ==> forall|i: int|
                0 <= i < r@.len() ==> (#[trigger] r@[i]).1@ == ops_into(
                    self.blocks@.map_values(|b: PermutedBitBlock| to_ops_spec(b, word_size)).flatten(),
                    r@[i].0,
                ),
    {
        let mut ops: Vec<BitOp> = Vec::new();
        let mut i: usize = 0;
        while i < self.blocks.len()
            invariant
                self.wf(),
                0 < word_size <= 64,
                i <= self.blocks@.len(),
                ops@ == self.blocks@.take(i as int).map_values(
                    |b: PermutedBitBlock| to_ops_spec(b, word_size),
                ).flatten(),
            decreases self.blocks@.len() - i,
        {
            let mut block_ops = self.blocks[i].to_ops(word_size);
            proof {
                let f = |b: PermutedBitBlock| to_ops_spec(b, word_size);
                assert(self.blocks@.take(i + 1).map_values(f) =~= self.blocks@.take(i as int).map_values(
                    f,
                ).push(f(self.blocks@[i as int])));
                self.blocks@.take(i as int).map_values(f).lemma_flatten_push(f(self.blocks@[i as int]));
            }
            ops.append(&mut block_ops);
            i = i + 1;
        }
        proof {
            assert(self.blocks@.take(i as int) =~= self.blocks@);
        }
        compile_permutation(ops, word_size, optimize)
    }

    pub fn compile_revert(&self, word_size: usize, optimize: bool) -> (r: Vec<(usize, Vec<BitOp>)>)
        requires
            self.wf(),
            0 < word_size <= 64,
        ensures
            well_grouped(r@),
            forall|d: usize|
                (#[trigger] entry_ops(r@, d)).len() > 0 <==> ops_into(
                    self.blocks@.map_values(
                        |b: PermutedBitBlock| to_ops_spec(b.apply_spec(), word_size),
                    ).flatten(),
                    d,
                ).len() > 0,
            !optimize ==> forall|d: usize|
                #[trigger] entry_ops(r@, d) == ops_into(
                    self.blocks@.map_values(
                        |b: PermutedBitBlock| to_ops_spec(b.apply_spec(), word_size),
                    ).flatten(),
                    d,
                ),
            !optimize ==> forall|i: int|
                0 <= i < r@.len() ==> (#[trigger] r@[i]).1@ == ops_into(
                    self.blocks@.map_values(
                        |b: PermutedBitBlock| to_ops_spec(b.apply_spec(), word_size),
                    ).flatten(),
                    r@[i].0,
                ),
    {
        let mut ops: Vec<BitOp> = Vec::new();
        let mut i: usize = 0;
        while i < self.blocks.len()
            invariant
                self.wf(),
                0 < word_size <= 64,
                i <= self.blocks@.len(),
                ops@ == self.blocks@.take(i as int).map_values(
                    |b: PermutedBitBlock| to_ops_spec(b.apply_spec(), word_size),
                ).flatten(),
            decreases self.blocks@.len() - i,
        {
            let back = self.blocks[i].apply();
            let mut block_ops = back.to_ops(word_size);
            proof {
                let f = |b: PermutedBitBlock| to_ops_spec(b.apply_spec(), word_size);
                assert(self.blocks@.take(i + 1).map_values(f) =~= self.blocks@.take(i as int).map_values(
                    f,
                ).push(f(self.blocks@[i as int])));
                self.blocks@.take(i as int).map_values(f).lemma_flatten_push(f(self.blocks@[i as int]));
            }
            ops.append(&mut block_ops);
            i = i + 1;
        }
        proof {
            assert(self.blocks@.take(i as int) =~= self.blocks@);
        }
        compile_permutation(ops, word_size, optimize)
    }

    /// Operations that keep the head blocks at their places in a permuted key and clear the rest.
    pub fn compile_top_mask(&self, word_size: usize, optimize: bool) -> (r: Vec<(usize, Vec<BitOp>)>)
        requires
            self.wf(),
            0 < word_size <= 64,
        ensures
            well_grouped(r@),
            forall|d: usize|
                (#[trigger] entry_ops(r@, d)).len() > 0 <==> ops_into(
                    self.blocks@.take(self.head as int).map_values(
                        |b: PermutedBitBlock|
                            split_spec(b.apply_spec().block, word_size).map(
                                |j: int, p: BitBlock| mask_block_spec(p, word_size),
                            ),
                    ).flatten(),
                    d,
                ).len() > 0,
            !optimize ==> forall|d: usize|
                #[trigger] entry_ops(r@, d) == ops_into(
                    self.blocks@.take(self.head as int).map_values(
                        |b: PermutedBitBlock|
                            split_spec(b.apply_spec().block, word_size).map(
                                |j: int, p: BitBlock| mask_block_spec(p, word_size),
                            ),
                    ).flatten(),
                    d,
                ),
            !optimize ==> forall|i: int|
                0 <= i < r@.len() ==> (#[trigger] r@[i]).1@ == ops_into(
                    self.blocks@.take(self.head as int).map_values(
                        |b: PermutedBitBlock|
                            split_spec(b.apply_spec().block, word_size).map(
                                |j: int, p: BitBlock| mask_block_spec(p, word_size),
                            ),
                    ).flatten(),
                    r@[i].0,
                ),
    {
        let mut ops: Vec<BitOp> = Vec::new();
        let mut i: usize = 0;
        while i < self.head
            invariant
                self.wf(),
                0 < word_size <= 64,
                i <= self.head,
                ops@ == self.blocks@.take(i as int).map_values(
                    |b: PermutedBitBlock|
                        split_spec(b.apply_spec().block, word_size).map(
                            |j: int, p: BitBlock| mask_block_spec(p, word_size),
                        ),
                ).flatten(),
            decreases self.head - i,
        {
            let mut block_ops = self.blocks[i].to_mask_ops(word_size);
            proof {
                let f = |b: PermutedBitBlock|
                    split_spec(b.apply_spec().block, word_size).map(
                        |j: int, p: BitBlock| mask_block_spec(p, word_size),
                    );
                assert(self.blocks@.take(i + 1).map_values(f) =~= self.blocks@.take(i as int).map_values(
                    f,
                ).push(f(self.blocks@[i as int])));
                self.blocks@.take(i as int).map_values(f).lemma_flatten_push(f(self.blocks@[i as int]));
            }
            ops.append(&mut block_ops);
            i = i + 1;
        }
        compile_permutation(ops, word_size, optimize)
    }

    pub fn blocks(&self) -> (r: &[PermutedBitBlock])
        ensures
            r@ == self.blocks@,
    {
        self.blocks.as_slice()
    }

    /// Number of bits in the head blocks.
    pub fn mask_bits(&self) -> (r: usize)
        requires
            self.head <= self.blocks@.len(),
            blocks_len_sum(self.blocks@) <= usize::MAX,
        ensures
            r == head_len(self.blocks@, self.head as int),
    {
        let mut sum: usize = 0;
        let mut i: usize = 0;
        while i < self.head
            invariant
                self.head <= self.blocks@.len(),
                blocks_len_sum(self.blocks@) <= usize::MAX,
                i <= self.head,
                sum == head_len(self.blocks@, i as int),
            decreases self.head - i,
        {
            proof {
                lemma_head_len_le_sum(self.blocks@, i + 1);
            }
            sum = sum + self.blocks[i].block.len();
            i = i + 1;
        }
        sum
    }

    /// Number of words the head blocks fill.
    pub fn mask_words(&self, word_size: usize) -> (r: usize)
        requires
            self.head <= self.blocks@.len(),
            blocks_len_sum(self.blocks@) <= usize::MAX,
            word_size > 0,
        ensures
            r == head_len(self.blocks@, self.head as int) / (word_size as int) + if head_len(
                self.blocks@,
                self.head as int,
            ) % (word_size as int) == 0 {
                0int
            } else {
                1int
            },
    {
        let bits = self.mask_bits();
        proof {
            assert(bits / word_size <= bits) by (nonlinear_arith)
                requires
                    word_size > 0,
            ;
            assert(bits % word_size != 0 ==> bits / word_size < bits) by (nonlinear_arith)
                requires
                    word_size > 0,
            ;
        }
        bits / word_size + if bits % word_size == 0 {
            0
        } else {
            1
        }
    }
}

/// Total length of the first `n` blocks.
pub open spec fn head_len(blocks: Seq<PermutedBitBlock>, n: int) -> int
    decreases n,
{
    if n <= 0 {
        0
    } else {
        head_len(blocks, n - 1) + blocks[n - 1].block.len
    }
}

/// Total length of all blocks.
pub open spec fn blocks_len_sum(blocks: Seq<PermutedBitBlock>) -> int {
    head_len(blocks, blocks.len() as int)
}

/// The head grows with the number of blocks in it.
pub proof fn lemma_head_len_mono(blocks: Seq<PermutedBitBlock>, a: int, b: int)
    requires
        0 <= a <= b,
    ensures
        head_len(blocks, a) <= head_len(blocks, b),
    decreases b - a,
{
    if a < b {
        lemma_head_len_mono(blocks, a, b - 1);
    }
}

proof fn lemma_head_len_le_sum(blocks: Seq<PermutedBitBlock>, n: int)
    requires
        0 <= n <= blocks.len(),
    ensures
        head_len(blocks, n) <= blocks_len_sum(blocks),
        0 <= head_len(blocks, n),
    decreases blocks.len() - n,
{
    if n < blocks.len() {
        lemma_head_len_le_sum(blocks, n + 1);
    }
    lemma_head_len_nonneg(blocks, n);
}

proof fn lemma_head_len_nonneg(blocks: Seq<PermutedBitBlock>, n: int)
    ensures
        0 <= head_len(blocks, n),
    decreases n,
{
    if n > 0 {
        lemma_head_len_nonneg(blocks, n - 1);
    }
}

/// The operations listed under destination word `d`, or none when `d` has no entry.
pub open spec fn entry_ops(result: Seq<(usize, Vec<BitOp>)>, d: usize) -> Seq<BitOp> {
    if exists|i: int| 0 <= i < result.len() && (#[trigger] result[i]).0 == d {
        result[choose|i: int| 0 <= i < result.len() && (#[trigger] result[i]).0 == d].1@
    } else {
        Seq::empty()
    }
}

proof fn lemma_entry_ops_at(result: Seq<(usize, Vec<BitOp>)>, i: int)
    requires
        well_grouped(result),
        0 <= i < result.len(),
    ensures
        entry_ops(result, result[i].0) == result[i].1@,
{
    let d = result[i].0;
    let c = choose|c: int| 0 <= c < result.len() && (#[trigger] result[c]).0 == d;
    if c != i {
        if c < i {
            assert(result[c].0 != result[i].0);
        } else {
            assert(result[i].0 != result[c].0);
        }
    }
}

/// Group operations by destination word. Runs of operations that share a destination and a source
/// word are kept together and, when `optimize` is set, neighbours in a run whose masks touch are
/// merged; a merged mask that covers the whole word becomes a plain copy.
fn compile_permutation(ops: Vec<BitOp>, word_size: usize, optimize: bool) -> (result: Vec<
    (usize, Vec<BitOp>),
>)
    requires
        0 < word_size <= 64,
    ensures
        well_grouped(result@),
        forall|d: usize|
            (#[trigger] entry_ops(result@, d)).len() > 0 <==> ops_into(ops@, d).len() > 0,
        !optimize ==> forall|d: usize| #[trigger] entry_ops(result@, d) == ops_into(ops@, d),
        !optimize ==> forall|i: int|
            0 <= i < result@.len() ==> (#[trigger] result@[i]).1@ == ops_into(ops@, result@[i].0),
{
    let ghost all_ops = ops@;
    let groups = group_runs(ops);
    let mut result: Vec<(usize, Vec<BitOp>)> = Vec::new();
    let mut gi: usize = 0;
    proof {
        assert forall|d: usize| #[trigger] entry_ops(result@, d) == ops_into(
            flatten_groups(groups@.take(0)),
            d,
        ) by {
            assert(flatten_groups(groups@.take(0)) =~= Seq::<BitOp>::empty());
            lemma_filter_none(Seq::<BitOp>::empty(), |op: BitOp| op.spec_dst_word() == d);
        }
    }
    while gi < groups.len()
        invariant
            0 < word_size <= 64,
            flatten_groups(groups@) == all_ops,
            forall|i: int| 0 <= i < groups@.len() ==> (#[trigger] groups@[i])@.len() > 0,
            forall|i: int, j: int|
                0 <= i < groups@.len() && 0 <= j < groups@[i]@.len() ==> op_key(
                    #[trigger] groups@[i]@[j],
                ) == op_key(groups@[i]@[0]),
            gi <= groups@.len(),
            well_grouped(result@),
            forall|d: usize|
                (#[trigger] entry_ops(result@, d)).len() > 0 <==> ops_into(
                    flatten_groups(groups@.take(gi as int)),
                    d,
                ).len() > 0,
            !optimize ==> forall|d: usize|
                #[trigger] entry_ops(result@, d) == ops_into(flatten_groups(groups@.take(gi as int)), d),
        decreases groups@.len() - gi,
    {
        let group = &groups[gi];
        let dst_word = group[0].dst_word();
        let word_ops = compile_run(group, word_size, optimize);
        let ghost prev = result@;
        add_to_entry(&mut result, dst_word, word_ops);
        proof {
            lemma_groups_take_push(groups@, gi as int);
            assert forall|d: usize|
                (#[trigger] entry_ops(result@, d)).len() > 0 <==> ops_into(
                    flatten_groups(groups@.take(gi + 1)),
                    d,
                ).len() > 0 by {
                lemma_ops_into_append(flatten_groups(groups@.take(gi as int)), groups@[gi as int]@, d);
                if d != dst_word {
                    assert forall|j: int| 0 <= j < groups@[gi as int]@.len() implies (
                    #[trigger] groups@[gi as int]@[j]).spec_dst_word() != d by {
                        assert(op_key(groups@[gi as int]@[j]) == op_key(groups@[gi as int]@[0]));
                    }
                    assert(ops_into(flatten_groups(groups@.take(gi as int)), d) + Seq::<BitOp>::empty()
                        =~= ops_into(flatten_groups(groups@.take(gi as int)), d));
                } else {
                    assert forall|j: int| 0 <= j < groups@[gi as int]@.len() implies (
                    #[trigger] groups@[gi as int]@[j]).spec_dst_word() == d by {
                        assert(op_key(groups@[gi as int]@[j]) == op_key(groups@[gi as int]@[0]));
                    }
                }
            }
            if !optimize {
                assert forall|d: usize| #[trigger] entry_ops(result@, d) == ops_into(
                    flatten_groups(groups@.take(gi + 1)),
                    d,
                ) by {
                    lemma_ops_into_append(flatten_groups(groups@.take(gi as int)), groups@[gi as int]@, d);
                    if d != dst_word {
                        assert forall|j: int| 0 <= j < groups@[gi as int]@.len() implies (
                        #[trigger] groups@[gi as int]@[j]).spec_dst_word() != d by {
                            assert(op_key(groups@[gi as int]@[j]) == op_key(groups@[gi as int]@[0]));
                        }
                        assert(ops_into(flatten_groups(groups@.take(gi as int)), d) + Seq::<BitOp>::empty()
                            =~= ops_into(flatten_groups(groups@.take(gi as int)), d));
                    } else {
                        assert forall|j: int| 0 <= j < groups@[gi as int]@.len() implies (
                        #[trigger] groups@[gi as int]@[j]).spec_dst_word() == d by {
                            assert(op_key(groups@[gi as int]@[j]) == op_key(groups@[gi as int]@[0]));
                        }
                    }
                }
            }
        }
        gi = gi + 1;
    }
    proof {
        assert(groups@.take(gi as int) =~= groups@);
        if !optimize {
            assert forall|i: int| 0 <= i < result@.len() implies (#[trigger] result@[i]).1@ == ops_into(
                all_ops,
                result@[i].0,
            ) by {
                lemma_entry_ops_at(result@, i);
            }
        }
    }
    result
}

/// The operations of one run of equal (destination, source) words; when `optimize` is set,
/// neighbours whose masks touch are merged, and a merged mask that covers the whole word becomes
/// a plain copy.
fn compile_run(group: &Vec<BitOp>, word_size: usize, optimize: bool) -> (word_ops: Vec<BitOp>)
    requires
        0 < word_size <= 64,
        group@.len() > 0,
        forall|j: int| 0 <= j < group@.len() ==> op_key(#[trigger] group@[j]) == op_key(group@[0]),
    ensures
        word_ops@.len() > 0,
        forall|j: int|
            0 <= j < word_ops@.len() ==> (#[trigger] word_ops@[j]).spec_dst_word()
                == group@[0].spec_dst_word(),
        !optimize ==> word_ops@ == group@,
{
    let dst_word = group[0].dst_word();
    let src_word = group[0].src_word();
    let mut prev_op = group[0];
    let mut word_ops: Vec<BitOp> = Vec::new();
    let mut k: usize = 1;
    proof {
        assert(word_ops@.push(prev_op) =~= group@.take(1));
    }
    while k < group.len()
        invariant
            0 < word_size <= 64,
            1 <= k <= group@.len(),
            forall|j: int| 0 <= j < group@.len() ==> op_key(#[trigger] group@[j]) == (dst_word, src_word),
            prev_op.spec_dst_word() == dst_word,
            forall|j: int| 0 <= j < word_ops@.len() ==> (#[trigger] word_ops@[j]).spec_dst_word() == dst_word,
            !optimize ==> word_ops@.push(prev_op) == group@.take(k as int),
        decreases group@.len() - k,
    {
        let op = group[k];
        if optimize && prev_op.mask() != 0 && op.mask() != 0 {
            if let Some(combined_op) = prev_op.combine(&op) {
                if combined_op.mask().leading_ones() == word_size as u32 {
                    prev_op = BitOp::Copy { src_word, dst_word };
                } else {
                    prev_op = combined_op;
                }
                k = k + 1;
                continue;
            }
        }
        word_ops.push(prev_op);
        prev_op = op;
        k = k + 1;
        proof {
            if !optimize {
                assert(group@.take(k as int) =~= group@.take(k - 1).push(op));
            }
        }
    }
    word_ops.push(prev_op);
    proof {
        if !optimize {
            assert(group@.take(k as int) =~= group@);
        }
    }
    word_ops
}

/// Append `ops` to the entry of destination word `dst`, or start one.
fn add_to_entry(result: &mut Vec<(usize, Vec<BitOp>)>, dst: usize, ops: Vec<BitOp>)
    requires
        well_grouped(old(result)@),
        forall|j: int| 0 <= j < ops@.len() ==> (#[trigger] ops@[j]).spec_dst_word() == dst,
    ensures
        well_grouped(final(result)@),
        forall|d: usize|
            #[trigger] entry_ops(final(result)@, d) == if d == dst {
                entry_ops(old(result)@, d) + ops@
            } else {
                entry_ops(old(result)@, d)
            },
{
    let ghost prev = result@;
    let mut pos: usize = 0;
    while pos < result.len() && result[pos].0 != dst
        invariant
            pos <= result@.len(),
            forall|i: int| 0 <= i < pos ==> (#[trigger] result@[i]).0 != dst,
        decreases result@.len() - pos,
    {
        pos = pos + 1;
    }
    if pos < result.len() {
        let mut entry = result.remove(pos);
        let mut more = ops;
        let ghost old_entry = entry;
        entry.1.append(&mut more);
        result.insert(pos, entry);
        proof {
            assert(result@ =~= prev.update(pos as int, entry));
            assert forall|i: int, j: int|
                0 <= i < result@.len() && 0 <= j < result@[i].1@.len() implies (#[trigger] result@[i].1@[j]).spec_dst_word()
                == result@[i].0 by {
                if i == pos {
                    if j >= old_entry.1@.len() {
                        assert(result@[i].1@[j] == ops@[j - old_entry.1@.len()]);
                    } else {
                        assert(result@[i].1@[j] == prev[i].1@[j]);
                    }
                }
            }
            assert forall|d: usize| #[trigger] entry_ops(result@, d) == if d == dst {
                entry_ops(prev, d) + ops@
            } else {
                entry_ops(prev, d)
            } by {
                if d == dst {
                    lemma_entry_ops_at(result@, pos as int);
                    lemma_entry_ops_at(prev, pos as int);
                } else if exists|i: int| 0 <= i < prev.len() && (#[trigger] prev[i]).0 == d {
                    let i = choose|i: int| 0 <= i < prev.len() && (#[trigger] prev[i]).0 == d;
                    lemma_entry_ops_at(result@, i);
                    lemma_entry_ops_at(prev, i);
                } else {
                    assert(!exists|i: int| 0 <= i < result@.len() && (#[trigger] result@[i]).0 == d) by {
                        if exists|i: int| 0 <= i < result@.len() && (#[trigger] result@[i]).0 == d {
                            let i = choose|i: int| 0 <= i < result@.len() && (#[trigger] result@[i]).0 == d;
                            assert(prev[i].0 == d);
                        }
                    }
                }
            }
        }
    } else {
        result.push((dst, ops));
        proof {
            let n = prev.len() as int;
            assert forall|d: usize| #[trigger] entry_ops(result@, d) == if d == dst {
                entry_ops(prev, d) + ops@
            } else {
                entry_ops(prev, d)
            } by {
                if d == dst {
                    lemma_entry_ops_at(result@, n);
                    assert(!exists|i: int| 0 <= i < prev.len() && (#[trigger] prev[i]).0 == d);
                    assert(Seq::<BitOp>::empty() + ops@ =~= ops@);
                } else if exists|i: int| 0 <= i < prev.len() && (#[trigger] prev[i]).0 == d {
                    let i = choose|i: int| 0 <= i < prev.len() && (#[trigger] prev[i]).0 == d;
                    lemma_entry_ops_at(result@, i);
                    lemma_entry_ops_at(prev, i);
                } else {
                    assert(!exists|i: int| 0 <= i < result@.len() && (#[trigger] result@[i]).0 == d) by {
                        if exists|i: int| 0 <= i < result@.len() && (#[trigger] result@[i]).0 == d {
                            let i = choose|i: int| 0 <= i < result@.len() && (#[trigger] result@[i]).0 == d;
                            if i < n {
                                assert(prev[i].0 == d);
                            }
                        }
                    }
                }
            }
        }
    }
}

proof fn lemma_groups_take_push(groups: Seq<Vec<BitOp>>, i: int)
    requires
        0 <= i < groups.len(),
    ensures
        flatten_groups(groups.take(i + 1)) == flatten_groups(groups.take(i)) + groups[i]@,
{
    let f = |g: Vec<BitOp>| g@;
    assert(groups.take(i + 1).map_values(f) =~= groups.take(i).map_values(f).push(groups[i]@));
    groups.take(i).map_values(f).lemma_flatten_push(groups[i]@);
}

/// Selecting by destination word distributes over concatenation, and a run whose operations all
/// write word `d` is kept whole.
proof fn lemma_ops_into_append(a: Seq<BitOp>, g: Seq<BitOp>, d: usize)
    ensures
        ops_into(a + g, d) == ops_into(a, d) + ops_into(g, d),
        (forall|j: int| 0 <= j < g.len() ==> (#[trigger] g[j]).spec_dst_word() == d) ==> ops_into(g, d)
            == g,
        (forall|j: int| 0 <= j < g.len() ==> (#[trigger] g[j]).spec_dst_word() != d) ==> ops_into(g, d)
            == Seq::<BitOp>::empty(),
{
    let p = |op: BitOp| op.spec_dst_word() == d;
    Seq::filter_distributes_over_add(a, g, p);
    if forall|j: int| 0 <= j < g.len() ==> (#[trigger] g[j]).spec_dst_word() == d {
        lemma_filter_all(g, p);
    }
    if forall|j: int| 0 <= j < g.len() ==> (#[trigger] g[j]).spec_dst_word() != d {
        lemma_filter_none(g, p);
    }
}

proof fn lemma_filter_all(s: Seq<BitOp>, p: spec_fn(BitOp) -> bool)
    requires
        forall|j: int| 0 <= j < s.len() ==> p(#[trigger] s[j]),
    ensures
        s.filter(p) == s,
    decreases s.len(),
{
    reveal_with_fuel(Seq::filter, 1);
    if s.len() > 0 {
        lemma_filter_all(s.drop_last(), p);
        assert(s.drop_last().push(s.last()) =~= s);
    }
}

proof fn lemma_filter_none(s: Seq<BitOp>, p: spec_fn(BitOp) -> bool)
    requires
        forall|j: int| 0 <= j < s.len() ==> !p(#[trigger] s[j]),
    ensures
        s.filter(p) == Seq::<BitOp>::empty(),
    decreases s.len(),
{
    reveal_with_fuel(Seq::filter, 1);
    if s.len() > 0 {
        lemma_filter_none(s.drop_last(), p);
    } else {
        assert(s =~= Seq::<BitOp>::empty());
    }
}

/// `r` blocks of sizes `f / r` or `f / r + 1`, the larger ones first, covering `0..f` in order.
pub open spec fn split_blocks_spec(f: usize, r: usize) -> Seq<BitBlock> {
    Seq::new(
        r as nat,
        |i: int|
            BitBlock {
                idx: i as usize,
                pos: (i * (f / r) + if i < f % r {
                    i
                } else {
                    (f % r) as int
                }) as usize,
                len: (f / r + if i < f % r {
                    1int
                } else {
                    0int
                }) as usize,
            },
    )
}

/// Split `f` bits into `r` contiguous blocks.
pub fn split_bits_into_blocks(f: usize, r: usize) -> (blocks: Vec<BitBlock>)
    requires
        0 < r <= f,
        f < usize::MAX,
    ensures
        blocks@ == split_blocks_spec(f, r),
{
    let mut blocks: Vec<BitBlock> = Vec::new();
    let mut acc: usize = 0;
    let mut i: usize = 0;
    let q = f / r;
    let m = f % r;
    proof {
        assert(q >= 1) by (nonlinear_arith)
            requires
                0 < r <= f,
                q == f / r,
        ;
        assert(q * r + m == f) by {
            vstd::arithmetic::div_mod::lemma_fundamental_div_mod(f as int, r as int);
        }
        assert(q <= f) by (nonlinear_arith)
            requires
                q * r + m == f,
                r >= 1,
                m >= 0,
                q >= 1,
        ;
    }
    while i < r
        invariant
            0 < r <= f,
            f < usize::MAX,
            q == f / r,
            m == f % r,
            q >= 1,
            q <= f,
            q * r + m == f,
            m < r,
            i <= r,
            acc == i * q + if i < m {
                i as int
            } else {
                m as int
            },
            blocks@ == split_blocks_spec(f, r).take(i as int),
        decreases r - i,
    {
        let size = q + if i < m {
            1
        } else {
            0
        };
        proof {
            assert((i + 1) * q <= r * q) by (nonlinear_arith)
                requires
                    i < r,
                    q >= 1,
            ;
            assert(q <= f) by (nonlinear_arith)
                requires
                    q * r + m == f,
                    r >= 1,
                    m >= 0,
                    q >= 1,
            ;
            assert(i * q <= r * q) by (nonlinear_arith)
                requires
                    i <= r,
                    q >= 1,
            ;
            assert((i + 1) * q == i * q + q) by (nonlinear_arith);
            assert(r * q == q * r) by (nonlinear_arith);
        }
        blocks.push(BitBlock::new(i, acc, size));
        proof {
            assert(blocks@ =~= split_blocks_spec(f, r).take(i + 1));
        }
        acc = acc + size;
        i = i + 1;
    }
    proof {
        assert(split_blocks_spec(f, r).take(r as int) =~= split_blocks_spec(f, r));
    }
    blocks
}

/// The blocks named by `order` in that order, then the others in their original order.
pub open spec fn reorder_spec(blocks: Seq<BitBlock>, order: Seq<usize>) -> Seq<BitBlock> {
    order.map_values(|p: usize| blocks[p as int]) + blocks.filter(
        |b: BitBlock| !order.contains(b.idx),
    )
}

/// Place the blocks at the positions of `order` first, the rest after them in original order.
pub fn reorder_blocks(blocks: &[BitBlock], order: &[usize]) -> (permuted: Vec<BitBlock>)
    requires
        forall|i: int| 0 <= i < order@.len() ==> (#[trigger] order@[i]) < blocks@.len(),
    ensures
        permuted@ == reorder_spec(blocks@, order@),
{
    let mut permuted: Vec<BitBlock> = Vec::new();
    let mut i: usize = 0;
    while i < order.len()
        invariant
            forall|i: int| 0 <= i < order@.len() ==> (#[trigger] order@[i]) < blocks@.len(),
            i <= order@.len(),
            permuted@ == order@.take(i as int).map_values(|p: usize| blocks@[p as int]),
        decreases order@.len() - i,
    {
        permuted.push(blocks[order[i]]);
        i = i + 1;
        proof {
            assert(permuted@ =~= order@.take(i as int).map_values(|p: usize| blocks@[p as int]));
        }
    }
    proof {
        assert(order@.take(i as int) =~= order@);
    }
    let ghost head = permuted@;
    let ghost keep = |b: BitBlock| !order@.contains(b.idx);
    let mut j: usize = 0;
    while j < blocks.len()
        invariant
            j <= blocks@.len(),
            keep == (|b: BitBlock| !order@.contains(b.idx)),
            permuted@ == head + blocks@.take(j as int).filter(keep),
        decreases blocks@.len() - j,
    {
        let b = blocks[j];
        let mut found = false;
        let mut k: usize = 0;
        while k < order.len()
            invariant
                k <= order@.len(),
                found == order@.take(k as int).contains(b.idx),
            decreases order@.len() - k,
        {
            proof {
                assert(order@.take(k + 1) =~= order@.take(k as int).push(order@[k as int]));
                assert(order@.take(k + 1).contains(b.idx) == (order@.take(k as int).contains(b.idx)
                    || order@[k as int] == b.idx)) by {
                    if order@[k as int] == b.idx {
                        assert(order@.take(k + 1)[k as int] == b.idx);
                    }
                    if order@.take(k as int).contains(b.idx) {
                        let t = choose|t: int| 0 <= t < k && #[trigger] order@.take(k as int)[t] == b.idx;
                        assert(order@.take(k + 1)[t] == b.idx);
                    }
                    if order@.take(k + 1).contains(b.idx) {
                        let t = choose|t: int| 0 <= t < k + 1 && #[trigger] order@.take(k + 1)[t] == b.idx;
                        if t < k {
                            assert(order@.take(k as int)[t] == b.idx);
                        }
                    }
                }
            }
            if order[k] == b.idx {
                found = true;
            }
            k = k + 1;
        }
        proof {
            assert(order@.take(k as int) =~= order@);
            assert(blocks@.take(j + 1) =~= blocks@.take(j as int).push(b));
            crate::util::lemma_filter_push(blocks@.take(j as int), b, keep);
        }
        if !found {
            permuted.push(b);
        }
        j = j + 1;
    }
    proof {
        assert(blocks@.take(j as int) =~= blocks@);
    }
    permuted
}

/// Each block paired with the position it takes when the blocks are laid out one after another.
pub open spec fn permuted_blocks_spec(blocks: Seq<BitBlock>) -> Seq<PermutedBitBlock> {
    Seq::new(
        blocks.len(),
        |i: int| PermutedBitBlock { block: blocks[i], new_pos: prefix_len(blocks, i) as usize },
    )
}

/// Total length of the first `n` blocks.
pub open spec fn prefix_len(blocks: Seq<BitBlock>, n: int) -> int
    decreases n,
{
    if n <= 0 {
        0
    } else {
        prefix_len(blocks, n - 1) + blocks[n - 1].len
    }
}

/// Lay the blocks out one after another, starting at bit 0.
pub fn create_permuted_blocks(reordered_blocks: &[BitBlock]) -> (permuted: Vec<PermutedBitBlock>)
    requires
        prefix_len(reordered_blocks@, reordered_blocks@.len() as int) <= usize::MAX,
    ensures
        permuted@ == permuted_blocks_spec(reordered_blocks@),
{
    let mut permuted: Vec<PermutedBitBlock> = Vec::new();
    let mut acc: usize = 0;
    let mut i: usize = 0;
    while i < reordered_blocks.len()
        invariant
            prefix_len(reordered_blocks@, reordered_blocks@.len() as int) <= usize::MAX,
            i <= reordered_blocks@.len(),
            acc == prefix_len(reordered_blocks@, i as int),
            permuted@ == permuted_blocks_spec(reordered_blocks@).take(i as int),
        decreases reordered_blocks@.len() - i,
    {
        let block = reordered_blocks[i];
        proof {
            lemma_prefix_len_mono(reordered_blocks@, i + 1, reordered_blocks@.len() as int);
        }
        permuted.push(PermutedBitBlock::new(block, acc));
        proof {
            assert(permuted@ =~= permuted_blocks_spec(reordered_blocks@).take(i + 1));
        }
        acc = acc + block.len();
        i = i + 1;
    }
    proof {
        assert(permuted_blocks_spec(reordered_blocks@).take(i as int) =~= permuted_blocks_spec(
            reordered_blocks@,
        ));
    }
    permuted
}

/// Laying out more blocks never takes fewer bits.
proof fn lemma_prefix_len_mono(blocks: Seq<BitBlock>, a: int, b: int)
    requires
        0 <= a <= b,
    ensures
        0 <= prefix_len(blocks, a) <= prefix_len(blocks, b),
    decreases b,
{
    if a < b {
        lemma_prefix_len_mono(blocks, a, b - 1);
    } else if a > 0 {
        lemma_prefix_len_mono(blocks, a - 1, a - 1);
    }
}

/// `order` lists `k` distinct block numbers below `r` in increasing order.
pub open spec fn is_subset_order(order: Seq<usize>, r: usize, k: usize) -> bool {
    &&& order.len() == k
    &&& forall|a: int, b: int| 0 <= a < b < k ==> order[a] < order[b]
    &&& forall|a: int| 0 <= a < k ==> order[a] < r
}

/// Build all `C(r, k)` permutation variants of `total_bits`-bit keys: for each `k`-subset of the
/// blocks in lexicographic order, that subset first and the remaining blocks after it in order.
pub fn create_permutations(total_bits: usize, word_bits: usize, r: usize, k: usize) -> (perms: Vec<
    Permutation,
>)
    requires
        word_bits > 0,
        total_bits % word_bits == 0,
        0 < k <= r <= total_bits,
        4 * total_bits + 64 <= usize::MAX,
    ensures
        perms@.len() == binom(r as nat, k as nat),
        perms@.len() > 0,
        forall|i: int|
            0 <= i < perms@.len() ==> {
                &&& (#[trigger] perms@[i]).head == k
                &&& perms@[i].wf()
                &&& is_subset_order(combos(0, r as nat, k as nat)[i], r, k)
                &&& perms@[i].blocks@ == permuted_blocks_spec(
                    reorder_spec(split_blocks_spec(total_bits, r), combos(0, r as nat, k as nat)[i]),
                )
            },
{
    let blocks = split_bits_into_blocks(total_bits, r);
    proof {
        lemma_split_blocks_bounds(total_bits, r);
    }
    let orders = index_combinations(r, k);
    let ghost cs = combos(0, r as nat, k as nat);
    proof {
        lemma_combos(0, r as nat, k as nat);
        lemma_binom_pos(r as nat, k as nat);
        assert(orders@.len() == cs.len());
        assert forall|j: int| 0 <= j < orders@.len() implies (#[trigger] orders@[j])@ == cs[j] by {
            assert(orders@.map_values(|v: Vec<usize>| v@)[j] == orders@[j]@);
        }
    }
    let mut perms: Vec<Permutation> = Vec::new();
    let mut i: usize = 0;
    while i < orders.len()
        invariant
            blocks@ == split_blocks_spec(total_bits, r),
            blocks@.len() == r,
            0 < k <= r <= total_bits,
            4 * total_bits + 64 <= usize::MAX,
            forall|j: int|
                0 <= j < r ==> (#[trigger] blocks@[j]).len > 0 && blocks@[j].pos + blocks@[j].len
                    <= total_bits && blocks@[j].idx == j,
            cs == combos(0, r as nat, k as nat),
            orders@.len() == cs.len(),
            forall|j: int| 0 <= j < orders@.len() ==> (#[trigger] orders@[j])@ == cs[j],
            forall|j: int|
                0 <= j < cs.len() ==> {
                    let c = #[trigger] cs[j];
                    &&& c.len() == k
                    &&& forall|a: int, b: int| 0 <= a < b < k ==> #[trigger] c[a] < #[trigger] c[b]
                    &&& forall|a: int| 0 <= a < k ==> 0 <= #[trigger] c[a] < r
                },
            i <= orders@.len(),
            perms@.len() == i,
            forall|j: int|
                0 <= j < i ==> {
                    &&& (#[trigger] perms@[j]).head == k
                    &&& perms@[j].wf()
                    &&& is_subset_order(cs[j], r, k)
                    &&& perms@[j].blocks@ == permuted_blocks_spec(
                        reorder_spec(split_blocks_spec(total_bits, r), cs[j]),
                    )
                },
        decreases orders@.len() - i,
    {
        let order = &orders[i];
        proof {
            assert(order@ == cs[i as int]);
        }
        let reordered = reorder_blocks(&blocks, order.as_slice());
        proof {
            lemma_reorder_facts(blocks@, order@, total_bits, r, k);
            let mx = total_bits / r + 1;
            vstd::arithmetic::div_mod::lemma_fundamental_div_mod(total_bits as int, r as int);
            vstd::arithmetic::div_mod::lemma_mod_bound(total_bits as int, r as int);
            assert(reordered@.len() * mx <= 4 * total_bits) by (nonlinear_arith)
                requires
                    reordered@.len() <= k + r,
                    k <= r,
                    0 < r <= total_bits,
                    mx == total_bits / r + 1,
                    r * (total_bits / r) <= total_bits,
            {
                assert(reordered@.len() * mx <= 2 * r * mx);
            }
            lemma_prefix_len_bound(reordered@, total_bits, mx as int);
        }
        let perm = Permutation::from_blocks(k, reordered);
        proof {
            assert(is_subset_order(order@, r, k));
        }
        perms.push(perm);
        i = i + 1;
    }
    perms
}

proof fn lemma_split_blocks_bounds(f: usize, r: usize)
    requires
        0 < r <= f,
        f < usize::MAX,
    ensures
        forall|j: int|
            0 <= j < r ==> (#[trigger] split_blocks_spec(f, r)[j]).len > 0 && split_blocks_spec(
                f,
                r,
            )[j].pos + split_blocks_spec(f, r)[j].len <= f && split_blocks_spec(f, r)[j].idx == j
                && split_blocks_spec(f, r)[j].len <= f / r + 1,
{
    let q = f / r;
    let m = f % r;
    assert(q >= 1) by (nonlinear_arith)
        requires
            0 < r <= f,
            q == f / r,
    ;
    assert(q * r + m == f) by {
        vstd::arithmetic::div_mod::lemma_fundamental_div_mod(f as int, r as int);
    }
    assert forall|j: int| 0 <= j < r implies (#[trigger] split_blocks_spec(f, r)[j]).len > 0
        && split_blocks_spec(f, r)[j].pos + split_blocks_spec(f, r)[j].len <= f
        && split_blocks_spec(f, r)[j].idx == j by {
        assert((j + 1) * q <= r * q) by (nonlinear_arith)
            requires
                j + 1 <= r,
                q >= 1,
        ;
        assert((j + 1) * q == j * q + q) by (nonlinear_arith);
        assert(r * q == q * r) by (nonlinear_arith);
        assert(0 <= j * q) by (nonlinear_arith)
            requires
                j >= 0,
                q >= 1,
        ;
    }
}

/// Blocks reordered by an order of indices below `r` are blocks of the original list, each
/// inside `0..f`, and at most `k + r` of them.
proof fn lemma_reorder_facts(blocks: Seq<BitBlock>, order: Seq<usize>, f: usize, r: usize, k: usize)
    requires
        blocks.len() == r,
        forall|j: int|
            0 <= j < r ==> (#[trigger] blocks[j]).len > 0 && blocks[j].pos + blocks[j].len <= f
                && blocks[j].idx == j && blocks[j].len <= f / r + 1,
        order.len() == k,
        forall|a: int, b: int| 0 <= a < b < k ==> order[a] < order[b],
        forall|a: int| 0 <= a < k ==> order[a] < r,
    ensures
        reorder_spec(blocks, order).len() <= k + r,
        forall|j: int|
            0 <= j < reorder_spec(blocks, order).len() ==> (#[trigger] reorder_spec(blocks, order)[j]).len
                > 0 && reorder_spec(blocks, order)[j].pos + reorder_spec(blocks, order)[j].len <= f
                && reorder_spec(blocks, order)[j].len <= f / r + 1,
{
    let keep = |b: BitBlock| !order.contains(b.idx);
    let head = order.map_values(|p: usize| blocks[p as int]);
    let tail = blocks.filter(keep);
    broadcast use vstd::seq_lib::group_filter_ensures;

    assert forall|j: int| 0 <= j < tail.len() implies (#[trigger] tail[j]).len > 0 && tail[j].pos
        + tail[j].len <= f && tail[j].len <= f / r + 1 by {
        blocks.lemma_filter_contains_rev(keep, tail[j]);
        assert(tail.contains(tail[j]));
        let t = choose|t: int| 0 <= t < blocks.len() && #[trigger] blocks[t] == tail[j];
    }
    blocks.lemma_filter_len(keep);
}

/// Blocks of at most `mx` bits each, inside `0..f`, laid out one after another: each is valid at
/// both places, and they take at most `n * mx` bits.
proof fn lemma_prefix_len_bound(blocks: Seq<BitBlock>, f: usize, mx: int)
    requires
        forall|j: int|
            0 <= j < blocks.len() ==> (#[trigger] blocks[j]).len > 0 && blocks[j].pos + blocks[j].len
                <= f && blocks[j].len <= mx,
        blocks.len() * mx + 64 <= usize::MAX,
        f + 64 <= usize::MAX,
    ensures
        prefix_len(blocks, blocks.len() as int) <= blocks.len() * mx,
        forall|j: int|
            0 <= j < blocks.len() ==> (#[trigger] permuted_blocks_spec(blocks)[j]).wf(),
{
    lemma_prefix_len_le(blocks, blocks.len() as int, mx);
    assert forall|j: int| 0 <= j < blocks.len() implies (#[trigger] permuted_blocks_spec(blocks)[j]).wf() by {
        lemma_prefix_len_mono(blocks, j + 1, blocks.len() as int);
        lemma_prefix_len_mono(blocks, j, j);
    }
}

proof fn lemma_prefix_len_le(blocks: Seq<BitBlock>, n: int, mx: int)
    requires
        0 <= n <= blocks.len(),
        forall|j: int| 0 <= j < blocks.len() ==> (#[trigger] blocks[j]).len <= mx,
    ensures
        prefix_len(blocks, n) <= n * mx,
    decreases n,
{
    if n > 0 {
        lemma_prefix_len_le(blocks, n - 1, mx);
        assert((n - 1) * mx + mx == n * mx) by (nonlinear_arith);
    } else {
        assert(0 * mx == 0) by (nonlinear_arith);
    }
}

} // verus!
