//! Applying a permutation variant to keys: moving blocks, moving them back, and masking the head.
use crate::bit_block::PermutedBitBlock;
use crate::bits::{lex_cmp, lex_le, valid_word_size, Bits};
use crate::permutations::{
    binom, combos, create_permutations, head_len, permuted_blocks_spec, reorder_spec,
    split_blocks_spec, Permutation,
};
use core::cmp::Ordering;
use vstd::prelude::*;

verus! {

/// `out` with the bits of block `b` of `x` copied to the block's new place.
pub open spec fn move_block(x: Seq<bool>, out: Seq<bool>, b: PermutedBitBlock) -> Seq<bool> {
    Seq::new(
        out.len(),
        |i: int|
            if b.new_pos <= i < b.new_pos + b.block.len {
                x[b.block.pos + (i - b.new_pos)]
            } else {
                out[i]
            },
    )
}

/// `n` cleared bits with every block of `x` copied to its new place, in order.
pub open spec fn move_blocks(x: Seq<bool>, blocks: Seq<PermutedBitBlock>, n: nat) -> Seq<bool>
    decreases blocks.len(),
{
    if blocks.len() == 0 {
        Seq::new(n, |i: int| false)
    } else {
        move_block(x, move_blocks(x, blocks.drop_last(), n), blocks.last())
    }
}

/// The first `n` words of `k`, the last of them cut down by `m`.
pub open spec fn mask_words_spec(k: Seq<u64>, n: nat, m: u64) -> Seq<u64> {
    Seq::new(n, |i: int| if i + 1 == n { k[i] & m } else { k[i] })
}

/// Bit `p` lies where block `b` is taken from.
pub open spec fn in_src(b: PermutedBitBlock, p: int) -> bool {
    b.block.pos <= p < b.block.pos + b.block.len
}

/// Bit `p` lies where block `b` is put.
pub open spec fn in_dst(b: PermutedBitBlock, p: int) -> bool {
    b.new_pos <= p < b.new_pos + b.block.len
}

/// No bit lies in the source ranges of two blocks.
pub open spec fn src_disjoint(blocks: Seq<PermutedBitBlock>) -> bool {
    forall|i: int, j: int, p: int|
        0 <= i < j < blocks.len() && #[trigger] in_src(blocks[i], p) ==> !#[trigger] in_src(blocks[j], p)
}

/// No bit lies in the destination ranges of two blocks.
pub open spec fn dst_disjoint(blocks: Seq<PermutedBitBlock>) -> bool {
    forall|i: int, j: int, p: int|
        0 <= i < j < blocks.len() && #[trigger] in_dst(blocks[i], p) ==> !#[trigger] in_dst(blocks[j], p)
}

/// Some block is taken from bit `p`.
pub open spec fn src_covered(blocks: Seq<PermutedBitBlock>, p: int) -> bool {
    exists|i: int| 0 <= i < blocks.len() && #[trigger] in_src(blocks[i], p)
}

/// Some block is put at bit `p`.
pub open spec fn dst_covered(blocks: Seq<PermutedBitBlock>, p: int) -> bool {
    exists|i: int| 0 <= i < blocks.len() && #[trigger] in_dst(blocks[i], p)
}

/// The blocks tile bits `0..n` both where they are taken from and where they are put.
pub open spec fn tiles(blocks: Seq<PermutedBitBlock>, n: int) -> bool {
    &&& forall|p: int| 0 <= p < n ==> #[trigger] src_covered(blocks, p)
    &&& forall|p: int| 0 <= p < n ==> #[trigger] dst_covered(blocks, p)
    &&& src_disjoint(blocks)
    &&& dst_disjoint(blocks)
}

/// A block layout that a permuter can be built from for keys of `total_bits` bits in
/// `word_bits`-bit words: sizes within range, every block inside the key at both places, the
/// blocks tiling the key at both places, the head blocks at the start of a permuted key and the
/// others after them.
pub open spec fn layout_ok(
    blocks: Seq<PermutedBitBlock>,
    head: usize,
    total_bits: usize,
    word_bits: usize,
) -> bool {
    &&& 0 < total_bits <= u32::MAX
    &&& 2 * total_bits <= usize::MAX
    &&& total_bits % word_bits == 0
    &&& 0 < blocks.len() <= u32::MAX
    &&& head <= blocks.len()
    &&& forall|i: int|
        0 <= i < blocks.len() ==> {
            let b = #[trigger] blocks[i];
            &&& b.block.len > 0
            &&& b.block.pos + b.block.len <= total_bits
            &&& b.new_pos + b.block.len <= total_bits
        }
    &&& tiles(blocks, total_bits as int)
    &&& head_len(blocks, head as int) <= total_bits
    &&& forall|i: int|
        0 <= i < blocks.len() ==> {
            let b = #[trigger] blocks[i];
            &&& i < head ==> b.new_pos + b.block.len <= head_len(blocks, head as int)
            &&& i >= head ==> b.new_pos >= head_len(blocks, head as int)
        }
}

/// The blocks of the `i`-th variant of `f`-bit keys in `r` blocks with `k` in the head: the
/// `i`-th `k`-subset in lexicographic order first, the other blocks after them in order.
pub open spec fn variant_blocks(f: usize, r: usize, k: usize, i: int) -> Seq<PermutedBitBlock> {
    permuted_blocks_spec(reorder_spec(split_blocks_spec(f, r), combos(0, r as nat, k as nat)[i]))
}

/// Every variant's layout checks out, and all have as many blocks.
pub open spec fn variants_ok(f: usize, r: usize, k: usize, w: usize) -> bool {
    forall|i: int|
        0 <= i < binom(r as nat, k as nat) ==> #[trigger] layout_ok(variant_blocks(f, r, k, i), k, f, w)
            && variant_blocks(f, r, k, i).len() == variant_blocks(f, r, k, 0).len()
}

/// A compiled permutation variant for keys of `total_bits` bits in `word_bits`-bit words.
pub struct Permuter {
    pub blocks: Vec<PermutedBitBlock>,
    pub head: usize,
    pub total_bits: usize,
    pub word_bits: usize,
    pub mask_bits: usize,
}

impl Permuter {
    /// The blocks lie inside the key at both their places; the head is a prefix of the block list
    /// whose bits, `mask_bits` of them, lie at the start of a permuted key.
    pub open spec fn wf(&self) -> bool {
        &&& valid_word_size(self.word_bits)
        &&& self.total_bits % self.word_bits == 0
        &&& 0 < self.total_bits <= u32::MAX
        &&& 2 * self.total_bits <= usize::MAX
        &&& 0 < self.blocks@.len() <= u32::MAX
        &&& self.head <= self.blocks@.len()
        &&& self.mask_bits <= self.total_bits
        &&& self.mask_bits == head_len(self.blocks@, self.head as int)
        &&& forall|i: int|
            0 <= i < self.blocks@.len() ==> {
                let b = #[trigger] self.blocks@[i];
                &&& b.block.len > 0
                &&& b.block.pos + b.block.len <= self.total_bits
                &&& b.new_pos + b.block.len <= self.total_bits
            }
        &&& tiles(self.blocks@, self.total_bits as int)
        &&& forall|i: int|
            0 <= i < self.blocks@.len() ==> {
                let b = #[trigger] self.blocks@[i];
                &&& i < self.head ==> b.new_pos + b.block.len <= self.mask_bits
                &&& i >= self.head ==> b.new_pos >= self.mask_bits
            }
    }

    /// Number of words of a key.
    pub open spec fn n_words(&self) -> int {
        self.total_bits as int / self.word_bits as int
    }

    /// Number of words of a mask.
    pub open spec fn spec_mask_words(&self) -> int {
        self.mask_bits as int / self.word_bits as int + if self.mask_bits as int % self.word_bits as int
            == 0 {
            0int
        } else {
            1int
        }
    }

    /// What the last mask word is cut down by: the bits of the head that reach into it.
    pub open spec fn last_word_mask(&self) -> u64 {
        if self.mask_bits as int % self.word_bits as int == 0 {
            0xffff_ffff_ffff_ffffu64
        } else {
            0xffff_ffff_ffff_ffffu64 << ((self.word_bits - self.mask_bits as int
                % self.word_bits as int) as u64)
        }
    }

    /// A key this permuter works on.
    pub open spec fn fits(&self, key: &Bits) -> bool {
        &&& key.wf()
        &&& key.word_bits == self.word_bits
        &&& key.data@.len() == self.n_words()
    }

    /// The bits of `x` after the permutation.
    pub open spec fn apply_spec(&self, x: Seq<bool>) -> Seq<bool> {
        move_blocks(x, self.blocks@, self.total_bits as nat)
    }

    /// The bits of `y` with the permutation undone.
    pub open spec fn revert_spec(&self, y: Seq<bool>) -> Seq<bool> {
        move_blocks(
            y,
            self.blocks@.map_values(|b: PermutedBitBlock| b.apply_spec()),
            self.total_bits as nat,
        )
    }

    /// The words of the mask of key words `k`.
    pub open spec fn mask_spec(&self, k: Seq<u64>) -> Seq<u64> {
        mask_words_spec(k, self.spec_mask_words() as nat, self.last_word_mask())
    }

    /// Check the layout of a permutation and prepare it for keys of `total_bits` bits.
    pub fn from_permutation(perm: &Permutation, total_bits: usize, word_bits: usize) -> (r: Option<
        Permuter,
    >)
        requires
            valid_word_size(word_bits),
        ensures
            r is Some <==> layout_ok(perm.blocks@, perm.head, total_bits, word_bits),
            r matches Some(p) ==> p.wf() && p.blocks@ == perm.blocks@ && p.head == perm.head
                && p.total_bits == total_bits && p.word_bits == word_bits && p.mask_bits == head_len(
                perm.blocks@,
                perm.head as int,
            ),
    {
        if total_bits == 0 || total_bits as u64 > u32::MAX as u64 || total_bits > usize::MAX / 2
            || total_bits % word_bits != 0 {
            return None;
        }
        if perm.blocks.len() == 0 || perm.blocks.len() as u64 > u32::MAX as u64 || perm.head
            > perm.blocks.len() {
            return None;
        }
        let mut i: usize = 0;
        while i < perm.blocks.len()
            invariant
                0 < total_bits <= u32::MAX,
                2 * total_bits <= usize::MAX,
                i <= perm.blocks@.len(),
                forall|j: int|
                    0 <= j < i ==> {
                        let b = #[trigger] perm.blocks@[j];
                        &&& b.block.len > 0
                        &&& b.block.pos + b.block.len <= total_bits
                        &&& b.new_pos + b.block.len <= total_bits
                    },
            decreases perm.blocks@.len() - i,
        {
            let b = perm.blocks[i];
            if b.block.len == 0 || b.block.pos > total_bits || b.block.len > total_bits - b.block.pos
                || b.new_pos > total_bits || b.block.len > total_bits - b.new_pos {
                proof {
                    assert(perm.blocks@[i as int] == b);
                }
                return None;
            }
            i = i + 1;
        }
        if !check_tiling(&perm.blocks, total_bits) {
            return None;
        }
        let mut mask_bits: usize = 0;
        let mut h: usize = 0;
        while h < perm.head
            invariant
                0 < total_bits <= u32::MAX,
                2 * total_bits <= usize::MAX,
                perm.head <= perm.blocks@.len(),
                h <= perm.head,
                mask_bits <= total_bits,
                mask_bits == head_len(perm.blocks@, h as int),
                forall|j: int|
                    0 <= j < perm.blocks@.len() ==> (#[trigger] perm.blocks@[j]).block.len
                        <= total_bits,
            decreases perm.head - h,
        {
            mask_bits = mask_bits + perm.blocks[h].block.len;
            if mask_bits > total_bits {
                proof {
                    crate::permutations::lemma_head_len_mono(perm.blocks@, h + 1, perm.head as int);
                }
                return None;
            }
            h = h + 1;
        }
        let mut i: usize = 0;
        while i < perm.blocks.len()
            invariant
                0 < total_bits <= u32::MAX,
                2 * total_bits <= usize::MAX,
                mask_bits <= total_bits,
                mask_bits == head_len(perm.blocks@, perm.head as int),
                perm.head <= perm.blocks@.len(),
                i <= perm.blocks@.len(),
                forall|j: int|
                    0 <= j < perm.blocks@.len() ==> (#[trigger] perm.blocks@[j]).block.len
                        <= total_bits && perm.blocks@[j].new_pos + perm.blocks@[j].block.len <= total_bits,
                forall|j: int|
                    0 <= j < i ==> {
                        let b = #[trigger] perm.blocks@[j];
                        &&& j < perm.head ==> b.new_pos + b.block.len <= mask_bits
                        &&& j >= perm.head ==> b.new_pos >= mask_bits
                    },
            decreases perm.blocks@.len() - i,
        {
            let b = perm.blocks[i];
            proof {
                assert(perm.blocks@[i as int] == b);
            }
            if i < perm.head {
                if b.new_pos + b.block.len > mask_bits {
                    return None;
                }
            } else if b.new_pos < mask_bits {
                return None;
            }
            i = i + 1;
        }
        Some(
            Permuter {
                blocks: perm.blocks.clone(),
                head: perm.head,
                total_bits,
                word_bits,
                mask_bits,
            },
        )
    }

    /// Permuters for all `C(r, k)` variants of `f`-bit keys in `w`-bit words, in the order of
    /// their head subsets: exactly when every variant's layout checks out (and all have as many
    /// blocks), `Some` of them all.
    pub fn all_variants(f: usize, r: usize, k: usize, w: usize) -> (res: Option<Vec<Permuter>>)
        requires
            valid_word_size(w),
            f % w == 0,
            0 < k <= r <= f,
            f <= u32::MAX,
            4 * f + 64 <= usize::MAX,
        ensures
            res is Some <==> variants_ok(f, r, k, w),
            res matches Some(v) ==> {
                &&& v@.len() == binom(r as nat, k as nat)
                &&& forall|i: int|
                    0 <= i < v@.len() ==> {
                        &&& (#[trigger] v@[i]).wf()
                        &&& v@[i].total_bits == f
                        &&& v@[i].word_bits == w
                        &&& v@[i].head == k
                        &&& v@[i].blocks@ == variant_blocks(f, r, k, i)
                        &&& v@[i].blocks@.len() == v@[0].blocks@.len()
                        &&& v@[i].mask_bits == head_len(variant_blocks(f, r, k, i), k as int)
                    }
            },
    {
        let perms = create_permutations(f, w, r, k);
        let mut res: Vec<Permuter> = Vec::new();
        let mut i: usize = 0;
        while i < perms.len()
            invariant
                valid_word_size(w),
                0 < k <= r,
                i <= perms@.len(),
                perms@.len() == binom(r as nat, k as nat),
                res@.len() == i,
                forall|j: int|
                    0 <= j < perms@.len() ==> (#[trigger] perms@[j]).head == k
                        && perms@[j].blocks@ == variant_blocks(f, r, k, j),
                forall|j: int|
                    0 <= j < res@.len() ==> {
                        &&& (#[trigger] res@[j]).wf()
                        &&& res@[j].total_bits == f
                        &&& res@[j].word_bits == w
                        &&& res@[j].head == k
                        &&& res@[j].blocks@ == variant_blocks(f, r, k, j)
                        &&& res@[j].blocks@.len() == res@[0].blocks@.len()
                        &&& res@[j].mask_bits == head_len(variant_blocks(f, r, k, j), k as int)
                    },
                forall|j: int|
                    0 <= j < i ==> #[trigger] layout_ok(variant_blocks(f, r, k, j), k, f, w)
                        && variant_blocks(f, r, k, j).len() == variant_blocks(f, r, k, 0).len(),
                perms@.len() > 0,
            decreases perms@.len() - i,
        {
            match Permuter::from_permutation(&perms[i], f, w) {
                Some(p) => {
                    if i > 0 && p.blocks.len() != res[0].blocks.len() {
                        return None;
                    }
                    res.push(p);
                    proof {
                        assert(perms@[i as int].blocks@ == variant_blocks(f, r, k, i as int));
                        assert(layout_ok(variant_blocks(f, r, k, i as int), k, f, w));
                        assert(res@[0].blocks@ == variant_blocks(f, r, k, 0));
                        assert(res@[i as int] == p);
                        assert(variant_blocks(f, r, k, i as int).len() == variant_blocks(f, r, k, 0).len());
                    }
                },
                None => return None,
            }
            proof {
                assert forall|j: int| 0 <= j < i + 1 implies #[trigger] layout_ok(
                    variant_blocks(f, r, k, j),
                    k,
                    f,
                    w,
                ) && variant_blocks(f, r, k, j).len() == variant_blocks(f, r, k, 0).len() by {
                    if j == i {
                        assert(res@[j].blocks@ == variant_blocks(f, r, k, j));
                        assert(res@[j].wf());
                    }
                }
            }
            i = i + 1;
        }
        Some(res)
    }

    /// Whether this permuter is valid: its layout checks out again, with the same head size.
    pub fn validate(&self) -> (r: bool)
        ensures
            r == self.wf(),
    {
        if self.word_bits != 8 && self.word_bits != 16 && self.word_bits != 32 && self.word_bits
            != 64 {
            return false;
        }
        let perm = Permutation { head: self.head, blocks: self.blocks.clone() };
        match Permuter::from_permutation(&perm, self.total_bits, self.word_bits) {
            Some(p) => p.mask_bits == self.mask_bits,
            None => false,
        }
    }

    /// Apply permutation to bit sequence `key`.
    pub fn apply(&self, key: &Bits) -> (r: Bits)
        requires
            self.wf(),
            self.fits(key),
        ensures
            self.fits(&r),
            r.bits() == self.apply_spec(key.bits()),
    {
        self.move_all(key, false)
    }

    /// Revert permutation of bit sequence `key`.
    pub fn revert(&self, key: &Bits) -> (r: Bits)
        requires
            self.wf(),
            self.fits(key),
        ensures
            self.fits(&r),
            r.bits() == self.revert_spec(key.bits()),
    {
        self.move_all(key, true)
    }

    /// Move every block of `key` to its new place, or back from it.
    fn move_all(&self, key: &Bits, back: bool) -> (r: Bits)
        requires
            self.wf(),
            self.fits(key),
        ensures
            self.fits(&r),
            r.bits() == move_blocks(
                key.bits(),
                if back {
                    self.blocks@.map_values(|b: PermutedBitBlock| b.apply_spec())
                } else {
                    self.blocks@
                },
                self.total_bits as nat,
            ),
    {
        let ghost blocks = if back {
            self.blocks@.map_values(|b: PermutedBitBlock| b.apply_spec())
        } else {
            self.blocks@
        };
        let ghost x = key.bits();
        let ghost n = self.total_bits as nat;
        let n_words = self.total_bits / self.word_bits;
        let mut out = Bits::zeros(n_words, self.word_bits);
        proof {
            vstd::arithmetic::div_mod::lemma_fundamental_div_mod(
                self.total_bits as int,
                self.word_bits as int,
            );
            assert(n_words * self.word_bits == self.total_bits) by (nonlinear_arith)
                requires
                    self.total_bits == self.word_bits * (self.total_bits as int / self.word_bits as int)
                        + 0,
                    n_words == self.total_bits as int / self.word_bits as int,
            ;
            assert(key.spec_size() == n);
            assert(out.spec_size() == n);
            assert forall|i: int| 0 <= i < n implies #[trigger] out.bits()[i] == false by {
                let wi = self.word_bits as int;
                assert(0 <= i / wi < n_words) by (nonlinear_arith)
                    requires
                        0 <= i < n_words * wi,
                        wi > 0,
                ;
                assert(0 <= i % wi < wi) by (nonlinear_arith)
                    requires
                        wi > 0,
                ;
                let sh = (wi - 1 - i % wi) as u64;
                assert((0u64 >> sh) & 1u64 == 0u64) by (bit_vector);
            }
            assert(out.bits() =~= move_blocks(x, blocks.take(0), n));
        }
        let mut bi: usize = 0;
        while bi < self.blocks.len()
            invariant
                self.wf(),
                self.fits(key),
                x == key.bits(),
                n == self.total_bits,
                key.spec_size() == n,
                out.wf(),
                out.word_bits == self.word_bits,
                out.data@.len() == n_words,
                out.spec_size() == n,
                blocks.len() == self.blocks@.len(),
                blocks == (if back {
                    self.blocks@.map_values(|b: PermutedBitBlock| b.apply_spec())
                } else {
                    self.blocks@
                }),
                bi <= self.blocks@.len(),
                out.bits() == move_blocks(x, blocks.take(bi as int), n),
            decreases self.blocks@.len() - bi,
        {
            let pb = self.blocks[bi];
            let (src, dst) = if back {
                (pb.new_pos, pb.block.pos)
            } else {
                (pb.block.pos, pb.new_pos)
            };
            let len = pb.block.len;
            let ghost prev = out.bits();
            let ghost b = blocks[bi as int];
            proof {
                assert(b.block.pos == src && b.new_pos == dst && b.block.len == len);
            }
            let mut j: usize = 0;
            while j < len
                invariant
                    self.wf(),
                    self.fits(key),
                    x == key.bits(),
                    key.spec_size() == n,
                    out.wf(),
                    out.word_bits == self.word_bits,
                    out.data@.len() == n_words,
                    out.spec_size() == n,
                    n == self.total_bits,
                    src + len <= n,
                    dst + len <= n,
                    j <= len,
                    prev.len() == n,
                    out.bits() == Seq::new(
                        n,
                        |i: int|
                            if dst <= i < dst + j {
                                x[src + (i - dst)]
                            } else {
                                prev[i]
                            },
                    ),
                decreases len - j,
            {
                let v = key.get(src + j);
                let ghost before = out.bits();
                out.set(dst + j, v);
                j = j + 1;
                proof {
                    assert(out.bits() =~= Seq::new(
                        n,
                        |i: int|
                            if dst <= i < dst + j {
                                x[src + (i - dst)]
                            } else {
                                prev[i]
                            },
                    ));
                }
            }
            proof {
                assert(blocks.take(bi + 1).drop_last() =~= blocks.take(bi as int));
                assert(blocks.take(bi + 1).last() == b);
                assert(out.bits() =~= move_block(x, prev, b));
            }
            bi = bi + 1;
        }
        proof {
            assert(blocks.take(bi as int) =~= blocks);
        }
        out
    }

    /// Apply mask to bit sequence `key`: keep its first `mask_bits` bits, in as many words as
    /// they need.
    pub fn mask(&self, key: &Bits) -> (r: Bits)
        requires
            self.wf(),
            self.fits(key),
        ensures
            r.wf(),
            r.word_bits == self.word_bits,
            r.data@ == self.mask_spec(key.data@),
    {
        let w = self.word_bits;
        let full = self.mask_bits / w;
        let rem = self.mask_bits % w;
        let n = full + if rem == 0 {
            0
        } else {
            1
        };
        let last_mask: u64 = if rem == 0 {
            u64::MAX
        } else {
            u64::MAX << ((w - rem) as u64)
        };
        proof {
            lemma_mask_words_bound(*self);
        }
        let mut data: Vec<u64> = Vec::new();
        let mut i: usize = 0;
        while i < n
            invariant
                self.wf(),
                self.fits(key),
                n <= key.data@.len(),
                n == self.spec_mask_words(),
                last_mask == self.last_word_mask(),
                i <= n,
                data@ == mask_words_spec(key.data@, n as nat, last_mask).take(i as int),
            decreases n - i,
        {
            let word = key.data[i];
            let v = if i + 1 == n {
                word & last_mask
            } else {
                word
            };
            data.push(v);
            i = i + 1;
            proof {
                assert(data@ =~= mask_words_spec(key.data@, n as nat, last_mask).take(i as int));
            }
        }
        proof {
            assert(data@ =~= mask_words_spec(key.data@, n as nat, last_mask));
            assert forall|k: int| 0 <= k < data@.len() implies crate::bits::word_fits(
                #[trigger] data@[k],
                w,
            ) by {
                let x = key.data@[k];
                assert(crate::bits::word_fits(x, w));
                let wu = w as u64;
                assert(wu <= 64 && (wu >= 64 || x >> wu == 0) ==> (wu >= 64 || (x & last_mask) >> wu
                    == 0)) by (bit_vector);
            }
        }
        Bits { data, word_bits: w }
    }

    /// Compare the mask of `key` with `other_mask`.
    pub fn mask_and_cmp(&self, key: &Bits, other_mask: &Bits) -> (r: Ordering)
        requires
            self.wf(),
            self.fits(key),
        ensures
            r == lex_cmp(self.mask_spec(key.data@), other_mask.data@),
    {
        let m = self.mask(key);
        m.cmp_words(other_mask)
    }

    /// Get number of blocks this permuter operates on.
    pub fn n_blocks(&self) -> (r: u32)
        requires
            self.wf(),
        ensures
            r == self.blocks@.len(),
    {
        self.blocks.len() as u32
    }

    /// Get number of mask bits this permuter has.
    pub fn mask_bits(&self) -> (r: u32)
        requires
            self.wf(),
        ensures
            r == self.mask_bits,
    {
        self.mask_bits as u32
    }
}

/// Some block among the first `bi` ones, or the first `j` bits of block `bi`, is taken from bit `p`.
pub open spec fn src_marked(blocks: Seq<PermutedBitBlock>, bi: int, j: int, p: int) -> bool {
    (exists|i: int| 0 <= i < bi && #[trigger] in_src(blocks[i], p)) || (bi < blocks.len()
        && blocks[bi].block.pos <= p < blocks[bi].block.pos + j)
}

/// Some block among the first `bi` ones, or the first `j` bits of block `bi`, is put at bit `p`.
pub open spec fn dst_marked(blocks: Seq<PermutedBitBlock>, bi: int, j: int, p: int) -> bool {
    (exists|i: int| 0 <= i < bi && #[trigger] in_dst(blocks[i], p)) || (bi < blocks.len()
        && blocks[bi].new_pos <= p < blocks[bi].new_pos + j)
}

/// A vector of `n` cleared flags.
fn cleared_flags(n: usize) -> (v: Vec<bool>)
    ensures
        v@ == Seq::new(n as nat, |i: int| false),
{
    let mut v: Vec<bool> = Vec::new();
    let mut i: usize = 0;
    while i < n
        invariant
            i <= n,
            v@ == Seq::new(i as nat, |k: int| false),
        decreases n - i,
    {
        v.push(false);
        i = i + 1;
        proof {
            assert(v@ =~= Seq::new(i as nat, |k: int| false));
        }
    }
    v
}

/// Whether blocks that lie inside `0..n` at both places tile it at both places.
fn check_tiling(blocks: &Vec<PermutedBitBlock>, n: usize) -> (r: bool)
    requires
        forall|i: int|
            0 <= i < blocks@.len() ==> {
                let b = #[trigger] blocks@[i];
                &&& b.block.pos + b.block.len <= n
                &&& b.new_pos + b.block.len <= n
            },
    ensures
        r == tiles(blocks@, n as int),
{
    let ghost bs = blocks@;
    let mut src_seen = cleared_flags(n);
    let mut dst_seen = cleared_flags(n);
    let mut bi: usize = 0;
    while bi < blocks.len()
        invariant
            bs == blocks@,
            forall|i: int|
                0 <= i < bs.len() ==> {
                    let b = #[trigger] bs[i];
                    &&& b.block.pos + b.block.len <= n
                    &&& b.new_pos + b.block.len <= n
                },
            bi <= bs.len(),
            src_seen@.len() == n,
            dst_seen@.len() == n,
            forall|p: int| 0 <= p < n ==> (src_seen@[p] <==> src_marked(bs, bi as int, 0, p)),
            forall|p: int| 0 <= p < n ==> (dst_seen@[p] <==> dst_marked(bs, bi as int, 0, p)),
            forall|i: int, k: int, p: int|
                0 <= i < k < bi && #[trigger] in_src(bs[i], p) ==> !#[trigger] in_src(bs[k], p),
            forall|i: int, k: int, p: int|
                0 <= i < k < bi && #[trigger] in_dst(bs[i], p) ==> !#[trigger] in_dst(bs[k], p),
        decreases bs.len() - bi,
    {
        let b = blocks[bi];
        let mut j: usize = 0;
        while j < b.block.len
            invariant
                bs == blocks@,
                b == bs[bi as int],
                bi < bs.len(),
                b.block.pos + b.block.len <= n,
                b.new_pos + b.block.len <= n,
                j <= b.block.len,
                src_seen@.len() == n,
                dst_seen@.len() == n,
                forall|p: int| 0 <= p < n ==> (src_seen@[p] <==> src_marked(bs, bi as int, j as int, p)),
                forall|p: int| 0 <= p < n ==> (dst_seen@[p] <==> dst_marked(bs, bi as int, j as int, p)),
                forall|i: int, p: int|
                    0 <= i < bi && #[trigger] in_src(bs[i], p) ==> !(b.block.pos <= p < b.block.pos + j),
                forall|i: int, p: int|
                    0 <= i < bi && #[trigger] in_dst(bs[i], p) ==> !(b.new_pos <= p < b.new_pos + j),
            decreases b.block.len - j,
        {
            let p = b.block.pos + j;
            let q = b.new_pos + j;
            if src_seen[p] || dst_seen[q] {
                proof {
                    if src_seen@[p as int] {
                        assert(src_marked(bs, bi as int, j as int, p as int));
                        let i = choose|i: int| 0 <= i < bi && #[trigger] in_src(bs[i], p as int);
                        assert(in_src(bs[bi as int], p as int));
                        assert(!src_disjoint(bs));
                    } else {
                        assert(dst_marked(bs, bi as int, j as int, q as int));
                        let i = choose|i: int| 0 <= i < bi && #[trigger] in_dst(bs[i], q as int);
                        assert(in_dst(bs[bi as int], q as int));
                        assert(!dst_disjoint(bs));
                    }
                }
                return false;
            }
            src_seen.set(p, true);
            dst_seen.set(q, true);
            j = j + 1;
            proof {
                assert forall|t: int| 0 <= t < n implies (src_seen@[t] <==> src_marked(
                    bs,
                    bi as int,
                    j as int,
                    t,
                )) by {
                    if t != p {
                        assert(src_marked(bs, bi as int, j as int, t) == src_marked(
                            bs,
                            bi as int,
                            j - 1,
                            t,
                        ));
                    }
                }
                assert forall|t: int| 0 <= t < n implies (dst_seen@[t] <==> dst_marked(
                    bs,
                    bi as int,
                    j as int,
                    t,
                )) by {
                    if t != q {
                        assert(dst_marked(bs, bi as int, j as int, t) == dst_marked(
                            bs,
                            bi as int,
                            j - 1,
                            t,
                        ));
                    }
                }
                assert forall|i: int, t: int|
                    0 <= i < bi && #[trigger] in_src(bs[i], t) implies !(b.block.pos <= t
                    < b.block.pos + j) by {
                    if t == p {
                        assert(src_marked(bs, bi as int, j - 1, t));
                    }
                }
                assert forall|i: int, t: int|
                    0 <= i < bi && #[trigger] in_dst(bs[i], t) implies !(b.new_pos <= t < b.new_pos
                    + j) by {
                    if t == q {
                        assert(dst_marked(bs, bi as int, j - 1, t));
                    }
                }
            }
        }
        proof {
            assert forall|t: int| 0 <= t < n implies (src_seen@[t] <==> src_marked(
                bs,
                bi + 1,
                0,
                t,
            )) by {
                if src_marked(bs, bi as int, j as int, t) && !(exists|i: int|
                    0 <= i < bi && #[trigger] in_src(bs[i], t)) {
                    assert(in_src(bs[bi as int], t));
                }
                if src_marked(bs, bi + 1, 0, t) {
                    let i = choose|i: int| 0 <= i < bi + 1 && #[trigger] in_src(bs[i], t);
                    if i < bi {
                        assert(src_marked(bs, bi as int, j as int, t));
                    }
                }
            }
            assert forall|t: int| 0 <= t < n implies (dst_seen@[t] <==> dst_marked(
                bs,
                bi + 1,
                0,
                t,
            )) by {
                if dst_marked(bs, bi as int, j as int, t) && !(exists|i: int|
                    0 <= i < bi && #[trigger] in_dst(bs[i], t)) {
                    assert(in_dst(bs[bi as int], t));
                }
                if dst_marked(bs, bi + 1, 0, t) {
                    let i = choose|i: int| 0 <= i < bi + 1 && #[trigger] in_dst(bs[i], t);
                    if i < bi {
                        assert(dst_marked(bs, bi as int, j as int, t));
                    }
                }
            }
        }
        bi = bi + 1;
    }
    let mut p: usize = 0;
    while p < n
        invariant
            bs == blocks@,
            bi == bs.len(),
            src_seen@.len() == n,
            dst_seen@.len() == n,
            forall|t: int| 0 <= t < n ==> (src_seen@[t] <==> src_marked(bs, bi as int, 0, t)),
            forall|t: int| 0 <= t < n ==> (dst_seen@[t] <==> dst_marked(bs, bi as int, 0, t)),
            p <= n,
            forall|t: int| 0 <= t < p ==> src_seen@[t] && dst_seen@[t],
        decreases n - p,
    {
        if !src_seen[p] || !dst_seen[p] {
            proof {
                if !src_seen@[p as int] {
                    assert(!src_covered(bs, p as int));
                } else {
                    assert(!dst_covered(bs, p as int));
                }
            }
            return false;
        }
        p = p + 1;
    }
    proof {
        assert forall|t: int| 0 <= t < n implies #[trigger] src_covered(bs, t) by {
            assert(src_seen@[t]);
            assert(src_marked(bs, bi as int, 0, t));
        }
        assert forall|t: int| 0 <= t < n implies #[trigger] dst_covered(bs, t) by {
            assert(dst_seen@[t]);
            assert(dst_marked(bs, bi as int, 0, t));
        }
    }
    true
}

/// Moving blocks to places that do not overlap puts each bit of each block at its place.
proof fn lemma_move_blocks_at(x: Seq<bool>, blocks: Seq<PermutedBitBlock>, n: nat, i: int, j: int)
    requires
        0 <= i < blocks.len(),
        0 <= j < blocks[i].block.len,
        blocks[i].new_pos + blocks[i].block.len <= n,
        dst_disjoint(blocks),
    ensures
        move_blocks(x, blocks, n).len() == n,
        move_blocks(x, blocks, n)[blocks[i].new_pos + j] == x[blocks[i].block.pos + j],
    decreases blocks.len(),
{
    lemma_move_blocks_len(x, blocks, n);
    let last = blocks.len() - 1;
    let rest = blocks.drop_last();
    lemma_move_blocks_len(x, rest, n);
    let q = blocks[i].new_pos + j;
    if i < last {
        assert(dst_disjoint(rest)) by {
            assert forall|a: int, b: int, p: int|
                0 <= a < b < rest.len() && #[trigger] in_dst(rest[a], p) implies !#[trigger] in_dst(
                rest[b],
                p,
            ) by {
                assert(rest[a] == blocks[a] && rest[b] == blocks[b]);
            }
        }
        assert(rest[i] == blocks[i]);
        lemma_move_blocks_at(x, rest, n, i, j);
        assert(in_dst(blocks[i], q));
        assert(!in_dst(blocks[last], q));
    }
}

proof fn lemma_move_blocks_len(x: Seq<bool>, blocks: Seq<PermutedBitBlock>, n: nat)
    ensures
        move_blocks(x, blocks, n).len() == n,
    decreases blocks.len(),
{
    if blocks.len() > 0 {
        lemma_move_blocks_len(x, blocks.drop_last(), n);
    }
}

/// Undoing a permutation restores the key: reverting the permuted bits of any key gives its bits
/// back.
pub proof fn lemma_revert_apply(p: Permuter, x: Seq<bool>)
    requires
        p.wf(),
        x.len() == p.total_bits,
    ensures
        p.revert_spec(p.apply_spec(x)) == x,
{
    let n = p.total_bits as nat;
    let blocks = p.blocks@;
    let back = blocks.map_values(|b: PermutedBitBlock| b.apply_spec());
    let y = p.apply_spec(x);
    let z = p.revert_spec(y);
    lemma_move_blocks_len(y, back, n);
    assert(dst_disjoint(back)) by {
        assert forall|a: int, b: int, t: int|
            0 <= a < b < back.len() && #[trigger] in_dst(back[a], t) implies !#[trigger] in_dst(
            back[b],
            t,
        ) by {
            assert(in_src(blocks[a], t));
            if in_dst(back[b], t) {
                assert(in_src(blocks[b], t));
            }
        }
    }
    assert forall|t: int| 0 <= t < n implies z[t] == x[t] by {
        assert(src_covered(blocks, t));
        let i = choose|i: int| 0 <= i < blocks.len() && #[trigger] in_src(blocks[i], t);
        let j = t - blocks[i].block.pos;
        assert(back[i] == blocks[i].apply_spec());
        lemma_move_blocks_at(y, back, n, i, j);
        lemma_move_blocks_at(x, blocks, n, i, j);
    }
    assert(z =~= x);
}

/// Permuting reverted bits gives them back: the permutation is onto.
pub proof fn lemma_apply_revert(p: Permuter, y: Seq<bool>)
    requires
        p.wf(),
        y.len() == p.total_bits,
    ensures
        p.apply_spec(p.revert_spec(y)) == y,
{
    let n = p.total_bits as nat;
    let blocks = p.blocks@;
    let back = blocks.map_values(|b: PermutedBitBlock| b.apply_spec());
    let x = p.revert_spec(y);
    let z = p.apply_spec(x);
    lemma_move_blocks_len(x, blocks, n);
    assert(dst_disjoint(back)) by {
        assert forall|a: int, b: int, t: int|
            0 <= a < b < back.len() && #[trigger] in_dst(back[a], t) implies !#[trigger] in_dst(
            back[b],
            t,
        ) by {
            assert(in_src(blocks[a], t));
            if in_dst(back[b], t) {
                assert(in_src(blocks[b], t));
            }
        }
    }
    assert forall|t: int| 0 <= t < n implies z[t] == y[t] by {
        assert(dst_covered(blocks, t));
        let i = choose|i: int| 0 <= i < blocks.len() && #[trigger] in_dst(blocks[i], t);
        let j = t - blocks[i].new_pos;
        assert(back[i] == blocks[i].apply_spec());
        lemma_move_blocks_at(x, blocks, n, i, j);
        lemma_move_blocks_at(y, back, n, i, j);
    }
    assert(z =~= y);
}

/// Undoing a permutation restores the key's words.
pub proof fn lemma_revert_apply_words(p: Permuter, key: Bits, permuted: Bits, restored: Bits)
    requires
        p.wf(),
        p.fits(&key),
        p.fits(&restored),
        permuted.bits() == p.apply_spec(key.bits()),
        restored.bits() == p.revert_spec(permuted.bits()),
    ensures
        restored.data@ == key.data@,
{
    assert(key.spec_size() == p.total_bits) by {
        vstd::arithmetic::div_mod::lemma_fundamental_div_mod(p.total_bits as int, p.word_bits as int);
        assert(key.data@.len() * p.word_bits == p.word_bits * p.n_words()) by (nonlinear_arith)
            requires
                key.data@.len() == p.n_words(),
        ;
    }
    lemma_revert_apply(p, key.bits());
    crate::bits::lemma_bits_determine_words(restored, key);
}

/// Two keys a permuter works on can be compared.
pub proof fn lemma_fits_comparable(p: Permuter, a: Bits, b: Bits)
    requires
        p.wf(),
        p.fits(&a),
        p.fits(&b),
    ensures
        crate::index::Distance::comparable(&a, &b),
{
    lemma_mask_words_bound(p);
}

/// The mask has no more words than a key, and room for all of the head's bits.
proof fn lemma_mask_words_bound(p: Permuter)
    requires
        p.wf(),
    ensures
        p.spec_mask_words() <= p.n_words(),
        p.mask_bits <= p.spec_mask_words() * p.word_bits,
        p.n_words() * p.word_bits == p.total_bits,
{
    let w = p.word_bits as int;
    let mb = p.mask_bits as int;
    let total = p.total_bits as int;
    let full = mb / w;
    let rem = mb % w;
    let nw = p.n_words();
    vstd::arithmetic::div_mod::lemma_fundamental_div_mod(mb, w);
    vstd::arithmetic::div_mod::lemma_fundamental_div_mod(total, w);
    assert(nw * w == total) by (nonlinear_arith)
        requires
            total == w * nw + total % w,
            total % w == 0,
    ;
    if rem != 0 {
        assert(full < nw) by (nonlinear_arith)
            requires
                mb == w * full + rem,
                rem > 0,
                mb <= total,
                total == nw * w,
                w > 0,
        ;
    } else {
        assert(full <= nw) by (nonlinear_arith)
            requires
                mb == w * full + rem,
                rem == 0,
                mb <= total,
                total == nw * w,
                w > 0,
        ;
    }
    assert(mb <= p.spec_mask_words() * w) by (nonlinear_arith)
        requires
            mb == w * full + rem,
            p.spec_mask_words() == full + (if rem == 0 { 0int } else { 1int }),
            0 <= rem < w,
    ;
}

/// Bit `i` of a mask is bit `i` of the key when `i` is below `mask_bits`, and clear otherwise.
pub proof fn lemma_mask_bits(p: Permuter, y: Bits, m: Bits)
    requires
        p.wf(),
        p.fits(&y),
        m.word_bits == p.word_bits,
        m.data@ == p.mask_spec(y.data@),
    ensures
        m.spec_size() == p.spec_mask_words() * p.word_bits,
        p.mask_bits <= m.spec_size() <= y.spec_size(),
        forall|i: int|
            0 <= i < m.spec_size() ==> #[trigger] m.bits()[i] == (i < p.mask_bits && y.bits()[i]),
{
    let w = p.word_bits as int;
    let n = p.spec_mask_words();
    let rem = p.mask_bits as int % w;
    let full = p.mask_bits as int / w;
    vstd::arithmetic::div_mod::lemma_fundamental_div_mod(p.mask_bits as int, w);
    lemma_mask_words_bound(p);
    assert(m.spec_size() == n * w);
    assert(n * w <= p.n_words() * w) by (nonlinear_arith)
        requires
            n <= p.n_words(),
            w > 0,
    ;
    assert forall|i: int| 0 <= i < m.spec_size() implies #[trigger] m.bits()[i] == (i < p.mask_bits
        && y.bits()[i]) by {
        lemma_mask_bit_at(p, y, m, i);
    }
}

/// One bit of a mask: the key's bit below `mask_bits`, clear from there on.
#[verifier::rlimit(40)]
proof fn lemma_mask_bit_at(p: Permuter, y: Bits, m: Bits, i: int)
    requires
        p.wf(),
        p.fits(&y),
        m.word_bits == p.word_bits,
        m.data@ == p.mask_spec(y.data@),
        0 <= i < p.spec_mask_words() * p.word_bits,
    ensures
        m.bits()[i] == (i < p.mask_bits && y.bits()[i]),
{
    let w = p.word_bits as int;
    let n = p.spec_mask_words();
    let rem = p.mask_bits as int % w;
    let full = p.mask_bits as int / w;
    vstd::arithmetic::div_mod::lemma_fundamental_div_mod(p.mask_bits as int, w);
    lemma_mask_words_bound(p);
    assert(m.spec_size() == n * w);
    assert(n * w <= p.n_words() * w) by (nonlinear_arith)
        requires
            n <= p.n_words(),
            w > 0,
    ;

        let wi = i / w;
        let j = i % w;
        vstd::arithmetic::div_mod::lemma_fundamental_div_mod(i, w);
        assert(0 <= wi < n) by (nonlinear_arith)
            requires
                0 <= i < n * w,
                w > 0,
                wi == i / w,
        ;
        assert(0 <= j < w);
        assert(i < y.spec_size());
        let k = y.data@[wi];
        let sh = (w - 1 - j) as u64;
        assert(m.bits()[i] == m.bit(i));
        assert(y.bits()[i] == y.bit(i));
        if wi + 1 < n {
            assert(m.data@[wi] == k);
            assert(i < p.mask_bits) by (nonlinear_arith)
                requires
                    i == w * wi + j,
                    j < w,
                    wi + 1 <= full,
                    p.mask_bits == w * full + rem,
                    rem >= 0,
                    w > 0,
            ;
        } else if rem == 0 {
            assert(m.data@[wi] == k & 0xffff_ffff_ffff_ffffu64);
            assert(k & 0xffff_ffff_ffff_ffffu64 == k) by (bit_vector);
            assert(wi == full - 1);
            assert(i < p.mask_bits) by (nonlinear_arith)
                requires
                    i == w * wi + j,
                    j < w,
                    wi == full - 1,
                    p.mask_bits == w * full + rem,
                    rem == 0,
            ;
        } else {
            let s = (w - rem) as u64;
            assert(m.data@[wi] == k & (0xffff_ffff_ffff_ffffu64 << s));
            assert(wi == full);
            let ju = j as u64;
            let wu = w as u64;
            let ru = rem as u64;
            assert(sh == wu - 1 - ju);
            assert((((k & (0xffff_ffff_ffff_ffffu64 << s)) >> sh) & 1u64 == 1u64) == (ju < ru && ((k
                >> sh) & 1u64 == 1u64))) by (bit_vector)
                requires
                    0 < ru < wu,
                    wu <= 64,
                    ju < wu,
                    s == wu - ru,
                    sh == wu - 1u64 - ju,
            ;
            assert((i < p.mask_bits) == (j < rem)) by (nonlinear_arith)
                requires
                    i == w * wi + j,
                    wi == full,
                    p.mask_bits == w * full + rem,
            ;
        }
    }

/// The mask of a permuted key holds the head blocks of the key at their places, and no other bit.
pub proof fn lemma_mask_of_permuted(p: Permuter, x: Bits, y: Bits, m: Bits)
    requires
        p.wf(),
        p.fits(&x),
        p.fits(&y),
        y.bits() == p.apply_spec(x.bits()),
        m.word_bits == p.word_bits,
        m.data@ == p.mask_spec(y.data@),
    ensures
        forall|h: int, j: int|
            0 <= h < p.head && 0 <= j < p.blocks@[h].block.len ==> #[trigger] m.bits()[p.blocks@[h].new_pos
                + j] == x.bits()[p.blocks@[h].block.pos + j],
        forall|i: int| p.mask_bits <= i < m.spec_size() ==> !#[trigger] m.bits()[i],
{
    lemma_mask_bits(p, y, m);
    assert forall|h: int, j: int|
        0 <= h < p.head && 0 <= j < p.blocks@[h].block.len implies #[trigger] m.bits()[p.blocks@[h].new_pos
        + j] == x.bits()[p.blocks@[h].block.pos + j] by {
        let b = p.blocks@[h];
        assert(b.new_pos + b.block.len <= p.mask_bits);
        lemma_move_blocks_at(x.bits(), p.blocks@, p.total_bits as nat, h, j);
    }
}

/// Masking keeps the lexicographic order of keys: masks of ordered keys are ordered.
pub proof fn lemma_mask_monotone(p: Permuter, a: Seq<u64>, b: Seq<u64>)
    requires
        p.wf(),
        a.len() == p.n_words(),
        b.len() == p.n_words(),
        lex_le(a, b),
    ensures
        lex_le(p.mask_spec(a), p.mask_spec(b)),
{
    let n = p.spec_mask_words();
    let w = p.word_bits as int;
    lemma_mask_words_bound(p);
    let m = p.last_word_mask();
    assert(forall|x: u64, y: u64| x <= y ==> #[trigger] (x & m) <= #[trigger] (y & m)) by {
        if p.mask_bits as int % w == 0 {
            assert(forall|x: u64, y: u64| x <= y ==> (x & 0xffff_ffff_ffff_ffffu64) <= (y
                & 0xffff_ffff_ffff_ffffu64)) by (bit_vector);
        } else {
            let s = (p.word_bits - p.mask_bits as int % w) as u64;
            assert(s < 64);
            assert(forall|x: u64, y: u64| s < 64 && x <= y ==> (x & (0xffff_ffff_ffff_ffffu64 << s)) <= (y
                & (0xffff_ffff_ffff_ffffu64 << s))) by (bit_vector);
        }
    }
    lemma_mask_words_monotone(a, b, n as nat, m);
}

proof fn lemma_mask_words_monotone(a: Seq<u64>, b: Seq<u64>, n: nat, m: u64)
    requires
        n <= a.len(),
        a.len() == b.len(),
        lex_le(a, b),
        forall|x: u64, y: u64| x <= y ==> #[trigger] (x & m) <= #[trigger] (y & m),
    ensures
        lex_le(mask_words_spec(a, n, m), mask_words_spec(b, n, m)),
    decreases n,
{
    let ma = mask_words_spec(a, n, m);
    let mb = mask_words_spec(b, n, m);
    if n == 0 {
        assert(ma.len() == 0 && mb.len() == 0);
    } else if n == 1 {
        assert(a[0] <= b[0]);
        assert((a[0] & m) <= (b[0] & m));
        assert(ma[0] == (a[0] & m) && mb[0] == (b[0] & m));
        assert(ma.drop_first().len() == 0 && mb.drop_first().len() == 0);
        assert(lex_cmp(ma.drop_first(), mb.drop_first()) == Ordering::Equal);
    } else {
        assert(ma[0] == a[0] && mb[0] == b[0]);
        assert(a[0] <= b[0]);
        if a[0] == b[0] {
            assert(lex_le(a.drop_first(), b.drop_first()));
            lemma_mask_words_monotone(a.drop_first(), b.drop_first(), (n - 1) as nat, m);
            assert(ma.drop_first() =~= mask_words_spec(a.drop_first(), (n - 1) as nat, m));
            assert(mb.drop_first() =~= mask_words_spec(b.drop_first(), (n - 1) as nat, m));
        }
    }
}

} // verus!
