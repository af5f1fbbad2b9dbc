//! Contiguous ranges of key bits and the word-level operations that move them.
use vstd::prelude::*;
use vstd::std_specs::bits::{u64_trailing_ones, u64_trailing_zeros};

verus! {

/// The word with `len` ones starting at bit `pos` (bit 0 is the least significant one).
pub open spec fn range_mask(pos: u64, len: u64) -> u64 {
    if len >= 64 {
        0xffff_ffff_ffff_ffffu64 << pos
    } else {
        vstd::prelude::sub(1u64 << len, 1u64) << pos
    }
}

/// Position and length of the lowest run of ones in a word.
pub open spec fn unmask_spec(mask: u64) -> (usize, usize) {
    let pos = u64_trailing_zeros(mask);
    (pos as usize, u64_trailing_ones(mask >> pos as u64) as usize)
}

/// Two runs of ones that touch: one ends where the other starts.
pub open spec fn masks_adjacent(m1: u64, m2: u64) -> bool {
    let (p1, l1) = unmask_spec(m1);
    let (p2, l2) = unmask_spec(m2);
    p1 + l1 == p2 || p2 + l2 == p1
}

/// Returns a bit mask of length `len` starting at a given bit `pos`.
pub fn compute_mask(pos: usize, len: usize, word_size: usize) -> (r: u64)
    requires
        0 < word_size <= 64,
        pos < word_size,
        pos + len <= word_size,
    ensures
        r == range_mask(pos as u64, len as u64),
{
    if len == 64 {
        u64::MAX << (pos as u64)
    } else {
        proof {
            let l = len as u64;
            assert(l < 64 ==> 1u64 << l >= 1u64) by (bit_vector);
        }
        let ones: u64 = (1u64 << (len as u64)) - 1;
        ones << (pos as u64)
    }
}

/// Restores pos and len from a mask.
pub fn unmask(mask: u64) -> (r: (usize, usize))
    requires
        mask != 0,
    ensures
        r == unmask_spec(mask),
{
    proof {
        vstd::std_specs::bits::axiom_u64_trailing_zeros(mask);
    }
    let pos = mask.trailing_zeros();
    let len = (mask >> pos).trailing_ones();
    (pos as usize, len as usize)
}

/// Merges two masks into one when their runs of ones are adjacent.
pub fn combine_masks(m1: u64, m2: u64) -> (r: Option<u64>)
    requires
        m1 != 0,
        m2 != 0,
    ensures
        r == (if masks_adjacent(m1, m2) {
            Some(m1 | m2)
        } else {
            None::<u64>
        }),
{
    let (pos1, len1) = unmask(m1);
    let (pos2, len2) = unmask(m2);
    proof {
        vstd::std_specs::bits::axiom_u64_trailing_zeros(m1);
        vstd::std_specs::bits::axiom_u64_trailing_zeros(m2);
        vstd::std_specs::bits::axiom_u64_trailing_ones(m1 >> u64_trailing_zeros(m1) as u64);
        vstd::std_specs::bits::axiom_u64_trailing_ones(m2 >> u64_trailing_zeros(m2) as u64);
    }
    if pos1 + len1 == pos2 || pos2 + len2 == pos1 {
        Some(m1 | m2)
    } else {
        None
    }
}

/// Represents a range of bits.
#[derive(Clone, Copy, Debug, PartialEq, Eq, Structural)]
pub struct BitBlock {
    pub idx: usize,
    pub pos: usize,
    pub len: usize,
}

/// A block lies in a single word.
pub open spec fn spec_contiguous(b: BitBlock, w: usize) -> bool {
    (b.pos as int) / (w as int) == (b.pos + b.len - 1) / (w as int)
}

/// The parts of a block cut at word boundaries, in order.
#[verifier::opaque]
pub open spec fn split_spec(b: BitBlock, w: usize) -> Seq<BitBlock> {
    let wi = w as int;
    let first = (b.pos as int) / wi;
    let last = (b.pos + b.len - 1) / wi;
    Seq::new(
        (last - first + 1) as nat,
        |i: int|
            {
                let word = first + i;
                let start = if b.pos >= word * wi { b.pos as int } else { word * wi };
                let end = if b.pos + b.len - 1 <= (word + 1) * wi - 1 {
                    b.pos + b.len - 1
                } else {
                    (word + 1) * wi - 1
                };
                BitBlock { idx: b.idx, pos: start as usize, len: (end - start + 1) as usize }
            },
    )
}

/// Where a part of block `b` lands when `b` is moved to start at `new_pos`.
pub open spec fn moved_part(b: BitBlock, new_pos: usize, part: BitBlock) -> BitBlock {
    BitBlock { idx: part.idx, pos: (new_pos + part.pos - b.pos) as usize, len: part.len }
}

impl BitBlock {
    /// Valid blocks are non-empty, and `w` more bits past their end still fit in a `usize`.
    pub open spec fn wf(&self) -> bool {
        self.len > 0 && self.pos + self.len + 64 <= usize::MAX
    }

    pub open spec fn spec_end_pos(&self) -> int {
        self.pos + self.len - 1
    }

    pub fn new(idx: usize, pos: usize, len: usize) -> (r: Self)
        requires
            len != 0,
        ensures
            r == (BitBlock { idx, pos, len }),
    {
        Self { idx, pos, len }
    }

    /// Index of this block
    pub fn idx(&self) -> (r: usize)
        ensures
            r == self.idx,
    {
        self.idx
    }

    /// Global number of a bit this block starts at.
    pub fn start_pos(&self) -> (r: usize)
        ensures
            r == self.pos,
    {
        self.pos
    }

    /// Global number of a bit this block ends at.
    pub fn end_pos(&self) -> (r: usize)
        requires
            self.wf(),
        ensures
            r == self.spec_end_pos(),
    {
        self.pos + self.len - 1
    }

    /// Length of this block in bits
    #[allow(clippy::len_without_is_empty)]
    pub fn len(&self) -> (r: usize)
        ensures
            r == self.len,
    {
        self.len
    }

    /// Index of a word this block starts at.
    pub fn start_word(&self, word_size: usize) -> (r: usize)
        requires
            word_size > 0,
        ensures
            r == (self.pos as int) / (word_size as int),
    {
        self.start_pos() / word_size
    }

    /// Index of a word this block ends at.
    pub fn end_word(&self, word_size: usize) -> (r: usize)
        requires
            self.wf(),
            word_size > 0,
        ensures
            r == self.spec_end_pos() / (word_size as int),
    {
        self.end_pos() / word_size
    }

    /// Index of a bit this block is located at within its last word.
    ///
    /// Note that bits within a word are enumerated in reverse order: `[ bN-1, bN-2, ... b0 ]`.
    pub fn end_bit(&self, word_size: usize) -> (r: usize)
        requires
            self.wf(),
            word_size > 0,
        ensures
            r == word_size - 1 - self.spec_end_pos() % (word_size as int),
    {
        word_size - 1 - self.end_pos() % word_size
    }

    /// Whether this block resides entirely within a single word
    pub fn is_contiguous(&self, word_size: usize) -> (r: bool)
        requires
            self.wf(),
            word_size > 0,
        ensures
            r == spec_contiguous(*self, word_size),
    {
        self.start_word(word_size) == self.end_word(word_size)
    }

    /// Length of this block in words
    pub fn len_words(&self, word_size: usize) -> (r: usize)
        requires
            self.wf(),
            word_size > 0,
        ensures
            r == (self.len as int) / (word_size as int) + if (self.len as int) % (word_size as int) == 0 {
                0int
            } else {
                1int
            },
    {
        let rem: usize = if self.len() % word_size == 0 {
            0
        } else {
            1
        };
        proof {
            assert((self.len as int) / (word_size as int) <= self.len) by (nonlinear_arith)
                requires
                    word_size > 0,
            ;
        }
        self.len() / word_size + rem
    }

    /// Split this block by word boundaries
    pub fn split(&self, word_size: usize) -> (parts: Vec<Self>)
        requires
            self.wf(),
            0 < word_size <= 64,
        ensures
            parts@ == split_spec(*self, word_size),
    {
        let start_word = self.start_pos() / word_size;
        let end_word = self.end_pos() / word_size;
        let ghost w = word_size as int;
        proof {
            reveal(split_spec);
            lemma_div_le(self.pos as int, self.spec_end_pos(), w);
            lemma_div_mul_le(self.spec_end_pos(), w);
        }
        let mut parts: Vec<BitBlock> = Vec::new();
        let mut word_idx: usize = start_word;
        while word_idx <= end_word
            invariant
                self.wf(),
                0 < word_size <= 64,
                w == word_size,
                start_word == (self.pos as int) / w,
                end_word == self.spec_end_pos() / w,
                start_word <= word_idx <= end_word + 1,
                end_word * w <= self.spec_end_pos(),
                parts@.len() == word_idx - start_word,
                forall|i: int|
                    0 <= i < parts@.len() ==> parts@[i] == #[trigger] split_spec(*self, word_size)[i],
            decreases end_word + 1 - word_idx,
        {
            proof {
                assert(word_idx * w <= end_word * w) by (nonlinear_arith)
                    requires
                        word_idx <= end_word,
                        w > 0,
                ;
                assert((word_idx + 1) * w == word_idx * w + w) by (nonlinear_arith);
                assert(start_word * w <= self.pos) by {
                    lemma_div_mul_le(self.pos as int, w);
                }
                assert(self.pos < (start_word + 1) * w) by {
                    lemma_div_mul_gt(self.pos as int, w);
                }
                assert((start_word + 1) * w <= (word_idx + 1) * w) by (nonlinear_arith)
                    requires
                        start_word <= word_idx,
                        w > 0,
                ;
                assert(self.spec_end_pos() < (end_word + 1) * w) by {
                    lemma_div_mul_gt(self.spec_end_pos(), w);
                }
                assert(word_idx * w <= self.spec_end_pos());
            }
            let word_start_idx = word_idx * word_size;
            let word_end_idx = (word_idx + 1) * word_size - 1;
            let start_idx = if self.start_pos() >= word_start_idx {
                self.start_pos()
            } else {
                word_start_idx
            };
            let end_idx = if self.end_pos() <= word_end_idx {
                self.end_pos()
            } else {
                word_end_idx
            };
            let part_len = end_idx - start_idx + 1;
            parts.push(BitBlock::new(self.idx, start_idx, part_len));
            proof {
                reveal(split_spec);
                let k = word_idx - start_word;
                assert(parts@[k as int] == split_spec(*self, word_size)[k as int]);
            }
            word_idx = word_idx + 1;
        }
        proof {
            assert(parts@ =~= split_spec(*self, word_size));
        }
        parts
    }

    /// Move this block to the new position, respecting both old and new word boundaries
    pub fn move_to(&self, new_pos: usize, word_size: usize) -> (r: Vec<(Self, Vec<Self>)>)
        requires
            self.wf(),
            0 < word_size <= 64,
            new_pos + self.len + 64 <= usize::MAX,
        ensures
            r@.len() == split_spec(*self, word_size).len(),
            forall|i: int|
                0 <= i < r@.len() ==> {
                    &&& (#[trigger] r@[i]).0 == split_spec(*self, word_size)[i]
                    &&& r@[i].1@ == split_spec(
                        moved_part(*self, new_pos, split_spec(*self, word_size)[i]),
                        word_size,
                    )
                },
    {
        let parts = self.split(word_size);
        proof {
            lemma_split_facts(*self, word_size);
        }
        let mut part_pos = new_pos;
        let mut new_parts: Vec<(BitBlock, Vec<BitBlock>)> = Vec::new();
        let mut i: usize = 0;
        while i < parts.len()
            invariant
                self.wf(),
                0 < word_size <= 64,
                new_pos + self.len + 64 <= usize::MAX,
                parts@ == split_spec(*self, word_size),
                0 <= i <= parts@.len(),
                new_parts@.len() == i,
                i < parts@.len() ==> part_pos == new_pos + parts@[i as int].pos - self.pos,
                forall|j: int|
                    0 <= j < parts@.len() ==> #[trigger] parts@[j].pos + parts@[j].len == if j + 1
                        < parts@.len() {
                        parts@[j + 1].pos as int
                    } else {
                        self.pos + self.len
                    },
                forall|j: int|
                    0 <= j < parts@.len() ==> (#[trigger] parts@[j]).len > 0 && parts@[j].pos
                        >= self.pos && parts@[j].pos + parts@[j].len <= self.pos + self.len,
                forall|j: int|
                    0 <= j < i ==> {
                        &&& (#[trigger] new_parts@[j]).0 == parts@[j]
                        &&& new_parts@[j].1@ == split_spec(
                            moved_part(*self, new_pos, parts@[j]),
                            word_size,
                        )
                    },
            decreases parts@.len() - i,
        {
            let part = parts[i];
            assert(part.pos + part.len <= self.pos + self.len);
            let moved_part = BitBlock::new(part.idx, part_pos, part.len());
            let moved_split = moved_part.split(word_size);
            new_parts.push((part, moved_split));
            part_pos = part_pos + part.len();
            i = i + 1;
        }
        new_parts
    }

    /// If a block is a single-word block, return the bit it is located at within the word; otherwise None.
    pub fn bit_pos(&self, word_size: usize) -> (r: Option<usize>)
        requires
            self.wf(),
            word_size > 0,
        ensures
            r == (if spec_contiguous(*self, word_size) {
                Some((word_size - 1 - self.spec_end_pos() % (word_size as int)) as usize)
            } else {
                None::<usize>
            }),
    {
        if self.is_contiguous(word_size) {
            Some(self.end_bit(word_size))
        } else {
            None
        }
    }

    /// If a block is a single-word block, return the its corresponding bit mask; otherwise None.
    pub fn mask(&self, word_size: usize) -> (r: Option<u64>)
        requires
            self.wf(),
            0 < word_size <= 64,
        ensures
            r == (if spec_contiguous(*self, word_size) {
                Some(
                    range_mask(
                        (word_size - 1 - self.spec_end_pos() % (word_size as int)) as u64,
                        self.len as u64,
                    ),
                )
            } else {
                None::<u64>
            }),
    {
        match self.bit_pos(word_size) {
            Some(bit) => {
                proof {
                    lemma_same_word_offsets(self.pos as int, self.spec_end_pos(), word_size as int);
                }
                Some(compute_mask(bit, self.len(), word_size))
            },
            None => None,
        }
    }

    /// If a block is a single-word block, return its word and mask; otherwise None.
    pub fn coord(&self, word_size: usize) -> (r: Option<(usize, usize)>)
        requires
            self.wf(),
            word_size > 0,
        ensures
            r == (if spec_contiguous(*self, word_size) {
                Some(
                    (
                        (self.spec_end_pos() / (word_size as int)) as usize,
                        (word_size - 1 - self.spec_end_pos() % (word_size as int)) as usize,
                    ),
                )
            } else {
                None::<(usize, usize)>
            }),
    {
        match self.bit_pos(word_size) {
            Some(bit) => Some((self.end_word(word_size), bit)),
            None => None,
        }
    }
}

/// Low-level bit operations.
#[derive(Clone, Copy, Debug, PartialEq, Eq, Structural)]
pub enum BitOp {
    MaskShiftAndCopy { src_word: usize, src_mask: u64, src_shift: i64, dst_word: usize },
    MaskAndCopy { src_word: usize, src_mask: u64, dst_word: usize },
    Copy { src_word: usize, dst_word: usize },
}

/// Word holding the last bit of a block.
pub open spec fn word_of(b: BitBlock, w: usize) -> usize {
    (b.spec_end_pos() / (w as int)) as usize
}

/// Offset, counted from the least significant bit, of the last bit of a block within its word.
pub open spec fn bit_of(b: BitBlock, w: usize) -> usize {
    (w - 1 - b.spec_end_pos() % (w as int)) as usize
}

/// The operation that copies single-word block `src` onto single-word block `dst`.
pub open spec fn copy_block_spec(src: BitBlock, dst: BitBlock, w: usize) -> BitOp {
    let src_mask = range_mask(bit_of(src, w) as u64, src.len as u64);
    if bit_of(src, w) == bit_of(dst, w) {
        if src.len == w {
            BitOp::Copy { src_word: word_of(src, w), dst_word: word_of(dst, w) }
        } else {
            BitOp::MaskAndCopy { src_word: word_of(src, w), src_mask, dst_word: word_of(dst, w) }
        }
    } else {
        BitOp::MaskShiftAndCopy {
            src_word: word_of(src, w),
            src_mask,
            src_shift: (bit_of(dst, w) - bit_of(src, w)) as i64,
            dst_word: word_of(dst, w),
        }
    }
}

/// The operation that keeps the bits of single-word block `b` in place.
pub open spec fn mask_block_spec(b: BitBlock, w: usize) -> BitOp {
    BitOp::MaskAndCopy {
        src_word: ((b.pos as int) / (w as int)) as usize,
        src_mask: range_mask(bit_of(b, w) as u64, b.len as u64),
        dst_word: ((b.pos as int) / (w as int)) as usize,
    }
}

impl BitOp {
    pub open spec fn spec_src_word(self) -> usize {
        match self {
            BitOp::MaskShiftAndCopy { src_word, .. } => src_word,
            BitOp::MaskAndCopy { src_word, .. } => src_word,
            BitOp::Copy { src_word, .. } => src_word,
        }
    }

    pub open spec fn spec_dst_word(self) -> usize {
        match self {
            BitOp::MaskShiftAndCopy { dst_word, .. } => dst_word,
            BitOp::MaskAndCopy { dst_word, .. } => dst_word,
            BitOp::Copy { dst_word, .. } => dst_word,
        }
    }

    pub open spec fn spec_shift(self) -> i64 {
        match self {
            BitOp::MaskShiftAndCopy { src_shift, .. } => src_shift,
            _ => 0,
        }
    }

    pub open spec fn spec_mask(self) -> u64 {
        match self {
            BitOp::MaskShiftAndCopy { src_mask, .. } => src_mask,
            BitOp::MaskAndCopy { src_mask, .. } => src_mask,
            BitOp::Copy { .. } => 0xffff_ffff_ffff_ffffu64,
        }
    }

    /// The same operation with its mask replaced; a plain copy has no mask to replace.
    pub open spec fn with_mask(self, mask: u64) -> BitOp {
        match self {
            BitOp::MaskShiftAndCopy { src_word, src_shift, dst_word, .. } => BitOp::MaskShiftAndCopy {
                src_word,
                src_mask: mask,
                src_shift,
                dst_word,
            },
            BitOp::MaskAndCopy { src_word, dst_word, .. } => BitOp::MaskAndCopy {
                src_word,
                src_mask: mask,
                dst_word,
            },
            BitOp::Copy { .. } => self,
        }
    }

    /// Two operations that differ only in adjacent masks merge into one with the union mask.
    pub open spec fn combine_spec(self, op: BitOp) -> Option<BitOp> {
        if self.with_mask(0) == op.with_mask(0) && masks_adjacent(self.spec_mask(), op.spec_mask()) {
            Some(self.with_mask(self.spec_mask() | op.spec_mask()))
        } else {
            None
        }
    }

    pub fn copy_block(src: BitBlock, dst: BitBlock, word_size: usize) -> (r: Self)
        requires
            src.wf(),
            dst.wf(),
            src.len == dst.len,
            0 < word_size <= 64,
            spec_contiguous(src, word_size),
            spec_contiguous(dst, word_size),
        ensures
            r == copy_block_spec(src, dst, word_size),
    {
        let (src_word, src_bit) = src.coord(word_size).unwrap();
        let (dst_word, dst_bit) = dst.coord(word_size).unwrap();
        let src_mask = src.mask(word_size).unwrap();
        if src_bit == dst_bit {
            if src.len() == word_size {
                Self::Copy { src_word, dst_word }
            } else {
                Self::MaskAndCopy { src_word, src_mask, dst_word }
            }
        } else {
            Self::MaskShiftAndCopy {
                src_word,
                src_mask,
                src_shift: dst_bit as i64 - src_bit as i64,
                dst_word,
            }
        }
    }

    pub fn mask_block(src: BitBlock, word_size: usize) -> (r: Self)
        requires
            src.wf(),
            0 < word_size <= 64,
            spec_contiguous(src, word_size),
        ensures
            r == mask_block_spec(src, word_size),
    {
        let word = src.start_word(word_size);
        let mask = src.mask(word_size).unwrap();
        Self::MaskAndCopy { src_word: word, src_mask: mask, dst_word: word }
    }

    pub fn src_word(&self) -> (r: usize)
        ensures
            r == self.spec_src_word(),
    {
        match self {
            Self::MaskShiftAndCopy { src_word, .. } => *src_word,
            Self::MaskAndCopy { src_word, .. } => *src_word,
            Self::Copy { src_word, .. } => *src_word,
        }
    }

    pub fn dst_word(&self) -> (r: usize)
        ensures
            r == self.spec_dst_word(),
    {
        match self {
            Self::MaskShiftAndCopy { dst_word, .. } => *dst_word,
            Self::MaskAndCopy { dst_word, .. } => *dst_word,
            Self::Copy { dst_word, .. } => *dst_word,
        }
    }

    pub fn shift(&self) -> (r: i64)
        ensures
            r == self.spec_shift(),
    {
        match self {
            Self::MaskShiftAndCopy { src_shift, .. } => *src_shift,
            _ => 0,
        }
    }

    pub fn mask(&self) -> (r: u64)
        ensures
            r == self.spec_mask(),
    {
        match self {
            Self::MaskShiftAndCopy { src_mask, .. } => *src_mask,
            Self::MaskAndCopy { src_mask, .. } => *src_mask,
            Self::Copy { .. } => u64::MAX,
        }
    }

    fn set_mask(&mut self, mask: u64) -> (r: Self)
        ensures
            *final(self) == old(self).with_mask(mask),
            r == old(self).with_mask(mask),
    {
        match self {
            Self::MaskShiftAndCopy { src_mask, .. } => *src_mask = mask,
            Self::MaskAndCopy { src_mask, .. } => *src_mask = mask,
            Self::Copy { .. } => {},
        }
        *self
    }

    pub fn clone_with_mask(&self, mask: u64) -> (r: Self)
        ensures
            r == self.with_mask(mask),
    {
        let mut op = *self;
        op.set_mask(mask)
    }

    pub fn combine(&self, op: &Self) -> (r: Option<Self>)
        requires
            self.spec_mask() != 0,
            op.spec_mask() != 0,
        ensures
            r == self.combine_spec(*op),
    {
        if self.clone_with_mask(0) == op.clone_with_mask(0) {
            if let Some(combined_mask) = combine_masks(self.mask(), op.mask()) {
                Some(self.clone_with_mask(combined_mask))
            } else {
                None
            }
        } else {
            None
        }
    }
}

/// `x` cut down to its `w` least significant bits.
pub open spec fn low_bits(x: u64, w: usize) -> u64 {
    if w >= 64 {
        x
    } else {
        x & vstd::prelude::sub(1u64 << (w as u64), 1u64)
    }
}

/// The operation names input and output words that exist, and shifts by less than a word.
pub open spec fn op_in_range(op: BitOp, n_in: int, n_out: int) -> bool {
    &&& op.spec_src_word() < n_in
    &&& op.spec_dst_word() < n_out
    &&& -64 < op.spec_shift() < 64
}

/// What an operation writes into its destination word, `cur` being that word so far: a copy
/// overwrites it, the others add the masked (and shifted) source bits to it.
pub open spec fn op_word(op: BitOp, inp: Seq<u64>, cur: u64, w: usize) -> u64 {
    match op {
        BitOp::Copy { src_word, .. } => inp[src_word as int],
        BitOp::MaskAndCopy { src_word, src_mask, .. } => cur | (inp[src_word as int] & src_mask),
        BitOp::MaskShiftAndCopy { src_word, src_mask, src_shift, .. } => cur | low_bits(
            if src_shift < 0 {
                (inp[src_word as int] & src_mask) >> ((-src_shift) as u64)
            } else {
                (inp[src_word as int] & src_mask) << (src_shift as u64)
            },
            w,
        ),
    }
}

/// The output words after applying `ops`, in order, to `out`.
pub open spec fn run_ops(ops: Seq<BitOp>, inp: Seq<u64>, out: Seq<u64>, w: usize) -> Seq<u64>
    decreases ops.len(),
{
    if ops.len() == 0 {
        out
    } else {
        let prev = run_ops(ops.drop_last(), inp, out, w);
        let op = ops.last();
        prev.update(op.spec_dst_word() as int, op_word(op, inp, prev[op.spec_dst_word() as int], w))
    }
}

/// Apply operations to the words `inp` of a key: the output starts as `n_out` cleared words of
/// `word_size` bits, and each operation in turn writes its destination word.
pub fn execute_ops(ops: &[BitOp], inp: &[u64], n_out: usize, word_size: usize) -> (out: Vec<u64>)
    requires
        0 < word_size <= 64,
        forall|i: int| 0 <= i < ops@.len() ==> op_in_range(#[trigger] ops@[i], inp@.len() as int, n_out as int),
    ensures
        out@ == run_ops(ops@, inp@, Seq::new(n_out as nat, |i: int| 0u64), word_size),
{
    let ghost zeros = Seq::new(n_out as nat, |i: int| 0u64);
    let mut out: Vec<u64> = Vec::new();
    let mut k: usize = 0;
    while k < n_out
        invariant
            k <= n_out,
            out@ == Seq::new(k as nat, |i: int| 0u64),
        decreases n_out - k,
    {
        out.push(0);
        k = k + 1;
        proof {
            assert(out@ =~= Seq::new(k as nat, |i: int| 0u64));
        }
    }
    let mut i: usize = 0;
    while i < ops.len()
        invariant
            0 < word_size <= 64,
            forall|t: int| 0 <= t < ops@.len() ==> op_in_range(#[trigger] ops@[t], inp@.len() as int, n_out as int),
            i <= ops@.len(),
            out@ == run_ops(ops@.take(i as int), inp@, zeros, word_size),
            out@.len() == n_out,
        decreases ops@.len() - i,
    {
        let op = ops[i];
        proof {
            assert(op_in_range(op, inp@.len() as int, n_out as int));
            let wu = word_size as u64;
            assert(wu < 64 ==> 1u64 << wu >= 1u64) by (bit_vector);
        }
        let word = match op {
            BitOp::Copy { src_word, .. } => inp[src_word],
            BitOp::MaskAndCopy { src_word, src_mask, dst_word } => out[dst_word] | (inp[src_word]
                & src_mask),
            BitOp::MaskShiftAndCopy { src_word, src_mask, src_shift, dst_word } => {
                let masked = inp[src_word] & src_mask;
                let shifted = if src_shift < 0 {
                    masked >> ((-src_shift) as u64)
                } else {
                    masked << (src_shift as u64)
                };
                let kept = if word_size >= 64 {
                    shifted
                } else {
                    shifted & ((1u64 << (word_size as u64)) - 1)
                };
                out[dst_word] | kept
            },
        };
        let dst = op.dst_word();
        out.set(dst, word);
        proof {
            let t = ops@.take(i + 1);
            assert(t.drop_last() =~= ops@.take(i as int));
            assert(t.last() == op);
        }
        i = i + 1;
    }
    proof {
        assert(ops@.take(ops@.len() as int) =~= ops@);
    }
    out
}

/// Represents a range of bits which have been moved into a new position.
#[derive(Clone, Copy, Debug, PartialEq, Eq, Structural)]
pub struct PermutedBitBlock {
    pub block: BitBlock,
    pub new_pos: usize,
}

/// The copies that move one word-part of `b` to its place when `b` goes to `new_pos`: the moved
/// part is cut again at word boundaries, and each piece is copied from the matching source bits.
pub open spec fn part_ops(b: BitBlock, new_pos: usize, part: BitBlock, w: usize) -> Seq<BitOp> {
    let moved = moved_part(b, new_pos, part);
    split_spec(moved, w).map(
        |j: int, d: BitBlock|
            copy_block_spec(
                BitBlock { idx: part.idx, pos: (part.pos + d.pos - moved.pos) as usize, len: d.len },
                d,
                w,
            ),
    )
}

/// All copies that move block `b` to `new_pos`, in order.
pub open spec fn to_ops_spec(pb: PermutedBitBlock, w: usize) -> Seq<BitOp> {
    split_spec(pb.block, w).map(|i: int, part: BitBlock| part_ops(pb.block, pb.new_pos, part, w)).flatten()
}

impl PermutedBitBlock {
    /// The block and its new position both leave room past their ends.
    pub open spec fn wf(&self) -> bool {
        &&& self.block.wf()
        &&& self.new_pos + self.block.len + 64 <= usize::MAX
    }

    /// The same move seen from its destination: the block at its new place, going back.
    pub open spec fn apply_spec(&self) -> PermutedBitBlock {
        PermutedBitBlock {
            block: BitBlock { idx: self.block.idx, pos: self.new_pos, len: self.block.len },
            new_pos: self.block.pos,
        }
    }

    pub fn new(block: BitBlock, new_pos: usize) -> (r: Self)
        ensures
            r == (PermutedBitBlock { block, new_pos }),
    {
        Self { block, new_pos }
    }

    pub fn apply(&self) -> (r: Self)
        requires
            self.block.len > 0,
        ensures
            r == self.apply_spec(),
    {
        PermutedBitBlock {
            block: BitBlock::new(self.block.idx(), self.new_pos, self.block.len()),
            new_pos: self.block.start_pos(),
        }
    }

    pub fn to_ops(&self, word_size: usize) -> (ops: Vec<BitOp>)
        requires
            self.wf(),
            0 < word_size <= 64,
        ensures
            ops@ == to_ops_spec(*self, word_size),
    {
        let moved_parts = self.block.move_to(self.new_pos, word_size);
        let ghost parts = split_spec(self.block, word_size);
        let ghost groups = parts.map(
            |i: int, part: BitBlock| part_ops(self.block, self.new_pos, part, word_size),
        );
        proof {
            lemma_split_facts(self.block, word_size);
            lemma_split_parts_contiguous(self.block, word_size);
        }
        let mut ops: Vec<BitOp> = Vec::new();
        let mut i: usize = 0;
        while i < moved_parts.len()
            invariant
                self.wf(),
                0 < word_size <= 64,
                parts == split_spec(self.block, word_size),
                groups == parts.map(
                    |i: int, part: BitBlock| part_ops(self.block, self.new_pos, part, word_size),
                ),
                moved_parts@.len() == parts.len(),
                forall|k: int|
                    0 <= k < moved_parts@.len() ==> {
                        &&& (#[trigger] moved_parts@[k]).0 == parts[k]
                        &&& moved_parts@[k].1@ == split_spec(
                            moved_part(self.block, self.new_pos, parts[k]),
                            word_size,
                        )
                    },
                forall|j: int|
                    0 <= j < parts.len() ==> (#[trigger] parts[j]).len > 0 && parts[j].pos
                        >= self.block.pos && parts[j].pos + parts[j].len <= self.block.pos
                        + self.block.len,
                forall|j: int| 0 <= j < parts.len() ==> spec_contiguous(#[trigger] parts[j], word_size),
                0 <= i <= moved_parts@.len(),
                ops@ == groups.take(i as int).flatten(),
            decreases moved_parts@.len() - i,
        {
            let src = moved_parts[i].0;
            let dst_parts = &moved_parts[i].1;
            let ghost moved = moved_part(self.block, self.new_pos, src);
            let ghost dsts = split_spec(moved, word_size);
            proof {
                assert(src == parts[i as int]);
                lemma_split_facts(moved, word_size);
                lemma_split_parts_contiguous(moved, word_size);
            }
            let ghost start_ops = ops@;
            let mut src_pos = src.start_pos();
            let mut j: usize = 0;
            while j < dst_parts.len()
                invariant
                    0 < word_size <= 64,
                    src.wf(),
                    spec_contiguous(src, word_size),
                    src.len > 0,
                    moved == moved_part(self.block, self.new_pos, src),
                    moved.wf(),
                    moved.len == src.len,
                    dsts == split_spec(moved, word_size),
                    dst_parts@ == dsts,
                    dsts.len() > 0,
                    dsts[0].pos == moved.pos,
                    forall|k: int|
                        0 <= k < dsts.len() ==> (#[trigger] dsts[k]).len > 0 && dsts[k].pos
                            >= moved.pos && dsts[k].pos + dsts[k].len <= moved.pos + moved.len,
                    forall|k: int|
                        0 <= k < dsts.len() ==> #[trigger] dsts[k].pos + dsts[k].len == if k + 1
                            < dsts.len() {
                            dsts[k + 1].pos as int
                        } else {
                            moved.pos + moved.len
                        },
                    forall|k: int| 0 <= k < dsts.len() ==> spec_contiguous(#[trigger] dsts[k], word_size),
                    0 <= j <= dsts.len(),
                    j < dsts.len() ==> src_pos == src.pos + dsts[j as int].pos - moved.pos,
                    ops@ == start_ops + part_ops(self.block, self.new_pos, src, word_size).take(
                        j as int,
                    ),
                decreases dsts.len() - j,
            {
                let dst = dst_parts[j];
                let src_sub = BitBlock::new(src.idx(), src_pos, dst.len());
                proof {
                    lemma_sub_block_contiguous(src, src_sub, word_size);
                }
                let op = BitOp::copy_block(src_sub, dst, word_size);
                ops.push(op);
                proof {
                    assert(part_ops(self.block, self.new_pos, src, word_size).take(j + 1) =~= part_ops(
                        self.block,
                        self.new_pos,
                        src,
                        word_size,
                    ).take(j as int).push(op));
                }
                src_pos = src_pos + dst.len();
                j = j + 1;
            }
            proof {
                assert(part_ops(self.block, self.new_pos, src, word_size).take(j as int) =~= part_ops(
                    self.block,
                    self.new_pos,
                    src,
                    word_size,
                ));
                assert(groups.take(i + 1) =~= groups.take(i as int).push(groups[i as int]));
                groups.take(i as int).lemma_flatten_push(groups[i as int]);
            }
            i = i + 1;
        }
        proof {
            assert(groups.take(i as int) =~= groups);
        }
        ops
    }

    pub fn to_mask_ops(&self, word_size: usize) -> (ops: Vec<BitOp>)
        requires
            self.wf(),
            0 < word_size <= 64,
        ensures
            ops@ == split_spec(self.apply_spec().block, word_size).map(
                |i: int, b: BitBlock| mask_block_spec(b, word_size),
            ),
    {
        let parts = self.apply().block.split(word_size);
        let ghost target = self.apply_spec().block;
        proof {
            lemma_split_facts(target, word_size);
            lemma_split_parts_contiguous(target, word_size);
        }
        let mut ops: Vec<BitOp> = Vec::new();
        let mut i: usize = 0;
        while i < parts.len()
            invariant
                0 < word_size <= 64,
                target.wf(),
                parts@ == split_spec(target, word_size),
                forall|j: int|
                    0 <= j < parts@.len() ==> (#[trigger] parts@[j]).len > 0 && parts@[j].pos
                        >= target.pos && parts@[j].pos + parts@[j].len <= target.pos + target.len,
                forall|j: int| 0 <= j < parts@.len() ==> spec_contiguous(#[trigger] parts@[j], word_size),
                0 <= i <= parts@.len(),
                ops@ =~= split_spec(target, word_size).map(
                    |i: int, b: BitBlock| mask_block_spec(b, word_size),
                ).take(i as int),
            decreases parts@.len() - i,
        {
            ops.push(BitOp::mask_block(parts[i], word_size));
            i = i + 1;
        }
        ops
    }
}

proof fn lemma_div_le(a: int, b: int, w: int)
    requires
        0 <= a <= b,
        w > 0,
    ensures
        a / w <= b / w,
{
    vstd::arithmetic::div_mod::lemma_div_is_ordered(a, b, w);
}

proof fn lemma_div_mul_le(a: int, w: int)
    requires
        0 <= a,
        w > 0,
    ensures
        (a / w) * w <= a,
{
    vstd::arithmetic::div_mod::lemma_fundamental_div_mod(a, w);
    assert((a / w) * w == w * (a / w)) by (nonlinear_arith);
}

proof fn lemma_div_mul_gt(a: int, w: int)
    requires
        0 <= a,
        w > 0,
    ensures
        a < (a / w + 1) * w,
{
    vstd::arithmetic::div_mod::lemma_fundamental_div_mod(a, w);
    assert((a / w + 1) * w == w * (a / w) + w) by (nonlinear_arith);
}

/// Two positions in one word are as far apart as their offsets within it.
proof fn lemma_same_word_offsets(a: int, b: int, w: int)
    requires
        0 <= a <= b,
        w > 0,
        a / w == b / w,
    ensures
        b % w - a % w == b - a,
        a % w <= b % w < w,
{
    vstd::arithmetic::div_mod::lemma_fundamental_div_mod(a, w);
    vstd::arithmetic::div_mod::lemma_fundamental_div_mod(b, w);
    vstd::arithmetic::div_mod::lemma_mod_bound(b, w);
}

/// Every part of a split block lies in a single word.
pub proof fn lemma_split_parts_contiguous(b: BitBlock, w: usize)
    requires
        b.wf(),
        0 < w <= 64,
    ensures
        forall|j: int|
            0 <= j < split_spec(b, w).len() ==> spec_contiguous(#[trigger] split_spec(b, w)[j], w),
{
    lemma_split_facts(b, w);
    assert forall|j: int| 0 <= j < split_spec(b, w).len() implies spec_contiguous(
        #[trigger] split_spec(b, w)[j],
        w,
    ) by {
        lemma_split_part_in_word(b, w, j);
    }
}

proof fn lemma_split_part_in_word(b: BitBlock, w: usize, j: int)
    requires
        b.wf(),
        0 < w <= 64,
        0 <= j < split_spec(b, w).len(),
        split_spec(b, w)[j].len > 0,
    ensures
        spec_contiguous(split_spec(b, w)[j], w),
{
    reveal(split_spec);
    let wi = w as int;
    let first = (b.pos as int) / wi;
    let word = first + j;
    let start = if b.pos >= word * wi { b.pos as int } else { word * wi };
    let end = if b.pos + b.len - 1 <= (word + 1) * wi - 1 {
        b.pos + b.len - 1
    } else {
        (word + 1) * wi - 1
    };
    assert(0 <= first) by {
        vstd::arithmetic::div_mod::lemma_div_pos_is_pos(b.pos as int, wi);
    }
    assert(0 <= word * wi) by (nonlinear_arith)
        requires
            0 <= word,
            wi > 0,
    ;
    assert((word + 1) * wi == word * wi + wi) by (nonlinear_arith);
    let last = (b.pos + b.len - 1) / wi;
    lemma_div_le(b.pos as int, b.pos + b.len - 1, wi);
    assert(split_spec(b, w).len() == last - first + 1);
    lemma_div_mul_le(b.pos + b.len - 1, wi);
    lemma_div_mul_gt(b.pos as int, wi);
    assert(word * wi <= last * wi) by (nonlinear_arith)
        requires
            word <= last,
            wi > 0,
    ;
    assert((first + 1) * wi <= (word + 1) * wi) by (nonlinear_arith)
        requires
            first <= word,
            wi > 0,
    ;
    assert(0 <= start <= end <= b.pos + b.len - 1);
    let part = split_spec(b, w)[j];
    assert(part.pos == start);
    assert(part.pos + part.len - 1 == end);
    vstd::arithmetic::div_mod::lemma_fundamental_div_mod_converse(start, wi, word, start - word * wi);
    vstd::arithmetic::div_mod::lemma_fundamental_div_mod_converse(end, wi, word, end - word * wi);
}

/// A block inside a single-word block lies in that word too.
proof fn lemma_sub_block_contiguous(outer: BitBlock, inner: BitBlock, w: usize)
    requires
        outer.wf(),
        0 < w <= 64,
        spec_contiguous(outer, w),
        inner.len > 0,
        outer.pos <= inner.pos,
        inner.pos + inner.len <= outer.pos + outer.len,
    ensures
        spec_contiguous(inner, w),
        inner.wf(),
{
    lemma_div_le(outer.pos as int, inner.pos as int, w as int);
    lemma_div_le(inner.pos as int, inner.pos + inner.len - 1, w as int);
    lemma_div_le(inner.pos + inner.len - 1, outer.pos + outer.len - 1, w as int);
}

/// The parts of a split block are non-empty, consecutive and together span the block.
pub proof fn lemma_split_facts(b: BitBlock, w: usize)
    requires
        b.wf(),
        0 < w <= 64,
    ensures
        split_spec(b, w).len() > 0,
        split_spec(b, w)[0].pos == b.pos,
        forall|j: int|
            0 <= j < split_spec(b, w).len() ==> (#[trigger] split_spec(b, w)[j]).len > 0
                && split_spec(b, w)[j].pos >= b.pos && split_spec(b, w)[j].idx == b.idx
                && split_spec(b, w)[j].pos + split_spec(b, w)[j].len <= b.pos + b.len,
        forall|j: int|
            0 <= j < split_spec(b, w).len() ==> #[trigger] split_spec(b, w)[j].pos + split_spec(
                b,
                w,
            )[j].len == if j + 1 < split_spec(b, w).len() {
                split_spec(b, w)[j + 1].pos as int
            } else {
                b.pos + b.len
            },
{
    let wi = w as int;
    let first = (b.pos as int) / wi;
    let last = (b.pos + b.len - 1) / wi;
    lemma_div_le(b.pos as int, b.pos + b.len - 1, wi);
    lemma_div_mul_le(b.pos as int, wi);
    lemma_div_mul_gt(b.pos as int, wi);
    lemma_div_mul_le(b.pos + b.len - 1, wi);
    lemma_div_mul_gt(b.pos + b.len - 1, wi);
    reveal(split_spec);
    let s = split_spec(b, w);
    assert forall|j: int| 0 <= j < s.len() implies (#[trigger] s[j]).len > 0 && s[j].pos >= b.pos
        && s[j].idx == b.idx && s[j].pos + s[j].len <= b.pos + b.len by {
        let word = first + j;
        let start = if b.pos >= word * wi { b.pos as int } else { word * wi };
        let end = if b.pos + b.len - 1 <= (word + 1) * wi - 1 {
            b.pos + b.len - 1
        } else {
            (word + 1) * wi - 1
        };
        assert(0 <= word * wi <= last * wi) by (nonlinear_arith)
            requires
                0 <= word <= last,
                wi > 0,
        ;
        assert((first + 1) * wi <= (word + 1) * wi) by (nonlinear_arith)
            requires
                first <= word,
                wi > 0,
        ;
        assert((word + 1) * wi == word * wi + wi) by (nonlinear_arith);
        assert(s[j] == BitBlock { idx: b.idx, pos: start as usize, len: (end - start + 1) as usize });
    }
    assert forall|j: int| 0 <= j < s.len() implies #[trigger] s[j].pos + s[j].len == if j + 1
        < s.len() {
        s[j + 1].pos as int
    } else {
        b.pos + b.len
    } by {
        let word = first + j;
        assert(word * wi <= last * wi) by (nonlinear_arith)
            requires
                word <= last,
                wi > 0,
        ;
        assert((first + 1) * wi <= (word + 1) * wi) by (nonlinear_arith)
            requires
                first <= word,
                wi > 0,
        ;
        assert((word + 1) * wi == word * wi + wi) by (nonlinear_arith);
        if j + 1 < s.len() {
            assert((word + 1) * wi <= last * wi) by (nonlinear_arith)
                requires
                    word + 1 <= last,
                    wi > 0,
            ;
        } else {
            assert(word == last);
        }
    }
}

} // verus!
