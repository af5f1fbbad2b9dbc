//! Fixed-width keys: sequences of `w`-bit words, most significant bit first within each word.
use core::cmp::Ordering;
use vstd::prelude::*;

verus! {

/// Word sizes a key can be made of.
pub open spec fn valid_word_size(w: usize) -> bool {
    w == 8 || w == 16 || w == 32 || w == 64
}

/// `x` holds no bit at or above position `w`.
pub open spec fn word_fits(x: u64, w: usize) -> bool {
    w >= 64 || x >> (w as u64) == 0
}

/// Bit `j` of a `w`-bit word, counted from the most significant end.
pub open spec fn word_bit(x: u64, w: usize, j: int) -> bool {
    (x >> ((w - 1 - j) as u64)) & 1u64 == 1u64
}

/// Whether bit `k` (from the least significant end) of `x` is set.
pub open spec fn low_bit(x: u64, k: nat) -> nat {
    if (x >> (k as u64)) & 1u64 == 1u64 {
        1
    } else {
        0
    }
}

/// Number of set bits among the `n` least significant ones of `x`.
pub open spec fn popcount_below(x: u64, n: nat) -> nat
    decreases n,
{
    if n == 0 {
        0
    } else {
        popcount_below(x, (n - 1) as nat) + low_bit(x, (n - 1) as nat)
    }
}

/// Number of set bits of `x`.
pub open spec fn popcount(x: u64) -> nat {
    popcount_below(x, 64)
}

/// Sum over word positions of the set bits of the XOR of `a` and `b`: their Hamming distance.
pub open spec fn words_distance(a: Seq<u64>, b: Seq<u64>) -> nat
    decreases a.len(),
{
    if a.len() == 0 || b.len() == 0 {
        0
    } else {
        words_distance(a.drop_last(), b.drop_last()) + popcount(a.last() ^ b.last())
    }
}

/// Lexicographic order of two word sequences, the first word most significant.
pub open spec fn lex_cmp(a: Seq<u64>, b: Seq<u64>) -> Ordering
    decreases a.len(),
{
    if a.len() == 0 && b.len() == 0 {
        Ordering::Equal
    } else if a.len() == 0 {
        Ordering::Less
    } else if b.len() == 0 {
        Ordering::Greater
    } else if a[0] < b[0] {
        Ordering::Less
    } else if a[0] > b[0] {
        Ordering::Greater
    } else {
        lex_cmp(a.drop_first(), b.drop_first())
    }
}

/// `a` comes no later than `b` in lexicographic order.
pub open spec fn lex_le(a: Seq<u64>, b: Seq<u64>) -> bool {
    lex_cmp(a, b) != Ordering::Greater
}

/// Number of set bits of `x`, counted one bit position at a time.
fn count_ones(x: u64) -> (r: u32)
    ensures
        r == popcount(x),
{
    let mut r: u32 = 0;
    let mut k: u64 = 0;
    while k < 64
        invariant
            k <= 64,
            r == popcount_below(x, k as nat),
            r <= k,
        decreases 64 - k,
    {
        if (x >> k) & 1 == 1 {
            r = r + 1;
        }
        k = k + 1;
    }
    r
}

/// A key of `data.len() * word_bits` bits.
#[derive(Clone, Debug, Hash)]
pub struct Bits {
    pub data: Vec<u64>,
    pub word_bits: usize,
}

impl Bits {
    /// The word size is supported and every word fits in it.
    pub open spec fn wf(&self) -> bool {
        &&& valid_word_size(self.word_bits)
        &&& forall|i: int| 0 <= i < self.data@.len() ==> word_fits(#[trigger] self.data@[i], self.word_bits)
    }

    /// Number of bits of this key.
    pub open spec fn spec_size(&self) -> int {
        self.data@.len() * self.word_bits
    }

    /// Bit `i` of this key, counting from the most significant bit of the first word.
    pub open spec fn bit(&self, i: int) -> bool {
        word_bit(self.data@[i / (self.word_bits as int)], self.word_bits, i % (self.word_bits as int))
    }

    /// All bits of this key, in order.
    pub open spec fn bits(&self) -> Seq<bool> {
        Seq::new(self.spec_size() as nat, |i: int| self.bit(i))
    }

    /// Construct from raw words.
    pub fn new(data: Vec<u64>, word_bits: usize) -> (r: Self)
        requires
            valid_word_size(word_bits),
            forall|i: int| 0 <= i < data@.len() ==> word_fits(#[trigger] data@[i], word_bits),
        ensures
            r.wf(),
            r.data@ == data@,
            r.word_bits == word_bits,
    {
        Bits { data, word_bits }
    }

    /// The all-zero key of `n_words` words.
    pub fn zeros(n_words: usize, word_bits: usize) -> (r: Self)
        requires
            valid_word_size(word_bits),
        ensures
            r.wf(),
            r.data@ == Seq::new(n_words as nat, |i: int| 0u64),
            r.word_bits == word_bits,
    {
        let mut data: Vec<u64> = Vec::new();
        let mut i: usize = 0;
        while i < n_words
            invariant
                i <= n_words,
                data@ == Seq::new(i as nat, |k: int| 0u64),
            decreases n_words - i,
        {
            data.push(0);
            i = i + 1;
            proof {
                assert(data@ =~= Seq::new(i as nat, |k: int| 0u64));
            }
        }
        proof {
            assert forall|k: int| 0 <= k < data@.len() implies word_fits(#[trigger] data@[k], word_bits) by {
                let w = word_bits as u64;
                assert(0u64 >> w == 0u64) by (bit_vector);
            }
        }
        Bits { data, word_bits }
    }

    /// Get a single bit value, the most significant bit of each word first.
    pub fn get(&self, idx: usize) -> (r: bool)
        requires
            self.wf(),
            idx < self.spec_size(),
        ensures
            r == self.bit(idx as int),
            r == self.bits()[idx as int],
    {
        let w = self.word_bits;
        let word = idx / w;
        let bit = (w - 1) - (idx % w);
        proof {
            assert(word < self.data@.len()) by (nonlinear_arith)
                requires
                    idx < self.data@.len() * w,
                    w > 0,
                    word == idx / w,
            ;
        }
        (self.data[word] >> (bit as u64)) & 1 == 1
    }

    /// Set a single bit, the most significant bit of each word first.
    pub fn set(&mut self, idx: usize, value: bool)
        requires
            old(self).wf(),
            idx < old(self).spec_size(),
        ensures
            final(self).wf(),
            final(self).word_bits == old(self).word_bits,
            final(self).data@.len() == old(self).data@.len(),
            final(self).bits() == old(self).bits().update(idx as int, value),
    {
        let w = self.word_bits;
        let word = idx / w;
        let bit = (w - 1) - (idx % w);
        proof {
            assert(word < self.data@.len()) by (nonlinear_arith)
                requires
                    idx < self.data@.len() * w,
                    w > 0,
                    word == idx / w,
            ;
        }
        let x = self.data[word];
        let s = bit as u64;
        let one: u64 = 1;
        let y = if value {
            x | (one << s)
        } else {
            x & !(one << s)
        };
        proof {
            let wu = w as u64;
            assert(word_fits(x, w));
            assert(s < wu && wu <= 64 && (wu >= 64 || x >> wu == 0) ==> (wu >= 64 || y >> wu == 0))
                by (bit_vector)
                requires
                    y == (if value {
                        x | (1u64 << s)
                    } else {
                        x & !(1u64 << s)
                    }),
            ;
            assert forall|k: u64| k < 64 implies ((y >> k) & 1u64 == 1u64) == (if k == s {
                value
            } else {
                (x >> k) & 1u64 == 1u64
            }) by {
                assert(k < 64 && s < 64 ==> ((y >> k) & 1u64 == 1u64) == (if k == s {
                    value
                } else {
                    (x >> k) & 1u64 == 1u64
                })) by (bit_vector)
                    requires
                        y == (if value {
                            x | (1u64 << s)
                        } else {
                            x & !(1u64 << s)
                        }),
                ;
            }
        }
        self.data.set(word, y);
        proof {
            let wi = w as int;
            let old_bits = old(self).bits();
            assert forall|i: int| 0 <= i < self.spec_size() implies #[trigger] self.bits()[i] == old_bits.update(
                idx as int,
                value,
            )[i] by {
                let wd = i / wi;
                let j = i % wi;
                assert(0 <= wd < self.data@.len()) by (nonlinear_arith)
                    requires
                        0 <= i < self.data@.len() * wi,
                        wi > 0,
                        wd == i / wi,
                ;
                assert(0 <= j < wi) by (nonlinear_arith)
                    requires
                        wi > 0,
                        j == i % wi,
                ;
                if i == idx {
                } else if wd == word {
                    assert(j != (idx as int) % wi) by {
                        vstd::arithmetic::div_mod::lemma_fundamental_div_mod(i, wi);
                        vstd::arithmetic::div_mod::lemma_fundamental_div_mod(idx as int, wi);
                    }
                    assert((wi - 1 - j) as u64 != s);
                } else {
                }
            }
            assert(self.bits() =~= old_bits.update(idx as int, value));
        }
    }

    /// Construct from a bit sequence of `word_bits`-bit words, the most significant bit of each
    /// word first.
    pub fn from_bits(bits: &[bool], word_bits: usize) -> (r: Self)
        requires
            valid_word_size(word_bits),
            (bits@.len() as int) % (word_bits as int) == 0,
        ensures
            r.wf(),
            r.word_bits == word_bits,
            r.data@.len() == (bits@.len() as int) / (word_bits as int),
            r.bits() == bits@,
    {
        let n = bits.len();
        let n_words = n / word_bits;
        let mut r = Bits::zeros(n_words, word_bits);
        proof {
            vstd::arithmetic::div_mod::lemma_fundamental_div_mod(n as int, word_bits as int);
            assert(r.spec_size() == n) by (nonlinear_arith)
                requires
                    r.spec_size() == r.data@.len() * word_bits,
                    r.data@.len() == n_words,
                    n == word_bits * n_words + 0,
            ;
            lemma_zero_words_bits(r);
            assert(r.bits() =~= Seq::new(n as nat, |j: int| if j < 0 { bits@[j] } else { false }));
        }
        let mut i: usize = 0;
        while i < n
            invariant
                n == bits@.len(),
                i <= n,
                r.wf(),
                r.word_bits == word_bits,
                r.data@.len() == n_words,
                r.spec_size() == n,
                r.bits() == Seq::new(n as nat, |j: int| if j < i { bits@[j] } else { false }),
            decreases n - i,
        {
            r.set(i, bits[i]);
            i = i + 1;
            proof {
                assert(r.bits() =~= Seq::new(n as nat, |j: int| if j < i { bits@[j] } else { false }));
            }
        }
        proof {
            assert(r.bits() =~= bits@);
        }
        r
    }

    /// Iterate over the bits of this key, the most significant bit of each word first.
    pub fn iter(&self) -> (r: Vec<bool>)
        requires
            self.wf(),
            self.spec_size() <= usize::MAX,
        ensures
            r@ == self.bits(),
    {
        let n = self.data.len() * self.word_bits;
        let mut out: Vec<bool> = Vec::new();
        let mut i: usize = 0;
        while i < n
            invariant
                self.wf(),
                n == self.spec_size(),
                i <= n,
                out@ == self.bits().take(i as int),
            decreases n - i,
        {
            let b = self.get(i);
            out.push(b);
            i = i + 1;
            proof {
                assert(out@ =~= self.bits().take(i as int));
            }
        }
        proof {
            assert(self.bits().take(n as int) =~= self.bits());
        }
        out
    }

    /// Compute distance as number of different bits between `self` and `other`.
    pub fn xor_dist(&self, other: &Self) -> (r: u32)
        requires
            self.wf(),
            other.wf(),
            self.word_bits == other.word_bits,
            self.data@.len() == other.data@.len(),
            self.data@.len() * self.word_bits <= u32::MAX,
        ensures
            r == words_distance(self.data@, other.data@),
    {
        let mut result: u32 = 0;
        let mut i: usize = 0;
        while i < self.data.len()
            invariant
                self.wf(),
                other.wf(),
                self.word_bits == other.word_bits,
                self.data@.len() == other.data@.len(),
                self.data@.len() * self.word_bits <= u32::MAX,
                i <= self.data@.len(),
                result == words_distance(self.data@.take(i as int), other.data@.take(i as int)),
                result <= self.word_bits * i,
            decreases self.data@.len() - i,
        {
            let c = count_ones(self.data[i] ^ other.data[i]);
            proof {
                lemma_popcount_fits(self.data@[i as int], other.data@[i as int], self.word_bits);
                assert(self.word_bits * (i + 1) <= self.word_bits * self.data@.len()) by (
                nonlinear_arith)
                    requires
                        i + 1 <= self.data@.len(),
                ;
                assert(self.word_bits * (i + 1) == self.word_bits * i + self.word_bits) by (
                nonlinear_arith);
                assert(self.word_bits * self.data@.len() == self.data@.len() * self.word_bits) by (
                nonlinear_arith);
                assert(result + c <= u32::MAX);
                assert(self.data@.take(i + 1).drop_last() =~= self.data@.take(i as int));
                assert(other.data@.take(i + 1).drop_last() =~= other.data@.take(i as int));
            }
            result = result + c;
            i = i + 1;
        }
        proof {
            assert(self.data@.take(i as int) =~= self.data@);
            assert(other.data@.take(i as int) =~= other.data@);
        }
        result
    }

    /// A key with the same words as this one.
    pub fn duplicate(&self) -> (r: Self)
        ensures
            r.data@ == self.data@,
            r.word_bits == self.word_bits,
    {
        let mut data: Vec<u64> = Vec::new();
        let mut i: usize = 0;
        while i < self.data.len()
            invariant
                i <= self.data@.len(),
                data@ == self.data@.take(i as int),
            decreases self.data@.len() - i,
        {
            data.push(self.data[i]);
            i = i + 1;
            proof {
                assert(data@ =~= self.data@.take(i as int));
            }
        }
        proof {
            assert(data@ =~= self.data@);
        }
        Bits { data, word_bits: self.word_bits }
    }

    /// Equality of the words of two keys.
    pub fn eq_words(&self, other: &Self) -> (r: bool)
        ensures
            r == (self.data@ == other.data@),
    {
        if self.data.len() != other.data.len() {
            return false;
        }
        let mut i: usize = 0;
        while i < self.data.len()
            invariant
                self.data@.len() == other.data@.len(),
                i <= self.data@.len(),
                forall|k: int| 0 <= k < i ==> self.data@[k] == other.data@[k],
            decreases self.data@.len() - i,
        {
            if self.data[i] != other.data[i] {
                return false;
            }
            i = i + 1;
        }
        proof {
            assert(self.data@ =~= other.data@);
        }
        true
    }

    /// Total order via lexicographic comparison of words, the first word most significant.
    pub fn cmp_words(&self, other: &Self) -> (r: Ordering)
        ensures
            r == lex_cmp(self.data@, other.data@),
    {
        cmp_word_seqs(&self.data, &other.data)
    }

    /// The words as little-endian bytes, `word_bits / 8` of them per word.
    pub fn to_le_bytes(&self) -> (r: Vec<u8>)
        requires
            self.wf(),
            self.data@.len() * 8 <= usize::MAX,
        ensures
            r@.len() == self.data@.len() * (self.word_bits / 8),
            forall|i: int|
                0 <= i < self.data@.len() ==> le_value(
                    #[trigger] r@.subrange(i * (self.word_bits / 8), (i + 1) * (self.word_bits / 8)),
                ) == self.data@[i],
    {
        let wb = self.word_bits / 8;
        let mut out: Vec<u8> = Vec::new();
        let mut i: usize = 0;
        while i < self.data.len()
            invariant
                self.wf(),
                self.data@.len() * 8 <= usize::MAX,
                wb == self.word_bits / 8,
                1 <= wb <= 8,
                i <= self.data@.len(),
                out@.len() == i * wb,
                forall|t: int|
                    0 <= t < i ==> le_value(#[trigger] out@.subrange(t * wb, (t + 1) * wb))
                        == self.data@[t],
            decreases self.data@.len() - i,
        {
            let x = self.data[i];
            let ghost before = out@;
            let mut j: usize = 0;
            while j < wb
                invariant
                    1 <= wb <= 8,
                    j <= wb,
                    out@ == before + le_bytes_n(x, j as nat),
                decreases wb - j,
            {
                let byte = ((x >> (8 * j as u64)) & 0xff) as u8;
                out.push(byte);
                proof {
                    assert(byte == ((x >> ((8 * j) as u64)) & 0xffu64) as u8);
                    assert(le_bytes_n(x, (j + 1) as nat) =~= le_bytes_n(x, j as nat).push(byte));
                    assert(out@ =~= before + le_bytes_n(x, (j + 1) as nat));
                }
                j = j + 1;
            }
            proof {
                let wu = self.word_bits as u64;
                assert(word_fits(x, self.word_bits));
                lemma_le_bytes_value(x, wb as nat);
                assert((i + 1) * wb == i * wb + wb) by (nonlinear_arith);
                assert forall|t: int| 0 <= t < i + 1 implies le_value(
                    #[trigger] out@.subrange(t * wb, (t + 1) * wb),
                ) == self.data@[t] by {
                    assert((t + 1) * wb == t * wb + wb) by (nonlinear_arith);
                    assert(0 <= t * wb) by (nonlinear_arith)
                        requires
                            t >= 0,
                            wb >= 1,
                    ;
                    if t < i {
                        assert((t + 1) * wb <= i * wb) by (nonlinear_arith)
                            requires
                                t + 1 <= i,
                                wb >= 1,
                        ;
                        assert(out@.subrange(t * wb, (t + 1) * wb) =~= before.subrange(
                            t * wb,
                            (t + 1) * wb,
                        ));
                    } else {
                        assert(out@.subrange(t * wb, (t + 1) * wb) =~= le_bytes_n(x, wb as nat));
                    }
                }
                assert(i * wb + wb <= self.data@.len() * 8) by (nonlinear_arith)
                    requires
                        i + 1 <= self.data@.len(),
                        wb <= 8,
                ;
            }
            i = i + 1;
        }
        out
    }

    /// Construct from a big-endian byte slice of `word_bits / 8` bytes per word.
    pub fn from_be_bytes(raw_data: &[u8], word_bits: usize) -> (r: Self)
        requires
            valid_word_size(word_bits),
            (raw_data@.len() as int) % (word_bits as int / 8) == 0,
        ensures
            r.wf(),
            r.word_bits == word_bits,
            r.data@.len() == (raw_data@.len() as int) / (word_bits as int / 8),
            forall|i: int|
                0 <= i < r.data@.len() ==> #[trigger] r.data@[i] == be_value(
                    raw_data@.subrange(i * (word_bits / 8), (i + 1) * (word_bits / 8)),
                ),
    {
        decode_words(raw_data, word_bits, true)
    }

    /// Construct from a little-endian byte slice of `word_bits / 8` bytes per word.
    pub fn from_le_bytes(raw_data: &[u8], word_bits: usize) -> (r: Self)
        requires
            valid_word_size(word_bits),
            (raw_data@.len() as int) % (word_bits as int / 8) == 0,
        ensures
            r.wf(),
            r.word_bits == word_bits,
            r.data@.len() == (raw_data@.len() as int) / (word_bits as int / 8),
            forall|i: int|
                0 <= i < r.data@.len() ==> #[trigger] r.data@[i] == le_value(
                    raw_data@.subrange(i * (word_bits / 8), (i + 1) * (word_bits / 8)),
                ),
    {
        decode_words(raw_data, word_bits, false)
    }
}

/// The number whose big-endian bytes are `s`.
pub open spec fn be_value(s: Seq<u8>) -> nat
    decreases s.len(),
{
    if s.len() == 0 {
        0
    } else {
        (be_value(s.drop_last()) * 256 + s.last()) as nat
    }
}

/// The number whose little-endian bytes are `s`.
pub open spec fn le_value(s: Seq<u8>) -> nat
    decreases s.len(),
{
    if s.len() == 0 {
        0
    } else {
        (s[0] + 256 * le_value(s.drop_first())) as nat
    }
}

/// The `n` least significant bytes of `x`, least significant first.
pub open spec fn le_bytes_n(x: u64, n: nat) -> Seq<u8> {
    Seq::new(n, |j: int| ((x >> ((8 * j) as u64)) & 0xffu64) as u8)
}

/// Reading back the bytes of a word that fits in them gives the word.
proof fn lemma_le_bytes_value(x: u64, n: nat)
    requires
        1 <= n <= 8,
        n < 8 ==> x >> ((8 * n) as u64) == 0,
    ensures
        le_value(le_bytes_n(x, n)) == x,
    decreases n,
{
    let s = le_bytes_n(x, n);
    let y = x >> 8u64;
    assert((x & 0xffu64) + 256 * (x >> 8u64) == x && (x & 0xffu64) < 256) by (bit_vector);
    assert(s[0] == (x & 0xffu64) as u8) by {
        assert(x >> 0u64 == x) by (bit_vector);
    }
    assert(le_value(s) == s[0] + 256 * le_value(s.drop_first()));
    if n == 1 {
        assert(x >> 8u64 == 0);
        assert(s.drop_first().len() == 0);
        assert(le_value(s.drop_first()) == 0);
    } else {
        let m = (n - 1) as nat;
        let b = (8 * m) as u64;
        if n == 8 {
            assert(b == 56);
            assert((x >> 8u64) >> 56u64 == 0) by (bit_vector);
        } else {
            let a = (8 * n) as u64;
            assert(x >> a == 0);
            assert((x >> 8u64) >> b == 0) by (bit_vector)
                requires
                    a < 64,
                    x >> a == 0,
                    a == b + 8,
            ;
        }
        lemma_le_bytes_value(y, m);
        assert forall|j: int| 0 <= j < m implies #[trigger] s.drop_first()[j] == le_bytes_n(y, m)[j] by {
            let a2 = (8 * (j + 1)) as u64;
            let b2 = (8 * j) as u64;
            assert((x >> a2) & 0xffu64 == ((x >> 8u64) >> b2) & 0xffu64) by (bit_vector)
                requires
                    b2 < 56,
                    a2 == b2 + 8,
            ;
        }
        assert(s.drop_first() =~= le_bytes_n(y, m));
    }
}

/// `256` to the power `n`.
pub open spec fn pow256(n: nat) -> nat
    decreases n,
{
    if n == 0 {
        1
    } else {
        256 * pow256((n - 1) as nat)
    }
}

proof fn lemma_be_value_bound(s: Seq<u8>)
    ensures
        be_value(s) < pow256(s.len()),
    decreases s.len(),
{
    if s.len() > 0 {
        lemma_be_value_bound(s.drop_last());
        let v = be_value(s.drop_last());
        let p = pow256((s.len() - 1) as nat);
        assert(v * 256 + s.last() < p * 256) by (nonlinear_arith)
            requires
                v < p,
                s.last() < 256,
        ;
    }
}

proof fn lemma_le_value_bound(s: Seq<u8>)
    ensures
        le_value(s) < pow256(s.len()),
    decreases s.len(),
{
    if s.len() > 0 {
        lemma_le_value_bound(s.drop_first());
        let v = le_value(s.drop_first());
        let p = pow256((s.len() - 1) as nat);
        assert(s[0] + 256 * v < 256 * p) by (nonlinear_arith)
            requires
                v < p,
                s[0] < 256,
        ;
    }
}

proof fn lemma_pow256_words()
    ensures
        pow256(1) == 0x100,
        pow256(2) == 0x1_0000,
        pow256(4) == 0x1_0000_0000,
        pow256(8) == 0x1_0000_0000_0000_0000,
{
    reveal_with_fuel(pow256, 9);
}

/// The value of bytes `b` read in the given order, as a word.
fn decode_word(b: &[u8], big_endian: bool) -> (r: u64)
    requires
        b@.len() == 1 || b@.len() == 2 || b@.len() == 4 || b@.len() == 8,
    ensures
        r == (if big_endian {
            be_value(b@)
        } else {
            le_value(b@)
        }),
        r < pow256(b@.len()),
{
    proof {
        lemma_pow256_words();
        lemma_be_value_bound(b@);
        lemma_le_value_bound(b@);
    }
    let n = b.len();
    let mut acc: u64 = 0;
    let mut i: usize = 0;
    while i < n
        invariant
            n == b@.len(),
            n == 1 || n == 2 || n == 4 || n == 8,
            i <= n,
            acc == (if big_endian {
                be_value(b@.take(i as int))
            } else {
                le_value(b@.subrange(n - i, n as int))
            }),
            acc < pow256(i as nat),
            pow256(n as nat) <= 0x1_0000_0000_0000_0000,
        decreases n - i,
    {
        let byte = if big_endian {
            b[i]
        } else {
            b[n - 1 - i]
        };
        proof {
            lemma_pow256_mono(i as nat + 1, n as nat);
            assert(acc * 256 + byte < pow256(i as nat + 1)) by (nonlinear_arith)
                requires
                    acc < pow256(i as nat),
                    byte < 256,
                    pow256(i as nat + 1) == 256 * pow256(i as nat),
            ;
            if big_endian {
                assert(b@.take(i + 1).drop_last() =~= b@.take(i as int));
            } else {
                let t = b@.subrange(n - i - 1, n as int);
                assert(t.drop_first() =~= b@.subrange(n - i, n as int));
            }
        }
        acc = acc * 256 + byte as u64;
        i = i + 1;
    }
    proof {
        assert(b@.take(n as int) =~= b@);
        assert(b@.subrange(0, n as int) =~= b@);
    }
    acc
}

proof fn lemma_pow256_mono(a: nat, b: nat)
    requires
        a <= b,
    ensures
        pow256(a) <= pow256(b),
    decreases b,
{
    if a < b {
        lemma_pow256_mono(a, (b - 1) as nat);
    }
}

/// Split `raw` into words of `word_bits / 8` bytes each and decode them in the given order.
fn decode_words(raw: &[u8], word_bits: usize, big_endian: bool) -> (r: Bits)
    requires
        valid_word_size(word_bits),
        (raw@.len() as int) % (word_bits as int / 8) == 0,
    ensures
        r.wf(),
        r.word_bits == word_bits,
        r.data@.len() == (raw@.len() as int) / (word_bits as int / 8),
        forall|i: int|
            0 <= i < r.data@.len() ==> #[trigger] r.data@[i] == (if big_endian {
                be_value(raw@.subrange(i * (word_bits / 8), (i + 1) * (word_bits / 8)))
            } else {
                le_value(raw@.subrange(i * (word_bits / 8), (i + 1) * (word_bits / 8)))
            }),
{
    let wb = word_bits / 8;
    let total = raw.len();
    let n = total / wb;
    let mut data: Vec<u64> = Vec::new();
    let mut i: usize = 0;
    while i < n
        invariant
            valid_word_size(word_bits),
            wb == word_bits / 8,
            n == (raw@.len() as int) / (wb as int),
            (raw@.len() as int) % (wb as int) == 0,
            i <= n,
            total == raw@.len(),
            data@.len() == i,
            forall|k: int| 0 <= k < i ==> word_fits(#[trigger] data@[k], word_bits),
            forall|k: int|
                0 <= k < i ==> #[trigger] data@[k] == (if big_endian {
                    be_value(raw@.subrange(k * (word_bits / 8), (k + 1) * (word_bits / 8)))
                } else {
                    le_value(raw@.subrange(k * (word_bits / 8), (k + 1) * (word_bits / 8)))
                }),
        decreases n - i,
    {
        proof {
            assert((i + 1) * wb <= n * wb) by (nonlinear_arith)
                requires
                    i < n,
            ;
            assert(n * wb == raw@.len()) by {
                vstd::arithmetic::div_mod::lemma_fundamental_div_mod(raw@.len() as int, wb as int);
            }
            assert((i + 1) * wb == i * wb + wb) by (nonlinear_arith);
        }
        let word = decode_word(&raw[i * wb..(i + 1) * wb], big_endian);
        proof {
            lemma_pow256_words();
            let wu = word_bits as u64;
            if word_bits < 64 {
                assert(word_bits == 8 || word_bits == 16 || word_bits == 32);
                assert((wu == 8 && word < 0x100) || (wu == 16 && word < 0x1_0000) || (wu == 32
                    && word < 0x1_0000_0000) ==> word >> wu == 0) by (bit_vector);
            }
        }
        data.push(word);
        i = i + 1;
    }
    Bits { data, word_bits }
}

/// Lexicographic comparison of two word sequences.
pub fn cmp_word_seqs(a: &Vec<u64>, b: &Vec<u64>) -> (r: Ordering)
    ensures
        r == lex_cmp(a@, b@),
{
    let mut i: usize = 0;
    proof {
        assert(a@.skip(0) =~= a@);
        assert(b@.skip(0) =~= b@);
    }
    while i < a.len() && i < b.len()
        invariant
            i <= a@.len(),
            i <= b@.len(),
            lex_cmp(a@, b@) == lex_cmp(a@.skip(i as int), b@.skip(i as int)),
        decreases a@.len() - i,
    {
        if a[i] < b[i] {
            return Ordering::Less;
        }
        if a[i] > b[i] {
            return Ordering::Greater;
        }
        proof {
            assert(a@.skip(i as int).drop_first() =~= a@.skip(i + 1));
            assert(b@.skip(i as int).drop_first() =~= b@.skip(i + 1));
        }
        i = i + 1;
    }
    if a.len() == b.len() {
        Ordering::Equal
    } else if i == a.len() {
        Ordering::Less
    } else {
        Ordering::Greater
    }
}

/// Two words of `w` bits differ in at most `w` bits.
proof fn lemma_popcount_fits(x: u64, y: u64, w: usize)
    requires
        valid_word_size(w),
        word_fits(x, w),
        word_fits(y, w),
    ensures
        popcount(x ^ y) <= w,
{
    let z = x ^ y;
    let wu = w as u64;
    if w < 64 {
        assert(wu < 64 && x >> wu == 0 && y >> wu == 0 ==> (x ^ y) >> wu == 0) by (bit_vector);
        lemma_popcount_high_zero(z, w as nat, 64);
    }
    lemma_popcount_below_bound(z, w as nat);
}

/// Bits at or above `w` of a word that fits in `w` bits add nothing to its count.
proof fn lemma_popcount_high_zero(z: u64, w: nat, n: nat)
    requires
        w < 64,
        w <= n <= 64,
        z >> (w as u64) == 0,
    ensures
        popcount_below(z, n) == popcount_below(z, w),
    decreases n,
{
    if n > w {
        lemma_popcount_high_zero(z, w, (n - 1) as nat);
        let k = (n - 1) as u64;
        let wu = w as u64;
        assert(wu <= k && k < 64 && z >> wu == 0 ==> (z >> k) & 1u64 == 0u64) by (bit_vector);
    }
}

proof fn lemma_popcount_below_bound(x: u64, n: nat)
    ensures
        popcount_below(x, n) <= n,
    decreases n,
{
    if n > 0 {
        lemma_popcount_below_bound(x, (n - 1) as nat);
    }
}

/// Equal words compare Equal, and only they.
pub proof fn lemma_lex_cmp_equal(a: Seq<u64>, b: Seq<u64>)
    ensures
        (lex_cmp(a, b) == Ordering::Equal) == (a == b),
    decreases a.len(),
{
    if a.len() == 0 && b.len() == 0 {
        assert(a =~= b);
    } else if a.len() > 0 && b.len() > 0 && a[0] == b[0] {
        lemma_lex_cmp_equal(a.drop_first(), b.drop_first());
        if a.drop_first() == b.drop_first() {
            assert(a =~= seq![a[0]] + a.drop_first());
            assert(b =~= seq![b[0]] + b.drop_first());
        }
        if a == b {
            assert(a.drop_first() =~= b.drop_first());
        }
    }
}

/// Swapping the arguments reverses the order.
pub proof fn lemma_lex_cmp_antisym(a: Seq<u64>, b: Seq<u64>)
    ensures
        lex_cmp(a, b) == Ordering::Less <==> lex_cmp(b, a) == Ordering::Greater,
    decreases a.len(),
{
    if a.len() > 0 && b.len() > 0 && a[0] == b[0] {
        lemma_lex_cmp_antisym(a.drop_first(), b.drop_first());
    }
}

/// A key whose words are all zero has no bit set.
proof fn lemma_zero_words_bits(b: Bits)
    requires
        b.wf(),
        forall|i: int| 0 <= i < b.data@.len() ==> b.data@[i] == 0u64,
    ensures
        forall|i: int| 0 <= i < b.spec_size() ==> !#[trigger] b.bits()[i],
{
    let w = b.word_bits as int;
    assert forall|i: int| 0 <= i < b.spec_size() implies !#[trigger] b.bits()[i] by {
        assert(0 <= i / w < b.data@.len()) by (nonlinear_arith)
            requires
                0 <= i < b.data@.len() * w,
                w > 0,
        ;
        assert(0 <= i % w < w) by (nonlinear_arith)
            requires
                w > 0,
        ;
        let sh = (w - 1 - i % w) as u64;
        assert((0u64 >> sh) & 1u64 == 0u64) by (bit_vector);
        assert(b.bits()[i] == b.bit(i));
    }
}

/// A word that fits in `w` bits is fixed by those bits.
proof fn lemma_word_from_bits(x: u64, y: u64, w: u64)
    requires
        0 < w <= 64,
        w == 64 || (x >> w == 0 && y >> w == 0),
        forall|k: u64| k < w ==> #[trigger] ((x >> k) & 1u64) == ((y >> k) & 1u64),
    ensures
        x == y,
{
    assert forall|k: u64| k < 64 implies #[trigger] ((x >> k) & 1u64) == ((y >> k) & 1u64) by {
        if k >= w {
            assert(w < 64 && k >= w && x >> w == 0 && y >> w == 0 ==> (x >> k) & 1u64 == 0u64 && (y
                >> k) & 1u64 == 0u64) by (bit_vector);
        }
    }
    if x != y {
        let z = x ^ y;
        assert(x != y ==> z != 0) by (bit_vector)
            requires
                z == x ^ y,
        ;
        vstd::std_specs::bits::axiom_u64_trailing_zeros(z);
        let t = vstd::std_specs::bits::u64_trailing_zeros(z) as u64;
        assert(t < 64 && (z >> t) & 1u64 == 1u64 ==> ((x >> t) & 1u64) != ((y >> t) & 1u64))
            by (bit_vector)
            requires
                z == x ^ y,
        ;
        assert(((x >> t) & 1u64) == ((y >> t) & 1u64));
    }
}

/// Keys of the same shape with the same bits have the same words.
pub proof fn lemma_bits_determine_words(a: Bits, b: Bits)
    requires
        a.wf(),
        b.wf(),
        a.word_bits == b.word_bits,
        a.data@.len() == b.data@.len(),
        a.bits() == b.bits(),
    ensures
        a.data@ == b.data@,
{
    let w = a.word_bits as int;
    assert forall|i: int| 0 <= i < a.data@.len() implies a.data@[i] == b.data@[i] by {
        let x = a.data@[i];
        let y = b.data@[i];
        assert forall|k: u64| k < w implies #[trigger] ((x >> k) & 1u64) == ((y >> k) & 1u64) by {
            let j = w - 1 - k;
            let p = i * w + j;
            assert(0 <= p < a.spec_size()) by (nonlinear_arith)
                requires
                    0 <= i < a.data@.len(),
                    0 <= j < w,
                    p == i * w + j,
                    a.spec_size() == a.data@.len() * w,
            ;
            vstd::arithmetic::div_mod::lemma_fundamental_div_mod_converse(p, w, i, j);
            assert(p / w == i && p % w == j);
            assert(((w - 1 - j) as u64) == k);
            assert(a.bits()[p] == a.bit(p));
            assert(b.bits()[p] == b.bit(p));
            assert(a.bit(p) == ((x >> k) & 1u64 == 1u64));
            assert(b.bit(p) == ((y >> k) & 1u64 == 1u64));
            assert(a.bits()[p] == b.bits()[p]);
            assert((x >> k) & 1u64 <= 1u64 && (y >> k) & 1u64 <= 1u64) by (bit_vector);
        }
        lemma_word_from_bits(x, y, w as u64);
    }
    assert(a.data@ =~= b.data@);
}

/// Lexicographic order is transitive.
pub proof fn lemma_lex_le_trans(a: Seq<u64>, b: Seq<u64>, c: Seq<u64>)
    requires
        lex_le(a, b),
        lex_le(b, c),
    ensures
        lex_le(a, c),
        lex_cmp(a, b) == Ordering::Less || lex_cmp(b, c) == Ordering::Less ==> lex_cmp(a, c)
            == Ordering::Less,
    decreases a.len(),
{
    if a.len() > 0 && b.len() > 0 && c.len() > 0 && a[0] == b[0] && b[0] == c[0] {
        lemma_lex_le_trans(a.drop_first(), b.drop_first(), c.drop_first());
    }
}

} // verus!
