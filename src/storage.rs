//! The persistent file layout: a 16-byte header (signature, length) before the packed entries.
use crate::bits::le_value;
use vstd::prelude::*;

verus! {

/// Size in bytes of the header that precedes the entries.
pub const HEADER_SIZE: u64 = 16;

/// Why a persistent vector could not be opened.
#[derive(Clone, Debug, PartialEq, Eq)]
pub enum MmVecError {
    /// The file was created for other parameters or another value type.
    SignatureMismatch { expected: u64, actual: u64 },
    /// The file holds more or fewer entries than its header says.
    UninitializedVectorLoad,
    /// The file system or the mapping failed.
    IoError { message: String },
}

/// The signature and the length in elements a header holds.
pub open spec fn header_fields(header: Seq<u8>) -> (u64, u64) {
    (le_value(header.subrange(0, 8)) as u64, le_value(header.subrange(8, 16)) as u64)
}

/// Number of whole elements of `elem_size` bytes the payload of a file of `file_len` bytes holds.
pub open spec fn capacity_of(file_len: u64, elem_size: u64) -> int {
    (file_len - HEADER_SIZE) as int / elem_size as int
}

/// Read a little-endian `u64` from 8 bytes.
fn read_u64_le(b: &[u8]) -> (r: u64)
    requires
        b@.len() == 8,
    ensures
        r == le_value(b@),
{
    proof {
        lemma_le_value_fits(b@);
    }
    let mut acc: u64 = 0;
    let mut i: usize = 0;
    while i < 8
        invariant
            b@.len() == 8,
            i <= 8,
            acc == le_value(b@.subrange(8 - i, 8)),
            acc < crate::bits::pow256(i as nat),
        decreases 8 - i,
    {
        let byte = b[7 - i];
        proof {
            lemma_pow256_le_8(i as nat + 1);
            assert(acc * 256 + byte < crate::bits::pow256(i as nat + 1)) by (nonlinear_arith)
                requires
                    acc < crate::bits::pow256(i as nat),
                    byte < 256,
                    crate::bits::pow256(i as nat + 1) == 256 * crate::bits::pow256(i as nat),
            ;
            let t = b@.subrange(7 - i, 8);
            assert(t.drop_first() =~= b@.subrange(8 - i, 8));
        }
        acc = acc * 256 + byte as u64;
        i = i + 1;
    }
    proof {
        assert(b@.subrange(0, 8) =~= b@);
    }
    acc
}

proof fn lemma_pow256_le_8(n: nat)
    requires
        n <= 8,
    ensures
        crate::bits::pow256(n) <= 0x1_0000_0000_0000_0000,
{
    reveal_with_fuel(crate::bits::pow256, 9);
    if n < 8 {
        lemma_pow256_mono_to_8(n);
    }
}

proof fn lemma_pow256_mono_to_8(n: nat)
    requires
        n <= 8,
    ensures
        crate::bits::pow256(n) <= crate::bits::pow256(8),
    decreases 8 - n,
{
    if n < 8 {
        lemma_pow256_mono_to_8(n + 1);
    }
}

proof fn lemma_le_value_fits(s: Seq<u8>)
    requires
        s.len() == 8,
    ensures
        le_value(s) < 0x1_0000_0000_0000_0000,
{
    reveal_with_fuel(crate::bits::le_value, 9);
    assert(s.drop_first().drop_first().drop_first().drop_first().drop_first().drop_first().drop_first().drop_first().len() == 0);
}

/// Check a header read from a file of `file_len` bytes holding elements of `elem_size` bytes:
/// the signature must be `expected_sig` and the length must be the number of elements the file
/// holds. Returns that length.
pub fn check_header(expected_sig: u64, header: &[u8], file_len: u64, elem_size: u64) -> (r: Result<
    u64,
    MmVecError,
>)
    requires
        header@.len() == HEADER_SIZE,
        elem_size > 0,
    ensures
        header_fields(header@).0 != expected_sig ==> r == Err::<u64, MmVecError>(
            MmVecError::SignatureMismatch { expected: expected_sig, actual: header_fields(header@).0 },
        ),
        header_fields(header@).0 == expected_sig && (file_len < HEADER_SIZE
            || header_fields(header@).1 != capacity_of(file_len, elem_size)
            || (file_len - HEADER_SIZE) as int % elem_size as int != 0) ==> r == Err::<u64, MmVecError>(
            MmVecError::UninitializedVectorLoad,
        ),
        header_fields(header@).0 == expected_sig && file_len >= HEADER_SIZE && header_fields(header@).1
            == capacity_of(file_len, elem_size) && (file_len - HEADER_SIZE) as int % elem_size as int
            == 0 ==> r == Ok::<u64, MmVecError>(header_fields(header@).1),
{
    let sig = read_u64_le(&header[0..8]);
    let len = read_u64_le(&header[8..16]);
    proof {
        lemma_le_value_fits(header@.subrange(0, 8));
        lemma_le_value_fits(header@.subrange(8, 16));
    }
    if sig != expected_sig {
        return Err(MmVecError::SignatureMismatch { expected: expected_sig, actual: sig });
    }
    if file_len < HEADER_SIZE {
        return Err(MmVecError::UninitializedVectorLoad);
    }
    let payload = file_len - HEADER_SIZE;
    // only whole-file, fully initialized vectors are supported
    if payload % elem_size != 0 || len != payload / elem_size {
        return Err(MmVecError::UninitializedVectorLoad);
    }
    Ok(len)
}

/// The header of a vector with signature `sig` and `len` elements: both little-endian.
pub fn encode_header(sig: u64, len: u64) -> (r: Vec<u8>)
    ensures
        r@ == le_bytes_of(sig) + le_bytes_of(len),
{
    let mut out: Vec<u8> = Vec::new();
    push_u64_le(&mut out, sig);
    push_u64_le(&mut out, len);
    out
}

/// The little-endian bytes of `x`, by shifts.
pub open spec fn le_bytes_of(x: u64) -> Seq<u8> {
    Seq::new(8, |i: int| ((x >> ((8 * i) as u64)) & 0xff) as u8)
}

fn push_u64_le(out: &mut Vec<u8>, x: u64)
    ensures
        final(out)@ == old(out)@ + le_bytes_of(x),
{
    let ghost start = out@;
    let mut i: u64 = 0;
    while i < 8
        invariant
            i <= 8,
            out@ == start + le_bytes_of(x).take(i as int),
        decreases 8 - i,
    {
        let byte = ((x >> (8 * i)) & 0xff) as u8;
        out.push(byte);
        i = i + 1;
        proof {
            assert(out@ =~= start + le_bytes_of(x).take(i as int));
        }
    }
    proof {
        assert(le_bytes_of(x).take(8) =~= le_bytes_of(x));
    }
}

} // verus!
