use hloo::bits::Bits;
use hloo::lookup::Lookup;
use hloo::permuter::Permuter;
use hloo::storage::{check_header, encode_header, MmVecError, HEADER_SIZE};

#[test]
fn header_round_trip_reopens_and_searches() {
    // an index holding one entry of 16 bytes, saved then checked on reopening
    let sig = 0x1234_5678_9ABC_DEF0u64;
    let header = encode_header(sig, 1);
    assert_eq!(header.len(), 16);
    assert_eq!(&header[..8], &sig.to_le_bytes());
    assert_eq!(&header[8..], &1u64.to_le_bytes());
    assert_eq!(check_header(sig, &header, HEADER_SIZE + 16, 16), Ok(1));

    let mut lookup: Lookup<i64> = Lookup::from_permuters(Permuter::all_variants(32, 5, 1, 32).unwrap());
    lookup.insert(&[(Bits::new(vec![851899373], 32), 0)]).unwrap();
    let found: Vec<i64> = lookup
        .search_simple(&Bits::new(vec![851899373], 32), 0)
        .iter()
        .map(|it| it.data)
        .collect();
    assert_eq!(found, vec![0]);
}

#[test]
fn signature_mismatch_is_refused() {
    let created_with = 0xAAAA_0000_0000_0001u64;
    let reopened_with = 0xBBBB_0000_0000_0002u64;
    let header = encode_header(created_with, 0);
    assert_eq!(
        check_header(reopened_with, &header, HEADER_SIZE, 24),
        Err(MmVecError::SignatureMismatch {
            expected: reopened_with,
            actual: created_with
        })
    );
}

#[test]
fn truncated_file_is_refused() {
    let sig = 42;
    let header = encode_header(sig, 3);
    let full = HEADER_SIZE + 3 * 24;
    assert_eq!(check_header(sig, &header, full, 24), Ok(3));
    assert_eq!(
        check_header(sig, &header, full - 1, 24),
        Err(MmVecError::UninitializedVectorLoad)
    );
    assert_eq!(
        check_header(sig, &header, 4, 24),
        Err(MmVecError::UninitializedVectorLoad)
    );
}
