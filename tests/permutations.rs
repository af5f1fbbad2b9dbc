use hloo::bit_block::{execute_ops, BitBlock, PermutedBitBlock};
use hloo::bits::Bits;
use hloo::permutations::{create_permuted_blocks, create_permutations, reorder_blocks, split_bits_into_blocks, Permutation};
use hloo::permuter::Permuter;

#[test]
fn test_split_into_blocks() {
    let res = split_bits_into_blocks(64, 5);
    let expected = vec![
        BitBlock::new(0, 0, 13),
        BitBlock::new(1, 13, 13),
        BitBlock::new(2, 26, 13),
        BitBlock::new(3, 39, 13),
        BitBlock::new(4, 52, 12),
    ];
    assert_eq!(res, expected);

    let res = split_bits_into_blocks(64, 4);
    let expected = vec![
        BitBlock::new(0, 0, 16),
        BitBlock::new(1, 16, 16),
        BitBlock::new(2, 32, 16),
        BitBlock::new(3, 48, 16),
    ];
    assert_eq!(res, expected);
}

#[test]
fn test_reorder_blocks() {
    let blocks = vec![
        BitBlock::new(0, 0, 1),
        BitBlock::new(1, 1, 1),
        BitBlock::new(2, 2, 1),
        BitBlock::new(3, 3, 1),
        BitBlock::new(4, 4, 1),
    ];
    let permuted = reorder_blocks(&blocks, &vec![3, 2, 0, 4, 1]);
    assert_eq!(
        permuted,
        vec![
            BitBlock::new(3, 3, 1),
            BitBlock::new(2, 2, 1),
            BitBlock::new(0, 0, 1),
            BitBlock::new(4, 4, 1),
            BitBlock::new(1, 1, 1),
        ]
    );

    let partially_permuted = reorder_blocks(&blocks, &vec![3, 2]);
    assert_eq!(
        partially_permuted,
        vec![
            BitBlock::new(3, 3, 1),
            BitBlock::new(2, 2, 1),
            BitBlock::new(0, 0, 1),
            BitBlock::new(1, 1, 1),
            BitBlock::new(4, 4, 1),
        ]
    );

    let ident = reorder_blocks(&blocks, &vec![0, 1, 2, 3, 4]);
    assert_eq!(ident, blocks);

    let ident2 = reorder_blocks(&blocks, &vec![]);
    assert_eq!(ident2, blocks);
}

#[test]
fn test_create_permuted_blocks() {
    let reordered = vec![
        BitBlock::new(0, 0, 13),
        BitBlock::new(2, 26, 13),
        BitBlock::new(4, 52, 12),
        BitBlock::new(1, 13, 13),
        BitBlock::new(3, 39, 13),
    ];
    let res = create_permuted_blocks(&reordered);
    assert_eq!(
        res,
        vec![
            PermutedBitBlock::new(reordered[0], 0),
            PermutedBitBlock::new(reordered[1], 13),
            PermutedBitBlock::new(reordered[2], 26),
            PermutedBitBlock::new(reordered[3], 38),
            PermutedBitBlock::new(reordered[4], 51),
        ]
    )
}

#[test]
fn create_permutations_lists_all_subsets_in_order() {
    let perms = create_permutations(64, 32, 5, 2);
    assert_eq!(perms.len(), 10);
    let heads: Vec<Vec<usize>> = perms
        .iter()
        .map(|p| p.blocks().iter().take(2).map(|b| b.block.idx()).collect())
        .collect();
    assert_eq!(
        heads,
        vec![
            vec![0, 1],
            vec![0, 2],
            vec![0, 3],
            vec![0, 4],
            vec![1, 2],
            vec![1, 3],
            vec![1, 4],
            vec![2, 3],
            vec![2, 4],
            vec![3, 4]
        ]
    );
    // the rest keeps its original order
    let rest: Vec<usize> = perms[4].blocks().iter().skip(2).map(|b| b.block.idx()).collect();
    assert_eq!(rest, vec![0, 3, 4]);
    assert_eq!(perms[3].mask_bits(), 25);
    assert_eq!(perms[3].mask_words(32), 1);
    assert_eq!(perms[0].mask_bits(), 26);
}

#[test]
fn compile_apply_groups_ops_by_destination_word() {
    let perm = Permutation::from_blocks(1, split_bits_into_blocks(32, 4));
    // identity layout: every op copies a block onto itself
    let compiled = perm.compile_apply(32, false);
    assert_eq!(compiled.len(), 1);
    assert_eq!(compiled[0].0, 0);
    assert_eq!(compiled[0].1.len(), 4);
    let optimized = perm.compile_apply(32, true);
    assert_eq!(optimized.len(), 1);
    // four adjacent masks on the same word merge into one
    assert_eq!(
        optimized[0].1,
        vec![hloo::bit_block::BitOp::MaskAndCopy { src_word: 0, src_mask: 0xFFFF_FFFF, dst_word: 0 }]
    );
    // on 64-bit words the merged mask covers the whole word and becomes a plain copy
    let wide = Permutation::from_blocks(1, split_bits_into_blocks(64, 4));
    let optimized = wide.compile_apply(64, true);
    assert_eq!(optimized, vec![(0, vec![hloo::bit_block::BitOp::Copy { src_word: 0, dst_word: 0 }])]);
    let reverted = perm.compile_revert(32, false);
    assert_eq!(reverted.len(), 1);
    let mask = perm.compile_top_mask(32, false);
    assert_eq!(mask.len(), 1);
    assert_eq!(mask[0].1.len(), 1);
}

fn perm_64_5_2() -> Vec<Permuter> {
    Permuter::all_variants(64, 5, 2, 32).unwrap()
}

#[test]
fn test_apply_works_correctly() {
    // 64 / 5 = 13, 13, 13, 13, 12
    let bits = Bits::new(
        vec![
            0b1111111111111_1010101010101_000110,
            0b0110011_0000000000000_111100001111,
        ],
        32,
    );
    // combinations of the first two blocks:
    let mut expected = vec![
        //
        0b1111111111111_1010101010101_000000u64,
        0b1111111111111_0001100110011_000000u64,
        0b1111111111111_0000000000000_000000u64,
        0b1111111111111_111100001111_0000000u64,
        //
        0b1010101010101_0001100110011_000000u64,
        0b1010101010101_0000000000000_000000u64,
        0b1010101010101_111100001111_0000000u64,
        //
        0b0001100110011_0000000000000_000000u64,
        0b0001100110011_111100001111_0000000u64,
        //
        0b0000000000000_111100001111_0000000u64,
    ];
    assert_eq!(perm_64_5_2().len(), 10);
    for (pi, perm) in perm_64_5_2().iter().enumerate() {
        let res = perm.apply(&bits);
        let found = expected
            .iter()
            .enumerate()
            .find(|(_, mask)| res.data[0] & **mask == **mask);
        if let Some((i, _)) = found {
            expected.remove(i);
        } else {
            assert!(false, "permutation #{} produced unexpected result!", pi)
        }
    }
    assert!(expected.is_empty(), "not all patterns were matched!")
}

#[test]
fn test_apply_works_correctly_with_rest_ordering_preserved() {
    let bits = Bits::new(
        vec![
            0b1111111111111_1010101010101_000110,
            0b0110011_0000000000000_111100001111,
        ],
        32,
    );
    let mut expected: Vec<[u64; 2]> = vec![
        [
            0b1111111111111_1010101010101_000110,
            0b0110011_0000000000000_111100001111,
        ],
        [
            0b1111111111111_0001100110011_101010,
            0b1010101_0000000000000_111100001111,
        ],
        [
            0b1111111111111_0000000000000_101010,
            0b1010101_0001100110011_111100001111,
        ],
        [
            0b1111111111111_111100001111_1010101,
            0b010101_0001100110011_0000000000000,
        ],
        [
            0b1010101010101_0001100110011_111111,
            0b1111111_0000000000000_111100001111,
        ],
        [
            0b1010101010101_0000000000000_111111,
            0b1111111_0001100110011_111100001111,
        ],
        [
            0b1010101010101_111100001111_1111111,
            0b111111_0001100110011_0000000000000,
        ],
        [
            0b0001100110011_0000000000000_111111,
            0b1111111_1010101010101_111100001111,
        ],
        [
            0b0001100110011_111100001111_1111111,
            0b111111_1010101010101_0000000000000,
        ],
        [
            0b0000000000000_111100001111_1111111,
            0b111111_1010101010101_0001100110011,
        ],
    ];
    assert_eq!(perm_64_5_2().len(), 10);
    for (pi, perm) in perm_64_5_2().iter().enumerate() {
        let res = perm.apply(&bits);
        let found = expected
            .iter()
            .enumerate()
            .find(|(_, val)| res.data == val.to_vec());
        if let Some((i, _)) = found {
            expected.remove(i);
        } else {
            assert!(false, "permutation #{} produced unexpected result!", pi)
        }
    }
    assert!(expected.is_empty(), "not all patterns were matched!")
}

#[test]
fn test_apply_then_revert_is_identity() {
    let bits = Bits::new(vec![rand::random::<u32>() as u64, rand::random::<u32>() as u64], 32);
    for (i, perm) in perm_64_5_2().iter().enumerate() {
        let permuted = perm.apply(&bits);
        let reverted = perm.revert(&permuted);
        assert_eq!(bits.data, reverted.data, "permutation {}: failed apply-revert test!", i);
    }
}

#[test]
fn apply_then_revert_restores_fixed_keys() {
    for (f, r, k, w) in [(64, 5, 2, 32), (64, 4, 1, 64), (32, 5, 1, 32), (256, 8, 1, 64), (32, 5, 3, 8)] {
        let n = f / w;
        let data: Vec<u64> = (0..n)
            .map(|i| {
                let x = 0x9E37_79B9_7F4A_7C15u64.wrapping_mul(i as u64 + 1);
                if w == 64 { x } else { x & ((1u64 << w) - 1) }
            })
            .collect();
        let bits = Bits::new(data, w);
        for perm in Permuter::all_variants(f, r, k, w).unwrap() {
            let reverted = perm.revert(&perm.apply(&bits));
            assert_eq!(reverted.data, bits.data);
        }
    }
}

#[test]
fn test_mask_works_correctly() {
    let bits = Bits::new(
        vec![
            0b1111111111111_1010101010101_000110,
            0b0110011_0000000000000_111100001111,
        ],
        32,
    );
    // combinations of the first two blocks:
    let mut expected = vec![
        //
        0b1111111111111_1010101010101_000000u64,
        0b1111111111111_1010101010101_000000u64,
        0b1111111111111_1010101010101_000000u64,
        0b1111111111111_101010101010_0000000u64,
        //
        0b1111111111111_1010101010101_000000u64,
        0b1111111111111_1010101010101_000000u64,
        0b1111111111111_101010101010_0000000u64,
        //
        0b1111111111111_1010101010101_000000u64,
        0b1111111111111_101010101010_0000000u64,
        //
        0b1111111111111_101010101010_0000000u64,
    ];

    for (pi, perm) in perm_64_5_2().iter().enumerate() {
        let res = perm.mask(&bits);
        let found = expected.iter().enumerate().find(|(_, mask)| res.data[0] == **mask);
        if let Some((i, _)) = found {
            expected.remove(i);
        } else {
            assert!(false, "permutation #{} produced unexpected result! {:?}", pi, res.data)
        }
    }
}

#[test]
fn mask_keeps_exactly_the_head_bits() {
    // f=64, r=5, k=2, w=32: heads of 26 or 25 bits in one mask word
    for perm in perm_64_5_2() {
        let ones = Bits::new(vec![0xFFFF_FFFF, 0xFFFF_FFFF], 32);
        let m = perm.mask(&ones);
        assert_eq!(m.data.len(), 1);
        let head = perm.mask_bits() as u32;
        assert_eq!(m.data[0].count_ones(), head);
        assert_eq!(m.data[0], (0xFFFF_FFFFu64 << (32 - head)) & 0xFFFF_FFFF);
        assert_eq!(perm.n_blocks(), 5);
    }
}

#[test]
fn compiled_ops_agree_with_permuters() {
    for (f, r, k, w) in [(64, 5, 2, 32), (64, 4, 1, 64), (32, 5, 1, 32), (32, 4, 2, 8)] {
        let perms = create_permutations(f, w, r, k);
        let permuters = Permuter::all_variants(f, r, k, w).unwrap();
        assert_eq!(perms.len(), permuters.len());
        let n = f / w;
        for seed in 1..6u64 {
            let data: Vec<u64> = (0..n)
                .map(|i| {
                    let x = 0xD1B5_4A32_D192_ED03u64.wrapping_mul(seed * 31 + i as u64 + 7);
                    if w == 64 { x } else { x & ((1u64 << w) - 1) }
                })
                .collect();
            let key = Bits::new(data.clone(), w);
            for (perm, permuter) in perms.iter().zip(&permuters) {
                let expected = permuter.apply(&key);
                for optimize in [false, true] {
                    let ops: Vec<_> = perm.compile_apply(w, optimize).into_iter().flat_map(|(_, o)| o).collect();
                    assert_eq!(execute_ops(&ops, &data, n, w), expected.data, "apply, optimize={optimize}");
                    let back: Vec<_> = perm.compile_revert(w, optimize).into_iter().flat_map(|(_, o)| o).collect();
                    assert_eq!(execute_ops(&back, &expected.data, n, w), data, "revert, optimize={optimize}");
                    let mask_ops: Vec<_> =
                        perm.compile_top_mask(w, optimize).into_iter().flat_map(|(_, o)| o).collect();
                    let mask = permuter.mask(&expected);
                    assert_eq!(
                        execute_ops(&mask_ops, &expected.data, mask.data.len(), w),
                        mask.data,
                        "mask, optimize={optimize}"
                    );
                }
            }
        }
    }
}

fn binomial(n: usize, k: usize) -> usize {
    (0..k).fold(1, |acc, i| acc * (n - i) / (i + 1))
}

#[test]
fn all_variants_cover_every_head_subset() {
    for w in [8usize, 16, 32, 64] {
        for f in [w, 2 * w, 4 * w] {
            for r in 1..=f.min(8) {
                for k in 1..=r {
                    let variants = Permuter::all_variants(f, r, k, w)
                        .unwrap_or_else(|| panic!("layout refused for f={f} r={r} k={k} w={w}"));
                    assert_eq!(variants.len(), binomial(r, k), "f={f} r={r} k={k} w={w}");
                    for v in &variants {
                        assert_eq!(v.n_blocks() as usize, r);
                        let head: usize = v.blocks.iter().take(k).map(|b| b.block.len()).sum();
                        assert_eq!(v.mask_bits() as usize, head);
                    }
                }
            }
        }
    }
}

#[test]
fn overlapping_layout_is_refused() {
    // two blocks taken from the same bits do not tile the key
    let perm = Permutation::from_blocks(1, vec![BitBlock::new(0, 0, 16), BitBlock::new(1, 0, 16)]);
    assert!(Permuter::from_permutation(&perm, 32, 32).is_none());
    let good = Permutation::from_blocks(1, vec![BitBlock::new(0, 0, 16), BitBlock::new(1, 16, 16)]);
    let p = Permuter::from_permutation(&good, 32, 32).unwrap();
    assert_eq!(p.mask_bits(), 16);
    assert!(p.validate());
}
