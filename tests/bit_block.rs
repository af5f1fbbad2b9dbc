use hloo::bit_block::{combine_masks, compute_mask, unmask, BitBlock, BitOp, PermutedBitBlock};

#[test]
fn test_compute_mask() {
    let mask = compute_mask(0, 5, 64);
    assert_eq!(mask, 0b11111);
    let mask = compute_mask(5, 5, 64);
    assert_eq!(mask, 0b1111100000);
    let mask = compute_mask(0, 1, 64);
    assert_eq!(mask, 0b1);
    let mask = compute_mask(63, 1, 64);
    assert_eq!(mask, 0b1000000000000000000000000000000000000000000000000000000000000000);
}

#[test]
fn test_unmask() {
    let res = unmask(0b11111);
    assert_eq!(res, (0, 5));
    let res = unmask(0b1111100000);
    assert_eq!(res, (5, 5));
    let res = unmask(0b1);
    assert_eq!(res, (0, 1));
    let res = unmask(0b1000000000000000000000000000000000000000000000000000000000000000);
    assert_eq!(res, (63, 1));
}

#[test]
fn test_combine_masks() {
    let m1 = 0b00001110;
    let m2 = 0b00110000;
    assert_eq!(combine_masks(m1, m2), Some(0b00111110));

    let m1 = 0b00000001;
    let m2 = 0b11111110;
    assert_eq!(combine_masks(m1, m2), Some(0b11111111));

    let m1 = 0b00001110;
    let m2 = 0b00100000;
    assert_eq!(combine_masks(m1, m2), None);

    let m1 = 0b00001110;
    let m2 = 0b00111100;
    assert_eq!(combine_masks(m1, m2), None);

    let m1 = 0b00001110;
    let m2 = 0b00001110;
    assert_eq!(combine_masks(m1, m2), None);
}

#[test]
fn test_compute_mask_word_sizes() {
    let mask = compute_mask(4, 3, 64);
    assert_eq!(mask, 0b1110000);
    let mask = compute_mask(4, 3, 39);
    assert_eq!(mask, 0b1110000);
    let mask = compute_mask(4, 3, 32);
    assert_eq!(mask, 0b1110000);
    let mask = compute_mask(4, 3, 24);
    assert_eq!(mask, 0b1110000);
    let mask = compute_mask(4, 3, 7);
    assert_eq!(mask, 0b1110000);
}

#[test]
fn test_compute_mask_full_word() {
    assert_eq!(compute_mask(0, 64, 64), u64::MAX);
    assert_eq!(compute_mask(0, 32, 32), 0xFFFF_FFFF);
}

#[test]
fn test_block_word() {
    // ....|.+++|++++|+...
    let block = BitBlock::new(0, 5, 8);
    let word_size = 4;
    assert_eq!(block.start_word(word_size), 1, "start_word 4");
    assert_eq!(block.end_word(word_size), 3, "end_word 4");
    let word_size = 16;
    assert_eq!(block.start_word(word_size), 0, "start_word 16");
    assert_eq!(block.end_word(word_size), 0, "end_word 16");
}

#[test]
fn test_block_coord() {
    // ....|.+++|++++|+...
    let block = BitBlock::new(0, 5, 8);
    let word_size = 4;
    assert_eq!(block.start_word(word_size), 1, "start_word 4");
    assert_eq!(block.end_word(word_size), 3, "end_word 4");
    assert_eq!(block.end_bit(word_size), 3, "end_bit 4");

    // ++++++++++++++++
    let block = BitBlock::new(0, 0, 16);
    let word_size = 16;
    assert_eq!(block.start_word(word_size), 0, "start_word 16");
    assert_eq!(block.end_word(word_size), 0, "end_word 16");
    assert_eq!(block.end_bit(word_size), 0, "end_bit 16");

    // ........|+++++++.
    let block = BitBlock::new(0, 8, 7);
    let word_size = 8;
    assert_eq!(block.start_word(word_size), 1, "start_word 8");
    assert_eq!(block.end_word(word_size), 1, "end_word 8");
    assert_eq!(block.end_bit(word_size), 1, "end_bit 8");
}

#[test]
fn test_block_len_words() {
    let block = BitBlock::new(0, 0, 16);
    assert_eq!(block.len_words(4), 4);
    assert_eq!(block.len_words(8), 2);
    assert_eq!(block.len_words(32), 1);
    assert_eq!(block.len_words(64), 1);

    let block = BitBlock::new(0, 15, 16);
    assert_eq!(block.len_words(4), 4);
    assert_eq!(block.len_words(8), 2);
    assert_eq!(block.len_words(32), 1);
    assert_eq!(block.len_words(64), 1);
}

#[test]
fn test_block_split() {
    // ....|..++|++++|+...
    let block = BitBlock::new(0, 6, 7);
    let parts = block.split(4);
    assert_eq!(
        parts,
        vec![
            // word end block
            BitBlock::new(0, 6, 2),
            // full block
            BitBlock::new(0, 8, 4),
            // word start block
            BitBlock::new(0, 12, 1),
        ]
    );

    for unit in parts {
        assert!(unit.is_contiguous(4));
        assert_eq!(unit.split(4), vec![unit]);
    }
}

#[test]
fn test_block_move() {
    // ....|..++|++++|+...
    //      moved to
    // ....|++++|+++.|....
    //    final split
    // ....|++;++|++;+.|....
    let block = BitBlock::new(0, 6, 7);
    let parts = block.split(4);
    let moved_parts = block.move_to(4, 4);
    assert_eq!(
        moved_parts,
        vec![
            (parts[0], vec![BitBlock::new(0, 4, 2)]),
            (parts[1], vec![BitBlock::new(0, 6, 2), BitBlock::new(0, 8, 2)]),
            (parts[2], vec![BitBlock::new(0, 10, 1)]),
        ]
    );

    for (src, moved) in moved_parts {
        assert_eq!(src.len(), moved.iter().map(|b| b.len()).sum());
        for unit in moved {
            assert!(unit.is_contiguous(4));
            assert_eq!(unit.split(4), vec![unit]);
        }
    }
}

#[test]
fn test_block_bit_pos_mask_and_coord() {
    let block = BitBlock::new(0, 8, 7);
    assert_eq!(block.bit_pos(8), Some(1));
    assert_eq!(block.mask(8), Some(0b11111110));
    assert_eq!(block.coord(8), Some((1, 1)));
    let spanning = BitBlock::new(0, 6, 7);
    assert_eq!(spanning.bit_pos(8), None);
    assert_eq!(spanning.mask(8), None);
    assert_eq!(spanning.coord(8), None);
}

#[test]
fn test_block_to_ops() {
    // ......++|+++++...
    //      moved to
    // ....++++|+++.....
    let word_size = 8;
    let block = PermutedBitBlock::new(BitBlock::new(0, 6, 7), 4);
    let ops = block.to_ops(word_size);
    let expected = vec![
        BitOp::copy_block(BitBlock::new(0, 6, 2), BitBlock::new(0, 4, 2), word_size),
        BitOp::copy_block(BitBlock::new(0, 8, 2), BitBlock::new(0, 6, 2), word_size),
        BitOp::copy_block(BitBlock::new(0, 10, 3), BitBlock::new(0, 8, 3), word_size),
    ];
    assert_eq!(ops, expected);
}

#[test]
fn test_block_to_ops_contiguous() {
    // ......+++++++...
    //      moved to
    // ....+++++++.....
    let word_size = 16;
    let block = PermutedBitBlock::new(BitBlock::new(0, 6, 7), 4);
    let ops = block.to_ops(word_size);
    let expected = vec![BitOp::copy_block(
        BitBlock::new(0, 6, 7),
        BitBlock::new(0, 4, 7),
        word_size,
    )];
    assert_eq!(ops, expected);
}

#[test]
fn test_materialized_ops_1() {
    // ......++|++;+++...
    // ....++;++|+++.....
    let word_size = 8;
    let copy_1 = BitOp::copy_block(BitBlock::new(0, 6, 2), BitBlock::new(0, 4, 2), word_size);
    let expected_1 = BitOp::MaskShiftAndCopy {
        src_word: 0,
        src_mask: 0b11,
        src_shift: 2,
        dst_word: 0,
    };
    assert_eq!(copy_1, expected_1, "copy first block");

    let copy_2 = BitOp::copy_block(BitBlock::new(0, 8, 2), BitBlock::new(0, 6, 2), word_size);
    let expected_2 = BitOp::MaskShiftAndCopy {
        src_word: 1,
        src_mask: 0b11000000,
        src_shift: -6,
        dst_word: 0,
    };
    assert_eq!(copy_2, expected_2, "copy second block");

    let copy_3 = BitOp::copy_block(BitBlock::new(0, 10, 3), BitBlock::new(0, 8, 3), word_size);
    let expected_3 = BitOp::MaskShiftAndCopy {
        src_word: 1,
        src_mask: 0b00111000,
        src_shift: 2,
        dst_word: 1,
    };
    assert_eq!(copy_3, expected_3, "copy third block");
}

#[test]
fn test_materialized_ops_2() {
    // ....++;++|+++++...|........
    // ........|......++|++;+++++.
    let word_size = 8;
    let copy_1 = BitOp::copy_block(BitBlock::new(0, 4, 2), BitBlock::new(0, 14, 2), word_size);
    let expected_1 = BitOp::MaskShiftAndCopy {
        src_word: 0,
        src_mask: 0b1100,
        src_shift: -2,
        dst_word: 1,
    };
    assert_eq!(copy_1, expected_1, "copy first block");

    let copy_2 = BitOp::copy_block(BitBlock::new(0, 6, 2), BitBlock::new(0, 16, 2), word_size);
    let expected_2 = BitOp::MaskShiftAndCopy {
        src_word: 0,
        src_mask: 0b11,
        src_shift: 6,
        dst_word: 2,
    };
    assert_eq!(copy_2, expected_2, "copy second block");

    let copy_3 = BitOp::copy_block(BitBlock::new(0, 8, 5), BitBlock::new(0, 18, 5), word_size);
    let expected_3 = BitOp::MaskShiftAndCopy {
        src_word: 1,
        src_mask: 0b11111000,
        src_shift: -2,
        dst_word: 2,
    };
    assert_eq!(copy_3, expected_3, "copy third block");
}

#[test]
fn test_copy_block_same_offset_variants() {
    // same offset, full word: a plain copy
    let op = BitOp::copy_block(BitBlock::new(0, 0, 8), BitBlock::new(0, 16, 8), 8);
    assert_eq!(op, BitOp::Copy { src_word: 0, dst_word: 2 });
    // same offset, part of a word: mask only
    let op = BitOp::copy_block(BitBlock::new(0, 2, 3), BitBlock::new(0, 10, 3), 8);
    assert_eq!(
        op,
        BitOp::MaskAndCopy {
            src_word: 0,
            src_mask: 0b00111000,
            dst_word: 1
        }
    );
}

#[test]
fn test_bit_op_accessors_and_combine() {
    let a = BitOp::MaskShiftAndCopy {
        src_word: 1,
        src_mask: 0b0011,
        src_shift: 3,
        dst_word: 2,
    };
    let b = a.clone_with_mask(0b1100);
    assert_eq!(a.src_word(), 1);
    assert_eq!(a.dst_word(), 2);
    assert_eq!(a.shift(), 3);
    assert_eq!(a.mask(), 0b0011);
    assert_eq!(b.mask(), 0b1100);
    assert_eq!(a.combine(&b), Some(a.clone_with_mask(0b1111)));
    let far = a.clone_with_mask(0b110000);
    assert_eq!(a.combine(&far), None);
    let other_word = BitOp::MaskShiftAndCopy {
        src_word: 0,
        src_mask: 0b1100,
        src_shift: 3,
        dst_word: 2,
    };
    assert_eq!(a.combine(&other_word), None);
    let copy = BitOp::Copy { src_word: 4, dst_word: 5 };
    assert_eq!(copy.mask(), u64::MAX);
    assert_eq!(copy.shift(), 0);
    assert_eq!(BitOp::mask_block(BitBlock::new(0, 9, 3), 8), BitOp::MaskAndCopy {
        src_word: 1,
        src_mask: 0b01110000,
        dst_word: 1
    });
}

#[test]
fn test_permuted_block_apply_and_mask_ops() {
    let pb = PermutedBitBlock::new(BitBlock::new(3, 13, 13), 0);
    let back = pb.apply();
    assert_eq!(back, PermutedBitBlock::new(BitBlock::new(3, 0, 13), 13));
    let ops = pb.to_mask_ops(8);
    assert_eq!(
        ops,
        vec![
            BitOp::MaskAndCopy {
                src_word: 0,
                src_mask: 0xFF,
                dst_word: 0
            },
            BitOp::MaskAndCopy {
                src_word: 1,
                src_mask: 0b11111000,
                dst_word: 1
            },
        ]
    );
}
