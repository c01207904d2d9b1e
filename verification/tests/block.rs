use polyominos::grids::block::Block;
use polyominos::rotation::Rotation;

#[test]
fn block_get() {
    for i in 0..16 {
        assert_eq!(
            Block(1 << i).get(i / 4, i % 4),
            true,
            "testing block 0b{:0>16b} with i={i}, x={}, y={}",
            1 << i,
            i / 4,
            i % 4
        );
    }
}

#[test]
fn block_set() {
    for i in 0..16 {
        assert_eq!(
            Block(0).set(i / 4, i % 4),
            Block(1 << i),
            "testing block 0b{:0>16b} with i={i}, x={}, y={}",
            1 << i,
            i / 4,
            i % 4
        );
    }
}

#[test]
fn block_unset() {
    for i in 0..16 {
        assert_eq!(
            Block(0xFFFF).unset(i / 4, i % 4),
            Block(0xFFFF - (1 << i)),
            "testing block 0b{:0>16b} with i={i}, x={}, y={}",
            1 << i,
            i / 4,
            i % 4
        );
    }
}

#[test]
fn block_shift_x() {
    let (mut b, mut shifted) = Block(0xF000).shift_x(-3, 0xFA50);
    assert_eq!(shifted, 0x0000);
    assert_eq!(b, Block(0xFA5F));
    (b, shifted) = b.shift_x(3, 0x0421);
    assert_eq!(shifted, 0x0FA5);
    assert_eq!(b, Block(0xF421));
    (b, shifted) = b.shift_x(-2, 0x1200);
    assert_eq!(shifted, 0x2100);
    assert_eq!(b, Block(0x12F4));
    (b, shifted) = b.shift_x(1, 0x0005);
    assert_eq!(shifted, 0x0001);
    assert_eq!(b, Block(0x2F45));
    (b, shifted) = b.shift_x(2, 0x0087);
    assert_eq!(shifted, 0x002F);
    assert_eq!(b, Block(0x4587));
    (b, shifted) = b.shift_x(-1, 0x3000);
    assert_eq!(shifted, 0x7000);
    assert_eq!(b, Block(0x3458));
    (b, shifted) = b.shift_x(0, 0xABCD);
    assert_eq!(shifted, 0x0000);
    assert_eq!(b, Block(0x3458));
}

#[test]
fn block_shift_y() {
    let (mut b, mut shifted) = Block(0x8888).shift_y(-3, 0x8888);
    assert_eq!(shifted, 0x0000);
    assert_eq!(b, Block(0x9999));
    (b, shifted) = b.shift_y(3, 0x7421);
    assert_eq!(shifted, 0x4444);
    assert_eq!(b, Block(0xFCA9));
    (b, shifted) = b.shift_y(-2, 0x0040);
    assert_eq!(shifted, 0xC084);
    assert_eq!(b, Block(0x3362));
    (b, shifted) = b.shift_y(1, 0x0100);
    assert_eq!(shifted, 0x0000);
    assert_eq!(b, Block(0x67C4));
    (b, shifted) = b.shift_y(2, 0x0023);
    assert_eq!(shifted, 0x1131);
    assert_eq!(b, Block(0x8C23));
    (b, shifted) = b.shift_y(-1, 0x0080);
    assert_eq!(shifted, 0x0008);
    assert_eq!(b, Block(0x4691));
    (b, shifted) = b.shift_y(0, 0xABCD);
    assert_eq!(shifted, 0x0000);
    assert_eq!(b, Block(0x4691));
}

#[test]
fn block_rotate_270() {
    assert_eq!(Block(0xA88E).rotate(Rotation::R270), Block(0xF890));
    assert_eq!(Block(0x0611).rotate(Rotation::R270), Block(0x022C));
    assert_eq!(Block(0x5160).rotate(Rotation::R270), Block(0x0543));
}

#[test]
fn block_rotate_2x90_is_180() {
    for i in 0..u16::MAX {
        let b = Block(i);
        assert_eq!(
            b.rotate(Rotation::R90).rotate(Rotation::R90),
            b.rotate(Rotation::R180),
            "testing double rotation of block {i} (90° rotation {:?})",
            b.rotate(Rotation::R90)
        );
    }
}

#[test]
fn block_rotate_3x90_is_270() {
    for i in 0..u16::MAX {
        let b = Block(i);
        assert_eq!(
            b.rotate(Rotation::R90)
                .rotate(Rotation::R90)
                .rotate(Rotation::R90),
            b.rotate(Rotation::R270),
            "testing triple rotation of block {i} (90° rotation {:?}) (180° rotation {:?})",
            b.rotate(Rotation::R90),
            b.rotate(Rotation::R90).rotate(Rotation::R90),
        );
    }
}

#[test]
fn block_rotate_4x90_is_0() {
    for i in 0..u16::MAX {
        let b = Block(i);
        assert_eq!(
            b.rotate(Rotation::R90)
                .rotate(Rotation::R90)
                .rotate(Rotation::R90)
                .rotate(Rotation::R90),
            b,
            "testing four rotation of block {i}",
        );
    }
}

#[test]
fn block_is_empty_and_count() {
    assert!(Block(0).is_empty());
    assert!(!Block(0x0100).is_empty());
    assert_eq!(Block(0).count(), 0);
    assert_eq!(Block(0xFFFF).count(), 16);
    assert_eq!(Block(0xA88E).count(), 7);
    assert_eq!(Block(0x0001).count(), 1);
}

#[test]
fn block_bounding_box() {
    assert_eq!(Block(0).get_bounding_box(), (0, 0));
    assert_eq!(Block(0x0001).get_bounding_box(), (1, 1));
    assert_eq!(Block(0x8000).get_bounding_box(), (4, 4));
    assert_eq!(Block(0x0008).get_bounding_box(), (1, 4));
    assert_eq!(Block(0x1000).get_bounding_box(), (4, 1));
    assert_eq!(Block(0x0420).get_bounding_box(), (3, 3));
}

#[test]
fn block_rotate_180_reverses_the_bits() {
    assert_eq!(Block(0x0001).rotate(Rotation::R180), Block(0x8000));
    assert_eq!(Block(0x8001).rotate(Rotation::R180), Block(0x8001));
    assert_eq!(Block(0x1234).rotate(Rotation::R180), Block(0x2C48));
    assert_eq!(Block(0xA88E).rotate(Rotation::R0), Block(0xA88E));
}

#[test]
fn block_rotate_90_moves_the_corner() {
    // The cell (0, 0) goes to (3, 0), the cell (3, 0) to (3, 3)
    assert_eq!(Block(0x0001).rotate(Rotation::R90), Block(0x1000));
    assert_eq!(Block(0x1000).rotate(Rotation::R90), Block(0x8000));
    assert_eq!(Block(0x0001).rotate(Rotation::R270), Block(0x0008));
}

#[test]
fn block_batch_rotations_agree_with_single_ones() {
    let mut i: u32 = 0;
    while i < 0x10000 {
        let x1 = i as u16;
        let x2 = (i.wrapping_mul(40503) ^ 0x5A5A) as u16;
        let (a, b) = Block::batch_2_rotate_90(x1, x2);
        assert_eq!(Block(a), Block(x1).rotate(Rotation::R90));
        assert_eq!(Block(b), Block(x2).rotate(Rotation::R90));
        let (a, b) = Block::batch_2_rotate_180(x1, x2);
        assert_eq!(Block(a), Block(x1).rotate(Rotation::R180));
        assert_eq!(Block(b), Block(x2).rotate(Rotation::R180));
        let (a, b) = Block::batch_2_rotate_270(x1, x2);
        assert_eq!(Block(a), Block(x1).rotate(Rotation::R270));
        assert_eq!(Block(b), Block(x2).rotate(Rotation::R270));
        assert_eq!(Block::rotate_270(x1), Block(x1).rotate(Rotation::R270).0);
        i += 7;
    }
}

#[test]
fn block_crop_and_union() {
    assert_eq!(Block(0xFFFF).crop(4, 4), Block(0xFFFF));
    assert_eq!(Block(0xFFFF).crop(0, 4), Block(0));
    assert_eq!(Block(0xFFFF).crop(4, 0), Block(0));
    assert_eq!(Block(0xFFFF).crop(2, 3), Block(0x0077));
    assert_eq!(Block(0xFFFF).crop(1, 1), Block(0x0001));
    assert_eq!(Block(0x00F0).union(Block(0x0F01)), Block(0x0FF1));
}

#[test]
fn block_shift_carries_into_the_next_block() {
    // Two blocks side by side, shifted by one to the right
    let (left, carry) = Block(0x9000).shift_x(1, 0);
    assert_eq!(left, Block(0x0000));
    assert_eq!(carry, 0x0009);
    let (right, lost) = Block(0x0000).shift_x(1, carry);
    assert_eq!(right, Block(0x0009));
    assert_eq!(lost, 0);
    // Two blocks on top of each other, shifted by two upwards
    let (low, carry) = Block(0x000C).shift_y(2, 0);
    assert_eq!(low, Block(0x0000));
    assert_eq!(carry, 0x0003);
    let (high, lost) = Block(0x0001).shift_y(2, carry);
    assert_eq!(high, Block(0x0007));
    assert_eq!(lost, 0);
}
