use polyominos::board::{rotate_270, rotate_270_lanes, rotate_90, rotate_90_lanes};

fn columns(seed: u32) -> [u32; 32] {
    let mut state = seed;
    let mut out = [0u32; 32];
    for x in 0..32 {
        state = state.wrapping_mul(1664525).wrapping_add(1013904223);
        out[x] = state ^ (state >> 13);
    }
    out
}

#[test]
fn rotate_90_turns_the_whole_board() {
    for seed in 0..5 {
        let from = columns(seed);
        let mut to = [0u32; 32];
        rotate_90(&from, &mut to);
        for x in 0..32 {
            for y in 0..32 {
                // The cell (x, y) goes to (31 - y, x)
                assert_eq!((from[x] >> y) & 1, (to[31 - y] >> x) & 1);
            }
        }
    }
}

#[test]
fn rotate_270_turns_the_whole_board() {
    for seed in 0..5 {
        let from = columns(seed);
        let mut to = [0u32; 32];
        rotate_270(&from, &mut to);
        for x in 0..32 {
            for y in 0..32 {
                // The cell (x, y) goes to (y, 31 - x)
                assert_eq!((from[x] >> y) & 1, (to[y] >> (31 - x)) & 1);
            }
        }
    }
}

#[test]
fn rotate_90_of_one_column() {
    let mut from = [0u32; 32];
    from[0] = 0x8000_0001;
    let mut to = [0xFFFF_FFFFu32; 32];
    rotate_90(&from, &mut to);
    assert_eq!(to[0], 1);
    assert_eq!(to[31], 1);
    for c in 1..31 {
        assert_eq!(to[c], 0);
    }
    rotate_270(&from, &mut to);
    assert_eq!(to[0], 0x8000_0000);
    assert_eq!(to[31], 0x8000_0000);
    for c in 1..31 {
        assert_eq!(to[c], 0);
    }
}

#[test]
fn lanes_rotate_as_the_plain_rotations_do() {
    for seed in 0..20 {
        let from = columns(seed * 7 + 3);
        let mut plain = [0u32; 32];
        let mut lanes = [0xFFFF_FFFFu32; 32];
        rotate_90(&from, &mut plain);
        rotate_90_lanes(&from, &mut lanes);
        assert_eq!(plain, lanes);
        rotate_270(&from, &mut plain);
        rotate_270_lanes(&from, &mut lanes);
        assert_eq!(plain, lanes);
    }
}

#[test]
fn lanes_rotate_single_cells() {
    for x in [0usize, 1, 7, 8, 15, 16, 30, 31] {
        for y in [0usize, 1, 7, 8, 9, 23, 24, 31] {
            let mut from = [0u32; 32];
            from[x] = 1 << y;
            let mut to = [0u32; 32];
            rotate_90_lanes(&from, &mut to);
            let mut expected = [0u32; 32];
            expected[31 - y] = 1 << x;
            assert_eq!(to, expected);
            rotate_270_lanes(&from, &mut to);
            let mut expected = [0u32; 32];
            expected[y] = 1 << (31 - x);
            assert_eq!(to, expected);
        }
    }
}
