use hashlife_fast::bitgrid::{
    bits_to_4bit, generate_bit_to_4bit_mapping, get_gray_mask, get_inner_8x8, get_subchunk,
    is_on_4x4_border, pack_4bit_to_bits, pack_finished_bit4, rep_bytes, slice,
    step_forward_automata_16x16, step_forward_raw, sum_row, to_4bit, transpose_quad,
    unpack_to_bit4,
};
use hashlife_fast::quadvalue::QuadTreeValue;

const MESSY: [u64; 16] = [
    0x1001110110011101,
    0x1011110110111101,
    0x1000110110001101,
    0x1101110000000000,
    0x1001010000000000,
    0x1011010000000000,
    0x1011010000000000,
    0x1011010000000000,
    0x1001110100000000,
    0x1001010000000000,
    0x1011010000000000,
    0x1011010000000000,
    0x1011010011001110,
    0x1011110111001111,
    0x1000110111001101,
    0x1101110011001101,
];

const MESSY_NEXT: [u64; 16] = [
    0x0000000000000000,
    0x0010000000100000,
    0x0000000111000100,
    0x0111000000000000,
    0x0000011000000000,
    0x0000011000000000,
    0x0000011000000000,
    0x0000010000000000,
    0x0000010000000000,
    0x0000010000000000,
    0x0000011000000000,
    0x0000011000000100,
    0x0000010101001000,
    0x0010000000110000,
    0x0000000000110000,
    0x0000000000000000,
];

#[test]
fn test_step_forward_16x16() {
    let value_map: [u64; 16] = MESSY;
    let expected_out: [u64; 16] = MESSY_NEXT;
    let mut out_value_map = [0 as u64; 16];
    step_forward_automata_16x16(&value_map, &mut out_value_map, 0);
    assert_eq!(out_value_map, expected_out);
}

#[test]
fn quadtree_test_step_forward_16x16() {
    let value_map: [u64; 16] = MESSY;
    let expected_out: [u64; 16] = MESSY_NEXT;
    let mut out_value_map = [0 as u64; 16];
    step_forward_automata_16x16(&value_map, &mut out_value_map, 0);
    assert_eq!(out_value_map, expected_out);
}

#[test]
fn test_step_forward_glider() {
    let value_map: [u64; 16] = [
        0x0000000000000000,
        0x0000000000000000,
        0x0000000000000000,
        0x0000000000000000,
        0x0000000010000000,
        0x0000000001000000,
        0x0000000111000000,
        0x0000000000000000,
        0x0000000000000000,
        0x0000000000000000,
        0x0000000000000000,
        0x0000000000000000,
        0x0000000000000000,
        0x0000000000000000,
        0x0000000000000000,
        0x0000000000000000,
    ];
    let expected_out: [u64; 16] = [
        0x0000000000000000,
        0x0000000000000000,
        0x0000000000000000,
        0x0000000000000000,
        0x0000000000000000,
        0x0000000101000000,
        0x0000000011000000,
        0x0000000010000000,
        0x0000000000000000,
        0x0000000000000000,
        0x0000000000000000,
        0x0000000000000000,
        0x0000000000000000,
        0x0000000000000000,
        0x0000000000000000,
        0x0000000000000000,
    ];
    let mut out_value_map = [0 as u64; 16];
    step_forward_automata_16x16(&value_map, &mut out_value_map, 0);
    assert_eq!(out_value_map, expected_out);
}

#[test]
fn step_leaves_the_rows_outside_its_range() {
    let mut out_value_map = [0x1111 as u64; 16];
    step_forward_automata_16x16(&MESSY, &mut out_value_map, 2);
    for y in 0..16 {
        if y < 3 || y > 12 {
            assert_eq!(out_value_map[y], 0x1111);
        } else {
            assert_eq!(out_value_map[y], MESSY_NEXT[y]);
        }
    }
}

#[test]
fn test_get_inner_8() {
    let map16x16: [u64; 16] = [
        0x1001110110011101,
        0x1011110110111101,
        0x1000110110001101,
        0x1101110000000000,
        0x1001010000000000,
        0x1011010000000000,
        0x1000110111001101,
        0x1011010000000000,
        0x1011010000000000,
        0x1011010011001110,
        0x1001110100000000,
        0x1001010000000000,
        0x1011010000000000,
        0x1011010000000000,
        0x1011110111001111,
        0x1101110011001101,
    ];
    let expecteded_8x8: [u32; 8] = [
        0x01000000,
        0x01000000,
        0x11011100,
        0x01000000,
        0x01000000,
        0x01001100,
        0x11010000,
        0x01000000,
    ];
    assert_eq!(get_inner_8x8(&map16x16), expecteded_8x8);
}

#[test]
fn test_packbits() {
    let maps: [[u32; 8]; 4] = [
        [
            0x01000000, 0x01000000, 0x11011100, 0x01000000, 0x01000000, 0x01001100, 0x11010000,
            0x01000000,
        ],
        [
            0x11010000, 0x01000000, 0x11011100, 0x01000000, 0x01000000, 0x01000000, 0x01001100,
            0x01000000,
        ],
        [
            0x01000000, 0x11011100, 0x01000000, 0x01000000, 0x01000000, 0x01001100, 0x11010000,
            0x01000000,
        ],
        [
            0x01000000, 0x01000000, 0x11011100, 0x01000000, 0x01000000, 0x01001100, 0x01000000,
            0x11010000,
        ],
    ];
    let expected_map: [u64; 16] = [
        0x1101000001000000,
        0x0100000001000000,
        0x1101110011011100,
        0x0100000001000000,
        0x0100000001000000,
        0x0100000001001100,
        0x0100110011010000,
        0x0100000001000000,
        0x0100000001000000,
        0x0100000011011100,
        0x1101110001000000,
        0x0100000001000000,
        0x0100000001000000,
        0x0100110001001100,
        0x0100000011010000,
        0x1101000001000000,
    ];
    let bits64 = maps.map(|x| pack_finished_bit4(x));
    let expectedbits64: [u64; 4] = [
        0x40D04C4040DC4040,
        0x404C404040DC40D0,
        0x40D04C404040DC40,
        0xD0404C4040DC4040,
    ];

    assert_eq!(bits64, expectedbits64);
    let value = QuadTreeValue::from_array(&bits64.map(|x| x as u128));
    let unpacked = unpack_to_bit4(value);
    assert_eq!(unpacked, expected_map);
}

#[test]
fn test_bit4_op() {
    assert_eq!(to_4bit(0xa7), 0x10100111);
}

#[test]
fn quadtree_test_bit4_op() {
    assert_eq!(to_4bit(0xa7), 0x10100111);
}

#[test]
fn test_bit4_op_back() {
    assert_eq!(pack_4bit_to_bits(0x10100111), 0xa7);
}

#[test]
fn quadtree_test_bit4_op_back() {
    assert_eq!(pack_4bit_to_bits(0x10100111), 0xa7);
}

#[test]
fn test_transpose_quad() {
    let orig_arr: [u128; 16] = [1, 2, 3, 4, 5, 6, 7, 8, 9, 10, 11, 12, 13, 14, 15, 16];
    let expected: [u128; 16] = [1, 2, 5, 6, 3, 4, 7, 8, 9, 10, 13, 14, 11, 12, 15, 16];
    assert_eq!(transpose_quad(&orig_arr), expected);
}

#[test]
fn quadtree_test_transpose_quad() {
    let orig_arr: [u128; 16] = [1, 2, 5, 6, 3, 4, 7, 8, 9, 10, 13, 14, 11, 12, 15, 16];
    let expected: [u128; 16] = [1, 2, 3, 4, 5, 6, 7, 8, 9, 10, 11, 12, 13, 14, 15, 16];
    assert_eq!(transpose_quad(&orig_arr), expected);
}

#[test]
fn test_slice() {
    let orig_arr: [u128; 16] = [1, 2, 5, 6, 3, 4, 7, 8, 9, 10, 13, 14, 11, 12, 15, 16];
    let expected: [u128; 4] = [4, 7, 10, 13];
    assert_eq!(slice(&orig_arr, 1, 1), expected);
}

#[test]
fn slice_at_the_corners() {
    let grid: [u128; 16] = [0, 1, 2, 3, 4, 5, 6, 7, 8, 9, 10, 11, 12, 13, 14, 15];
    assert_eq!(slice(&grid, 0, 0), [0, 1, 4, 5]);
    assert_eq!(slice(&grid, 2, 0), [2, 3, 6, 7]);
    assert_eq!(slice(&grid, 0, 2), [8, 9, 12, 13]);
    assert_eq!(slice(&grid, 2, 2), [10, 11, 14, 15]);
}

#[test]
fn test_rep_bytes() {
    assert_eq!(rep_bytes(3), 0x0303030303030303 as u64);
}

#[test]
fn test_get_graymask() {
    assert_eq!(get_gray_mask(0), 0x000000000f0f0f0f);
    assert_eq!(get_gray_mask(-1), 0x0000000000000303);
    assert_eq!(get_gray_mask(-2), 0x0000000000000001);
}

#[test]
fn test_get_chunk() {
    assert_eq!(get_subchunk(0x5432109876543210, 0, 0, 0), 0x06040200);
    assert_eq!(get_subchunk(0x5432109876543210, 0, 0, 1), 0x04020008);
    assert_eq!(get_subchunk(0x5432109876543210, 0, 1, 0), 0x07050301);
    assert_eq!(get_subchunk(0x5432109876543210, 0, 1, 1), 0x05030109);
    assert_eq!(get_subchunk(0x06040201, -1, 0, 0), 0x0201);
    assert_eq!(get_subchunk(0x06040201, -1, 0, 1), 0x0200);
    assert_eq!(get_subchunk(0x06040201, -1, 1, 0), 0x0000);
    assert_eq!(get_subchunk(0x06040201, -1, 1, 1), 0x0101);
}

#[test]
fn border_of_the_4x4_grid() {
    let on: Vec<usize> = (0..20).filter(|i| is_on_4x4_border(*i)).collect();
    assert_eq!(on, vec![0, 1, 2, 3, 4, 7, 8, 11, 12, 13, 14, 15]);
}

#[test]
fn sum_row_adds_the_lanes_beside() {
    assert_eq!(sum_row(0x0000000000000100), 0x0000000000001110);
    assert_eq!(sum_row(0x0111000000000011), 0x1232100000000122);
}

#[test]
fn spreading_and_packing_are_inverse() {
    assert_eq!(bits_to_4bit(0xffff), 0x1111111111111111);
    assert_eq!(bits_to_4bit(0x8001), 0x1000000000000001);
    for x in 0..=255u32 {
        let spread = to_4bit(x as u16);
        assert_eq!(pack_4bit_to_bits(spread as u32), x as u8);
    }
    let table = generate_bit_to_4bit_mapping();
    assert_eq!(table.len(), 65536);
    assert_eq!(table[0xa7], 0x10100111);
    assert_eq!(table[0xffff], 0x1111111111111111);
}

fn naive_step(cells: &[[bool; 16]; 16]) -> [[bool; 16]; 16] {
    let mut next = [[false; 16]; 16];
    for y in 1..15 {
        for x in 1..15 {
            let mut n = 0;
            for dy in 0..3 {
                for dx in 0..3 {
                    if (dx, dy) != (1, 1) && cells[y + dy - 1][x + dx - 1] {
                        n += 1;
                    }
                }
            }
            next[y][x] = n == 3 || (n == 2 && cells[y][x]);
        }
    }
    next
}

fn window_of(v: &QuadTreeValue) -> [[bool; 16]; 16] {
    let mut cells = [[false; 16]; 16];
    let parts = [(v.lt, 0, 0), (v.rt, 8, 0), (v.lb, 0, 8), (v.rb, 8, 8)];
    for (block, ox, oy) in parts {
        for y in 0..8 {
            for x in 0..8 {
                cells[oy + y][ox + x] = (block >> (8 * y + x)) & 1 == 1;
            }
        }
    }
    cells
}

#[test]
fn base_case_is_the_rule_cell_by_cell() {
    let mut seed: u64 = 0x1234_5678_9abc_def1;
    let mut next_word = || {
        seed ^= seed << 13;
        seed ^= seed >> 7;
        seed ^= seed << 17;
        seed
    };
    for _ in 0..200 {
        let v = QuadTreeValue {
            lt: next_word() as u128,
            rt: next_word() as u128,
            lb: next_word() as u128,
            rb: next_word() as u128,
        };
        let mut cells = window_of(&v);
        for n in 0..=4u64 {
            let got = step_forward_raw(v, n);
            assert!(got <= u64::MAX as u128);
            for y in 0..8 {
                for x in 0..8 {
                    assert_eq!((got >> (8 * y + x)) & 1 == 1, cells[y + 4][x + 4]);
                }
            }
            cells = naive_step(&cells);
        }
    }
}

fn value_of(cells: &[(usize, usize)]) -> QuadTreeValue {
    let mut parts = [0u128; 4];
    for &(x, y) in cells {
        parts[(y / 8) * 2 + x / 8] |= 1 << (8 * (y % 8) + x % 8);
    }
    QuadTreeValue::from_array(&parts)
}

fn block_of(cells: &[(usize, usize)]) -> u128 {
    let mut block = 0u128;
    for &(x, y) in cells {
        block |= 1 << (8 * y + x);
    }
    block
}

#[test]
fn base_case_moves_a_glider() {
    // a glider in the middle of the window, in the coordinates of the window
    let v = value_of(&[(7, 6), (8, 7), (6, 8), (7, 8), (8, 8)]);
    // the results are in the coordinates of the inner block
    assert_eq!(step_forward_raw(v, 0), block_of(&[(3, 2), (4, 3), (2, 4), (3, 4), (4, 4)]));
    assert_eq!(step_forward_raw(v, 1), block_of(&[(2, 3), (4, 3), (3, 4), (4, 4), (3, 5)]));
    assert_eq!(step_forward_raw(v, 2), block_of(&[(4, 3), (2, 4), (4, 4), (3, 5), (4, 5)]));
    assert_eq!(step_forward_raw(v, 3), block_of(&[(3, 3), (4, 4), (5, 4), (3, 5), (4, 5)]));
    assert_eq!(step_forward_raw(v, 4), block_of(&[(4, 3), (5, 4), (3, 5), (4, 5), (5, 5)]));
}

#[test]
fn base_case_does_not_see_beyond_four_cells() {
    // cells on the rim of the window do not reach the inner block in four steps
    let rim = value_of(&[(0, 0), (1, 0), (2, 0), (0, 15), (15, 7), (15, 8), (15, 9)]);
    for n in 0..=4 {
        assert_eq!(step_forward_raw(rim, n), 0);
    }
    // a blinker next to the inner block shows in it every other step
    let blinker = value_of(&[(3, 6), (3, 7), (3, 8)]);
    assert_eq!(step_forward_raw(blinker, 0), 0);
    assert_eq!(step_forward_raw(blinker, 1), block_of(&[(0, 3)]));
    assert_eq!(step_forward_raw(blinker, 2), 0);
    assert_eq!(step_forward_raw(blinker, 3), block_of(&[(0, 3)]));
}
