//! The bit-packed stepper for the smallest blocks.
//!
//! A raw block holds 8x8 cells, one bit per cell, cell `(x, y)` in bit
//! `8 * y + x`.  To advance cells, a 16x16 window is spread out to 16 rows of
//! 16 lanes of four bits each, so that the neighbours of all cells of a row
//! are counted at once without a carry from lane to lane.

use crate::life::generations;
use crate::quadvalue::QuadTreeValue;
use vstd::prelude::*;

verus! {

/// Bit `i` of `v`.
pub open spec fn bit_of(v: u64, i: u64) -> u64 {
    (v >> i) & 1
}

/// The lowest bit of lane `x` of a row.
pub open spec fn lane_bit(r: u64, x: u64) -> u64 {
    (r >> ((4 * x) as u64)) & 1
}

/// The four bits of lane `x` of a row.
pub open spec fn nibble(r: u64, x: u64) -> u64 {
    (r >> ((4 * x) as u64)) & 0xf
}

/// Whether a row holds nothing but the lowest bit of each lane.
pub open spec fn is_lane_row(r: u64) -> bool {
    r & 0xeeee_eeee_eeee_eeee == 0
}

/// Whether cell `(x, y)` of a raw block is alive.
pub open spec fn block_cell(b: u64, x: int, y: int) -> bool {
    0 <= x < 8 && 0 <= y < 8 && bit_of(b, (8 * y + x) as u64) == 1
}

/// Whether the cell in lane `x` of a row is alive.
pub open spec fn lane(r: u64, x: int) -> bool {
    0 <= x < 16 && lane_bit(r, x as u64) == 1
}

/// 1 where the cell in lane `x` of a row is alive, else 0.
pub open spec fn lane_int(r: u64, x: int) -> int {
    if lane(r, x) {
        1
    } else {
        0
    }
}

/// The number of live cells among lane `x` of three rows and the lanes
/// beside it: a cell and its eight neighbours.
pub open spec fn count9(up: u64, mid: u64, down: u64, x: int) -> int {
    lane_int(up, x - 1) + lane_int(up, x) + lane_int(up, x + 1) + lane_int(mid, x - 1) + lane_int(
        mid,
        x,
    ) + lane_int(mid, x + 1) + lane_int(down, x - 1) + lane_int(down, x) + lane_int(down, x + 1)
}

/// The rule on a cell counted together with its neighbours: alive with a
/// count of three, unchanged with a count of four, dead otherwise.
pub open spec fn row_rule(up: u64, mid: u64, down: u64, x: int) -> bool {
    let c = count9(up, mid, down, x);
    c == 3 || (c == 4 && lane(mid, x))
}

pub open spec fn rule_lanes(sums: u64, orig: u64) -> u64 {
    let ge3 = sums & (sums >> 1);
    let eq4 = (sums >> 2) & !sums & !(sums >> 1);
    let eq3 = ge3 & !(sums >> 2);
    ((eq4 & orig) | eq3) & 0x1111_1111_1111_1111
}

pub open spec fn sum_row_spec(r: u64) -> u64 {
    (r + (r << 4) + (r >> 4)) as u64
}

pub open spec fn step_row(up: u64, mid: u64, down: u64) -> u64 {
    rule_lanes((sum_row_spec(up) + sum_row_spec(mid) + sum_row_spec(down)) as u64, mid)
        & 0x0111_1111_1111_1110
}

spec fn lane3(r: u64, x: u64) -> u64 {
    (lane_bit(r, (x - 1) as u64) + lane_bit(r, x) + lane_bit(r, (x + 1) as u64)) as u64
}

proof fn lemma_lane_bit_small(r: u64, x: u64)
    ensures
        lane_bit(r, x) <= 1,
        bit_of(r, x) <= 1,
{
    assert(lane_bit(r, x) <= 1) by (bit_vector);
    assert(bit_of(r, x) <= 1) by (bit_vector);
}

proof fn lemma_row_step_bits(up: u64, mid: u64, down: u64, x: u64)
    requires
        is_lane_row(up),
        is_lane_row(mid),
        is_lane_row(down),
        x < 16,
    ensures
        is_lane_row(step_row(up, mid, down)),
        (x == 0 || x == 15) ==> lane_bit(step_row(up, mid, down), x) == 0,
        1 <= x <= 14 ==> ({
            let c = lane3(up, x) + lane3(mid, x) + lane3(down, x);
            lane_bit(step_row(up, mid, down), x) == (if c == 3 || (c == 4 && lane_bit(mid, x)
                == 1) {
                1u64
            } else {
                0u64
            })
        }),
{
    assert(is_lane_row(step_row(up, mid, down))) by (bit_vector);
    assert((x == 0 || x == 15) ==> lane_bit(step_row(up, mid, down), x) == 0) by (bit_vector);
    assert(1 <= x <= 14 ==> ({
        let c = lane3(up, x) + lane3(mid, x) + lane3(down, x);
        lane_bit(step_row(up, mid, down), x) == (if c == 3 || (c == 4 && lane_bit(mid, x) == 1) {
            1u64
        } else {
            0u64
        })
    })) by (bit_vector)
        requires
            is_lane_row(up),
            is_lane_row(mid),
            is_lane_row(down),
    ;
}

/// One generation of a row of lanes, cell by cell: the cells at both ends of
/// the row are cleared, every other cell follows the rule.
pub proof fn lemma_row_step(up: u64, mid: u64, down: u64, x: int)
    requires
        is_lane_row(up),
        is_lane_row(mid),
        is_lane_row(down),
        0 <= x < 16,
    ensures
        is_lane_row(step_row(up, mid, down)),
        lane(step_row(up, mid, down), x) == (1 <= x <= 14 && row_rule(up, mid, down, x)),
{
    let xu = x as u64;
    lemma_row_step_bits(up, mid, down, xu);
    if 1 <= x <= 14 {
        lemma_lane_bit_small(up, (xu - 1) as u64);
        lemma_lane_bit_small(up, xu);
        lemma_lane_bit_small(up, (xu + 1) as u64);
        lemma_lane_bit_small(mid, (xu - 1) as u64);
        lemma_lane_bit_small(mid, xu);
        lemma_lane_bit_small(mid, (xu + 1) as u64);
        lemma_lane_bit_small(down, (xu - 1) as u64);
        lemma_lane_bit_small(down, xu);
        lemma_lane_bit_small(down, (xu + 1) as u64);
        assert(lane3(up, xu) == lane_int(up, x - 1) + lane_int(up, x) + lane_int(up, x + 1));
        assert(lane3(mid, xu) == lane_int(mid, x - 1) + lane_int(mid, x) + lane_int(mid, x + 1));
        assert(lane3(down, xu) == lane_int(down, x - 1) + lane_int(down, x) + lane_int(
            down,
            x + 1,
        ));
    }
}

/// Applies the rule to all lanes of a row at once.  `sums` holds in each lane
/// the number of live cells among a cell and its neighbours, `orig_vals` the
/// cell itself.
pub fn calc_result_bitsize(sums: u64, orig_vals: u64) -> (res: u64)
    ensures
        res == rule_lanes(sums, orig_vals),
        is_lane_row(res),
        forall|x: u64|
            x < 16 ==> #[trigger] lane_bit(res, x) == (if nibble(sums, x) & 7 == 3 || (nibble(
                sums,
                x,
            ) & 7 == 4 && lane_bit(orig_vals, x) == 1) {
                1u64
            } else {
                0u64
            }),
{
    let mask: u64 = 0x1111111111111111;
    let bit1set = sums;
    let bit2set = sums >> 1;
    let bit4set = sums >> 2;
    let ge3 = bit1set & bit2set;
    let eq4 = bit4set & !bit1set & !bit2set;
    let eq3 = ge3 & !bit4set;
    let res = ((eq4 & orig_vals) | eq3) & mask;
    proof {
        assert(is_lane_row(rule_lanes(sums, orig_vals))) by (bit_vector);
        assert forall|x: u64| x < 16 implies #[trigger] lane_bit(res, x) == (if nibble(sums, x) & 7
            == 3 || (nibble(sums, x) & 7 == 4 && lane_bit(orig_vals, x) == 1) {
            1u64
        } else {
            0u64
        }) by {
            assert(x < 16 ==> lane_bit(rule_lanes(sums, orig_vals), x) == (if nibble(sums, x) & 7
                == 3 || (nibble(sums, x) & 7 == 4 && lane_bit(orig_vals, x) == 1) {
                1u64
            } else {
                0u64
            })) by (bit_vector);
        }
    }
    res
}

/// Adds to each lane of a row the lanes beside it.
pub fn sum_row(row: u64) -> (s: u64)
    requires
        is_lane_row(row),
    ensures
        s == sum_row_spec(row),
        s <= 0x3333_3333_3333_3333,
        s & 0xcccc_cccc_cccc_cccc == 0,
        forall|x: u64|
            1 <= x <= 14 ==> #[trigger] nibble(s, x) == lane_bit(row, (x - 1) as u64) + lane_bit(
                row,
                x,
            ) + lane_bit(row, (x + 1) as u64),
{
    assert(row + (row << 4) + (row >> 4) <= 0x3333_3333_3333_3333) by (bit_vector)
        requires
            is_lane_row(row),
    ;
    assert(sum_row_spec(row) & 0xcccc_cccc_cccc_cccc == 0) by (bit_vector)
        requires
            is_lane_row(row),
    ;
    assert forall|x: u64| 1 <= x <= 14 implies #[trigger] nibble(sum_row_spec(row), x) == lane_bit(
        row,
        (x - 1) as u64,
    ) + lane_bit(row, x) + lane_bit(row, (x + 1) as u64) by {
        assert(1 <= x <= 14 ==> nibble(sum_row_spec(row), x) == lane_bit(row, (x - 1) as u64)
            + lane_bit(row, x) + lane_bit(row, (x + 1) as u64)) by (bit_vector)
            requires
                is_lane_row(row),
        ;
    }
    row + (row << 4) + (row >> 4)
}

/// One generation of the rows of a 16x16 window that still hold true cells
/// after `step_num` earlier generations: the rows `1 + step_num` to
/// `14 - step_num`.  In these rows every cell but the first and the last
/// follows the rule, and the first and the last are dead.  The other rows
/// of `nextmap` are left as they are.
pub fn step_forward_automata_16x16(prevmap: &[u64; 16], nextmap: &mut [u64; 16], step_num: usize)
    requires
        step_num < 4,
        forall|y: int| 0 <= y < 16 ==> is_lane_row(#[trigger] prevmap@[y]),
    ensures
        forall|y: int, x: int|
            1 + step_num <= y < 15 - step_num && 0 <= x < 16 ==> #[trigger] lane(
                final(nextmap)@[y],
                x,
            ) == (1 <= x <= 14 && row_rule(prevmap@[y - 1], prevmap@[y], prevmap@[y + 1], x)),
        forall|y: int|
            1 + step_num <= y < 15 - step_num ==> is_lane_row(#[trigger] final(nextmap)@[y]),
        forall|y: int|
            1 + step_num <= y < 15 - step_num ==> #[trigger] final(nextmap)@[y] == step_row(
                prevmap@[y - 1],
                prevmap@[y],
                prevmap@[y + 1],
            ),
        forall|y: int|
            0 <= y < 16 && !(1 + step_num <= y < 15 - step_num) ==> #[trigger] final(nextmap)@[y]
                == old(nextmap)@[y],
{
    let rowmask: u64 = 0x0111111111111110;
    let mut s1 = sum_row(prevmap[step_num]);
    let mut s2 = sum_row(prevmap[step_num + 1]);
    let mut y: usize = 1 + step_num;
    while y < 16 - 1 - step_num
        invariant
            step_num < 4,
            rowmask == 0x0111_1111_1111_1110,
            1 + step_num <= y <= 15 - step_num,
            forall|i: int| 0 <= i < 16 ==> is_lane_row(#[trigger] prevmap@[i]),
            s1 == sum_row_spec(prevmap@[y - 1]),
            s2 == sum_row_spec(prevmap@[y as int]),
            s1 <= 0x3333_3333_3333_3333,
            s2 <= 0x3333_3333_3333_3333,
            forall|i: int|
                1 + step_num <= i < y ==> #[trigger] nextmap@[i] == step_row(
                    prevmap@[i - 1],
                    prevmap@[i],
                    prevmap@[i + 1],
                ),
            forall|i: int|
                0 <= i < 16 && !(1 + step_num <= i < y) ==> #[trigger] nextmap@[i] == old(
                    nextmap,
                )@[i],
        decreases 16 - y,
    {
        let s3 = sum_row(prevmap[y + 1]);
        let csum = s1 + s2 + s3;
        let row_result = calc_result_bitsize(csum, prevmap[y]);
        let ghost before = nextmap@;
        nextmap[y] = row_result & rowmask;
        proof {
            assert(forall|i: int| 0 <= i < 16 && i != y ==> nextmap@[i] == before[i]);
        }
        s1 = s2;
        s2 = s3;
        y = y + 1;
    }
    proof {
        assert forall|i: int, x: int|
            1 + step_num <= i < 15 - step_num && 0 <= x < 16 implies #[trigger] lane(nextmap@[i], x)
            == (1 <= x <= 14 && row_rule(prevmap@[i - 1], prevmap@[i], prevmap@[i + 1], x))
            && is_lane_row(nextmap@[i]) by {
            lemma_row_step(prevmap@[i - 1], prevmap@[i], prevmap@[i + 1], x);
        }
        assert forall|i: int| 1 + step_num <= i < 15 - step_num implies is_lane_row(
            #[trigger] nextmap@[i],
        ) by {
            lemma_row_step(prevmap@[i - 1], prevmap@[i], prevmap@[i + 1], 0);
        }
    }
}

pub open spec fn spread_spec(x: u16) -> u64 {
    let q16 = x as u64;
    let q8 = (q16 | (q16 << 24)) & 0x000000ff000000ff;
    let q4 = (q8 | (q8 << 12)) & 0x000f000f000f000f;
    let q2 = (q4 | (q4 << 6)) & 0x0303030303030303;
    (q2 | (q2 << 3)) & 0x1111111111111111
}

/// Spreads the 16 bits of `x` out to the 16 lanes of a row.
pub fn bits_to_4bit(x: u16) -> (q1: u64)
    ensures
        q1 == spread_spec(x),
        is_lane_row(q1),
        forall|i: u64| i < 16 ==> #[trigger] lane_bit(q1, i) == bit_of(x as u64, i),
{
    let q16 = x as u64;
    let q8 = (q16 | (q16 << 24)) & 0x000000ff000000ff;
    let q4 = (q8 | (q8 << 12)) & 0x000f000f000f000f;
    let q2 = (q4 | (q4 << 6)) & 0x0303030303030303;
    let q1 = (q2 | (q2 << 3)) & 0x1111111111111111;
    proof {
        assert(is_lane_row(spread_spec(x))) by (bit_vector);
        assert forall|i: u64| i < 16 implies #[trigger] lane_bit(q1, i) == bit_of(x as u64, i) by {
            assert(i < 16 ==> lane_bit(spread_spec(x), i) == bit_of(x as u64, i)) by (bit_vector);
        }
    }
    q1
}

/// The number of entries of the table that `generate_bit_to_4bit_mapping`
/// builds.
pub const MAP_SIZE: usize = 65536;

/// The table of all 16-bit rows spread out to lanes, indexed by the row.
pub fn generate_bit_to_4bit_mapping() -> (cached_map: Vec<u64>)
    ensures
        cached_map@.len() == MAP_SIZE,
        forall|i: int| 0 <= i < MAP_SIZE ==> #[trigger] cached_map@[i] == spread_spec(i as u16),
{
    let mut cached_map: Vec<u64> = Vec::new();
    let mut i: usize = 0;
    while i < MAP_SIZE
        invariant
            i <= MAP_SIZE,
            cached_map@.len() == i,
            forall|j: int| 0 <= j < i ==> #[trigger] cached_map@[j] == spread_spec(j as u16),
        decreases MAP_SIZE - i,
    {
        cached_map.push(bits_to_4bit(i as u16));
        i = i + 1;
    }
    cached_map
}

/// A 16-bit row spread out to lanes.
pub fn to_4bit(x: u16) -> (r: u64)
    ensures
        r == spread_spec(x),
        is_lane_row(r),
        forall|i: u64| i < 16 ==> #[trigger] lane_bit(r, i) == bit_of(x as u64, i),
{
    bits_to_4bit(x)
}

pub open spec fn pack_spec(x: u32) -> u32 {
    let g1 = x & 0x11111111;
    let g2 = ((g1 >> 3) | g1) & 0x03030303;
    let g4 = ((g2 >> 6) | g2) & 0x000f000f;
    ((g4 >> 12) | g4) & 0x0000000ff
}

/// Gathers the lowest bits of the eight lanes of `x` into one byte.
pub fn pack_4bit_to_bits(x: u32) -> (r: u8)
    ensures
        r == pack_spec(x),
        forall|i: u64| i < 8 ==> #[trigger] bit_of(r as u64, i) == lane_bit(x as u64, i),
{
    let g1 = x & 0x11111111;
    let g2 = ((g1 >> 3) | g1) & 0x03030303;
    let g4 = ((g2 >> 6) | g2) & 0x000f000f;
    let g8 = ((g4 >> 12) | g4) & 0x0000000ff;
    proof {
        assert(pack_spec(x) <= 0xff) by (bit_vector);
        assert forall|i: u64| i < 8 implies #[trigger] bit_of((g8 as u8) as u64, i) == lane_bit(
            x as u64,
            i,
        ) by {
            assert(i < 8 ==> bit_of((pack_spec(x) as u8) as u64, i) == lane_bit(x as u64, i))
                by (bit_vector);
        }
    }
    g8 as u8
}

/// Whether cell `(x, y)` of the 16x16 window that the four raw blocks of `d`
/// form is alive.
pub open spec fn window_cell(d: QuadTreeValue, x: int, y: int) -> bool {
    if y < 8 {
        if x < 8 {
            block_cell(d.lt as u64, x, y)
        } else {
            block_cell(d.rt as u64, x - 8, y)
        }
    } else {
        if x < 8 {
            block_cell(d.lb as u64, x, y - 8)
        } else {
            block_cell(d.rb as u64, x - 8, y - 8)
        }
    }
}

/// The live cells of the 16x16 window that the four raw blocks of `d` form.
pub open spec fn window_cells(d: QuadTreeValue) -> Set<(int, int)> {
    Set::new(|p: (int, int)| window_cell(d, p.0, p.1))
}

proof fn lemma_join_rows(left: u64, right: u64, y: u64, i: u64)
    requires
        y < 8,
        i < 16,
    ensures
        ({
            let lo = (left >> ((8 * y) as u64)) & 0xff;
            let hi = (right >> ((8 * y) as u64)) & 0xff;
            let v = lo | (hi << 8);
            &&& v <= 0xffff
            &&& bit_of(v, i) == if i < 8 {
                bit_of(left, (8 * y + i) as u64)
            } else {
                bit_of(right, (8 * y + i - 8) as u64)
            }
        }),
{
    assert({
        let lo = (left >> ((8 * y) as u64)) & 0xff;
        let hi = (right >> ((8 * y) as u64)) & 0xff;
        let v = lo | (hi << 8);
        &&& v <= 0xffff
        &&& bit_of(v, i) == if i < 8 {
            bit_of(left, (8 * y + i) as u64)
        } else {
            bit_of(right, (8 * y + i - 8) as u64)
        }
    }) by (bit_vector)
        requires
            y < 8,
            i < 16,
    ;
}

/// Spreads the 16x16 window of four raw blocks out to 16 rows of lanes.
pub fn unpack_to_bit4(d: QuadTreeValue) -> (blocked_bit4: [u64; 16])
    ensures
        forall|y: int| 0 <= y < 16 ==> is_lane_row(#[trigger] blocked_bit4@[y]),
        forall|x: int, y: int|
            0 <= x < 16 && 0 <= y < 16 ==> (#[trigger] lane(blocked_bit4@[y], x) <==> window_cell(
                d,
                x,
                y,
            )),
{
    let mut blocked_bit4 = [0u64;16];
    assert(is_lane_row(0u64)) by (bit_vector);
    let mut r: usize = 0;
    while r < 16
        invariant
            r <= 16,
            forall|y: int| 0 <= y < 16 ==> is_lane_row(#[trigger] blocked_bit4@[y]),
            forall|x: int, y: int|
                0 <= x < 16 && 0 <= y < r ==> (#[trigger] lane(blocked_bit4@[y], x)
                    <==> window_cell(d, x, y)),
        decreases 16 - r,
    {
        let left: u64 = #[verifier::truncate] ((if r < 8 {
            d.lt
        } else {
            d.lb
        }) as u64);
        let right: u64 = #[verifier::truncate] ((if r < 8 {
            d.rt
        } else {
            d.rb
        }) as u64);
        let y: u64 = (r % 8) as u64;
        let lo = (left >> (8 * y)) & 0xff;
        let hi = (right >> (8 * y)) & 0xff;
        let wide = lo | (hi << 8);
        proof {
            lemma_join_rows(left, right, y, 0);
        }
        let v: u16 = wide as u16;
        let row = to_4bit(v);
        let ghost before = blocked_bit4@;
        blocked_bit4[r] = row;
        proof {
            assert(forall|i: int| 0 <= i < 16 && i != r ==> blocked_bit4@[i] == before[i]);
            assert forall|x: int| 0 <= x < 16 implies (#[trigger] lane(row, x) <==> window_cell(
                d,
                x,
                r as int,
            )) by {
                lemma_join_rows(left, right, y, x as u64);
                assert(lane_bit(row, x as u64) == bit_of(v as u64, x as u64));
            }
        }
        r = r + 1;
    }
    blocked_bit4
}

/// The lanes 4 to 11 of the rows 4 to 11: the inner 8x8 cells of a window.
pub fn get_inner_8x8(data: &[u64; 16]) -> (inner_words: [u32; 8])
    ensures
        forall|y: int| 0 <= y < 8 ==> #[trigger] inner_words@[y] == (data@[y + 4] >> 16) as u32,
{
    let mut inner_words = [0u32;8];
    let mut y: usize = 0;
    while y < 8
        invariant
            y <= 8,
            forall|i: int| 0 <= i < y ==> #[trigger] inner_words@[i] == (data@[i + 4] >> 16) as u32,
        decreases 8 - y,
    {
        let ghost before = inner_words@;
        inner_words[y] = #[verifier::truncate] ((data[y + 4] >> 16) as u32);
        proof {
            assert(forall|i: int| 0 <= i < 8 && i != y ==> inner_words@[i] == before[i]);
        }
        y = y + 1;
    }
    inner_words
}

proof fn lemma_append_byte(acc: u64, b: u64, y: u64, j: u64)
    requires
        y < 8,
        b <= 0xff,
        acc >> ((8 * y) as u64) == 0,
        j < 64,
    ensures
        ({
            let n = acc | (b << ((8 * y) as u64));
            &&& (y < 7 ==> n >> ((8 * y + 8) as u64) == 0)
            &&& (j < 8 * y ==> bit_of(n, j) == bit_of(acc, j))
            &&& (j < 8 ==> bit_of(n, (8 * y + j) as u64) == bit_of(b, j))
        }),
{
    assert({
        let n = acc | (b << ((8 * y) as u64));
        &&& (y < 7 ==> n >> ((8 * y + 8) as u64) == 0)
        &&& (j < 8 * y ==> bit_of(n, j) == bit_of(acc, j))
        &&& (j < 8 ==> bit_of(n, (8 * y + j) as u64) == bit_of(b, j))
    }) by (bit_vector)
        requires
            y < 8,
            b <= 0xff,
            acc >> ((8 * y) as u64) == 0,
            j < 64,
    ;
}

/// Packs eight rows of eight lanes into a raw block.
pub fn pack_finished_bit4(data: [u32; 8]) -> (r: u64)
    ensures
        forall|x: int, y: int|
            0 <= x < 8 && 0 <= y < 8 ==> (#[trigger] block_cell(r, x, y) <==> lane(
                data@[y] as u64,
                x,
            )),
{
    let mut acc: u64 = 0;
    let mut y: usize = 0;
    assert(0u64 >> 0u64 == 0) by (bit_vector);
    while y < 8
        invariant
            y <= 8,
            y < 8 ==> acc >> ((8 * y) as u64) == 0,
            forall|a: int, b: int|
                0 <= a < 8 && 0 <= b < y ==> (#[trigger] block_cell(acc, a, b) <==> lane(
                    data@[b] as u64,
                    a,
                )),
        decreases 8 - y,
    {
        let byte = pack_4bit_to_bits(data[y]);
        let wide: u64 = byte as u64;
        let next = acc | (wide << (8 * (y as u64)));
        proof {
            lemma_append_byte(acc, wide, y as u64, 0);
            assert forall|a: int, b: int| 0 <= a < 8 && 0 <= b < y + 1 implies (
            #[trigger] block_cell(next, a, b) <==> lane(data@[b] as u64, a)) by {
                if b < y {
                    lemma_append_byte(acc, wide, y as u64, (8 * b + a) as u64);
                    assert(block_cell(acc, a, b) <==> lane(data@[b] as u64, a));
                } else {
                    lemma_append_byte(acc, wide, y as u64, a as u64);
                    assert(bit_of(byte as u64, a as u64) == lane_bit(data@[b] as u64, a as u64));
                }
            }
        }
        acc = next;
        y = y + 1;
    }
    acc
}

proof fn lemma_inner_lane(row: u64, x: u64)
    requires
        x < 8,
    ensures
        lane_bit(((row >> 16) as u32) as u64, x) == lane_bit(row, (x + 4) as u64),
{
    assert(x < 8 ==> lane_bit(((row >> 16) as u32) as u64, x) == lane_bit(row, (x + 4) as u64))
        by (bit_vector);
}

/// The rule on three rows of lanes is the rule of Life on the grid, where the
/// rows hold the cells of the grid around `(x, y)`.
proof fn lemma_row_rule_is_life(up: u64, mid: u64, down: u64, g: Set<(int, int)>, x: int, y: int)
    requires
        forall|a: int| x - 1 <= a <= x + 1 ==> (lane(up, a) <==> #[trigger] g.contains((a, y - 1))),
        forall|a: int| x - 1 <= a <= x + 1 ==> (lane(mid, a) <==> #[trigger] g.contains((a, y))),
        forall|a: int|
            x - 1 <= a <= x + 1 ==> (lane(down, a) <==> #[trigger] g.contains((a, y + 1))),
    ensures
        row_rule(up, mid, down, x) == crate::life::lives_on(g, x, y),
{
    assert(lane(up, x - 1) <==> g.contains((x - 1, y - 1)));
    assert(lane(up, x) <==> g.contains((x, y - 1)));
    assert(lane(up, x + 1) <==> g.contains((x + 1, y - 1)));
    assert(lane(mid, x - 1) <==> g.contains((x - 1, y)));
    assert(lane(mid, x) <==> g.contains((x, y)));
    assert(lane(mid, x + 1) <==> g.contains((x + 1, y)));
    assert(lane(down, x - 1) <==> g.contains((x - 1, y + 1)));
    assert(lane(down, x) <==> g.contains((x, y + 1)));
    assert(lane(down, x + 1) <==> g.contains((x + 1, y + 1)));
}

/// Whether the rows hold, in the square that is still true after `k`
/// generations, the cells of `g`.
spec fn rows_hold(rows: Seq<u64>, g: Set<(int, int)>, k: int) -> bool {
    forall|x: int, y: int|
        k <= x < 16 - k && k <= y < 16 - k ==> (#[trigger] lane(rows[y], x) <==> g.contains((x, y)))
}

proof fn lemma_rows_step(prev: Seq<u64>, next: Seq<u64>, g: Set<(int, int)>, k: int)
    requires
        0 <= k < 4,
        prev.len() == 16,
        next.len() == 16,
        forall|y: int| 0 <= y < 16 ==> is_lane_row(#[trigger] prev[y]),
        rows_hold(prev, g, k),
        forall|y: int|
            1 + k <= y < 15 - k ==> #[trigger] next[y] == step_row(
                prev[y - 1],
                prev[y],
                prev[y + 1],
            ),
    ensures
        rows_hold(next, crate::life::evolve(g), k + 1),
        forall|y: int| 1 + k <= y < 15 - k ==> is_lane_row(#[trigger] next[y]),
{
    assert forall|y: int| 1 + k <= y < 15 - k implies is_lane_row(#[trigger] next[y]) by {
        lemma_row_step(prev[y - 1], prev[y], prev[y + 1], 0);
    }
    assert forall|x: int, y: int| k + 1 <= x < 15 - k && k + 1 <= y < 15 - k implies (
    #[trigger] lane(next[y], x) <==> crate::life::evolve(g).contains((x, y))) by {
        lemma_row_step(prev[y - 1], prev[y], prev[y + 1], x);
        assert forall|a: int| x - 1 <= a <= x + 1 implies (lane(prev[y - 1], a)
            <==> #[trigger] g.contains((a, y - 1))) by {}
        assert forall|a: int| x - 1 <= a <= x + 1 implies (lane(prev[y], a)
            <==> #[trigger] g.contains((a, y))) by {}
        assert forall|a: int| x - 1 <= a <= x + 1 implies (lane(prev[y + 1], a)
            <==> #[trigger] g.contains((a, y + 1))) by {}
        lemma_row_rule_is_life(prev[y - 1], prev[y], prev[y + 1], g, x, y);
    }
}

/// Advances the inner 8x8 cells of the 16x16 window of four raw blocks by
/// `n_steps` generations.  Each generation takes one ring of cells off the
/// part of the window that is known, so four generations are the most.
pub fn step_forward_raw(d: QuadTreeValue, n_steps: u64) -> (r: u128)
    requires
        n_steps <= 4,
    ensures
        r <= u64::MAX,
        forall|x: int, y: int|
            0 <= x < 8 && 0 <= y < 8 ==> (#[trigger] block_cell(r as u64, x, y) <==> generations(
                window_cells(d),
                n_steps as nat,
            ).contains((x + 4, y + 4))),
{
    let mut data1 = unpack_to_bit4(d);
    let mut data2 = [0u64;16];
    assert(is_lane_row(0u64)) by (bit_vector);
    let mut step: u64 = 0;
    proof {
        assert(rows_hold(data1@, generations(window_cells(d), 0), 0));
    }
    while step < n_steps
        invariant
            step <= n_steps <= 4,
            forall|y: int| 0 <= y < 16 ==> is_lane_row(#[trigger] data1@[y]),
            forall|y: int| 0 <= y < 16 ==> is_lane_row(#[trigger] data2@[y]),
            rows_hold(
                if step % 2 == 0 {
                    data1@
                } else {
                    data2@
                },
                generations(window_cells(d), step as nat),
                step as int,
            ),
        decreases n_steps - step,
    {
        let ghost g = generations(window_cells(d), step as nat);
        if step % 2 == 0 {
            step_forward_automata_16x16(&data1, &mut data2, step as usize);
            proof {
                lemma_rows_step(data1@, data2@, g, step as int);
            }
        } else {
            step_forward_automata_16x16(&data2, &mut data1, step as usize);
            proof {
                lemma_rows_step(data2@, data1@, g, step as int);
            }
        }
        step = step + 1;
    }
    let inner = if n_steps % 2 == 0 {
        get_inner_8x8(&data1)
    } else {
        get_inner_8x8(&data2)
    };
    let r = pack_finished_bit4(inner);
    proof {
        let rows = if n_steps % 2 == 0 {
            data1@
        } else {
            data2@
        };
        let g = generations(window_cells(d), n_steps as nat);
        assert forall|x: int, y: int| 0 <= x < 8 && 0 <= y < 8 implies (#[trigger] block_cell(
            (r as u128) as u64,
            x,
            y,
        ) <==> g.contains((x + 4, y + 4))) by {
            lemma_inner_lane(rows[y + 4], x as u64);
            assert(block_cell(r, x, y) <==> lane(inner@[y] as u64, x));
            assert(lane(rows[y + 4], x + 4) <==> g.contains((x + 4, y + 4)));
        }
    }
    r as u128
}

/// Turns a 2x2 arrangement of 2x2 quadrants into one 4x4 grid, row by row.
pub fn transpose_quad(im: &[u128; 16]) -> (r: [u128; 16])
    ensures
        r@ == seq![
            im@[0],
            im@[1],
            im@[4],
            im@[5],
            im@[2],
            im@[3],
            im@[6],
            im@[7],
            im@[8],
            im@[9],
            im@[12],
            im@[13],
            im@[10],
            im@[11],
            im@[14],
            im@[15],
        ],
{
    let r = [
        im[0],
        im[1],
        im[4],
        im[5],
        im[2],
        im[3],
        im[6],
        im[7],
        im[8],
        im[9],
        im[12],
        im[13],
        im[10],
        im[11],
        im[14],
        im[15],
    ];
    assert(r@ =~= seq![
        im@[0],
        im@[1],
        im@[4],
        im@[5],
        im@[2],
        im@[3],
        im@[6],
        im@[7],
        im@[8],
        im@[9],
        im@[12],
        im@[13],
        im@[10],
        im@[11],
        im@[14],
        im@[15],
    ]);
    r
}

/// Whether the `i`-th cell of a 4x4 grid, counted row by row, lies on its
/// outer ring.
pub fn is_on_4x4_border(i: usize) -> (r: bool)
    ensures
        r == (i < 16 && (i % 4 == 0 || i % 4 == 3 || i / 4 == 0 || i / 4 == 3)),
{
    i < 16 && (i % 4 == 0 || i % 4 == 3 || i / 4 == 0 || i / 4 == 3)
}

/// The 2x2 window of a 4x4 grid whose top left cell is `(x, y)`.
pub fn slice(in_map: &[u128; 16], x: usize, y: usize) -> (r: [u128; 4])
    requires
        x <= 2,
        y <= 2,
    ensures
        r@ == seq![
            in_map@[y * 4 + x],
            in_map@[y * 4 + x + 1],
            in_map@[(y + 1) * 4 + x],
            in_map@[(y + 1) * 4 + x + 1],
        ],
{
    let r = [
        in_map[(0 + y) * 4 + 0 + x],
        in_map[(0 + y) * 4 + 1 + x],
        in_map[(1 + y) * 4 + 0 + x],
        in_map[(1 + y) * 4 + 1 + x],
    ];
    assert(r@ =~= seq![
        in_map@[y * 4 + x],
        in_map@[y * 4 + x + 1],
        in_map@[(y + 1) * 4 + x],
        in_map@[(y + 1) * 4 + x + 1],
    ]);
    r
}

pub open spec fn rep_spec(v: u8) -> u64 {
    let v1 = v as u64;
    let v2 = v1 | (v1 << 32);
    let v4 = v2 | (v2 << 16);
    v4 | (v4 << 8)
}

/// The word whose eight bytes are all `v`.
pub fn rep_bytes(v: u8) -> (v8: u64)
    ensures
        v8 == rep_spec(v),
        forall|j: u64| j < 8 ==> (#[trigger] (v8 >> ((8 * j) as u64))) & 0xff == v,
{
    let v1 = v as u64;
    let v2 = v1 | (v1 << 32);
    let v4 = v2 | (v2 << 16);
    let v8 = v4 | (v4 << 8);
    proof {
        assert forall|j: u64| j < 8 implies (#[trigger] (v8 >> ((8 * j) as u64))) & 0xff == v by {
            assert(j < 8 ==> (rep_spec(v) >> ((8 * j) as u64)) & 0xff == v as u64) by (bit_vector);
        }
    }
    v8
}

/// The side of the part of a raw block that stands `-d` levels below the
/// whole block: 8 cells for `d == 1`, then 4, 2 and 1.
pub open spec fn chunk_side(d: int) -> int {
    if d >= 1 {
        8
    } else if d == 0 {
        4
    } else if d == -1 {
        2
    } else {
        1
    }
}

/// The mask of the cells of a raw block that belong to its top left part of
/// side `chunk_side(d)`.
pub fn get_gray_mask(d: i64) -> (mask: u64)
    requires
        -2 <= d <= 0,
    ensures
        mask == (if d == 0 {
            0x0f0f_0f0fu64
        } else if d == -1 {
            0x0303u64
        } else {
            0x01u64
        }),
        forall|x: int, y: int|
            0 <= x < 8 && 0 <= y < 8 ==> (#[trigger] block_cell(mask, x, y) <==> (x < chunk_side(
                d as int,
            ) && y < chunk_side(d as int))),
{
    let nds: u64 = if d == 0 {
        4
    } else if d == -1 {
        2
    } else {
        1
    };
    assert((1u64 << nds) >= 1 && (1u64 << nds) - 1 == (if nds == 4 {
        0x0fu64
    } else if nds == 2 {
        0x03u64
    } else {
        0x01u64
    }) && (1u64 << ((nds * 8) as u64)) >= 1) by (bit_vector)
        requires
            nds == 4 || nds == 2 || nds == 1,
    ;
    let low: u64 = (1u64 << nds) - 1;
    let xmask = rep_bytes(low as u8);
    let ymask = (1u64 << (nds * 8)) - 1;
    let mask = xmask & ymask;
    proof {
        lemma_gray_mask(nds, 0, 0);
        assert forall|x: int, y: int| 0 <= x < 8 && 0 <= y < 8 implies (#[trigger] block_cell(
            mask,
            x,
            y,
        ) <==> (x < chunk_side(d as int) && y < chunk_side(d as int))) by {
            lemma_gray_mask(nds, x as u64, y as u64);
        }
    }
    mask
}

spec fn gray_spec(nds: u64) -> u64 {
    rep_spec((((1u64 << nds) - 1) as u64) as u8) & (((1u64 << ((nds * 8) as u64)) - 1) as u64)
}

proof fn lemma_gray_mask(nds: u64, x: u64, y: u64)
    requires
        nds == 4 || nds == 2 || nds == 1,
        x < 8,
        y < 8,
    ensures
        gray_spec(nds) == (if nds == 4 {
            0x0f0f_0f0fu64
        } else if nds == 2 {
            0x0303u64
        } else {
            0x01u64
        }),
        bit_of(gray_spec(nds), (8 * y + x) as u64) == (if x < nds && y < nds {
            1u64
        } else {
            0u64
        }),
{
    assert(gray_spec(nds) == (if nds == 4 {
        0x0f0f_0f0fu64
    } else if nds == 2 {
        0x0303u64
    } else {
        0x01u64
    }) && bit_of(gray_spec(nds), (8 * y + x) as u64) == (if x < nds && y < nds {
        1u64
    } else {
        0u64
    })) by (bit_vector)
        requires
            nds == 4 || nds == 2 || nds == 1,
            x < 8,
            y < 8,
    ;
}

proof fn lemma_subchunk(v: u64, nds: u64, x: u64, y: u64, a: u64, b: u64)
    requires
        nds == 4 || nds == 2 || nds == 1,
        x <= 1,
        y <= 1,
        a < 8,
        b < 8,
    ensures
        ({
            let r = gray_spec(nds) & ((v >> ((nds * x) as u64)) >> ((nds * 8 * y) as u64));
            bit_of(r, (8 * b + a) as u64) == (if a < nds && b < nds {
                bit_of(v, (8 * (b + nds * y) + a + nds * x) as u64)
            } else {
                0u64
            })
        }),
{
    assert({
        let r = gray_spec(nds) & ((v >> ((nds * x) as u64)) >> ((nds * 8 * y) as u64));
        bit_of(r, (8 * b + a) as u64) == (if a < nds && b < nds {
            bit_of(v, (8 * (b + nds * y) + a + nds * x) as u64)
        } else {
            0u64
        })
    }) by (bit_vector)
        requires
            nds == 4 || nds == 2 || nds == 1,
            x <= 1,
            y <= 1,
            a < 8,
            b < 8,
    ;
}

/// The part `(x, y)` of the four parts of the top left part of a raw block,
/// moved to the top left corner, by shifting and masking.
pub open spec fn subchunk_spec(v: u64, d: int, x: int, y: int) -> u64 {
    let n: u64 = if d == 0 {
        4
    } else if d == -1 {
        2
    } else {
        1
    };
    let mask: u64 = if d == 0 {
        0x0f0f_0f0f
    } else if d == -1 {
        0x0303
    } else {
        0x01
    };
    mask & ((v >> ((if x == 0 {
        0
    } else {
        n
    }) as u64)) >> ((if y == 0 {
        0
    } else {
        n * 8
    }) as u64))
}

/// The cells of a part of a raw block are the cells of the block in the
/// square of the part.
pub proof fn lemma_subchunk_cell(v: u64, d: int, x: int, y: int, a: int, b: int)
    requires
        -2 <= d <= 0,
        0 <= x <= 1,
        0 <= y <= 1,
        0 <= a < 8,
        0 <= b < 8,
    ensures
        block_cell(subchunk_spec(v, d, x, y), a, b) <==> (a < chunk_side(d) && b < chunk_side(d)
            && block_cell(v, a + chunk_side(d) * x, b + chunk_side(d) * y)),
{
    let nds: u64 = if d == 0 {
        4
    } else if d == -1 {
        2
    } else {
        1
    };
    let right: u64 = if x == 0 {
        0
    } else {
        nds
    };
    let down: u64 = if y == 0 {
        0
    } else {
        (nds * 8) as u64
    };
    assert(right == nds * (x as u64) && down == nds * 8 * (y as u64)) by (nonlinear_arith)
        requires
            right == (if x == 0 {
                0
            } else {
                nds
            }),
            down == (if y == 0 {
                0
            } else {
                nds * 8
            }),
            0 <= x <= 1,
            0 <= y <= 1,
    ;
    lemma_gray_mask(nds, 0, 0);
    lemma_subchunk(v, nds, x as u64, y as u64, a as u64, b as u64);
}

/// One of the four parts of the top left part of side `2 * chunk_side(d)` of a
/// raw block, moved to the top left corner: part `(x, y)`.
pub fn get_subchunk(v: u64, d: i64, x: u8, y: u8) -> (r: u64)
    requires
        -2 <= d <= 0,
        x <= 1,
        y <= 1,
    ensures
        r == subchunk_spec(v, d as int, x as int, y as int),
        forall|a: int, b: int|
            0 <= a < 8 && 0 <= b < 8 ==> (#[trigger] block_cell(r, a, b) <==> (a < chunk_side(
                d as int,
            ) && b < chunk_side(d as int) && block_cell(
                v,
                a + chunk_side(d as int) * x,
                b + chunk_side(d as int) * y,
            ))),
{
    let nds: u64 = if d == 0 {
        4
    } else if d == -1 {
        2
    } else {
        1
    };
    let right: u64 = if x == 0 {
        0
    } else {
        nds
    };
    let down: u64 = if y == 0 {
        0
    } else {
        nds * 8
    };
    assert(right == nds * (x as u64) && down == nds * 8 * (y as u64)) by (nonlinear_arith)
        requires
            right == (if x == 0 {
                0
            } else {
                nds
            }),
            down == (if y == 0 {
                0
            } else {
                nds * 8
            }),
            x <= 1,
            y <= 1,
    ;
    let xshift = v >> right;
    let yshift = xshift >> down;
    let mask = get_gray_mask(d);
    let r = mask & yshift;
    proof {
        lemma_gray_mask(nds, 0, 0);
        assert forall|a: int, b: int| 0 <= a < 8 && 0 <= b < 8 implies (#[trigger] block_cell(
            r,
            a,
            b,
        ) <==> (a < chunk_side(d as int) && b < chunk_side(d as int) && block_cell(
            v,
            a + chunk_side(d as int) * x,
            b + chunk_side(d as int) * y,
        ))) by {
            lemma_subchunk(v, nds, x as u64, y as u64, a as u64, b as u64);
        }
    }
    r
}

} // verus!

