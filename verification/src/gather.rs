//! Building a tree from points: the points are gathered into raw blocks, and
//! the blocks level by level into nodes, until one node holds them all.
//!
//! Coordinates are counted from the top left corner of the square of the
//! tree that is built, so that a block of any level is named by two numbers
//! without a sign.

use crate::bitgrid::{bit_of, block_cell};
use crate::largekey_table::{grown_capacity, LargeKeyTable};
use crate::point::Point;
use crate::quadtree::{lemma_empty_tile, outside};
use crate::quadvalue::{hash_of, QuadTreeValue};
use crate::stepper::{lemma_frame, lemma_node_tile, lemma_value_ready};
use crate::store::{lemma_grown_compact, NodeStore, StoreError};
use crate::treespec::{lemma_tile_extends, side, tile, valid, value_tile};
use vstd::arithmetic::power2::{lemma2_to64, lemma2_to64_rest, lemma_pow2_unfold, pow2};
use vstd::prelude::*;

verus! {

/// A coordinate counted from the coordinate `base`.
pub open spec fn biased(c: i64, base: int) -> int {
    c - base
}

/// The key of the block in column `bx` and row `by` in a table of blocks.
pub open spec fn pack(bx: u64, by: u64) -> u128 {
    ((by as u128) << 64) | (bx as u128)
}

/// The column of the block with the key `k`.
pub open spec fn column_of(k: u128) -> u64 {
    (k & 0xffff_ffff_ffff_ffff) as u64
}

/// The row of the block with the key `k`.
pub open spec fn row_of(k: u128) -> u64 {
    (k >> 64) as u64
}

pub(crate) proof fn lemma_pack(bx: u64, by: u64)
    ensures
        column_of(pack(bx, by)) == bx,
        row_of(pack(bx, by)) == by,
        by < 0x8000_0000_0000_0000 ==> pack(bx, by) != u128::MAX,
{
    assert(column_of(pack(bx, by)) == bx && row_of(pack(bx, by)) == by && (by
        < 0x8000_0000_0000_0000 ==> pack(bx, by) != 0xffff_ffff_ffff_ffff_ffff_ffff_ffff_ffffu128))
        by (bit_vector);
}

/// The number of the block of the given level that holds the coordinate `u`,
/// which is counted from the corner of the square.
pub open spec fn block_of(u: int, level: nat) -> int
    decreases level,
{
    if level == 0 {
        u / 8
    } else {
        block_of(u, (level - 1) as nat) / 2
    }
}

/// The coordinate at which the block with the number `b` begins, where the
/// first block begins at `base`.
pub open spec fn origin(b: int, level: nat, base: int) -> int {
    b * side(level) + base
}

/// Whether all points lie in the square of the given level whose top left
/// corner is `(bx0, by0)`.
pub open spec fn fits(pts: Seq<Point>, bx0: int, by0: int, top: nat) -> bool {
    forall|i: int|
        0 <= i < pts.len() ==> 0 <= biased((#[trigger] pts[i]).x, bx0) < side(top) && 0 <= biased(
            pts[i].y,
            by0,
        ) < side(top)
}

/// The cells that a list of points names.
pub open spec fn point_set(s: Seq<Point>) -> Set<(int, int)> {
    Set::new(|p: (int, int)| exists|i: int| 0 <= i < s.len() && #[trigger] s[i].pair() == p)
}

pub(crate) proof fn lemma_halves(b: int, s: int)
    ensures
        (b / 2) * (2 * s) + (b % 2) * s == b * s,
        (2 * b) * s == b * (2 * s),
        (2 * b + 1) * s == b * (2 * s) + s,
        (b + 1) * s == b * s + s,
{
    assert((b / 2) * (2 * s) + (b % 2) * s == b * s) by (nonlinear_arith)
        requires
            b == 2 * (b / 2) + (b % 2),
    ;
    assert((2 * b) * s == b * (2 * s)) by (nonlinear_arith);
    assert((2 * b + 1) * s == b * (2 * s) + s) by (nonlinear_arith);
    assert((b + 1) * s == b * s + s) by (nonlinear_arith);
}

/// A coordinate lies in the block that `block_of` gives for it.
pub(crate) proof fn lemma_block_holds(u: int, level: nat)
    requires
        0 <= u,
    ensures
        0 <= block_of(u, level),
        block_of(u, level) * side(level) <= u < (block_of(u, level) + 1) * side(level),
    decreases level,
{
    crate::treespec::lemma_side(level);
    if level == 0 {
    } else {
        let j = (level - 1) as nat;
        lemma_block_holds(u, j);
        let b = block_of(u, j);
        let s = side(j);
        lemma_halves(b, s);
        let r = b % 2;
        assert(r * s == (if r == 0 {
            0
        } else {
            s
        })) by (nonlinear_arith)
            requires
                r == 0 || r == 1,
        ;
        assert((b / 2 + 1) * (2 * s) == (b / 2) * (2 * s) + 2 * s) by (nonlinear_arith);
        assert(side(level) == 2 * s);
    }
}

/// A coordinate lies in no other block of a level than its own.
pub(crate) proof fn lemma_block_unique(u: int, level: nat, b: int)
    requires
        0 <= u,
        b * side(level) <= u < (b + 1) * side(level),
    ensures
        b == block_of(u, level),
{
    lemma_block_holds(u, level);
    crate::treespec::lemma_side(level);
    let c = block_of(u, level);
    let s = side(level);
    if b < c {
        assert((b + 1) * s <= c * s) by (nonlinear_arith)
            requires
                b + 1 <= c,
                s > 0,
        ;
    } else if b > c {
        assert((c + 1) * s <= b * s) by (nonlinear_arith)
            requires
                c + 1 <= b,
                s > 0,
        ;
    }
}

/// The blocks of a level fill the square: there are `2^(top - level)` in a
/// row.
pub(crate) proof fn lemma_block_range(u: int, level: nat, top: nat)
    requires
        0 <= u < side(top),
        level <= top,
    ensures
        0 <= block_of(u, level) < pow2((top - level) as nat),
    decreases level,
{
    if level == 0 {
    } else {
        lemma_block_range(u, (level - 1) as nat, top);
        lemma_pow2_unfold((top - (level - 1)) as nat);
    }
}

/// The place of a cell within its raw block: its row times eight, plus its
/// column.  The coordinates are counted from the corner of the square.
pub fn point_8x8_loc(ux: u64, uy: u64) -> (r: u8)
    ensures
        r == (uy % 8) * 8 + ux % 8,
        r < 64,
{
    ((uy % 8) * 8 + (ux % 8)) as u8
}

/// The raw block in which the bit with the given index alone is set.
pub fn set_bit(bitidx: u8) -> (r: u64)
    requires
        bitidx < 64,
    ensures
        r == 1u64 << (bitidx as u64),
{
    1u64 << bitidx
}

proof fn lemma_set_bit(old: u64, bit: u64, j: u64)
    requires
        bit < 64,
        j < 64,
    ensures
        bit_of(old | (1u64 << bit), j) == (if j == bit {
            1u64
        } else {
            bit_of(old, j)
        }),
        bit_of(old, j) <= 1,
{
    assert(bit_of(old | (1u64 << bit), j) == (if j == bit {
        1u64
    } else {
        bit_of(old, j)
    }) && bit_of(old, j) <= 1) by (bit_vector)
        requires
            bit < 64,
            j < 64,
    ;
}

/// The least of the numbers `s`, of which there is one at least.
pub open spec fn least(s: Seq<int>) -> int
    decreases s.len(),
{
    if s.len() <= 1 {
        s[0]
    } else {
        let rest = least(s.drop_last());
        if s.last() < rest {
            s.last()
        } else {
            rest
        }
    }
}

/// The greatest of the numbers `s`, of which there is one at least.
pub open spec fn most(s: Seq<int>) -> int
    decreases s.len(),
{
    if s.len() <= 1 {
        s[0]
    } else {
        let rest = most(s.drop_last());
        if s.last() > rest {
            s.last()
        } else {
            rest
        }
    }
}

/// The columns of the points.
pub open spec fn columns(pts: Seq<Point>) -> Seq<int> {
    Seq::new(pts.len(), |i: int| pts[i].x as int)
}

/// The rows of the points.
pub open spec fn rows(pts: Seq<Point>) -> Seq<int> {
    Seq::new(pts.len(), |i: int| pts[i].y as int)
}

/// The first level from `d` on whose square is wider than `span`, and the
/// last level at the most.
pub open spec fn level_for(span: int, d: nat) -> nat
    decreases 61 - d,
{
    if d < 61 && side(d) <= span {
        level_for(span, d + 1)
    } else {
        d
    }
}

/// The level and the corner of the square in which the tree of the points
/// is built, of which there is one at least: the square is wider than the
/// points are apart, three levels high at least, and its corner is the
/// lowest column and row of the points, or the last corner from which the
/// square lies in the plane.
pub open spec fn frame_of(pts: Seq<Point>) -> (nat, int, int) {
    let lx = least(columns(pts));
    let ly = least(rows(pts));
    let wide = most(columns(pts)) - lx;
    let high = most(rows(pts)) - ly;
    let d = level_for(
        if wide > high {
            wide
        } else {
            high
        },
        3,
    );
    let limit = 0x8000_0000_0000_0000 - side(d);
    (
        d,
        if lx > limit {
            limit
        } else {
            lx
        },
        if ly > limit {
            limit
        } else {
            ly
        },
    )
}

/// The least and the greatest of one number more.
pub(crate) proof fn lemma_one_more(s: Seq<int>, i: int)
    requires
        1 <= i < s.len(),
    ensures
        least(s.take(i + 1)) == (if s[i] < least(s.take(i)) {
            s[i]
        } else {
            least(s.take(i))
        }),
        most(s.take(i + 1)) == (if s[i] > most(s.take(i)) {
            s[i]
        } else {
            most(s.take(i))
        }),
{
    assert(s.take(i + 1).drop_last() =~= s.take(i));
}

/// The corner of the square of a tree that is built, and the level of the
/// tree.
pub struct Frame {
    pub x: i64,
    pub y: i64,
    pub top: u64,
}

impl Frame {
    /// Whether the square lies within the range of 64-bit coordinates.
    pub open spec fn wf(self) -> bool {
        &&& self.top <= 61
        &&& self.x + side(self.top as nat) <= i64::MAX + 1
        &&& self.y + side(self.top as nat) <= i64::MAX + 1
    }
}

/// What holds of an entry of the table of raw blocks: its key names a block
/// of the square, and its value is the raw block that holds the cells of `g`
/// there.
pub open spec fn raw_entry_ok(k: u128, v: u128, g: Set<(int, int)>, f: Frame) -> bool {
    &&& k == pack(column_of(k), row_of(k))
    &&& column_of(k) < pow2(f.top as nat)
    &&& row_of(k) < pow2(f.top as nat)
    &&& v <= u64::MAX
    &&& crate::dump::chunk_tile(
        v as u64,
        8,
        g,
        origin(column_of(k) as int, 0, f.x as int),
        origin(row_of(k) as int, 0, f.y as int),
    )
}

/// The key of the block of the given level in which a point lies.
pub open spec fn block_key(p: Point, level: nat, f: Frame) -> u128 {
    pack(
        block_of(biased(p.x, f.x as int), level) as u64,
        block_of(biased(p.y, f.y as int), level) as u64,
    )
}

/// Whether the table holds an entry for the block of the given level of
/// every one of the points.
pub open spec fn covers(tab: Map<u128, u128>, pts: Seq<Point>, level: nat, f: Frame) -> bool {
    forall|i: int| 0 <= i < pts.len() ==> tab.contains_key(#[trigger] block_key(pts[i], level, f))
}

#[verifier::rlimit(50)]

proof fn lemma_raw_step(
    tab: Map<u128, u128>,
    pts: Seq<Point>,
    i: int,
    k: u128,
    old_v: u64,
    new_v: u64,
    f: Frame,
)
    requires
        f.wf(),
        0 <= i < pts.len(),
        fits(pts, f.x as int, f.y as int, f.top as nat),
        forall|key: u128| #[trigger]
            tab.contains_key(key) ==> raw_entry_ok(key, tab[key], point_set(pts.take(i)), f),
        covers(tab, pts.take(i), 0, f),
        k == block_key(pts[i], 0, f),
        old_v == (if tab.contains_key(k) {
            tab[k] as u64
        } else {
            0u64
        }),
        new_v == old_v | (1u64 << (((biased(pts[i].y, f.y as int) % 8) * 8 + biased(
            pts[i].x,
            f.x as int,
        ) % 8) as u64)),
    ensures
        forall|key: u128| #[trigger]
            tab.insert(k, new_v as u128).contains_key(key) ==> raw_entry_ok(
                key,
                tab.insert(k, new_v as u128)[key],
                point_set(pts.take(i + 1)),
                f,
            ),
        covers(tab.insert(k, new_v as u128), pts.take(i + 1), 0, f),
        k != u128::MAX,
{
    lemma2_to64();
    lemma2_to64_rest();
    crate::treespec::lemma_side(0);
    crate::treespec::lemma_side(f.top as nat);
    crate::stepper::lemma_pow2_le(f.top as nat, 61);
    let p = pts[i];
    let ux = biased(p.x, f.x as int);
    let uy = biased(p.y, f.y as int);
    let bx = block_of(ux, 0);
    let by = block_of(uy, 0);
    let g0 = point_set(pts.take(i));
    let g1 = point_set(pts.take(i + 1));
    let t2 = tab.insert(k, new_v as u128);
    let bit = ((uy % 8) * 8 + ux % 8) as u64;
    lemma_block_range(ux, 0, f.top as nat);
    lemma_block_range(uy, 0, f.top as nat);
    lemma_pack(bx as u64, by as u64);
    assert forall|q: (int, int)| g1.contains(q) <==> (g0.contains(q) || q == p.pair()) by {
        if g1.contains(q) {
            let j = choose|j: int|
                0 <= j < pts.take(i + 1).len() && #[trigger] pts.take(i + 1)[j].pair() == q;
            if j < i {
                assert(pts.take(i)[j].pair() == q);
            }
        }
        if g0.contains(q) {
            let j = choose|j: int| 0 <= j < pts.take(i).len() && #[trigger] pts.take(i)[j].pair() == q;
            assert(pts.take(i + 1)[j].pair() == q);
        }
        if q == p.pair() {
            assert(pts.take(i + 1)[i].pair() == q);
        }
    }
    assert forall|key: u128| #[trigger] t2.contains_key(key) implies raw_entry_ok(
        key,
        t2[key],
        g1,
        f,
    ) by {
        let cx = column_of(key) as int;
        let cy = row_of(key) as int;
        let ox = origin(cx, 0, f.x as int);
        let oy = origin(cy, 0, f.y as int);
        if key == k {
            let v0 = old_v;
            assert forall|a: int, b: int| 0 <= a < 8 && 0 <= b < 8 implies (#[trigger] block_cell(
                new_v,
                a,
                b,
            ) <==> g1.contains((ox + a, oy + b))) by {
                lemma_set_bit(v0, bit, (8 * b + a) as u64);
                if tab.contains_key(k) {
                    assert(raw_entry_ok(k, tab[k], g0, f));
                    assert(block_cell(v0, a, b) <==> g0.contains((ox + a, oy + b)));
                } else {
                    let idx = (8 * b + a) as u64;
                    assert(bit_of(0u64, idx) == 0) by (bit_vector);
                    if g0.contains((ox + a, oy + b)) {
                        let j = choose|j: int|
                            0 <= j < pts.take(i).len() && #[trigger] pts.take(i)[j].pair() == (
                                ox + a,
                                oy + b,
                            );
                        let pj = pts.take(i)[j];
                        assert(pj == pts[j]);
                        assert(biased(pj.x, f.x as int) / 8 == bx && biased(pj.y, f.y as int) / 8
                            == by);
                        assert(tab.contains_key(block_key(pj, 0, f)));
                        assert(false);
                    }
                }
            }
        } else {
            assert(raw_entry_ok(key, tab[key], g0, f));
            assert forall|a: int, b: int| 0 <= a < 8 && 0 <= b < 8 implies (#[trigger] block_cell(
                tab[key] as u64,
                a,
                b,
            ) <==> g1.contains((ox + a, oy + b))) by {
                assert(block_cell(tab[key] as u64, a, b) <==> g0.contains((ox + a, oy + b)));
                if (ox + a, oy + b) == p.pair() {
                    assert(cx == bx && cy == by);
                    assert(false);
                }
            }
        }
    }
    assert forall|j: int| 0 <= j < pts.take(i + 1).len() implies t2.contains_key(
        #[trigger] block_key(pts.take(i + 1)[j], 0, f),
    ) by {
        if j < i {
            assert(pts.take(i)[j] == pts.take(i + 1)[j]);
            assert(tab.contains_key(block_key(pts.take(i)[j], 0, f)));
        }
    }
}

/// Whether a table of blocks holds at most `n` blocks and is no larger than
/// they ask for: it has at most four slots for each block, and four more.
pub open spec fn small_table(t: &LargeKeyTable<u128>, n: nat) -> bool {
    &&& t@.dom().len() <= n
    &&& t.spec_capacity() <= 4 * t@.dom().len() + 4
}

/// What taking one block does to a table of blocks.
proof fn lemma_block_added(before: &LargeKeyTable<u128>, after: &LargeKeyTable<u128>, k: u128, v: u128, n: nat)
    requires
        before.wf(),
        small_table(before, n),
        after@ == before@.insert(k, v),
        after.spec_capacity() == grown_capacity(before.spec_capacity(), after@.dom().len()),
    ensures
        small_table(after, n + 1),
{
    before.lemma_wf_facts();
    vstd::set::axiom_set_insert_len(before@.dom(), k);
    assert(after@.dom() =~= before@.dom().insert(k));
    lemma_grown_compact(before.spec_capacity(), before@.dom().len(), after@.dom().len());
}

/// The table of the raw blocks that hold the given points, which lie in the
/// square of `f`.  There is none where the table cannot double, which takes
/// more points than a sixteenth of the largest number.
pub fn gather_raw_points(points: &Vec<Point>, f: &Frame) -> (r: Result<
    LargeKeyTable<u128>,
    StoreError,
>)
    requires
        f.wf(),
        fits(points@, f.x as int, f.y as int, f.top as nat),
    ensures
        match r {
            Ok(t) => {
                &&& t.wf()
                &&& t.spec_null_key() == u128::MAX
                &&& forall|key: u128| #[trigger]
                    t@.contains_key(key) ==> raw_entry_ok(key, t@[key], point_set(points@), *f)
                &&& covers(t@, points@, 0, *f)
                &&& small_table(&t, points@.len())
            },
            Err(e) => e == StoreError::OutOfRange && 4 * points@.len() + 4 > usize::MAX / 4,
        },
{
    proof {
        lemma2_to64();
        lemma2_to64_rest();
        crate::treespec::lemma_side(f.top as nat);
        crate::stepper::lemma_pow2_le(f.top as nat, 61);
    }
    let mut map: LargeKeyTable<u128> = LargeKeyTable::new(1, u128::MAX, 0);
    let mut i: usize = 0;
    while i < points.len()
        invariant
            i <= points.len(),
            f.wf(),
            fits(points@, f.x as int, f.y as int, f.top as nat),
            side(f.top as nat) <= 0x1_0000_0000_0000_0000,
            map.wf(),
            map.spec_null_key() == u128::MAX,
            forall|key: u128| #[trigger]
                map@.contains_key(key) ==> raw_entry_ok(
                    key,
                    map@[key],
                    point_set(points@.take(i as int)),
                    *f,
                ),
            covers(map@, points@.take(i as int), 0, *f),
            small_table(&map, i as nat),
        decreases points.len() - i,
    {
        let p = points[i];
        let ux: u64 = ((p.x as i128) - (f.x as i128)) as u64;
        let uy: u64 = ((p.y as i128) - (f.y as i128)) as u64;
        let bx: u64 = ux / 8;
        let by: u64 = uy / 8;
        let ploc: u128 = ((by as u128) << 64) | (bx as u128);
        let bit = set_bit(point_8x8_loc(ux, uy));
        let old_v: u64 = match map.get(ploc) {
            Some(v) => {
                proof {
                    assert(raw_entry_ok(ploc, map@[ploc], point_set(points@.take(i as int)), *f));
                }
                v as u64
            },
            None => 0,
        };
        let new_v: u64 = old_v | bit;
        proof {
            lemma_raw_step(map@, points@, i as int, ploc, old_v, new_v, *f);
        }
        if !map.has_room() {
            return Err(StoreError::OutOfRange);
        }
        let ghost before = map;
        map.add(ploc, new_v as u128);
        proof {
            lemma_block_added(&before, &map, ploc, new_v as u128, i as nat);
        }
        i = i + 1;
    }
    proof {
        assert(points@.take(points.len() as int) =~= points@);
    }
    Ok(map)
}

/// What holds of an entry of the table of the blocks of a level: its key
/// names a block of the square, and its value is a key of the level that
/// stands for the cells of `g` there.
pub open spec fn entry_ok(
    st: &NodeStore,
    k: u128,
    v: u128,
    level: nat,
    g: Set<(int, int)>,
    f: Frame,
) -> bool {
    &&& k == pack(column_of(k), row_of(k))
    &&& column_of(k) < pow2((f.top - level) as nat)
    &&& row_of(k) < pow2((f.top - level) as nat)
    &&& tile(
        st.nodes(),
        st.levels(),
        v,
        level,
        g,
        origin(column_of(k) as int, level, f.x as int),
        origin(row_of(k) as int, level, f.y as int),
    )
}

/// Whether the table holds, for the blocks of a level in which a point lies,
/// the keys that stand for them, and nothing else.
pub open spec fn level_ok(
    st: &NodeStore,
    tab: Map<u128, u128>,
    pts: Seq<Point>,
    level: nat,
    f: Frame,
) -> bool {
    &&& forall|k: u128| #[trigger]
        tab.contains_key(k) ==> entry_ok(st, k, tab[k], level, point_set(pts), f)
    &&& covers(tab, pts, level, f)
}

pub(crate) proof fn lemma_raw_level(st: &NodeStore, tab: Map<u128, u128>, pts: Seq<Point>, f: Frame)
    requires
        forall|key: u128| #[trigger]
            tab.contains_key(key) ==> raw_entry_ok(key, tab[key], point_set(pts), f),
        covers(tab, pts, 0, f),
    ensures
        level_ok(st, tab, pts, 0, f),
{
    reveal(tile);
    crate::treespec::lemma_side(0);
    let g = point_set(pts);
    assert forall|k: u128| #[trigger] tab.contains_key(k) implies entry_ok(
        st,
        k,
        tab[k],
        0,
        g,
        f,
    ) by {
        assert(raw_entry_ok(k, tab[k], g, f));
        let ox = origin(column_of(k) as int, 0, f.x as int);
        let oy = origin(row_of(k) as int, 0, f.y as int);
        assert forall|a: int, b: int| 0 <= a < 8 && 0 <= b < 8 implies (
        #[trigger] crate::treespec::cell(st.nodes(), tab[k], 0, a, b) <==> g.contains(
            (ox + a, oy + b),
        )) by {
            assert(block_cell(tab[k] as u64, a, b) <==> g.contains((ox + a, oy + b)));
        }
    }
}

pub(crate) proof fn lemma_level_frame(
    a: &NodeStore,
    b: &NodeStore,
    tab: Map<u128, u128>,
    level: nat,
    g: Set<(int, int)>,
    f: Frame,
)
    requires
        a.wf(),
        a.grows_to(b),
        forall|k: u128| #[trigger] tab.contains_key(k) ==> entry_ok(a, k, tab[k], level, g, f),
    ensures
        forall|k: u128| #[trigger] tab.contains_key(k) ==> entry_ok(b, k, tab[k], level, g, f),
{
    lemma_frame(a, b);
    assert forall|k: u128| #[trigger] tab.contains_key(k) implies entry_ok(
        b,
        k,
        tab[k],
        level,
        g,
        f,
    ) by {
        assert(entry_ok(a, k, tab[k], level, g, f));
    }
}

/// No point lies in a block for which the table of its level has no entry.
pub(crate) proof fn lemma_uncovered(
    tab: Map<u128, u128>,
    pts: Seq<Point>,
    level: nat,
    cx: u64,
    cy: u64,
    f: Frame,
)
    requires
        fits(pts, f.x as int, f.y as int, f.top as nat),
        covers(tab, pts, level, f),
        !tab.contains_key(pack(cx, cy)),
    ensures
        outside(
            point_set(pts),
            origin(cx as int, level, f.x as int),
            origin(cy as int, level, f.y as int),
            side(level),
        ),
{
    let g = point_set(pts);
    let s = side(level);
    let ox = origin(cx as int, level, f.x as int);
    let oy = origin(cy as int, level, f.y as int);
    assert forall|p: (int, int)| #[trigger] g.contains(p) implies !(ox <= p.0 < ox + s && oy <= p.1
        < oy + s) by {
        let i = choose|i: int| 0 <= i < pts.len() && #[trigger] pts[i].pair() == p;
        let ux = biased(pts[i].x, f.x as int);
        let uy = biased(pts[i].y, f.y as int);
        if ox <= p.0 < ox + s && oy <= p.1 < oy + s {
            lemma_halves(cx as int, s);
            lemma_halves(cy as int, s);
            lemma_block_unique(ux, level, cx as int);
            lemma_block_unique(uy, level, cy as int);
            assert(tab.contains_key(block_key(pts[i], level, f)));
            assert(false);
        }
    }
}

/// Whether the store `after` came from `before` by taking at most `n` nodes
/// that are no new rungs of the ladder of all-dead keys, and by making the
/// ladder no longer than `rungs`, unless it was longer.  A table that was no
/// larger than its nodes ask for is so still.
pub open spec fn took_at_most(after: &NodeStore, before: &NodeStore, n: int, rungs: int) -> bool {
    &&& after.count() - after.blacks().len() <= before.count() - before.blacks().len() + n
    &&& before.blacks().len() <= after.blacks().len()
    &&& (after.blacks().len() <= before.blacks().len() || after.blacks().len() <= rungs)
    &&& (before.compact() ==> after.compact())
}

/// Whether `s` is a store of squares of the grid `g`: every node is stored
/// under the content hash of its quadrants, and it stands for a square of
/// `g`.
pub open spec fn stores_squares(s: &NodeStore, g: Set<(int, int)>) -> bool {
    forall|k: u128| #[trigger]
        s.nodes().contains_key(k) ==> {
            &&& k == hash_of(s.nodes()[k].v)
            &&& exists|px: int, py: int| tile(s.nodes(), s.levels(), k, s.levels()[k], g, px, py)
        }
}

/// A store of squares of a grid that takes nodes which are stored under
/// their content hash and stand for squares of the grid is one still.
proof fn lemma_squares_kept(before: &NodeStore, after: &NodeStore, g: Set<(int, int)>)
    requires
        before.wf(),
        before.grows_to(after),
        stores_squares(before, g),
        forall|k: u128| #[trigger]
            after.nodes().contains_key(k) && !before.nodes().contains_key(k) ==> {
                &&& k == hash_of(after.nodes()[k].v)
                &&& exists|px: int, py: int|
                    tile(after.nodes(), after.levels(), k, after.levels()[k], g, px, py)
            },
    ensures
        stores_squares(after, g),
{
    before.lemma_wf();
    before.lemma_grows(after);
    assert forall|k: u128| #[trigger] after.nodes().contains_key(k) implies {
        &&& k == hash_of(after.nodes()[k].v)
        &&& exists|px: int, py: int|
            tile(after.nodes(), after.levels(), k, after.levels()[k], g, px, py)
    } by {
        if before.nodes().contains_key(k) {
            assert(crate::treespec::node_ok(before.nodes(), before.levels(), k));
            let (px, py) = choose|px: int, py: int|
                tile(before.nodes(), before.levels(), k, before.levels()[k], g, px, py);
            lemma_tile_extends(
                before.nodes(),
                before.levels(),
                after.nodes(),
                after.levels(),
                k,
                before.levels()[k],
                g,
                px,
                py,
            );
        }
    }
}

/// A store of squares of the points that takes rungs of the ladder of
/// all-dead keys is one still: beside the square of the points every square
/// is empty.
proof fn lemma_rungs_kept(before: &NodeStore, after: &NodeStore, pts: Seq<Point>, f: Frame)
    requires
        before.wf(),
        after.wf(),
        before.grows_to(after),
        after.grew_by_rungs(before),
        fits(pts, f.x as int, f.y as int, f.top as nat),
        stores_squares(before, point_set(pts)),
    ensures
        stores_squares(after, point_set(pts)),
{
    let g = point_set(pts);
    let far = f.x + side(f.top as nat);
    assert forall|k: u128| #[trigger]
        after.nodes().contains_key(k) && !before.nodes().contains_key(k) implies {
        &&& k == hash_of(after.nodes()[k].v)
        &&& exists|px: int, py: int|
            tile(after.nodes(), after.levels(), k, after.levels()[k], g, px, py)
    } by {
        let i = choose|i: int| 1 <= i < after.blacks().len() && #[trigger] after.blacks()[i] == k;
        after.lemma_black(i);
        after.lemma_wf();
        assert(outside(g, far, f.y as int, side(i as nat))) by {
            assert forall|p: (int, int)| #[trigger] g.contains(p) implies !(far <= p.0 < far + side(
                i as nat,
            ) && f.y <= p.1 < f.y + side(i as nat)) by {
                let j = choose|j: int| 0 <= j < pts.len() && #[trigger] pts[j].pair() == p;
                assert(biased(pts[j].x, f.x as int) < side(f.top as nat));
            }
        }
        lemma_empty_tile(after.nodes(), after.levels(), k, i as nat, g, far, f.y as int);
    }
    lemma_squares_kept(before, after, g);
}

/// A store of squares of a grid that takes one node which is stored under
/// its content hash and stands for a square of the grid is one still.
proof fn lemma_node_kept(
    before: &NodeStore,
    after: &NodeStore,
    g: Set<(int, int)>,
    k: u128,
    level: nat,
    px: int,
    py: int,
)
    requires
        before.wf(),
        before.grows_to(after),
        stores_squares(before, g),
        level >= 1,
        forall|j: u128| #[trigger]
            after.nodes().contains_key(j) ==> before.nodes().contains_key(j) || j == k,
        k == hash_of(after.nodes()[k].v),
        tile(after.nodes(), after.levels(), k, level, g, px, py),
    ensures
        stores_squares(after, g),
{
    assert(valid(after.nodes(), after.levels(), k, level)) by {
        reveal(tile);
    }
    lemma_squares_kept(before, after, g);
}

/// The key that stands for the block in column `cx` and row `cy` of a level:
/// the key that the table of the level holds for it, or the all-dead key of
/// the level where no point lies in the block.
fn child_key(
    store: &mut NodeStore,
    prev_map: &LargeKeyTable<u128>,
    cx: u64,
    cy: u64,
    level: usize,
    Ghost(pts): Ghost<Seq<Point>>,
    Ghost(f): Ghost<Frame>,
) -> (r: Result<u128, StoreError>)
    requires
        old(store).wf(),
        prev_map.wf(),
        level <= 60,
        fits(pts, f.x as int, f.y as int, f.top as nat),
        level_ok(old(store), prev_map@, pts, level as nat, f),
    ensures
        final(store).wf(),
        old(store).grows_to(final(store)),
        match r {
            Ok(k) => tile(
                final(store).nodes(),
                final(store).levels(),
                k,
                level as nat,
                point_set(pts),
                origin(cx as int, level as nat, f.x as int),
                origin(cy as int, level as nat, f.y as int),
            ),
            Err(e) => final(store).explains(e),
        },
        stores_squares(old(store), point_set(pts)) ==> stores_squares(final(store), point_set(pts)),
        old(store).keyed() ==> final(store).keyed(),
        took_at_most(final(store), old(store), 0, level + 1),
{
    let ghost start = *store;
    proof {
        start.lemma_grows_refl();
    }
    let ck: u128 = ((cy as u128) << 64) | (cx as u128);
    match prev_map.get(ck) {
        Some(key) => {
            proof {
                lemma_pack(cx, cy);
                assert(entry_ok(&start, ck, prev_map@[ck], level as nat, point_set(pts), f));
            }
            Ok(key)
        },
        None => {
            let made = store.black_key(level);
            proof {
                if stores_squares(&start, point_set(pts)) {
                    lemma_rungs_kept(&start, store, pts, f);
                }
            }
            let k = match made {
                Ok(k) => k,
                Err(e) => {
                    return Err(e);
                },
            };
            proof {
                lemma_uncovered(prev_map@, pts, level as nat, cx, cy, f);
                store.lemma_black(level as int);
                store.lemma_wf();
                lemma_empty_tile(
                    store.nodes(),
                    store.levels(),
                    k,
                    level as nat,
                    point_set(pts),
                    origin(cx as int, level as nat, f.x as int),
                    origin(cy as int, level as nat, f.y as int),
                );
            }
            Ok(k)
        },
    }
}

/// The key of the node of the block in column `px` and row `py` of the level
/// `depth`, made of the four blocks of the level below that it holds.
#[verifier::rlimit(50)]
fn parent_key(
    store: &mut NodeStore,
    prev_map: &LargeKeyTable<u128>,
    px: u64,
    py: u64,
    depth: usize,
    Ghost(pts): Ghost<Seq<Point>>,
    Ghost(f): Ghost<Frame>,
) -> (r: Result<u128, StoreError>)
    requires
        old(store).wf(),
        prev_map.wf(),
        1 <= depth <= f.top <= 61,
        px < pow2((f.top - depth) as nat),
        py < pow2((f.top - depth) as nat),
        fits(pts, f.x as int, f.y as int, f.top as nat),
        level_ok(old(store), prev_map@, pts, (depth - 1) as nat, f),
    ensures
        final(store).wf(),
        old(store).grows_to(final(store)),
        match r {
            Ok(k) => tile(
                final(store).nodes(),
                final(store).levels(),
                k,
                depth as nat,
                point_set(pts),
                origin(px as int, depth as nat, f.x as int),
                origin(py as int, depth as nat, f.y as int),
            ),
            Err(e) => final(store).explains(e),
        },
        stores_squares(old(store), point_set(pts)) ==> stores_squares(final(store), point_set(pts)),
        old(store).keyed() ==> final(store).keyed(),
        took_at_most(final(store), old(store), 1, depth as int),
{
    let ghost start = *store;
    let ghost g = point_set(pts);
    let ghost sub = (depth - 1) as nat;
    let ghost s = side(sub);
    let ghost ox = origin(px as int, depth as nat, f.x as int);
    let ghost oy = origin(py as int, depth as nat, f.y as int);
    proof {
        lemma2_to64();
        lemma2_to64_rest();
        crate::stepper::lemma_pow2_le((f.top - depth) as nat, 60);
        crate::treespec::lemma_side(sub);
        crate::treespec::lemma_side(depth as nat);
        lemma_halves(px as int, s);
        lemma_halves(py as int, s);
        assert(origin(2 * px as int, sub, f.x as int) == ox);
        assert(origin(2 * px + 1 as int, sub, f.x as int) == ox + s);
        assert(origin(2 * py as int, sub, f.y as int) == oy);
        assert(origin(2 * py + 1 as int, sub, f.y as int) == oy + s);
    }
    let c0 = match child_key(store, prev_map, 2 * px, 2 * py, depth - 1, Ghost(pts), Ghost(f)) {
        Ok(k) => k,
        Err(e) => {
            return Err(e);
        },
    };
    let ghost s1 = *store;
    proof {
        lemma_level_frame(&start, &s1, prev_map@, sub, g, f);
    }
    let c1 = match child_key(store, prev_map, 2 * px + 1, 2 * py, depth - 1, Ghost(pts), Ghost(f)) {
        Ok(k) => k,
        Err(e) => {
            proof {
                start.lemma_grows_trans(&s1, store);
            }
            return Err(e);
        },
    };
    let ghost s2 = *store;
    proof {
        start.lemma_grows_trans(&s1, &s2);
        lemma_level_frame(&s1, &s2, prev_map@, sub, g, f);
        lemma_frame(&s1, &s2);
    }
    let c2 = match child_key(store, prev_map, 2 * px, 2 * py + 1, depth - 1, Ghost(pts), Ghost(f)) {
        Ok(k) => k,
        Err(e) => {
            proof {
                start.lemma_grows_trans(&s2, store);
            }
            return Err(e);
        },
    };
    let ghost s3 = *store;
    proof {
        start.lemma_grows_trans(&s2, &s3);
        lemma_level_frame(&s2, &s3, prev_map@, sub, g, f);
        lemma_frame(&s2, &s3);
    }
    let c3 = match child_key(
        store,
        prev_map,
        2 * px + 1,
        2 * py + 1,
        depth - 1,
        Ghost(pts),
        Ghost(f),
    ) {
        Ok(k) => k,
        Err(e) => {
            proof {
                start.lemma_grows_trans(&s3, store);
            }
            return Err(e);
        },
    };
    let ghost s4 = *store;
    let ghost value = QuadTreeValue { lt: c0, rt: c1, lb: c2, rb: c3 };
    proof {
        start.lemma_grows_trans(&s3, &s4);
        lemma_frame(&s3, &s4);
        assert(value_tile(s4.nodes(), s4.levels(), value, sub, g, ox, oy));
        lemma_value_ready(s4.nodes(), s4.levels(), value, sub, g, ox, oy);
    }
    match store.add_array([c0, c1, c2, c3]) {
        Ok(k) => {
            proof {
                start.lemma_grows_trans(&s4, store);
                lemma_frame(&s4, store);
                lemma_node_tile(store.nodes(), store.levels(), k, sub, g, ox, oy);
                if stores_squares(&s4, g) {
                    lemma_node_kept(&s4, store, g, k, depth as nat, ox, oy);
                }
            }
            Ok(k)
        },
        Err(e) => {
            proof {
                start.lemma_grows_trans(&s4, store);
            }
            Err(e)
        },
    }
}

/// The key of the block of the next level that holds the block with the key
/// `k`.
pub open spec fn parent_of(k: u128) -> u128 {
    pack(column_of(k) / 2, row_of(k) / 2)
}

proof fn lemma_parents_cover(
    prev: Map<u128, u128>,
    next: Map<u128, u128>,
    entries: Seq<(u128, u128)>,
    pts: Seq<Point>,
    level: nat,
    f: Frame,
)
    requires
        level < f.top <= 61,
        fits(pts, f.x as int, f.y as int, f.top as nat),
        covers(prev, pts, level, f),
        forall|k: u128| #[trigger]
            prev.contains_key(k) ==> exists|j: int|
                0 <= j < entries.len() && (#[trigger] entries[j]).0 == k,
        forall|j: int|
            0 <= j < entries.len() ==> next.contains_key(parent_of((#[trigger] entries[j]).0)),
    ensures
        covers(next, pts, level + 1, f),
{
    lemma2_to64();
    lemma2_to64_rest();
    assert forall|i: int| 0 <= i < pts.len() implies next.contains_key(
        #[trigger] block_key(pts[i], level + 1, f),
    ) by {
        let ux = biased(pts[i].x, f.x as int);
        let uy = biased(pts[i].y, f.y as int);
        lemma_block_range(ux, level, f.top as nat);
        lemma_block_range(uy, level, f.top as nat);
        crate::stepper::lemma_pow2_le((f.top - level) as nat, 61);
        let bx = block_of(ux, level) as u64;
        let by = block_of(uy, level) as u64;
        let k = pack(bx, by);
        assert(k == block_key(pts[i], level, f));
        assert(prev.contains_key(k));
        let j = choose|j: int| 0 <= j < entries.len() && (#[trigger] entries[j]).0 == k;
        lemma_pack(bx, by);
        assert(next.contains_key(parent_of(entries[j].0)));
    }
}

/// The table of the blocks of the level `depth` in which a point lies, made
/// from the table of the level below.  Where a block of the level below
/// holds no point, the all-dead key of that level stands for it.
#[verifier::rlimit(50)]
pub(crate) fn gather_points_recurive(
    store: &mut NodeStore,
    prev_map: &LargeKeyTable<u128>,
    depth: usize,
    Ghost(pts): Ghost<Seq<Point>>,
    Ghost(f): Ghost<Frame>,
) -> (r: Result<LargeKeyTable<u128>, StoreError>)
    requires
        old(store).wf(),
        prev_map.wf(),
        1 <= depth <= f.top <= 61,
        fits(pts, f.x as int, f.y as int, f.top as nat),
        level_ok(old(store), prev_map@, pts, (depth - 1) as nat, f),
    ensures
        final(store).wf(),
        old(store).grows_to(final(store)),
        match r {
            Ok(t) => {
                &&& t.wf()
                &&& t.spec_null_key() == u128::MAX
                &&& level_ok(final(store), t@, pts, depth as nat, f)
                &&& small_table(&t, prev_map@.dom().len())
            },
            Err(e) => final(store).explains(e) || (e == StoreError::OutOfRange && 4
                * prev_map@.dom().len() + 4 > usize::MAX / 4),
        },
        stores_squares(old(store), point_set(pts)) ==> stores_squares(final(store), point_set(pts)),
        old(store).keyed() ==> final(store).keyed(),
        took_at_most(final(store), old(store), prev_map@.dom().len() as int, depth as int),
{
    let ghost start = *store;
    let ghost g = point_set(pts);
    let ghost sub = (depth - 1) as nat;
    proof {
        lemma2_to64();
        lemma2_to64_rest();
        start.lemma_grows_refl();
        lemma_pow2_unfold((f.top - sub) as nat);
        crate::stepper::lemma_pow2_le((f.top - depth) as nat, 60);
    }
    let entries = prev_map.iter();
    let mut map: LargeKeyTable<u128> = LargeKeyTable::new(1, u128::MAX, 0);
    let mut j: usize = 0;
    while j < entries.len()
        invariant
            j <= entries.len(),
            store.wf(),
            prev_map.wf(),
            start == *old(store),
            start.grows_to(store),
            1 <= depth <= f.top <= 61,
            sub == (depth - 1) as nat,
            g == point_set(pts),
            fits(pts, f.x as int, f.y as int, f.top as nat),
            map.wf(),
            map.spec_null_key() == u128::MAX,
            level_ok(store, prev_map@, pts, sub, f),
            forall|i: int|
                0 <= i < entries@.len() ==> prev_map@.contains_key((#[trigger] entries@[i]).0),
            forall|k: u128| #[trigger]
                map@.contains_key(k) ==> entry_ok(store, k, map@[k], depth as nat, g, f),
            forall|i: int| 0 <= i < j ==> map@.contains_key(parent_of((#[trigger] entries@[i]).0)),
            stores_squares(&start, g) ==> stores_squares(store, g),
            start.keyed() ==> store.keyed(),
            entries@.len() == prev_map@.dom().len(),
            small_table(&map, j as nat),
            took_at_most(store, &start, j as int, depth as int),
        decreases entries.len() - j,
    {
        let k = entries[j].0;
        let bx: u64 = (k & 0xffff_ffff_ffff_ffff) as u64;
        let by: u64 = (k >> 64) as u64;
        let px = bx / 2;
        let py = by / 2;
        let newp: u128 = ((py as u128) << 64) | (px as u128);
        proof {
            assert(prev_map@.contains_key(k));
            assert(entry_ok(store, k, prev_map@[k], sub, g, f));
            lemma_pow2_unfold((f.top - sub) as nat);
            lemma_pack(px, py);
            crate::stepper::lemma_pow2_le((f.top - depth) as nat, 60);
        }
        if map.get(newp).is_none() {
            let ghost before = *store;
            let key = match parent_key(store, prev_map, px, py, depth, Ghost(pts), Ghost(f)) {
                Ok(key) => key,
                Err(e) => {
                    proof {
                        start.lemma_grows_trans(&before, store);
                    }
                    return Err(e);
                },
            };
            proof {
                start.lemma_grows_trans(&before, store);
                lemma_level_frame(&before, store, prev_map@, sub, g, f);
                lemma_level_frame(&before, store, map@, depth as nat, g, f);
            }
            if !map.has_room() {
                return Err(StoreError::OutOfRange);
            }
            let ghost full = map;
            map.add(newp, key);
            proof {
                lemma_block_added(&full, &map, newp, key, j as nat);
            }
        }
        j = j + 1;
    }
    proof {
        lemma_parents_cover(prev_map@, map@, entries@, pts, sub, f);
    }
    Ok(map)
}

/// The key of the node that holds the given points, of which there is at
/// least one, in the square of `f`.
pub fn gather_levels(store: &mut NodeStore, points: &Vec<Point>, f: &Frame) -> (r: Result<
    u128,
    StoreError,
>)
    requires
        old(store).wf(),
        points@.len() > 0,
        f.wf(),
        fits(points@, f.x as int, f.y as int, f.top as nat),
    ensures
        final(store).wf(),
        old(store).grows_to(final(store)),
        match r {
            Ok(root) => tile(
                final(store).nodes(),
                final(store).levels(),
                root,
                f.top as nat,
                point_set(points@),
                f.x as int,
                f.y as int,
            ),
            Err(e) => final(store).explains(e) || (e == StoreError::OutOfRange && 4
                * points@.len() + 4 > usize::MAX / 4),
        },
        stores_squares(old(store), point_set(points@)) ==> stores_squares(
            final(store),
            point_set(points@),
        ),
        old(store).keyed() ==> final(store).keyed(),
        took_at_most(final(store), old(store), f.top * points@.len(), f.top as int),
{
    let ghost start = *store;
    let ghost g = point_set(points@);
    proof {
        start.lemma_grows_refl();
    }
    let mut cur_map = match gather_raw_points(points, f) {
        Ok(t) => t,
        Err(e) => {
            return Err(e);
        },
    };
    proof {
        lemma_raw_level(store, cur_map@, points@, *f);
    }
    let mut depth: u64 = 0;
    while depth < f.top
        invariant
            store.wf(),
            start == *old(store),
            start.grows_to(store),
            depth <= f.top <= 61,
            fits(points@, f.x as int, f.y as int, f.top as nat),
            cur_map.wf(),
            cur_map.spec_null_key() == u128::MAX,
            level_ok(store, cur_map@, points@, depth as nat, *f),
            g == point_set(points@),
            stores_squares(&start, g) ==> stores_squares(store, g),
            start.keyed() ==> store.keyed(),
            small_table(&cur_map, points@.len()),
            took_at_most(store, &start, depth * points@.len(), depth as int),
        decreases f.top - depth,
    {
        proof {
            assert((depth + 1) * points@.len() == depth * points@.len() + points@.len())
                by (nonlinear_arith);
        }
        depth = depth + 1;
        let ghost before = *store;
        cur_map = match gather_points_recurive(
            store,
            &cur_map,
            depth as usize,
            Ghost(points@),
            Ghost(*f),
        ) {
                Ok(t) => t,
                Err(e) => {
                    proof {
                        start.lemma_grows_trans(&before, store);
                        assert(depth * points@.len() <= f.top * points@.len())
                            by (nonlinear_arith)
                            requires
                                depth <= f.top,
                        ;
                    }
                    return Err(e);
                },
            };
        proof {
            start.lemma_grows_trans(&before, store);
        }
    }
    proof {
        lemma2_to64();
        let p = points@[0];
        let ux = biased(p.x, f.x as int);
        let uy = biased(p.y, f.y as int);
        lemma_block_range(ux, f.top as nat, f.top as nat);
        lemma_block_range(uy, f.top as nat, f.top as nat);
        assert(block_key(p, f.top as nat, *f) == pack(0, 0));
        assert(pack(0, 0) == 0) by (bit_vector);
        assert(cur_map@.contains_key(0));
        assert(entry_ok(store, 0, cur_map@[0], f.top as nat, g, *f));
        lemma_pack(0, 0);
        let s = side(f.top as nat);
        let c = column_of(0) as int;
        let r = row_of(0) as int;
        assert(c * s == 0 && r * s == 0) by (nonlinear_arith)
            requires
                c == 0,
                r == 0,
        ;
    }
    Ok(cur_map.get(0).unwrap())
}

} // verus!
