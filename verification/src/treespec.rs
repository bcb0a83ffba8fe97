//! What the keys of a node table stand for: squares of cells.
//!
//! A key of level 0 is a raw block of 8x8 cells.  A key of level `l + 1`
//! names a node whose four quadrants are keys of level `l`, so it stands for
//! a square of side `8 * 2^(l + 1)`.

use crate::bitgrid::block_cell;
use crate::life::{generations, lemma_generations_shifted, lemma_locality, near, shifted};
use crate::quadvalue::{is_raw_key, QuadTreeNode, QuadTreeValue, NULL_KEY};
use vstd::arithmetic::power2::{lemma2_to64, lemma_pow2_pos, lemma_pow2_unfold, pow2};
use vstd::prelude::*;

verus! {

/// The side of the square that a key of the given level stands for.
pub open spec fn side(level: nat) -> int {
    8 * (pow2(level) as int)
}

pub(crate) proof fn lemma_side(level: nat)
    ensures
        side(level) >= 8,
        side(0) == 8,
        level >= 1 ==> side(level) == 2 * side((level - 1) as nat),
        side(level + 1) == 2 * side(level),
{
    lemma_pow2_pos(level);
    lemma2_to64();
    lemma_pow2_unfold(level + 1);
    if level >= 1 {
        lemma_pow2_unfold(level);
    }
}

/// The quadrant of `v` that holds the cell `(x, y)`, where `h` is the side of
/// a quadrant.
pub open spec fn child_of(v: QuadTreeValue, h: int, x: int, y: int) -> u128 {
    if y < h {
        if x < h {
            v.lt
        } else {
            v.rt
        }
    } else {
        if x < h {
            v.lb
        } else {
            v.rb
        }
    }
}

/// A coordinate taken relative to the quadrant it falls in.
pub open spec fn within(h: int, x: int) -> int {
    if x < h {
        x
    } else {
        x - h
    }
}

/// Whether cell `(x, y)` of the square that `key` stands for is alive.
pub open spec fn cell(m: Map<u128, QuadTreeNode>, key: u128, level: nat, x: int, y: int) -> bool
    decreases level,
{
    if level == 0 {
        block_cell(key as u64, x, y)
    } else if 0 <= x < side(level) && 0 <= y < side(level) {
        let h = side((level - 1) as nat);
        cell(m, child_of(m[key].v, h, x, y), (level - 1) as nat, within(h, x), within(h, y))
    } else {
        false
    }
}

/// Whether cell `(x, y)` of the square that the four quadrants of `v` form is
/// alive, where the quadrants are keys of level `level`.
pub open spec fn value_cell(
    m: Map<u128, QuadTreeNode>,
    v: QuadTreeValue,
    level: nat,
    x: int,
    y: int,
) -> bool {
    let h = side(level);
    0 <= x < 2 * h && 0 <= y < 2 * h && cell(m, child_of(v, h, x, y), level, within(h, x), within(h, y))
}

/// The live cells of the square that `key` stands for.
pub open spec fn cells(m: Map<u128, QuadTreeNode>, key: u128, level: nat) -> Set<(int, int)> {
    Set::new(|p: (int, int)| cell(m, key, level, p.0, p.1))
}

/// The live cells of the square that the four quadrants of `v` form.
pub open spec fn value_cells(m: Map<u128, QuadTreeNode>, v: QuadTreeValue, level: nat) -> Set<
    (int, int),
> {
    Set::new(|p: (int, int)| value_cell(m, v, level, p.0, p.1))
}

pub(crate) proof fn lemma_cell_in_range(m: Map<u128, QuadTreeNode>, key: u128, level: nat, x: int, y: int)
    requires
        cell(m, key, level, x, y),
    ensures
        0 <= x < side(level),
        0 <= y < side(level),
{
    lemma_side(level);
}

/// The number of live cells of the square that `key` stands for.
pub open spec fn live_count(m: Map<u128, QuadTreeNode>, key: u128, level: nat) -> nat
    decreases level,
{
    if level == 0 {
        popcount(key as u64)
    } else {
        let v = m[key].v;
        live_count(m, v.lt, (level - 1) as nat) + live_count(m, v.rt, (level - 1) as nat)
            + live_count(m, v.lb, (level - 1) as nat) + live_count(m, v.rb, (level - 1) as nat)
    }
}

/// The number of live cells of the square that the quadrants of `v` form.
pub open spec fn value_count(m: Map<u128, QuadTreeNode>, v: QuadTreeValue, level: nat) -> nat {
    live_count(m, v.lt, level) + live_count(m, v.rt, level) + live_count(m, v.lb, level)
        + live_count(m, v.rb, level)
}

/// A count as it is stored: the number itself, or the largest number of 64
/// bits where it does not fit.
pub open spec fn capped(n: nat) -> u64 {
    if n >= u64::MAX {
        u64::MAX
    } else {
        n as u64
    }
}

/// The number of bits of `v` that are set.
pub open spec fn popcount(v: u64) -> nat
    decreases v,
{
    if v == 0 {
        0
    } else {
        proof {
            assert(v != 0 ==> (v >> 1) < v) by (bit_vector);
        }
        ((v & 1) as nat) + popcount(v >> 1)
    }
}

pub(crate) proof fn lemma_popcount_zero(v: u64)
    ensures
        popcount(v) == 0 <==> v == 0,
        popcount(v) <= 64,
    decreases v,
{
    lemma_popcount_bound(v, 64);
    if v != 0 {
        assert(v != 0 ==> (v >> 1) < v) by (bit_vector);
        assert(v != 0 && v & 1 == 0 ==> (v >> 1) != 0) by (bit_vector);
        assert(v & 1 == 0 || v & 1 == 1) by (bit_vector);
        lemma_popcount_zero(v >> 1);
    }
}

proof fn lemma_popcount_bound(v: u64, bits: nat)
    requires
        bits <= 64,
        bits < 64 ==> v >> (bits as u64) == 0,
    ensures
        popcount(v) <= bits,
    decreases bits,
{
    if v != 0 {
        assert(v & 1 == 0 || v & 1 == 1) by (bit_vector);
        if bits == 0 {
            assert(v >> 0u64 == v) by (bit_vector);
        } else {
            let b = bits as u64;
            let c = (bits - 1) as u64;
            assert((b < 64 ==> v >> b == 0) && 1 <= b <= 64 && c == b - 1 ==> (c < 64 ==> (v
                >> 1) >> c == 0)) by (bit_vector);
            lemma_popcount_bound(v >> 1, (bits - 1) as nat);
        }
    }
}

/// Whether `key` is a key of the given level: a raw block for level 0, else
/// the key of a stored node of that level.
pub open spec fn valid(
    m: Map<u128, QuadTreeNode>,
    dm: Map<u128, nat>,
    key: u128,
    level: nat,
) -> bool {
    if level == 0 {
        is_raw_key(key)
    } else {
        &&& !is_raw_key(key)
        &&& key != NULL_KEY
        &&& m.contains_key(key)
        &&& dm.contains_key(key)
        &&& dm[key] == level
    }
}

/// Whether the four quadrants of `v` are keys of the given level.
pub open spec fn value_valid(
    m: Map<u128, QuadTreeNode>,
    dm: Map<u128, nat>,
    v: QuadTreeValue,
    level: nat,
) -> bool {
    &&& valid(m, dm, v.lt, level)
    &&& valid(m, dm, v.rt, level)
    &&& valid(m, dm, v.lb, level)
    &&& valid(m, dm, v.rb, level)
}

/// A quarter of the side of a key of the given level.  It is also the largest
/// number of generations that a node of that level is advanced by at once.
pub open spec fn quarter(level: nat) -> int {
    2 * (pow2(level) as int)
}

/// Whether `fwd` stands for the centre of the square of the quadrants of `v`
/// after as many generations as a quarter of its side has cells.
#[verifier::opaque]
pub open spec fn forward_ok(
    m: Map<u128, QuadTreeNode>,
    v: QuadTreeValue,
    fwd: u128,
    level: nat,
) -> bool
    recommends
        level >= 1,
{
    let q = quarter(level);
    forall|a: int, b: int|
        0 <= a < 2 * q && 0 <= b < 2 * q ==> (#[trigger] cell(m, fwd, (level - 1) as nat, a, b)
            <==> generations(value_cells(m, v, (level - 1) as nat), q as nat).contains(
            (a + q, b + q),
        ))
}

/// What holds of every stored node: its key is the key of a node, its
/// quadrants are keys of the level below its own, its count is the number of
/// its live cells, and its forward key, where it has one, stands for its
/// centre after a quarter of its side in generations.
pub open spec fn node_ok(m: Map<u128, QuadTreeNode>, dm: Map<u128, nat>, k: u128) -> bool {
    &&& !is_raw_key(k)
    &&& k != NULL_KEY
    &&& dm.contains_key(k)
    &&& dm[k] >= 1
    &&& value_valid(m, dm, m[k].v, (dm[k] - 1) as nat)
    &&& m[k].set_count == capped(value_count(m, m[k].v, (dm[k] - 1) as nat))
    &&& (m[k].forward_key != NULL_KEY ==> {
        &&& valid(m, dm, m[k].forward_key, (dm[k] - 1) as nat)
        &&& forward_ok(m, m[k].v, m[k].forward_key, dm[k])
    })
}

pub open spec fn store_ok(m: Map<u128, QuadTreeNode>, dm: Map<u128, nat>) -> bool {
    forall|k: u128| #[trigger] m.contains_key(k) ==> node_ok(m, dm, k)
}

/// Whether the second table holds all that the first one holds: no node was
/// lost, none changed its quadrants, count or level, and no forward key was
/// changed once it was set.
pub open spec fn extends(
    m: Map<u128, QuadTreeNode>,
    dm: Map<u128, nat>,
    m2: Map<u128, QuadTreeNode>,
    dm2: Map<u128, nat>,
) -> bool {
    forall|k: u128| #[trigger]
        m.contains_key(k) ==> {
            &&& m2.contains_key(k)
            &&& m2[k].v == m[k].v
            &&& m2[k].set_count == m[k].set_count
            &&& (m[k].forward_key != NULL_KEY ==> m2[k].forward_key == m[k].forward_key)
            &&& (dm.contains_key(k) ==> dm2.contains_key(k) && dm2[k] == dm[k])
        }
}

pub(crate) proof fn lemma_extends_trans(
    m: Map<u128, QuadTreeNode>,
    dm: Map<u128, nat>,
    m2: Map<u128, QuadTreeNode>,
    dm2: Map<u128, nat>,
    m3: Map<u128, QuadTreeNode>,
    dm3: Map<u128, nat>,
)
    requires
        extends(m, dm, m2, dm2),
        extends(m2, dm2, m3, dm3),
    ensures
        extends(m, dm, m3, dm3),
{
    assert forall|k: u128| #[trigger] m.contains_key(k) implies {
        &&& m3.contains_key(k)
        &&& m3[k].v == m[k].v
        &&& m3[k].set_count == m[k].set_count
        &&& (m[k].forward_key != NULL_KEY ==> m3[k].forward_key == m[k].forward_key)
        &&& (dm.contains_key(k) ==> dm3.contains_key(k) && dm3[k] == dm[k])
    } by {
        assert(m2.contains_key(k));
    }
}

pub(crate) proof fn lemma_valid_extends(
    m: Map<u128, QuadTreeNode>,
    dm: Map<u128, nat>,
    m2: Map<u128, QuadTreeNode>,
    dm2: Map<u128, nat>,
    key: u128,
    level: nat,
)
    requires
        extends(m, dm, m2, dm2),
        valid(m, dm, key, level),
    ensures
        valid(m2, dm2, key, level),
{
    if level > 0 {
        assert(m.contains_key(key));
    }
}

/// A key stands for the same cells in every table that extends the one it is
/// a key of.
pub(crate) proof fn lemma_cell_extends(
    m: Map<u128, QuadTreeNode>,
    dm: Map<u128, nat>,
    m2: Map<u128, QuadTreeNode>,
    dm2: Map<u128, nat>,
    key: u128,
    level: nat,
    x: int,
    y: int,
)
    requires
        store_ok(m, dm),
        extends(m, dm, m2, dm2),
        valid(m, dm, key, level),
    ensures
        cell(m2, key, level, x, y) == cell(m, key, level, x, y),
    decreases level,
{
    if level > 0 {
        assert(m.contains_key(key));
        assert(node_ok(m, dm, key));
        let h = side((level - 1) as nat);
        let c = child_of(m[key].v, h, x, y);
        lemma_cell_extends(m, dm, m2, dm2, c, (level - 1) as nat, within(h, x), within(h, y));
    }
}

pub(crate) proof fn lemma_count_extends(
    m: Map<u128, QuadTreeNode>,
    dm: Map<u128, nat>,
    m2: Map<u128, QuadTreeNode>,
    dm2: Map<u128, nat>,
    key: u128,
    level: nat,
)
    requires
        store_ok(m, dm),
        extends(m, dm, m2, dm2),
        valid(m, dm, key, level),
    ensures
        live_count(m2, key, level) == live_count(m, key, level),
    decreases level,
{
    if level > 0 {
        assert(m.contains_key(key));
        assert(node_ok(m, dm, key));
        let v = m[key].v;
        lemma_count_extends(m, dm, m2, dm2, v.lt, (level - 1) as nat);
        lemma_count_extends(m, dm, m2, dm2, v.rt, (level - 1) as nat);
        lemma_count_extends(m, dm, m2, dm2, v.lb, (level - 1) as nat);
        lemma_count_extends(m, dm, m2, dm2, v.rb, (level - 1) as nat);
    }
}

pub(crate) proof fn lemma_value_extends(
    m: Map<u128, QuadTreeNode>,
    dm: Map<u128, nat>,
    m2: Map<u128, QuadTreeNode>,
    dm2: Map<u128, nat>,
    v: QuadTreeValue,
    level: nat,
)
    requires
        store_ok(m, dm),
        extends(m, dm, m2, dm2),
        value_valid(m, dm, v, level),
    ensures
        value_valid(m2, dm2, v, level),
        value_cells(m2, v, level) == value_cells(m, v, level),
        value_count(m2, v, level) == value_count(m, v, level),
{
    lemma_valid_extends(m, dm, m2, dm2, v.lt, level);
    lemma_valid_extends(m, dm, m2, dm2, v.rt, level);
    lemma_valid_extends(m, dm, m2, dm2, v.lb, level);
    lemma_valid_extends(m, dm, m2, dm2, v.rb, level);
    lemma_count_extends(m, dm, m2, dm2, v.lt, level);
    lemma_count_extends(m, dm, m2, dm2, v.rt, level);
    lemma_count_extends(m, dm, m2, dm2, v.lb, level);
    lemma_count_extends(m, dm, m2, dm2, v.rb, level);
    assert forall|p: (int, int)|
        value_cells(m2, v, level).contains(p) <==> value_cells(m, v, level).contains(p) by {
        let h = side(level);
        let c = child_of(v, h, p.0, p.1);
        lemma_cell_extends(m, dm, m2, dm2, c, level, within(h, p.0), within(h, p.1));
    }
    assert(value_cells(m2, v, level) =~= value_cells(m, v, level));
}

/// A node that holds of one table holds of every table that extends it and
/// keeps the node's forward key.
pub(crate) proof fn lemma_node_ok_extends(
    m: Map<u128, QuadTreeNode>,
    dm: Map<u128, nat>,
    m2: Map<u128, QuadTreeNode>,
    dm2: Map<u128, nat>,
    k: u128,
)
    requires
        store_ok(m, dm),
        extends(m, dm, m2, dm2),
        m.contains_key(k),
        m2[k].forward_key == m[k].forward_key,
    ensures
        node_ok(m2, dm2, k),
{
    assert(node_ok(m, dm, k));
    let level = dm[k];
    let below = (level - 1) as nat;
    lemma_value_extends(m, dm, m2, dm2, m[k].v, below);
    if m[k].forward_key != NULL_KEY {
        reveal(forward_ok);
        let fwd = m[k].forward_key;
        lemma_valid_extends(m, dm, m2, dm2, fwd, below);
        let q = quarter(level);
        assert forall|a: int, b: int| 0 <= a < 2 * q && 0 <= b < 2 * q implies (#[trigger] cell(
            m2,
            fwd,
            below,
            a,
            b,
        ) <==> generations(value_cells(m2, m2[k].v, below), q as nat).contains(
            (a + q, b + q),
        )) by {
            lemma_cell_extends(m, dm, m2, dm2, fwd, below, a, b);
            assert(cell(m, fwd, below, a, b) <==> generations(
                value_cells(m, m[k].v, below),
                q as nat,
            ).contains((a + q, b + q)));
        }
    }
}

/// The table stays in order where every node that is new or changed is in
/// order.
pub(crate) proof fn lemma_store_ok_extends(
    m: Map<u128, QuadTreeNode>,
    dm: Map<u128, nat>,
    m2: Map<u128, QuadTreeNode>,
    dm2: Map<u128, nat>,
)
    requires
        store_ok(m, dm),
        extends(m, dm, m2, dm2),
        forall|k: u128| #[trigger]
            m2.contains_key(k) ==> (m.contains_key(k) && m2[k].forward_key == m[k].forward_key)
                || node_ok(m2, dm2, k),
    ensures
        store_ok(m2, dm2),
{
    assert forall|k: u128| #[trigger] m2.contains_key(k) implies node_ok(m2, dm2, k) by {
        if m.contains_key(k) && m2[k].forward_key == m[k].forward_key {
            lemma_node_ok_extends(m, dm, m2, dm2, k);
        }
    }
}

/// Whether `key` is a key of the given level whose cells are the cells of `g`
/// in the square whose top left corner is `(px, py)`.
#[verifier::opaque]
pub open spec fn tile(
    m: Map<u128, QuadTreeNode>,
    dm: Map<u128, nat>,
    key: u128,
    level: nat,
    g: Set<(int, int)>,
    px: int,
    py: int,
) -> bool {
    &&& valid(m, dm, key, level)
    &&& forall|a: int, b: int|
        0 <= a < side(level) && 0 <= b < side(level) ==> (#[trigger] cell(m, key, level, a, b)
            <==> g.contains((px + a, py + b)))
}

pub(crate) proof fn lemma_tile_extends(
    m: Map<u128, QuadTreeNode>,
    dm: Map<u128, nat>,
    m2: Map<u128, QuadTreeNode>,
    dm2: Map<u128, nat>,
    key: u128,
    level: nat,
    g: Set<(int, int)>,
    px: int,
    py: int,
)
    requires
        store_ok(m, dm),
        extends(m, dm, m2, dm2),
        tile(m, dm, key, level, g, px, py),
    ensures
        tile(m2, dm2, key, level, g, px, py),
{
    reveal(tile);
    lemma_valid_extends(m, dm, m2, dm2, key, level);
    assert forall|a: int, b: int| 0 <= a < side(level) && 0 <= b < side(level) implies (
    #[trigger] cell(m2, key, level, a, b) <==> g.contains((px + a, py + b))) by {
        lemma_cell_extends(m, dm, m2, dm2, key, level, a, b);
        assert(cell(m, key, level, a, b) <==> g.contains((px + a, py + b)));
    }
}

/// Whether the four quadrants of `v` are keys of the given level that
/// together hold the cells of `g` in the square at `(px, py)`.
pub open spec fn value_tile(
    m: Map<u128, QuadTreeNode>,
    dm: Map<u128, nat>,
    v: QuadTreeValue,
    level: nat,
    g: Set<(int, int)>,
    px: int,
    py: int,
) -> bool {
    let h = side(level);
    &&& tile(m, dm, v.lt, level, g, px, py)
    &&& tile(m, dm, v.rt, level, g, px + h, py)
    &&& tile(m, dm, v.lb, level, g, px, py + h)
    &&& tile(m, dm, v.rb, level, g, px + h, py + h)
}

/// The centre of a square after no more generations than a quarter of its
/// side depends on the square alone: whatever lies around it plays no part.
pub(crate) proof fn lemma_centre_local(
    g: Set<(int, int)>,
    c: Set<(int, int)>,
    px: int,
    py: int,
    q: int,
    n: nat,
    a: int,
    b: int,
)
    requires
        q >= 0,
        n <= q,
        forall|u: int, v: int|
            0 <= u < 4 * q && 0 <= v < 4 * q ==> (g.contains((px + u, py + v)) <==> c.contains(
                (u, v),
            )),
        q <= a < 3 * q,
        q <= b < 3 * q,
    ensures
        generations(g, n).contains((px + a, py + b)) <==> generations(c, n).contains((a, b)),
{
    let s = shifted(c, px, py);
    assert forall|u: int, v: int| #[trigger] near(px + a, py + b, u, v, n as int) implies (
    g.contains((u, v)) <==> s.contains((u, v))) by {
        assert(g.contains((px + (u - px), py + (v - py))) <==> c.contains((u - px, v - py)));
    }
    lemma_locality(g, s, n, px + a, py + b);
    lemma_generations_shifted(c, px, py, n);
}

} // verus!
