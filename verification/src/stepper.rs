//! The memoized stepper: advances the square of a value by up to a quarter
//! of its side in generations and gives the key of its centre.

use crate::bitgrid::{slice, step_forward_raw, transpose_quad, window_cell, window_cells};
use crate::life::{generations, lemma_generations_add};
use crate::quadvalue::{hash_of, is_raw_key, node_is_raw, QuadTreeNode, QuadTreeValue, NULL_KEY};
use crate::store::{
    dead_key,
    lemma_count_zero,
    lemma_dead_key,
    lemma_dead_value,
    quadrant_level,
    NodeStore,
    StoreError,
};
use crate::treespec::{
    capped,
    cell,
    child_of,
    extends,
    forward_ok,
    lemma_centre_local,
    lemma_side,
    lemma_tile_extends,
    lemma_value_extends,
    node_ok,
    quarter,
    side,
    store_ok,
    tile,
    valid,
    value_cell,
    value_cells,
    value_count,
    value_tile,
    value_valid,
    within,
};
use vstd::arithmetic::power2::{
    lemma2_to64,
    lemma2_to64_rest,
    lemma_pow2_strictly_increases,
    lemma_pow2_unfold,
    pow2,
};
use vstd::prelude::*;

verus! {

pub(crate) proof fn lemma_pow2_le(a: nat, b: nat)
    requires
        a <= b,
    ensures
        pow2(a) <= pow2(b),
{
    if a < b {
        lemma_pow2_strictly_increases(a, b);
    }
}

/// The largest number of generations that a value whose quadrants are keys of
/// level `depth` is advanced by at once: `4 * 2^depth`.
pub fn full_steps(depth: u64) -> (r: u64)
    requires
        depth <= 61,
    ensures
        r == 4 * pow2(depth as nat),
        r == quarter((depth + 1) as nat),
        2 * r == side(depth as nat),
        1 <= r <= 0x8000_0000_0000_0000,
{
    proof {
        lemma2_to64();
        lemma2_to64_rest();
        lemma_pow2_le(depth as nat, 61);
        vstd::arithmetic::power2::lemma_pow2_pos(depth as nat);
        vstd::bits::lemma_u64_shl_is_mul(4, depth);
        lemma_pow2_unfold((depth + 1) as nat);
    }
    4u64 << depth
}

/// Every tile of one table is a tile of every table that extends it.
pub(crate) proof fn lemma_tiles_extend(
    m: Map<u128, QuadTreeNode>,
    dm: Map<u128, nat>,
    m2: Map<u128, QuadTreeNode>,
    dm2: Map<u128, nat>,
)
    requires
        store_ok(m, dm),
        extends(m, dm, m2, dm2),
    ensures
        forall|key: u128, level: nat, g: Set<(int, int)>, px: int, py: int|
            tile(m, dm, key, level, g, px, py) ==> #[trigger] tile(m2, dm2, key, level, g, px, py),
{
    assert forall|key: u128, level: nat, g: Set<(int, int)>, px: int, py: int|
        tile(m, dm, key, level, g, px, py) implies #[trigger] tile(
        m2,
        dm2,
        key,
        level,
        g,
        px,
        py,
    ) by {
        lemma_tile_extends(m, dm, m2, dm2, key, level, g, px, py);
    }
}

/// The cells of a value that tiles a square of `g` are the cells of `g`.
pub(crate) proof fn lemma_value_tile_cells(
    m: Map<u128, QuadTreeNode>,
    dm: Map<u128, nat>,
    v: QuadTreeValue,
    level: nat,
    g: Set<(int, int)>,
    px: int,
    py: int,
    u: int,
    w: int,
)
    requires
        value_tile(m, dm, v, level, g, px, py),
        0 <= u < 2 * side(level),
        0 <= w < 2 * side(level),
    ensures
        value_cell(m, v, level, u, w) <==> g.contains((px + u, py + w)),
        value_valid(m, dm, v, level),
{
    reveal(tile);
    lemma_side(level);
    let h = side(level);
    let k = child_of(v, h, u, w);
    let a = within(h, u);
    let b = within(h, w);
    assert(cell(m, k, level, a, b) <==> g.contains((px + u, py + w)));
}

/// A node stands for what its quadrants stand for.
pub(crate) proof fn lemma_node_tile(
    m: Map<u128, QuadTreeNode>,
    dm: Map<u128, nat>,
    key: u128,
    level: nat,
    g: Set<(int, int)>,
    px: int,
    py: int,
)
    requires
        valid(m, dm, key, level + 1),
        value_tile(m, dm, m[key].v, level, g, px, py),
    ensures
        tile(m, dm, key, level + 1, g, px, py),
{
    lemma_side(level);
    assert forall|a: int, b: int|
        0 <= a < side(level + 1) && 0 <= b < side(level + 1) implies (#[trigger] cell(
        m,
        key,
        level + 1,
        a,
        b,
    ) <==> g.contains((px + a, py + b))) by {
        lemma_value_tile_cells(m, dm, m[key].v, level, g, px, py, a, b);
    }
    reveal(tile);
}

proof fn lemma_one_quadrant(
    m: Map<u128, QuadTreeNode>,
    dm: Map<u128, nat>,
    key: u128,
    level: nat,
    g: Set<(int, int)>,
    px: int,
    py: int,
    dx: int,
    dy: int,
)
    requires
        tile(m, dm, key, level + 1, g, px, py),
        dx == 0 || dx == side(level),
        dy == 0 || dy == side(level),
        valid(m, dm, child_of(m[key].v, side(level), dx, dy), level),
    ensures
        tile(m, dm, child_of(m[key].v, side(level), dx, dy), level, g, px + dx, py + dy),
{
    reveal(tile);
    lemma_side(level);
    let h = side(level);
    let k = child_of(m[key].v, h, dx, dy);
    assert forall|a: int, b: int| 0 <= a < h && 0 <= b < h implies (#[trigger] cell(
        m,
        k,
        level,
        a,
        b,
    ) <==> g.contains((px + dx + a, py + dy + b))) by {
        let x = a + dx;
        let y = b + dy;
        assert(child_of(m[key].v, h, x, y) == k);
        assert(within(h, x) == a);
        assert(within(h, y) == b);
        assert(cell(m, key, level + 1, x, y) <==> g.contains((px + x, py + y)));
        assert(cell(m, key, level + 1, x, y) == cell(m, k, level, a, b));
    }
}

/// The quadrants of a node stand for the quarters of what it stands for.
pub(crate) proof fn lemma_tile_quadrants(
    m: Map<u128, QuadTreeNode>,
    dm: Map<u128, nat>,
    key: u128,
    level: nat,
    g: Set<(int, int)>,
    px: int,
    py: int,
)
    requires
        store_ok(m, dm),
        tile(m, dm, key, level + 1, g, px, py),
    ensures
        m.contains_key(key),
        value_tile(m, dm, m[key].v, level, g, px, py),
{
    assert(valid(m, dm, key, level + 1)) by {
        reveal(tile);
    }
    assert(m.contains_key(key) && node_ok(m, dm, key));
    assert(value_valid(m, dm, m[key].v, level));
    lemma_side(level);
    let h = side(level);
    lemma_one_quadrant(m, dm, key, level, g, px, py, 0, 0);
    lemma_one_quadrant(m, dm, key, level, g, px, py, h, 0);
    lemma_one_quadrant(m, dm, key, level, g, px, py, 0, h);
    lemma_one_quadrant(m, dm, key, level, g, px, py, h, h);
}

/// A key that is the centre of a value after a quarter of its side in
/// generations, in the grid that the value is a part of, is a forward key of
/// the value.
pub(crate) proof fn lemma_forward_from_tile(
    m: Map<u128, QuadTreeNode>,
    dm: Map<u128, nat>,
    v: QuadTreeValue,
    fwd: u128,
    level: nat,
    g: Set<(int, int)>,
    px: int,
    py: int,
)
    requires
        level >= 1,
        value_tile(m, dm, v, (level - 1) as nat, g, px, py),
        tile(
            m,
            dm,
            fwd,
            (level - 1) as nat,
            generations(g, quarter(level) as nat),
            px + quarter(level),
            py + quarter(level),
        ),
    ensures
        forward_ok(m, v, fwd, level),
        valid(m, dm, fwd, (level - 1) as nat),
{
    reveal(forward_ok);
    reveal(tile);
    let below = (level - 1) as nat;
    let q = quarter(level);
    lemma_side(below);
    lemma_pow2_unfold(level);
    let c = value_cells(m, v, below);
    assert forall|a: int, b: int| 0 <= a < 2 * q && 0 <= b < 2 * q implies (#[trigger] cell(
        m,
        fwd,
        below,
        a,
        b,
    ) <==> generations(c, q as nat).contains((a + q, b + q))) by {
        assert forall|u: int, w: int| 0 <= u < 4 * q && 0 <= w < 4 * q implies (g.contains(
            (px + u, py + w),
        ) <==> c.contains((u, w))) by {
            lemma_value_tile_cells(m, dm, v, below, g, px, py, u, w);
        }
        lemma_centre_local(g, c, px, py, q, q as nat, a + q, b + q);
        assert(cell(m, fwd, below, a, b) <==> generations(g, q as nat).contains(
            (px + q + a, py + q + b),
        ));
    }
}

/// A forward key of a value is its centre after a quarter of its side in
/// generations, in whatever grid the value is a part of.
pub(crate) proof fn lemma_tile_from_forward(
    m: Map<u128, QuadTreeNode>,
    dm: Map<u128, nat>,
    v: QuadTreeValue,
    fwd: u128,
    level: nat,
    g: Set<(int, int)>,
    px: int,
    py: int,
)
    requires
        level >= 1,
        value_tile(m, dm, v, (level - 1) as nat, g, px, py),
        forward_ok(m, v, fwd, level),
        valid(m, dm, fwd, (level - 1) as nat),
    ensures
        tile(
            m,
            dm,
            fwd,
            (level - 1) as nat,
            generations(g, quarter(level) as nat),
            px + quarter(level),
            py + quarter(level),
        ),
{
    reveal(forward_ok);
    reveal(tile);
    let below = (level - 1) as nat;
    let q = quarter(level);
    lemma_side(below);
    lemma_pow2_unfold(level);
    let c = value_cells(m, v, below);
    assert forall|a: int, b: int| 0 <= a < side(below) && 0 <= b < side(below) implies (
    #[trigger] cell(m, fwd, below, a, b) <==> generations(g, q as nat).contains(
        (px + q + a, py + q + b),
    )) by {
        assert forall|u: int, w: int| 0 <= u < 4 * q && 0 <= w < 4 * q implies (g.contains(
            (px + u, py + w),
        ) <==> c.contains((u, w))) by {
            lemma_value_tile_cells(m, dm, v, below, g, px, py, u, w);
        }
        lemma_centre_local(g, c, px, py, q, q as nat, a + q, b + q);
        assert(cell(m, fwd, below, a, b) <==> generations(c, q as nat).contains((a + q, b + q)));
    }
}

proof fn lemma_dead_tile_core(
    m: Map<u128, QuadTreeNode>,
    dm: Map<u128, nat>,
    v: QuadTreeValue,
    black: u128,
    level: nat,
    n: nat,
    g: Set<(int, int)>,
    px: int,
    py: int,
)
    requires
        value_tile(m, dm, v, level, g, px, py),
        valid(m, dm, black, level),
        forall|a: int, b: int| !#[trigger] cell(m, black, level, a, b),
        forall|p: (int, int)| !#[trigger] generations(value_cells(m, v, level), n).contains(p),
        n <= quarter(level + 1),
    ensures
        tile(m, dm, black, level, generations(g, n), px + quarter(level + 1), py + quarter(level + 1)),
{
    let q = quarter(level + 1);
    lemma_side(level);
    lemma_pow2_unfold(level + 1);
    let c = value_cells(m, v, level);
    assert forall|a: int, b: int| 0 <= a < side(level) && 0 <= b < side(level) implies (
    #[trigger] cell(m, black, level, a, b) <==> generations(g, n).contains(
        (px + q + a, py + q + b),
    )) by {
        assert forall|u: int, w: int| 0 <= u < 4 * q && 0 <= w < 4 * q implies (g.contains(
            (px + u, py + w),
        ) <==> c.contains((u, w))) by {
            lemma_value_tile_cells(m, dm, v, level, g, px, py, u, w);
        }
        lemma_centre_local(g, c, px, py, q, n, a + q, b + q);
        assert(!generations(c, n).contains((a + q, b + q)));
    }
    reveal(tile);
}

/// The centre of a value without a live cell is dead after any number of
/// generations up to a quarter of its side, so an all-dead key stands for it.
pub(crate) proof fn lemma_dead_tile(
    m: Map<u128, QuadTreeNode>,
    dm: Map<u128, nat>,
    v: QuadTreeValue,
    black: u128,
    level: nat,
    n: nat,
    g: Set<(int, int)>,
    px: int,
    py: int,
)
    requires
        store_ok(m, dm),
        value_tile(m, dm, v, level, g, px, py),
        value_count(m, v, level) == 0,
        valid(m, dm, black, level),
        crate::treespec::live_count(m, black, level) == 0,
        n <= quarter(level + 1),
    ensures
        tile(m, dm, black, level, generations(g, n), px + quarter(level + 1), py + quarter(level + 1)),
{
    assert(forall|a: int, b: int| !#[trigger] cell(m, black, level, a, b)) by {
        assert forall|a: int, b: int| !#[trigger] cell(m, black, level, a, b) by {
            lemma_count_zero(m, dm, black, level, a, b);
        }
    }
    assert(forall|p: (int, int)| !#[trigger] generations(value_cells(m, v, level), n).contains(p))
        by {
        lemma_value_ready(m, dm, v, level, g, px, py);
        assert forall|p: (int, int)| !#[trigger] generations(value_cells(m, v, level), n).contains(
            p,
        ) by {
            lemma_dead_value(m, dm, v, level, n, p.0, p.1);
        }
    }
    lemma_dead_tile_core(m, dm, v, black, level, n, g, px, py);
}

/// The raw block that is the centre of four raw blocks after up to four
/// generations stands for the centre in whatever grid the blocks are a part
/// of.
pub(crate) proof fn lemma_raw_tile(
    m: Map<u128, QuadTreeNode>,
    dm: Map<u128, nat>,
    v: QuadTreeValue,
    r: u128,
    n: nat,
    g: Set<(int, int)>,
    px: int,
    py: int,
)
    requires
        value_tile(m, dm, v, 0, g, px, py),
        n <= 4,
        r <= u64::MAX,
        forall|x: int, y: int|
            0 <= x < 8 && 0 <= y < 8 ==> (#[trigger] crate::bitgrid::block_cell(r as u64, x, y)
                <==> generations(window_cells(v), n).contains((x + 4, y + 4))),
    ensures
        tile(m, dm, r, 0, generations(g, n), px + 4, py + 4),
{
    lemma_side(0);
    let c = window_cells(v);
    assert forall|a: int, b: int| 0 <= a < 8 && 0 <= b < 8 implies (#[trigger] cell(m, r, 0, a, b)
        <==> generations(g, n).contains((px + 4 + a, py + 4 + b))) by {
        assert forall|u: int, w: int| 0 <= u < 16 && 0 <= w < 16 implies (g.contains(
            (px + u, py + w),
        ) <==> c.contains((u, w))) by {
            lemma_value_tile_cells(m, dm, v, 0, g, px, py, u, w);
            assert(value_cell(m, v, 0, u, w) <==> window_cell(v, u, w));
        }
        lemma_centre_local(g, c, px, py, 4, n, a + 4, b + 4);
        assert(crate::bitgrid::block_cell(r as u64, a, b) <==> generations(c, n).contains(
            (a + 4, b + 4),
        ));
    }
    reveal(tile);
}

/// The key in row `r` and column `c` of a 4x4 grid of keys is a tile of `g`
/// at its place in the grid.
pub open spec fn tile_at(
    m: Map<u128, QuadTreeNode>,
    dm: Map<u128, nat>,
    grid: Seq<u128>,
    level: nat,
    g: Set<(int, int)>,
    px: int,
    py: int,
    r: int,
    c: int,
) -> bool {
    tile(m, dm, grid[4 * r + c], level, g, px + c * side(level), py + r * side(level))
}

/// The first `n` rows and columns of a 4x4 grid of keys tile a square of
/// `g`.
pub open spec fn grid_ok(
    m: Map<u128, QuadTreeNode>,
    dm: Map<u128, nat>,
    grid: Seq<u128>,
    n: int,
    level: nat,
    g: Set<(int, int)>,
    px: int,
    py: int,
) -> bool {
    forall|r: int, c: int|
        0 <= r < n && 0 <= c < n ==> #[trigger] tile_at(m, dm, grid, level, g, px, py, r, c)
}

/// The value of the 2x2 window of a grid whose top left key stands in row
/// `y` and column `x`.
pub open spec fn window_value(grid: Seq<u128>, x: int, y: int) -> QuadTreeValue {
    QuadTreeValue {
        lt: grid[4 * y + x],
        rt: grid[4 * y + x + 1],
        lb: grid[4 * (y + 1) + x],
        rb: grid[4 * (y + 1) + x + 1],
    }
}

pub(crate) proof fn lemma_window_tile(
    m: Map<u128, QuadTreeNode>,
    dm: Map<u128, nat>,
    grid: Seq<u128>,
    n: int,
    level: nat,
    g: Set<(int, int)>,
    px: int,
    py: int,
    x: int,
    y: int,
)
    requires
        grid_ok(m, dm, grid, n, level, g, px, py),
        0 <= x < n - 1,
        0 <= y < n - 1,
    ensures
        value_tile(
            m,
            dm,
            window_value(grid, x, y),
            level,
            g,
            px + x * side(level),
            py + y * side(level),
        ),
{
    let s = side(level);
    assert(tile_at(m, dm, grid, level, g, px, py, y, x));
    assert(tile_at(m, dm, grid, level, g, px, py, y, x + 1));
    assert(tile_at(m, dm, grid, level, g, px, py, y + 1, x));
    assert(tile_at(m, dm, grid, level, g, px, py, y + 1, x + 1));
    assert((x + 1) * s == x * s + s) by (nonlinear_arith);
    assert((y + 1) * s == y * s + s) by (nonlinear_arith);
}

pub(crate) proof fn lemma_grid_extends(
    m: Map<u128, QuadTreeNode>,
    dm: Map<u128, nat>,
    m2: Map<u128, QuadTreeNode>,
    dm2: Map<u128, nat>,
    grid: Seq<u128>,
    n: int,
    level: nat,
    g: Set<(int, int)>,
    px: int,
    py: int,
)
    requires
        store_ok(m, dm),
        extends(m, dm, m2, dm2),
        grid_ok(m, dm, grid, n, level, g, px, py),
    ensures
        grid_ok(m2, dm2, grid, n, level, g, px, py),
{
    assert forall|r: int, c: int| 0 <= r < n && 0 <= c < n implies #[trigger] tile_at(
        m2,
        dm2,
        grid,
        level,
        g,
        px,
        py,
        r,
        c,
    ) by {
        assert(tile_at(m, dm, grid, level, g, px, py, r, c));
        lemma_tile_extends(
            m,
            dm,
            m2,
            dm2,
            grid[4 * r + c],
            level,
            g,
            px + c * side(level),
            py + r * side(level),
        );
    }
}

/// The quadrants of a value that tiles a square are keys of one level.
pub(crate) proof fn lemma_value_ready(
    m: Map<u128, QuadTreeNode>,
    dm: Map<u128, nat>,
    v: QuadTreeValue,
    level: nat,
    g: Set<(int, int)>,
    px: int,
    py: int,
)
    requires
        value_tile(m, dm, v, level, g, px, py),
    ensures
        value_valid(m, dm, v, level),
        quadrant_level(dm, v) == level,
        level == 0 <==> is_raw_key(v.lt),
{
    reveal(tile);
}

/// A tile of a store is a tile of every store that it grows to.
pub(crate) proof fn lemma_frame(a: &NodeStore, b: &NodeStore)
    requires
        a.wf(),
        a.grows_to(b),
    ensures
        forall|key: u128, level: nat, g: Set<(int, int)>, px: int, py: int|
            tile(a.nodes(), a.levels(), key, level, g, px, py) ==> #[trigger] tile(
                b.nodes(),
                b.levels(),
                key,
                level,
                g,
                px,
                py,
            ),
{
    a.lemma_wf();
    a.lemma_grows(b);
    lemma_tiles_extend(a.nodes(), a.levels(), b.nodes(), b.levels());
}

pub(crate) proof fn lemma_grid_frame(
    a: &NodeStore,
    b: &NodeStore,
    grid: Seq<u128>,
    n: int,
    level: nat,
    g: Set<(int, int)>,
    px: int,
    py: int,
)
    requires
        a.wf(),
        a.grows_to(b),
        grid_ok(a.nodes(), a.levels(), grid, n, level, g, px, py),
    ensures
        grid_ok(b.nodes(), b.levels(), grid, n, level, g, px, py),
{
    a.lemma_wf();
    a.lemma_grows(b);
    lemma_grid_extends(a.nodes(), a.levels(), b.nodes(), b.levels(), grid, n, level, g, px, py);
}

/// The forward key that a node holds is the centre of its square after a
/// quarter of its side in generations.
pub(crate) proof fn lemma_memo_hit(
    st: &NodeStore,
    key: u128,
    level: nat,
    g: Set<(int, int)>,
    px: int,
    py: int,
)
    requires
        st.wf(),
        st.nodes().contains_key(key),
        st.nodes()[key].forward_key != NULL_KEY,
        value_tile(st.nodes(), st.levels(), st.nodes()[key].v, level, g, px, py),
    ensures
        tile(
            st.nodes(),
            st.levels(),
            st.nodes()[key].forward_key,
            level,
            generations(g, quarter(level + 1) as nat),
            px + quarter(level + 1),
            py + quarter(level + 1),
        ),
{
    let m = st.nodes();
    let dm = st.levels();
    lemma_value_ready(m, dm, m[key].v, level, g, px, py);
    st.lemma_found(key, level);
    lemma_tile_from_forward(m, dm, m[key].v, m[key].forward_key, level + 1, g, px, py);
}

/// The forward key of a node without a live cell has no live cell, and so
/// it is the all-dead key of its level where the nodes are stored under
/// their content hash.
pub(crate) proof fn lemma_dead_memo(st: &NodeStore, key: u128, level: nat)
    requires
        st.wf(),
        st.keyed(),
        st.nodes().contains_key(key),
        st.nodes()[key].forward_key != NULL_KEY,
        value_valid(st.nodes(), st.levels(), st.nodes()[key].v, level),
        value_count(st.nodes(), st.nodes()[key].v, level) == 0,
    ensures
        st.nodes()[key].forward_key == dead_key(level),
{
    let m = st.nodes();
    let dm = st.levels();
    let v = m[key].v;
    let fwd = m[key].forward_key;
    let q = quarter(level + 1);
    st.lemma_wf();
    st.lemma_keyed();
    st.lemma_found(key, level);
    lemma_side(level);
    lemma_pow2_unfold(level + 1);
    assert forall|p: (int, int)| !crate::treespec::cells(m, fwd, level).contains(p) by {
        if cell(m, fwd, level, p.0, p.1) {
            crate::treespec::lemma_cell_in_range(m, fwd, level, p.0, p.1);
            lemma_dead_value(m, dm, v, level, q as nat, p.0 + q, p.1 + q);
            assert(cell(m, fwd, level, p.0, p.1) <==> generations(
                value_cells(m, v, level),
                q as nat,
            ).contains((p.0 + q, p.1 + q))) by {
                reveal(forward_ok);
            }
        }
    }
    assert(crate::treespec::cells(m, fwd, level) =~= Set::<(int, int)>::empty());
    crate::census::lemma_census(m, dm, fwd, level);
    lemma_dead_key(m, dm, fwd, level);
}

/// The forward key of a node without a live cell is the key of the ladder
/// of all-dead keys for its level, in a keyed store.
pub(crate) proof fn lemma_dead_memo_rung(st: &NodeStore, key: u128, level: nat)
    requires
        st.wf(),
        st.keyed(),
        st.nodes().contains_key(key),
        st.nodes()[key].forward_key != NULL_KEY,
        value_valid(st.nodes(), st.levels(), st.nodes()[key].v, level),
        value_count(st.nodes(), st.nodes()[key].v, level) == 0,
    ensures
        level < st.blacks().len(),
        st.nodes()[key].forward_key == st.blacks()[level as int],
        st.nodes()[key].forward_key == dead_key(level),
{
    lemma_dead_memo(st, key, level);
    st.lemma_found(key, level);
    assert(st.nodes()[key].set_count == 0);
    st.lemma_keyed_memo(key);
    lemma_rung_key(st, level);
}

/// The key of the ladder of all-dead keys for a level is the all-dead key
/// of the level by the content hash, in a keyed store.
pub(crate) proof fn lemma_rung_key(st: &NodeStore, level: nat)
    requires
        st.wf(),
        st.keyed(),
        level < st.blacks().len(),
    ensures
        st.blacks()[level as int] == dead_key(level),
{
    st.lemma_keyed();
    st.lemma_black(level as int);
    st.lemma_wf();
    lemma_dead_key(st.nodes(), st.levels(), st.blacks()[level as int], level);
}

/// An all-dead key stands for the centre of a value without a live cell
/// after any number of generations up to a quarter of its side.
pub(crate) proof fn lemma_black_result(
    a: &NodeStore,
    b: &NodeStore,
    d: QuadTreeValue,
    level: nat,
    n: nat,
    g: Set<(int, int)>,
    px: int,
    py: int,
)
    requires
        a.wf(),
        a.grows_to(b),
        b.wf(),
        value_tile(a.nodes(), a.levels(), d, level, g, px, py),
        value_count(a.nodes(), d, level) == 0,
        level < b.blacks().len(),
        n <= quarter(level + 1),
    ensures
        tile(
            b.nodes(),
            b.levels(),
            b.blacks()[level as int],
            level,
            generations(g, n),
            px + quarter(level + 1),
            py + quarter(level + 1),
        ),
{
    a.lemma_wf();
    b.lemma_wf();
    a.lemma_grows(b);
    let m = b.nodes();
    let dm = b.levels();
    lemma_value_ready(a.nodes(), a.levels(), d, level, g, px, py);
    lemma_tiles_extend(a.nodes(), a.levels(), m, dm);
    lemma_value_extends(a.nodes(), a.levels(), m, dm, d, level);
    b.lemma_black(level as int);
    lemma_dead_tile(m, dm, d, b.blacks()[level as int], level, n, g, px, py);
}

/// The quadrants of the quadrants of a value, put row by row, tile the
/// square of the value as a 4x4 grid.
#[verifier::rlimit(50)]
pub(crate) proof fn lemma_children_grid(
    st: &NodeStore,
    d: QuadTreeValue,
    t: Seq<u128>,
    sub: nat,
    g: Set<(int, int)>,
    px: int,
    py: int,
)
    requires
        st.wf(),
        value_tile(st.nodes(), st.levels(), d, sub + 1, g, px, py),
        t.len() == 16,
        ({
            let m = st.nodes();
            let c0 = m[d.lt].v;
            let c1 = m[d.rt].v;
            let c2 = m[d.lb].v;
            let c3 = m[d.rb].v;
            t == seq![
                c0.lt,
                c0.rt,
                c1.lt,
                c1.rt,
                c0.lb,
                c0.rb,
                c1.lb,
                c1.rb,
                c2.lt,
                c2.rt,
                c3.lt,
                c3.rt,
                c2.lb,
                c2.rb,
                c3.lb,
                c3.rb,
            ]
        }),
    ensures
        grid_ok(st.nodes(), st.levels(), t, 4, sub, g, px, py),
{
    let m = st.nodes();
    let dm = st.levels();
    let s = side(sub);
    lemma_side(sub);
    lemma_side(sub + 1);
    assert(value_tile(m, dm, m[d.lt].v, sub, g, px, py)) by {
        st.lemma_wf();
        lemma_tile_quadrants(m, dm, d.lt, sub, g, px, py);
    }
    assert(value_tile(m, dm, m[d.rt].v, sub, g, px + 2 * s, py)) by {
        st.lemma_wf();
        lemma_tile_quadrants(m, dm, d.rt, sub, g, px + 2 * s, py);
    }
    assert(value_tile(m, dm, m[d.lb].v, sub, g, px, py + 2 * s)) by {
        st.lemma_wf();
        lemma_tile_quadrants(m, dm, d.lb, sub, g, px, py + 2 * s);
    }
    assert(value_tile(m, dm, m[d.rb].v, sub, g, px + 2 * s, py + 2 * s)) by {
        st.lemma_wf();
        lemma_tile_quadrants(m, dm, d.rb, sub, g, px + 2 * s, py + 2 * s);
    }
    assert(tile_at(m, dm, t, sub, g, px, py, 0, 0));
    assert(tile_at(m, dm, t, sub, g, px, py, 0, 1));
    assert(tile_at(m, dm, t, sub, g, px, py, 0, 2));
    assert(tile_at(m, dm, t, sub, g, px, py, 0, 3));
    assert(tile_at(m, dm, t, sub, g, px, py, 1, 0));
    assert(tile_at(m, dm, t, sub, g, px, py, 1, 1));
    assert(tile_at(m, dm, t, sub, g, px, py, 1, 2));
    assert(tile_at(m, dm, t, sub, g, px, py, 1, 3));
    assert(tile_at(m, dm, t, sub, g, px, py, 2, 0));
    assert(tile_at(m, dm, t, sub, g, px, py, 2, 1));
    assert(tile_at(m, dm, t, sub, g, px, py, 2, 2));
    assert(tile_at(m, dm, t, sub, g, px, py, 2, 3));
    assert(tile_at(m, dm, t, sub, g, px, py, 3, 0));
    assert(tile_at(m, dm, t, sub, g, px, py, 3, 1));
    assert(tile_at(m, dm, t, sub, g, px, py, 3, 2));
    assert(tile_at(m, dm, t, sub, g, px, py, 3, 3));
    assert forall|r: int, c: int| 0 <= r < 4 && 0 <= c < 4 implies #[trigger] tile_at(
        m,
        dm,
        t,
        sub,
        g,
        px,
        py,
        r,
        c,
    ) by {}
}

/// The results of a pass that are computed so far stay tiles where the store
/// grows.
proof fn lemma_partial_frame(
    a: &NodeStore,
    b: &NodeStore,
    before: Seq<u128>,
    after: Seq<u128>,
    cnt: int,
    x: int,
    y: int,
    k: u128,
    level: nat,
    g: Set<(int, int)>,
    px: int,
    py: int,
)
    requires
        a.wf(),
        a.grows_to(b),
        0 <= x < cnt <= 3,
        0 <= y < cnt,
        before.len() == 16,
        after == before.update(4 * y + x, k),
        forall|r: int, c: int|
            0 <= r < cnt && 0 <= c < cnt && (c < x || (c == x && r < y)) ==> #[trigger] tile_at(
                a.nodes(),
                a.levels(),
                before,
                level,
                g,
                px,
                py,
                r,
                c,
            ),
        tile(b.nodes(), b.levels(), k, level, g, px + x * side(level), py + y * side(level)),
    ensures
        forall|r: int, c: int|
            0 <= r < cnt && 0 <= c < cnt && (c < x || (c == x && r < y + 1)) ==> #[trigger] tile_at(
                b.nodes(),
                b.levels(),
                after,
                level,
                g,
                px,
                py,
                r,
                c,
            ),
{
    a.lemma_wf();
    a.lemma_grows(b);
    assert forall|r: int, c: int|
        0 <= r < cnt && 0 <= c < cnt && (c < x || (c == x && r < y + 1)) implies #[trigger] tile_at(
        b.nodes(),
        b.levels(),
        after,
        level,
        g,
        px,
        py,
        r,
        c,
    ) by {
        if c == x && r == y {
            assert(after[4 * r + c] == k);
        } else {
            assert(after[4 * r + c] == before[4 * r + c]);
            assert(tile_at(a.nodes(), a.levels(), before, level, g, px, py, r, c));
            lemma_tile_extends(
                a.nodes(),
                a.levels(),
                b.nodes(),
                b.levels(),
                before[4 * r + c],
                level,
                g,
                px + c * side(level),
                py + r * side(level),
            );
        }
    }
}

/// Whether the node of `d` holds the result for `n_steps` generations: the
/// node is stored, `n_steps` is the largest number of generations of its
/// level, and the node has a forward key.
pub open spec fn memo_kept(m: Map<u128, QuadTreeNode>, d: QuadTreeValue, n_steps: u64, depth: u64) -> bool {
    &&& m.contains_key(hash_of(d))
    &&& m[hash_of(d)].v == d
    &&& m[hash_of(d)].forward_key != NULL_KEY
    &&& n_steps == 4 * pow2(depth as nat)
}

/// The middle of the square of `d` as a value: the four quadrants of the
/// quadrants of `d` that meet in the centre.
pub open spec fn inner_value(m: Map<u128, QuadTreeNode>, d: QuadTreeValue) -> QuadTreeValue {
    QuadTreeValue { lt: m[d.lt].v.rb, rt: m[d.rt].v.lb, lb: m[d.lb].v.rt, rb: m[d.rb].v.lt }
}

impl NodeStore {
    /// Advances every 2x2 window of the first `cnt + 1` rows and columns of a
    /// grid of keys by `dt` generations.  The centres of the windows come
    /// back as a grid of `cnt` rows and columns.
    #[verifier::rlimit(50)]
    pub(crate) fn advance_pass(
        &mut self,
        grid: &[u128; 16],
        cnt: usize,
        sub: u64,
        dt: u64,
        Ghost(g): Ghost<Set<(int, int)>>,
        Ghost(bx): Ghost<int>,
        Ghost(by): Ghost<int>,
    ) -> (r: Result<[u128; 16], StoreError>)
        requires
            old(self).wf(),
            2 <= cnt <= 3,
            sub <= 59,
            dt <= 4 * pow2(sub as nat),
            grid_ok(old(self).nodes(), old(self).levels(), grid@, cnt + 1, sub as nat, g, bx, by),
        ensures
            final(self).wf(),
            old(self).grows_to(final(self)),
            old(self).keyed() ==> final(self).keyed(),
            final(self).same_above(old(self), (sub + 1) as nat),
            match r {
                Ok(res) => grid_ok(
                    final(self).nodes(),
                    final(self).levels(),
                    res@,
                    cnt as int,
                    sub as nat,
                    generations(g, dt as nat),
                    bx + quarter((sub + 1) as nat),
                    by + quarter((sub + 1) as nat),
                ),
                Err(e) => final(self).explains(e),
            },
        decreases sub, 4int,
    {
        let ghost start = *self;
        let ghost level = sub as nat;
        let ghost s = side(level);
        let ghost q = quarter((sub + 1) as nat);
        let ghost g2 = generations(g, dt as nat);
        let mut result = [NULL_KEY;16];
        let mut x: usize = 0;
        proof {
            start.lemma_grows_refl();
        }
        while x < cnt
            invariant
                self.wf(),
                start == *old(self),
                start.grows_to(self),
                start.keyed() ==> self.keyed(),
                self.same_above(&start, (sub + 1) as nat),
                2 <= cnt <= 3,
                x <= cnt,
                sub <= 59,
                level == sub as nat,
                s == side(level),
                q == quarter((sub + 1) as nat),
                g2 == generations(g, dt as nat),
                dt <= 4 * pow2(sub as nat),
                grid_ok(self.nodes(), self.levels(), grid@, cnt + 1, level, g, bx, by),
                forall|r: int, c: int|
                    0 <= r < cnt && 0 <= c < cnt && (c < x || (c == x && r < 0))
                        ==> #[trigger] tile_at(
                        self.nodes(),
                        self.levels(),
                        result@,
                        level,
                        g2,
                        bx + q,
                        by + q,
                        r,
                        c,
                    ),
            decreases cnt - x,
        {
            let mut y: usize = 0;
            while y < cnt
                invariant
                    self.wf(),
                    start == *old(self),
                    start.grows_to(self),
                    start.keyed() ==> self.keyed(),
                    self.same_above(&start, (sub + 1) as nat),
                    2 <= cnt <= 3,
                    x < cnt,
                    y <= cnt,
                    sub <= 59,
                    level == sub as nat,
                    s == side(level),
                    q == quarter((sub + 1) as nat),
                    g2 == generations(g, dt as nat),
                    dt <= 4 * pow2(sub as nat),
                    grid_ok(self.nodes(), self.levels(), grid@, cnt + 1, level, g, bx, by),
                    forall|r: int, c: int|
                        0 <= r < cnt && 0 <= c < cnt && (c < x || (c == x && r < y))
                            ==> #[trigger] tile_at(
                            self.nodes(),
                            self.levels(),
                            result@,
                            level,
                            g2,
                            bx + q,
                            by + q,
                            r,
                            c,
                        ),
                decreases cnt - y,
            {
                let w = slice(grid, x, y);
                let d1 = QuadTreeValue::from_array(&w);
                let ghost before = *self;
                let ghost before_result = result@;
                proof {
                    lemma_window_tile(
                        self.nodes(),
                        self.levels(),
                        grid@,
                        cnt + 1,
                        level,
                        g,
                        bx,
                        by,
                        x as int,
                        y as int,
                    );
                    assert(d1 == window_value(grid@, x as int, y as int));
                }
                let k = match self.step_forward_rec(
                    d1,
                    sub,
                    dt,
                    Ghost(g),
                    Ghost(bx + x * s),
                    Ghost(by + y * s),
                ) {
                    Ok(k) => k,
                    Err(e) => {
                        proof {
                            start.lemma_grows_trans(&before, self);
                            self.lemma_same_above_trans(&before, &start, (sub + 1) as nat);
                        }
                        return Err(e);
                    },
                };
                result[y * 4 + x] = k;
                proof {
                    start.lemma_grows_trans(&before, self);
                    self.lemma_same_above_trans(&before, &start, (sub + 1) as nat);
                    lemma_grid_frame(&before, self, grid@, cnt + 1, level, g, bx, by);
                    assert(result@ == before_result.update(4 * y + x, k));
                    lemma_partial_frame(
                        &before,
                        self,
                        before_result,
                        result@,
                        cnt as int,
                        x as int,
                        y as int,
                        k,
                        level,
                        g2,
                        bx + q,
                        by + q,
                    );
                }
                y = y + 1;
            }
            x = x + 1;
        }
        Ok(result)
    }

    /// Advances the square of `d` by `n_steps` generations and gives the key
    /// of its centre.  The result for the largest number of generations is
    /// kept with the node of `d` as its forward key and found there the next
    /// time; a smaller number of generations leaves the forward key as it
    /// is.  A square without a live cell gives the all-dead key of its
    /// level.
    #[verifier::rlimit(50)]
    pub(crate) fn step_forward_rec(
        &mut self,
        d: QuadTreeValue,
        depth: u64,
        n_steps: u64,
        Ghost(g): Ghost<Set<(int, int)>>,
        Ghost(px): Ghost<int>,
        Ghost(py): Ghost<int>,
    ) -> (r: Result<u128, StoreError>)
        requires
            old(self).wf(),
            depth <= 60,
            n_steps <= 4 * pow2(depth as nat),
            value_tile(old(self).nodes(), old(self).levels(), d, depth as nat, g, px, py),
        ensures
            final(self).wf(),
            old(self).grows_to(final(self)),
            old(self).keyed() ==> final(self).keyed(),
            final(self).same_above(old(self), (depth + 1) as nat),
            match r {
                Ok(k) => {
                    &&& tile(
                        final(self).nodes(),
                        final(self).levels(),
                        k,
                        depth as nat,
                        generations(g, n_steps as nat),
                        px + quarter((depth + 1) as nat),
                        py + quarter((depth + 1) as nat),
                    )
                    &&& k != NULL_KEY
                    &&& final(self).nodes().contains_key(hash_of(d))
                    &&& final(self).nodes()[hash_of(d)].v == d
                    &&& final(self).nodes()[hash_of(d)].forward_key == if n_steps == 4 * pow2(
                        depth as nat,
                    ) {
                        k
                    } else if old(self).nodes().contains_key(hash_of(d)) {
                        old(self).nodes()[hash_of(d)].forward_key
                    } else {
                        NULL_KEY
                    }
                    &&& (depth >= 1 && value_count(old(self).nodes(), d, depth as nat) == 0 && (old(
                        self,
                    ).keyed() || !memo_kept(old(self).nodes(), d, n_steps, depth)) ==> depth
                        < final(self).blacks().len() && k == final(self).blacks()[depth as int])
                    &&& (depth >= 1 && value_count(old(self).nodes(), d, depth as nat) == 0 && old(
                        self,
                    ).keyed() ==> k == dead_key(depth as nat))
                },
                Err(e) => final(self).explains(e),
            },
            memo_kept(old(self).nodes(), d, n_steps, depth) ==> r == Ok::<u128, StoreError>(
                old(self).nodes()[hash_of(d)].forward_key,
            ) && *final(self) == *old(self),
        decreases depth, 3int,
    {
        let ghost start = *self;
        let ghost level = depth as nat;
        proof {
            start.lemma_grows_refl();
        }
        let full = full_steps(depth);
        let key = d.key();
        if node_is_raw(key) || key == NULL_KEY {
            proof {
                if start.nodes().contains_key(key) {
                    start.lemma_wf();
                    assert(node_ok(start.nodes(), start.levels(), key));
                }
            }
            return Err(StoreError::KeyClash(d));
        }
        let item = self.get(key);
        match item {
            Some(found) => {
                if !(found.v == d) {
                    return Err(StoreError::KeyClash(d));
                }
                if n_steps == full && found.forward_key != NULL_KEY {
                    proof {
                        lemma_memo_hit(&start, key, level, g, px, py);
                        lemma_value_ready(start.nodes(), start.levels(), d, level, g, px, py);
                        if depth >= 1 && value_count(start.nodes(), d, level) == 0 && start.keyed() {
                            lemma_dead_memo_rung(&start, key, level);
                        }
                    }
                    return Ok(found.forward_key);
                }
            },
            None => {},
        }
        let newkey = match self.step_forward_compute(
            d,
            depth,
            n_steps,
            Ghost(g),
            Ghost(px),
            Ghost(py),
        ) {
            Ok(k) => k,
            Err(e) => {
                return Err(e);
            },
        };
        let ghost mid = *self;
        proof {
            assert(newkey != NULL_KEY) by {
                reveal(tile);
            }
            lemma_frame(&start, &mid);
            assert(value_tile(mid.nodes(), mid.levels(), d, level, g, px, py));
            lemma_value_ready(mid.nodes(), mid.levels(), d, level, g, px, py);
            if n_steps == full {
                lemma_forward_from_tile(mid.nodes(), mid.levels(), d, newkey, level + 1, g, px, py);
            }
            mid.lemma_same_above_more(&start, level, level + 1);
            start.lemma_grows(&mid);
            if depth >= 1 && value_count(start.nodes(), d, level) == 0 && start.keyed() {
                lemma_rung_key(&mid, level);
            }
            assert(value_count(mid.nodes(), d, level) == value_count(start.nodes(), d, level)) by {
                start.lemma_wf();
                start.lemma_grows(&mid);
                lemma_value_ready(start.nodes(), start.levels(), d, level, g, px, py);
                lemma_value_extends(
                    start.nodes(),
                    start.levels(),
                    mid.nodes(),
                    mid.levels(),
                    d,
                    level,
                );
            }
            assert(mid.blacks().len() >= 1) by {
                mid.lemma_wf();
            }
        }
        let now = self.get(key);
        let stored = match now {
            Some(found) => {
                if !(found.v == d) {
                    return Err(StoreError::KeyClash(d));
                }
                proof {
                    mid.lemma_found(key, level);
                    assert(start.nodes().contains_key(key) && start.nodes()[key] == found);
                }
                !(n_steps == full && found.forward_key == NULL_KEY)
            },
            None => false,
        };
        if !stored {
            let set_key = if n_steps == full {
                newkey
            } else {
                NULL_KEY
            };
            let count = self.get_set_count(&d);
            let node = QuadTreeNode { v: d, forward_key: set_key, set_count: count };
            match self.put(key, node, Ghost(level + 1)) {
                Ok(_) => {},
                Err(e) => {
                    return Err(e);
                },
            }
            proof {
                start.lemma_grows_trans(&mid, self);
                lemma_frame(&mid, self);
                self.lemma_same_above_one(&mid, key, node, level + 1);
                self.lemma_same_above_trans(&mid, &start, level + 1);
                if start.keyed() {
                    self.lemma_keyed_put(&mid, key, node, level + 1);
                }
            }
        }
        Ok(newkey)
    }

    /// Advances the square of `d` by `n_steps` generations: by the bit-packed
    /// stepper where the quadrants are raw blocks, by the all-dead key where
    /// no cell lives, and else by the stepper on the quadrants' quadrants.
    #[verifier::rlimit(50)]
    pub(crate) fn step_forward_compute(
        &mut self,
        d: QuadTreeValue,
        depth: u64,
        n_steps: u64,
        Ghost(g): Ghost<Set<(int, int)>>,
        Ghost(px): Ghost<int>,
        Ghost(py): Ghost<int>,
    ) -> (r: Result<u128, StoreError>)
        requires
            old(self).wf(),
            depth <= 60,
            n_steps <= 4 * pow2(depth as nat),
            value_tile(old(self).nodes(), old(self).levels(), d, depth as nat, g, px, py),
        ensures
            final(self).wf(),
            old(self).grows_to(final(self)),
            old(self).keyed() ==> final(self).keyed(),
            final(self).same_above(old(self), depth as nat),
            match r {
                Ok(k) => {
                    &&& tile(
                        final(self).nodes(),
                        final(self).levels(),
                        k,
                        depth as nat,
                        generations(g, n_steps as nat),
                        px + quarter((depth + 1) as nat),
                        py + quarter((depth + 1) as nat),
                    )
                    &&& (depth >= 1 && value_count(old(self).nodes(), d, depth as nat) == 0
                        ==> depth < final(self).blacks().len() && k == final(self).blacks()[depth as int])
                },
                Err(e) => final(self).explains(e),
            },
        decreases depth, 2int,
    {
        let ghost start = *self;
        let ghost level = depth as nat;
        proof {
            start.lemma_grows_refl();
            lemma_value_ready(self.nodes(), self.levels(), d, level, g, px, py);
            lemma2_to64();
            lemma_pow2_unfold((depth + 1) as nat);
        }
        if d.is_raw() {
            let r = step_forward_raw(d, n_steps);
            proof {
                lemma_raw_tile(self.nodes(), self.levels(), d, r, n_steps as nat, g, px, py);
                assert(self.same_above(&start, level));
            }
            Ok(r)
        } else if self.get_set_count(&d) == 0 {
            let k = match self.black_key(depth as usize) {
                Ok(k) => k,
                Err(e) => {
                    return Err(e);
                },
            };
            proof {
                lemma_black_result(&start, self, d, level, n_steps as nat, g, px, py);
            }
            Ok(k)
        } else {
            self.step_forward_compute_recursive(d, depth, n_steps, Ghost(g), Ghost(px), Ghost(py))
        }
    }

    /// Advances the square of `d` by `n_steps` generations in two passes
    /// over the 4x4 grid of the quadrants of its quadrants: the first pass
    /// gives a grid of 3x3 centres, the second pass the four quadrants of the
    /// result.
    #[verifier::rlimit(50)]
    pub(crate) fn step_forward_compute_recursive(
        &mut self,
        d: QuadTreeValue,
        depth: u64,
        n_steps: u64,
        Ghost(g): Ghost<Set<(int, int)>>,
        Ghost(px): Ghost<int>,
        Ghost(py): Ghost<int>,
    ) -> (r: Result<u128, StoreError>)
        requires
            old(self).wf(),
            1 <= depth <= 60,
            n_steps <= 4 * pow2(depth as nat),
            value_tile(old(self).nodes(), old(self).levels(), d, depth as nat, g, px, py),
        ensures
            final(self).wf(),
            old(self).grows_to(final(self)),
            old(self).keyed() ==> final(self).keyed(),
            final(self).same_above(old(self), depth as nat),
            match r {
                Ok(k) => {
                    &&& tile(
                        final(self).nodes(),
                        final(self).levels(),
                        k,
                        depth as nat,
                        generations(g, n_steps as nat),
                        px + quarter((depth + 1) as nat),
                        py + quarter((depth + 1) as nat),
                    )
                    &&& final(self).nodes().contains_key(k)
                    &&& k == hash_of(final(self).nodes()[k].v)
                    &&& (n_steps == 0 ==> {
                        let inner = inner_value(old(self).nodes(), d);
                        &&& k == hash_of(inner)
                        &&& final(self).nodes()[k].v == inner
                        &&& final(self).nodes() == if old(self).nodes().contains_key(k) {
                            old(self).nodes()
                        } else {
                            old(self).nodes().insert(
                                k,
                                QuadTreeNode {
                                    v: inner,
                                    forward_key: NULL_KEY,
                                    set_count: capped(
                                        value_count(old(self).nodes(), inner, (depth - 1) as nat),
                                    ),
                                },
                            )
                        }
                    })
                },
                Err(e) => final(self).explains(e),
            },
        decreases depth, 1int,
    {
        let ghost start = *self;
        let ghost level = depth as nat;
        let ghost sub = (depth - 1) as nat;
        let ghost s = side(sub);
        let ghost gn = generations(g, n_steps as nat);
        proof {
            start.lemma_grows_refl();
            lemma_side(sub);
            lemma_side(level);
            lemma_pow2_unfold(level);
            lemma_pow2_unfold(level + 1);
            lemma_value_ready(self.nodes(), self.levels(), d, level, g, px, py);
        }
        let c0 = self.get(d.lt).unwrap().v;
        let c1 = self.get(d.rt).unwrap().v;
        let c2 = self.get(d.lb).unwrap().v;
        let c3 = self.get(d.rb).unwrap().v;
        let arg_map = [
            c0.lt,
            c0.rt,
            c0.lb,
            c0.rb,
            c1.lt,
            c1.rt,
            c1.lb,
            c1.rb,
            c2.lt,
            c2.rt,
            c2.lb,
            c2.rb,
            c3.lt,
            c3.rt,
            c3.lb,
            c3.rb,
        ];
        let transposed_map = transpose_quad(&arg_map);
        proof {
            assert(transposed_map@ =~= seq![
                c0.lt,
                c0.rt,
                c1.lt,
                c1.rt,
                c0.lb,
                c0.rb,
                c1.lb,
                c1.rb,
                c2.lt,
                c2.rt,
                c3.lt,
                c3.rt,
                c2.lb,
                c2.rb,
                c3.lb,
                c3.rb,
            ]);
            lemma_children_grid(&start, d, transposed_map@, sub, g, px, py);
        }
        let finald = if n_steps == 0 {
            let finalarr = slice(&transposed_map, 1, 1);
            proof {
                lemma_window_tile(
                    self.nodes(),
                    self.levels(),
                    transposed_map@,
                    4,
                    sub,
                    g,
                    px,
                    py,
                    1,
                    1,
                );
            }
            QuadTreeValue::from_array(&finalarr)
        } else {
            let next_iter_full_steps = full_steps(depth - 1);
            let dt1 = if n_steps < next_iter_full_steps {
                n_steps
            } else {
                next_iter_full_steps
            };
            let dt2 = if n_steps > next_iter_full_steps {
                n_steps - next_iter_full_steps
            } else {
                0
            };
            let first = match self.advance_pass(
                &transposed_map,
                3,
                depth - 1,
                dt1,
                Ghost(g),
                Ghost(px),
                Ghost(py),
            ) {
                Ok(res) => res,
                Err(e) => {
                    return Err(e);
                },
            };
            let ghost mid = *self;
            let ghost g1 = generations(g, dt1 as nat);
            let ghost q = quarter(level);
            proof {
                assert(((depth - 1) + 1) as nat == level);
            }
            let second = match self.advance_pass(
                &first,
                2,
                depth - 1,
                dt2,
                Ghost(g1),
                Ghost(px + q),
                Ghost(py + q),
            ) {
                Ok(res) => res,
                Err(e) => {
                    proof {
                        start.lemma_grows_trans(&mid, self);
                        self.lemma_same_above_trans(&mid, &start, level);
                    }
                    return Err(e);
                },
            };
            proof {
                start.lemma_grows_trans(&mid, self);
                self.lemma_same_above_trans(&mid, &start, level);
                lemma_generations_add(g, dt1 as nat, dt2 as nat);
            }
            let finalarr = slice(&second, 0, 0);
            proof {
                lemma_window_tile(
                    self.nodes(),
                    self.levels(),
                    second@,
                    2,
                    sub,
                    gn,
                    px + q + q,
                    py + q + q,
                    0,
                    0,
                );
            }
            QuadTreeValue::from_array(&finalarr)
        };
        let ghost before = *self;
        proof {
            assert(value_tile(self.nodes(), self.levels(), finald, sub, gn, px + s, py + s));
            lemma_value_ready(self.nodes(), self.levels(), finald, sub, gn, px + s, py + s);
        }
        let finalkey = finald.key();
        proof {
            assert(quadrant_level(before.levels(), finald) == sub);
        }
        match self.intern(finald, finalkey) {
            Ok(k) => {
                proof {
                    start.lemma_grows_trans(&before, self);
                    self.lemma_same_above_trans(&before, &start, level);
                    lemma_frame(&before, self);
                    lemma_node_tile(self.nodes(), self.levels(), k, sub, gn, px + s, py + s);
                }
                Ok(k)
            },
            Err(e) => {
                proof {
                    start.lemma_grows_trans(&before, self);
                    self.lemma_same_above_trans(&before, &start, level);
                }
                Err(e)
            },
        }
    }
}

} // verus!
