//! The tree: a root key with its level and its place on the grid, on top of
//! the node store.  It grows by rings of dead cells, steps forward in time
//! and takes and gives the live cells as points.

use crate::bitgrid::{is_on_4x4_border, slice, transpose_quad};
use crate::life::{generations, lemma_dead_stays_dead, near};
use crate::point::Point;
use crate::quadvalue::{hash_of, is_raw_key, QuadTreeNode, QuadTreeValue, NULL_KEY};
use crate::stepper::{
    full_steps,
    grid_ok,
    lemma_children_grid,
    lemma_frame,
    lemma_grid_frame,
    lemma_node_tile,
    lemma_tile_quadrants,
    lemma_value_ready,
    lemma_window_tile,
    tile_at,
    window_value,
};
use crate::store::{
    four,
    kept,
    lemma_count_zero,
    quadrant_level,
    usable,
    NodeStore,
    StoreError,
};
use crate::treespec::{
    cell,
    child_of,
    lemma_cell_extends,
    lemma_cell_in_range,
    lemma_side,
    lemma_valid_extends,
    live_count,
    quarter,
    side,
    store_ok,
    tile,
    valid,
    value_tile,
    value_valid,
    within,
};
use vstd::arithmetic::power2::{lemma2_to64, lemma2_to64_rest, lemma_pow2_unfold, pow2};
use vstd::prelude::*;

verus! {

/// Whether a square of the given level whose top left corner has the
/// coordinate `o` lies within the range of 64-bit coordinates.
pub open spec fn in_plane(o: int, level: nat) -> bool {
    i64::MIN <= o && o + side(level) <= i64::MAX + 1
}

/// Whether `g` has no cell outside the square of side `s` at `(ox, oy)`.
pub open spec fn inside(g: Set<(int, int)>, ox: int, oy: int, s: int) -> bool {
    forall|p: (int, int)| #[trigger]
        g.contains(p) ==> ox <= p.0 < ox + s && oy <= p.1 < oy + s
}

/// Whether `g` has no cell in the square of side `s` at `(px, py)`.
pub open spec fn outside(g: Set<(int, int)>, px: int, py: int, s: int) -> bool {
    forall|p: (int, int)| #[trigger]
        g.contains(p) ==> !(px <= p.0 < px + s && py <= p.1 < py + s)
}

/// A key that counts no live cell is a tile of every square that is empty.
pub(crate) proof fn lemma_empty_tile(
    m: Map<u128, QuadTreeNode>,
    dm: Map<u128, nat>,
    key: u128,
    level: nat,
    g: Set<(int, int)>,
    px: int,
    py: int,
)
    requires
        store_ok(m, dm),
        valid(m, dm, key, level),
        live_count(m, key, level) == 0,
        outside(g, px, py, side(level)),
    ensures
        tile(m, dm, key, level, g, px, py),
{
    reveal(tile);
    assert forall|a: int, b: int| 0 <= a < side(level) && 0 <= b < side(level) implies (
    #[trigger] cell(m, key, level, a, b) <==> g.contains((px + a, py + b))) by {
        lemma_count_zero(m, dm, key, level, a, b);
    }
}

/// The cells of a grid that a key tiles and that has no cell beyond the tile
/// are the cells of the key.
pub(crate) proof fn lemma_cells_from_tile(
    m: Map<u128, QuadTreeNode>,
    dm: Map<u128, nat>,
    key: u128,
    level: nat,
    g: Set<(int, int)>,
    ox: int,
    oy: int,
)
    requires
        tile(m, dm, key, level, g, ox, oy),
        inside(g, ox, oy, side(level)),
    ensures
        Set::new(|p: (int, int)| cell(m, key, level, p.0 - ox, p.1 - oy)) == g,
{
    reveal(tile);
    let c = Set::new(|p: (int, int)| cell(m, key, level, p.0 - ox, p.1 - oy));
    assert forall|p: (int, int)| c.contains(p) <==> g.contains(p) by {
        let a = p.0 - ox;
        let b = p.1 - oy;
        if cell(m, key, level, a, b) {
            lemma_cell_in_range(m, key, level, a, b);
        }
        if 0 <= a < side(level) && 0 <= b < side(level) {
            assert(cell(m, key, level, a, b) <==> g.contains((ox + a, oy + b)));
        }
    }
    assert(c =~= g);
}

proof fn lemma_all_dead(m: Map<u128, QuadTreeNode>, dm: Map<u128, nat>, key: u128, level: nat)
    requires
        store_ok(m, dm),
        valid(m, dm, key, level),
        live_count(m, key, level) == 0,
    ensures
        forall|a: int, b: int| !#[trigger] cell(m, key, level, a, b),
{
    assert forall|a: int, b: int| !#[trigger] cell(m, key, level, a, b) by {
        lemma_count_zero(m, dm, key, level, a, b);
    }
}

proof fn lemma_tile_dead(
    m: Map<u128, QuadTreeNode>,
    dm: Map<u128, nat>,
    key: u128,
    level: nat,
    g: Set<(int, int)>,
    px: int,
    py: int,
)
    requires
        tile(m, dm, key, level, g, px, py),
        forall|a: int, b: int| !#[trigger] cell(m, key, level, a, b),
    ensures
        outside(g, px, py, side(level)),
{
    reveal(tile);
    assert forall|p: (int, int)| #[trigger] g.contains(p) implies !(px <= p.0 < px + side(level)
        && py <= p.1 < py + side(level)) by {
        let a = p.0 - px;
        let b = p.1 - py;
        if 0 <= a < side(level) && 0 <= b < side(level) {
            assert(cell(m, key, level, a, b) <==> g.contains((px + a, py + b)));
        }
    }
}

/// A grid has no cell in a square that a key without a live cell tiles.
pub(crate) proof fn lemma_tile_empty(
    m: Map<u128, QuadTreeNode>,
    dm: Map<u128, nat>,
    key: u128,
    level: nat,
    g: Set<(int, int)>,
    px: int,
    py: int,
)
    requires
        store_ok(m, dm),
        tile(m, dm, key, level, g, px, py),
        live_count(m, key, level) == 0,
    ensures
        outside(g, px, py, side(level)),
{
    assert(valid(m, dm, key, level)) by {
        reveal(tile);
    }
    lemma_all_dead(m, dm, key, level);
    lemma_tile_dead(m, dm, key, level, g, px, py);
}

/// The square in row `r` and column `c` of a 4x4 grid of squares of side `s`
/// at `(ox, oy)` is empty, or it does not lie on the outer ring.
pub open spec fn ring_clear(g: Set<(int, int)>, ox: int, oy: int, s: int, r: int, c: int) -> bool {
    (r == 0 || r == 3 || c == 0 || c == 3) ==> outside(g, ox + c * s, oy + r * s, s)
}

/// A grid whose cells lie in a square, and not on the outer ring of the
/// square cut in 4x4, has its cells in the middle of the square.
pub(crate) proof fn lemma_ring_clear(g: Set<(int, int)>, ox: int, oy: int, s: int)
    requires
        s > 0,
        inside(g, ox, oy, 4 * s),
        forall|r: int, c: int| 0 <= r < 4 && 0 <= c < 4 ==> #[trigger] ring_clear(g, ox, oy, s, r, c),
    ensures
        inside(g, ox + s, oy + s, 2 * s),
{
    assert forall|p: (int, int)| #[trigger] g.contains(p) implies ox + s <= p.0 < ox + s + 2 * s
        && oy + s <= p.1 < oy + s + 2 * s by {
        let a = p.0 - ox;
        let b = p.1 - oy;
        let c: int = if a < s {
            0
        } else if a < 2 * s {
            1
        } else if a < 3 * s {
            2
        } else {
            3
        };
        let r: int = if b < s {
            0
        } else if b < 2 * s {
            1
        } else if b < 3 * s {
            2
        } else {
            3
        };
        assert(ring_clear(g, ox, oy, s, r, c));
        assert(c * s == 0 || c * s == s || c * s == 2 * s || c * s == 3 * s);
        assert(r * s == 0 || r * s == s || r * s == 2 * s || r * s == 3 * s);
    }
}

/// Cells do not travel faster than one cell in a generation: a grid whose
/// cells lie in a square has, `n` generations later, its cells in the square
/// that is wider by `n` on every side.
pub proof fn lemma_light_cone(g: Set<(int, int)>, ox: int, oy: int, s: int, n: nat)
    requires
        inside(g, ox, oy, s),
    ensures
        inside(generations(g, n), ox - n, oy - n, s + 2 * n),
{
    assert forall|p: (int, int)| #[trigger] generations(g, n).contains(p) implies ox - n <= p.0
        < ox - n + (s + 2 * n) && oy - n <= p.1 < oy - n + (s + 2 * n) by {
        if !(ox - n <= p.0 < ox + s + n && oy - n <= p.1 < oy + s + n) {
            assert forall|a: int, b: int| #[trigger] near(p.0, p.1, a, b, n as int) implies !g.contains(
                (a, b),
            ) by {
                if g.contains((a, b)) {
                    assert(ox <= a < ox + s && oy <= b < oy + s);
                }
            }
            lemma_dead_stays_dead(g, n, p.0, p.1);
        }
    }
}

proof fn lemma_grid_key(
    st: &NodeStore,
    t: Seq<u128>,
    sub: nat,
    g: Set<(int, int)>,
    ox: int,
    oy: int,
    i: int,
)
    requires
        grid_ok(st.nodes(), st.levels(), t, 4, sub, g, ox, oy),
        0 <= i < 16,
    ensures
        valid(st.nodes(), st.levels(), t[i], sub),
{
    reveal(tile);
    assert(tile_at(st.nodes(), st.levels(), t, sub, g, ox, oy, i / 4, i % 4));
}

proof fn lemma_grid_black(
    st: &NodeStore,
    t: Seq<u128>,
    sub: nat,
    g: Set<(int, int)>,
    ox: int,
    oy: int,
    i: int,
)
    requires
        st.wf(),
        grid_ok(st.nodes(), st.levels(), t, 4, sub, g, ox, oy),
        0 <= i < 16,
        live_count(st.nodes(), t[i], sub) == 0,
    ensures
        ring_clear(g, ox, oy, side(sub), i / 4, i % 4),
{
    st.lemma_wf();
    assert(tile_at(st.nodes(), st.levels(), t, sub, g, ox, oy, i / 4, i % 4));
    lemma_tile_empty(
        st.nodes(),
        st.levels(),
        t[i],
        sub,
        g,
        ox + (i % 4) * side(sub),
        oy + (i / 4) * side(sub),
    );
}

/// A key with a live cell tiles a square in which the grid has a cell.
proof fn lemma_tile_live(
    m: Map<u128, QuadTreeNode>,
    dm: Map<u128, nat>,
    key: u128,
    level: nat,
    g: Set<(int, int)>,
    px: int,
    py: int,
)
    requires
        store_ok(m, dm),
        tile(m, dm, key, level, g, px, py),
        live_count(m, key, level) != 0,
    ensures
        !outside(g, px, py, side(level)),
{
    assert(valid(m, dm, key, level)) by {
        reveal(tile);
    }
    crate::census::lemma_census(m, dm, key, level);
    let c = crate::treespec::cells(m, key, level);
    if forall|p: (int, int)| !c.contains(p) {
        assert(c =~= Set::empty());
    }
    let p = choose|p: (int, int)| c.contains(p);
    assert(cell(m, key, level, p.0, p.1));
    lemma_cell_in_range(m, key, level, p.0, p.1);
    assert(g.contains((px + p.0, py + p.1))) by {
        reveal(tile);
    }
}

/// The multiples of `s` by 0, 1, 2 and 3.
proof fn lemma_small_multiple(c: int, s: int)
    requires
        0 <= c < 4,
    ensures
        c * s == (if c == 0 {
            0
        } else if c == 1 {
            s
        } else if c == 2 {
            2 * s
        } else {
            3 * s
        }),
{
    if c == 0 {
        assert(c * s == 0) by (nonlinear_arith)
            requires
                c == 0,
        ;
    } else if c == 1 {
        assert(c * s == s) by (nonlinear_arith)
            requires
                c == 1,
        ;
    } else if c == 2 {
        assert(c * s == 2 * s) by (nonlinear_arith)
            requires
                c == 2,
        ;
    } else {
        assert(c * s == 3 * s) by (nonlinear_arith)
            requires
                c == 3,
        ;
    }
}

/// A grid with a cell in a square of the outer ring of a square cut in 4x4
/// does not have all its cells in the middle.
proof fn lemma_grid_white(
    st: &NodeStore,
    t: Seq<u128>,
    sub: nat,
    g: Set<(int, int)>,
    ox: int,
    oy: int,
    i: int,
)
    requires
        st.wf(),
        t.len() == 16,
        grid_ok(st.nodes(), st.levels(), t, 4, sub, g, ox, oy),
        0 <= i < 16,
        i % 4 == 0 || i % 4 == 3 || i / 4 == 0 || i / 4 == 3,
        live_count(st.nodes(), t[i], sub) != 0,
    ensures
        !inside(g, ox + side(sub), oy + side(sub), 2 * side(sub)),
{
    lemma_side(sub);
    let r = i / 4;
    let c = i % 4;
    let s = side(sub);
    assert(tile_at(st.nodes(), st.levels(), t, sub, g, ox, oy, r, c));
    assert(store_ok(st.nodes(), st.levels())) by {
        st.lemma_wf();
    }
    lemma_tile_live(st.nodes(), st.levels(), t[i], sub, g, ox + c * s, oy + r * s);
    lemma_small_multiple(c, s);
    lemma_small_multiple(r, s);
    let p = choose|p: (int, int)|
        g.contains(p) && ox + c * s <= p.0 < ox + c * s + s && oy + r * s <= p.1 < oy + r * s + s;
    assert(g.contains(p));
}

proof fn lemma_ring_next(g: Set<(int, int)>, ox: int, oy: int, s: int, i: int)
    requires
        0 <= i < 16,
        forall|r: int, c: int|
            0 <= r < 4 && 0 <= c < 4 && 4 * r + c < i ==> #[trigger] ring_clear(g, ox, oy, s, r, c),
        ring_clear(g, ox, oy, s, i / 4, i % 4),
    ensures
        forall|r: int, c: int|
            0 <= r < 4 && 0 <= c < 4 && 4 * r + c < i + 1 ==> #[trigger] ring_clear(
                g,
                ox,
                oy,
                s,
                r,
                c,
            ),
{
    assert forall|r: int, c: int| 0 <= r < 4 && 0 <= c < 4 && 4 * r + c < i + 1 implies #[trigger] ring_clear(
        g,
        ox,
        oy,
        s,
        r,
        c,
    ) by {
        if 4 * r + c == i {
            assert(r == i / 4 && c == i % 4);
        }
    }
}

/// Whether a ring of dead cells can be put around the square of level `d`
/// at `(x, y)` without leaving the plane of 64-bit coordinates.
pub open spec fn ring_fits(d: nat, x: int, y: int) -> bool {
    in_plane(x - side(d) / 2, d + 1) && in_plane(y - side(d) / 2, d + 1)
}

/// Whether the cells of `g` lie in the middle of the square of level `d` at
/// `(x, y)`: in the square of half its side around its centre.
pub open spec fn in_middle(g: Set<(int, int)>, d: nat, x: int, y: int) -> bool {
    inside(g, x + side((d - 2) as nat), y + side((d - 2) as nat), 2 * side((d - 2) as nat))
}

/// The level and the corner of the square in which a grid is stepped, for a
/// tree of level `d` at `(x, y)` with the cells `g`: rings of dead cells are
/// put around the square until the tree has three levels, and one more
/// where a cell lies outside the middle.
pub open spec fn roomy(g: Set<(int, int)>, d: nat, x: int, y: int) -> (nat, int, int)
    decreases 3 - d,
{
    if d < 3 {
        roomy(g, d + 1, x - side(d) / 2, y - side(d) / 2)
    } else if in_middle(g, d, x, y) {
        (d, x, y)
    } else {
        (d + 1, x - side(d) / 2, y - side(d) / 2)
    }
}

/// Whether the rings that `roomy` asks for fit the plane.
pub open spec fn roomy_fits(g: Set<(int, int)>, d: nat, x: int, y: int) -> bool
    decreases 3 - d,
{
    if d < 3 {
        ring_fits(d, x, y) && roomy_fits(g, d + 1, x - side(d) / 2, y - side(d) / 2)
    } else {
        in_middle(g, d, x, y) || ring_fits(d, x, y)
    }
}

/// Whether one round of stepping fits the plane: the rings that `roomy`
/// asks for, and the ring in which the step itself is worked out.
pub open spec fn round_fits(g: Set<(int, int)>, d: nat, x: int, y: int) -> bool {
    let r = roomy(g, d, x, y);
    roomy_fits(g, d, x, y) && r.0 < 61 && ring_fits(r.0, r.1, r.2)
}

/// The number of generations of one round of stepping, where `n` are asked
/// for: as many as the tree can be advanced by at once, and no more than
/// `n`.
pub open spec fn round_steps(g: Set<(int, int)>, d: nat, x: int, y: int, n: nat) -> nat {
    let most = quarter(roomy(g, d, x, y).0) as nat;
    if n < most {
        n
    } else {
        most
    }
}

/// Whether stepping by `n` generations fits the plane, round by round.
/// There is at least one round: `first` says that none was made yet.
pub open spec fn rounds_fit(g: Set<(int, int)>, d: nat, x: int, y: int, n: nat, first: bool) -> bool
    decreases n, (if first { 1int } else { 0int }),
{
    if n == 0 && !first {
        true
    } else {
        let r = roomy(g, d, x, y);
        let cur = round_steps(g, d, x, y, n);
        proof {
            vstd::arithmetic::power2::lemma_pow2_pos(r.0);
        }
        round_fits(g, d, x, y) && rounds_fit(
            generations(g, cur),
            r.0,
            r.1,
            r.2,
            (n - cur) as nat,
            false,
        )
    }
}

/// The level and the corner of the square of a tree after it was stepped by
/// `n` generations, round by round.
pub open spec fn rounds_place(g: Set<(int, int)>, d: nat, x: int, y: int, n: nat, first: bool) -> (
    nat,
    int,
    int,
)
    decreases n, (if first { 1int } else { 0int }),
{
    if n == 0 && !first {
        (d, x, y)
    } else {
        let r = roomy(g, d, x, y);
        let cur = round_steps(g, d, x, y, n);
        proof {
            vstd::arithmetic::power2::lemma_pow2_pos(r.0);
        }
        rounds_place(generations(g, cur), r.0, r.1, r.2, (n - cur) as nat, false)
    }
}

/// Whether the content hash can name the two nodes of the empty grid: the
/// all-dead node of the first level, whose quadrants are the empty raw
/// block, and the node whose quadrants are that node.
pub open spec fn empty_keys_ok() -> bool {
    let rung = hash_of(four(0));
    let root = hash_of(four(rung));
    &&& !is_raw_key(rung)
    &&& rung != NULL_KEY
    &&& !is_raw_key(root)
    &&& root != NULL_KEY
    &&& root != rung
}

/// A grid of cells: a node store, the key of the root, the level of the root
/// and the corner of its square on the grid.  `cells` is the set of the live
/// cells.  A tree is made by `new` or `gather_all_points`; every method
/// keeps `wf`.
///
/// A method that has to store a node gives an error where the store cannot
/// take the node: where the content hash of the node cannot name it, or
/// where a table or a coordinate would leave its range.
pub struct TreeData {
    store: NodeStore,
    root: u128,
    depth: u64,
    offset: Point,
}

impl TreeData {
    /// The live cells of the grid: the cells of the square that the root
    /// stands for, counted from the corner of the square.
    pub open spec fn cells(&self) -> Set<(int, int)> {
        Set::new(
            |p: (int, int)|
                cell(
                    self.store_nodes(),
                    self.spec_root(),
                    self.spec_depth(),
                    p.0 - self.spec_offset().0,
                    p.1 - self.spec_offset().1,
                ),
        )
    }

    /// The level of the root: the square of the tree has the side
    /// `8 * 2^depth`.
    pub closed spec fn spec_depth(&self) -> nat {
        self.depth as nat
    }

    /// The top left corner of the square of the tree.
    pub closed spec fn spec_offset(&self) -> (int, int) {
        (self.offset.x as int, self.offset.y as int)
    }

    /// The number of stored nodes.
    pub closed spec fn spec_node_count(&self) -> nat {
        self.store.nodes().dom().len()
    }

    /// The tree is in order: its store is, with every node stored under the
    /// content hash of its quadrants, its root is a key of its level, and
    /// its square lies within the range of 64-bit coordinates.
    pub closed spec fn wf(&self) -> bool {
        &&& self.store.wf()
        &&& self.store.keyed()
        &&& 1 <= self.depth <= 61
        &&& valid(self.store.nodes(), self.store.levels(), self.root, self.depth as nat)
        &&& in_plane(self.offset.x as int, self.depth as nat)
        &&& in_plane(self.offset.y as int, self.depth as nat)
    }

    /// Whether a ring of dead cells can be put around the square of the tree
    /// without leaving the range of 64-bit coordinates.
    pub open spec fn can_grow(&self) -> bool {
        let h = side(self.spec_depth()) / 2;
        &&& in_plane(self.spec_offset().0 - h, self.spec_depth() + 1)
        &&& in_plane(self.spec_offset().1 - h, self.spec_depth() + 1)
    }

    /// All live cells lie in the square of the tree.
    pub proof fn lemma_cells_inside(&self)
        requires
            self.wf(),
        ensures
            inside(
                self.cells(),
                self.spec_offset().0,
                self.spec_offset().1,
                side(self.spec_depth()),
            ),
            in_plane(self.spec_offset().0, self.spec_depth()),
            in_plane(self.spec_offset().1, self.spec_depth()),
            1 <= self.spec_depth() <= 61,
    {
        assert forall|p: (int, int)| #[trigger] self.cells().contains(p) implies self.offset.x
            <= p.0 < self.offset.x + side(self.depth as nat) && self.offset.y <= p.1
            < self.offset.y + side(self.depth as nat) by {
            lemma_cell_in_range(
                self.store.nodes(),
                self.root,
                self.depth as nat,
                p.0 - self.offset.x,
                p.1 - self.offset.y,
            );
        }
    }

    proof fn lemma_root_tile(&self)
        requires
            self.wf(),
        ensures
            tile(
                self.store.nodes(),
                self.store.levels(),
                self.root,
                self.depth as nat,
                self.cells(),
                self.offset.x as int,
                self.offset.y as int,
            ),
    {
        reveal(tile);
    }

    /// A tree whose store has grown is the same tree.
    proof fn lemma_store_grew(&self, next: &TreeData)
        requires
            self.wf(),
            self.store.grows_to(&next.store),
            next.store.wf(),
            next.store.keyed(),
            next.root == self.root,
            next.depth == self.depth,
            next.offset == self.offset,
        ensures
            next.wf(),
            next.cells() == self.cells(),
    {
        self.store.lemma_wf();
        self.store.lemma_grows(&next.store);
        let m = self.store.nodes();
        let dm = self.store.levels();
        let m2 = next.store.nodes();
        let dm2 = next.store.levels();
        lemma_valid_extends(m, dm, m2, dm2, self.root, self.depth as nat);
        assert forall|p: (int, int)| next.cells().contains(p) <==> self.cells().contains(p) by {
            lemma_cell_extends(
                m,
                dm,
                m2,
                dm2,
                self.root,
                self.depth as nat,
                p.0 - self.offset.x,
                p.1 - self.offset.y,
            );
        }
        assert(next.cells() =~= self.cells());
    }

    /// The points that `dump_all_points` gives are the live cells of the
    /// grid: every live cell is among them once, and nothing else.
    pub proof fn lemma_dump_is_cells(&self, p: Point)
        requires
            self.wf(),
        ensures
            crate::dump::zseq(
                self.cells(),
                self.spec_offset().0,
                self.spec_offset().1,
                self.spec_depth() + 3,
            ).contains(p) <==> self.cells().contains(p.pair()),
            crate::dump::all_distinct(
                crate::dump::zseq(
                    self.cells(),
                    self.spec_offset().0,
                    self.spec_offset().1,
                    self.spec_depth() + 3,
                ),
            ),
    {
        let k = (self.depth + 3) as nat;
        lemma_side(self.depth as nat);
        lemma_pow2_unfold(k);
        lemma_pow2_unfold((k - 1) as nat);
        lemma_pow2_unfold((k - 2) as nat);
        lemma2_to64();
        assert(side(self.depth as nat) == pow2(k));
        self.lemma_cells_inside();
        crate::dump::lemma_zseq_points(
            self.cells(),
            self.offset.x as int,
            self.offset.y as int,
            k,
            p,
        );
        crate::dump::lemma_zseq_distinct(
            self.cells(),
            self.offset.x as int,
            self.offset.y as int,
            k,
        );
    }

    /// Round trip: the points that come out of a grid that was made of a
    /// list of points are the points of the list, whatever their order and
    /// however often the list names one.
    pub proof fn lemma_import_export_round_trip(&self, points: Seq<Point>, p: Point)
        requires
            self.wf(),
            self.cells() == crate::gather::point_set(points),
        ensures
            crate::dump::zseq(
                self.cells(),
                self.spec_offset().0,
                self.spec_offset().1,
                self.spec_depth() + 3,
            ).contains(p) <==> points.contains(p),
    {
        self.lemma_dump_is_cells(p);
        if crate::gather::point_set(points).contains(p.pair()) {
            let i = choose|i: int| 0 <= i < points.len() && #[trigger] points[i].pair() == p.pair();
            assert(points[i] == p);
        }
        if points.contains(p) {
            let i = choose|i: int| 0 <= i < points.len() && points[i] == p;
            assert(points[i].pair() == p.pair());
        }
    }

    /// The number of stored nodes.
    pub fn node_count(&self) -> (n: usize)
        requires
            self.wf(),
        ensures
            n == self.spec_node_count(),
    {
        self.store.node_count()
    }

    /// Whether the tree came to be from `before` by taking nodes into the
    /// store.
    pub closed spec fn store_grew_from(&self, before: &TreeData) -> bool {
        before.store.grows_to(&self.store)
    }

    /// An empty grid.  Its tree has two nodes: the all-dead node of the
    /// first level, and the root, whose quadrants are that node.  It is
    /// there if and only if the content hash can name both.
    pub fn new() -> (r: Result<TreeData, StoreError>)
        ensures
            match r {
                Ok(t) => {
                    &&& t.wf()
                    &&& t.cells() == Set::<(int, int)>::empty()
                    &&& t.spec_depth() == 2
                    &&& t.spec_offset() == (-8int, -8int)
                    &&& t.spec_root() == hash_of(four(hash_of(four(0))))
                    &&& t.spec_node_count() == 2
                },
                Err(e) => e == StoreError::KeyClash(
                    if is_raw_key(hash_of(four(0))) || hash_of(four(0)) == NULL_KEY {
                        four(0)
                    } else {
                        four(hash_of(four(0)))
                    },
                ),
            },
            r is Ok <==> empty_keys_ok(),
    {
        let mut store = NodeStore::new();
        let ghost s0 = store;
        let rung = match store.push_black() {
            Ok(k) => k,
            Err(e) => {
                return Err(e);
            },
        };
        let ghost s1 = store;
        proof {
            lemma2_to64();
            assert(s1.nodes().dom() =~= set![rung]);
            s1.lemma_black(1);
            s1.lemma_black(0);
            assert(value_valid(s1.nodes(), s1.levels(), four(rung), 1));
            assert(quadrant_level(s1.levels(), four(rung)) == 1);
        }
        let root = match store.add_array([rung, rung, rung, rung]) {
            Ok(k) => k,
            Err(e) => {
                return Err(e);
            },
        };
        let tree_data = TreeData { store, root, depth: 2, offset: Point { x: -8, y: -8 } };
        proof {
            lemma_side(0);
            lemma_side(1);
            lemma_side(2);
            let m = tree_data.store.nodes();
            let dm = tree_data.store.levels();
            assert(m.dom() =~= set![rung, root]);
            s1.lemma_grows(&tree_data.store);
            assert(tree_data.cells() =~= Set::<(int, int)>::empty()) by {
                tree_data.store.lemma_wf();
                tree_data.store.lemma_black(1);
                assert forall|p: (int, int)| !tree_data.cells().contains(p) by {
                    let x = p.0 + 8;
                    let y = p.1 + 8;
                    if cell(m, root, 2, x, y) {
                        assert(child_of(m[root].v, side(1), x, y) == rung);
                        lemma_count_zero(m, dm, rung, 1, within(side(1), x), within(side(1), y));
                    }
                }
            }
        }
        Ok(tree_data)
    }

    /// The live cells of the grid are finitely many, and they are as many
    /// as the count of the root says.
    pub proof fn lemma_live_cells(&self)
        requires
            self.wf(),
        ensures
            self.cells().finite(),
            self.cells().len() == live_count(
                self.store_nodes(),
                self.spec_root(),
                self.spec_depth(),
            ),
    {
        self.store.lemma_wf();
        let inner = crate::treespec::cells(self.store.nodes(), self.root, self.depth as nat);
        crate::census::lemma_census(
            self.store.nodes(),
            self.store.levels(),
            self.root,
            self.depth as nat,
        );
        crate::census::lemma_shifted_len(inner, self.offset.x as int, self.offset.y as int);
        assert(self.cells() =~= crate::life::shifted(
            inner,
            self.offset.x as int,
            self.offset.y as int,
        ));
    }

    /// The number of live cells, or the largest number of 64 bits where
    /// there are more.
    pub fn num_live_cells(&self) -> (n: u64)
        requires
            self.wf(),
        ensures
            self.cells().finite(),
            n == crate::treespec::capped(self.cells().len()),
    {
        proof {
            self.lemma_live_cells();
            self.store.lemma_wf();
            assert(crate::treespec::node_ok(self.store.nodes(), self.store.levels(), self.root));
        }
        self.store.get(self.root).unwrap().set_count
    }

    /// The stored nodes by their keys.
    pub closed spec fn store_nodes(&self) -> Map<u128, QuadTreeNode> {
        self.store.nodes()
    }

    /// The key of the root.
    pub closed spec fn spec_root(&self) -> u128 {
        self.root
    }

    /// Whether a live cell lies on the outer ring of the square of the tree
    /// cut in 4x4: whether not all cells lie in the middle.
    #[verifier::rlimit(50)]
    fn has_white_on_border(&self) -> (white: bool)
        requires
            self.wf(),
            self.depth >= 3,
        ensures
            white == !inside(
                self.cells(),
                self.offset.x + side((self.depth - 2) as nat),
                self.offset.y + side((self.depth - 2) as nat),
                2 * side((self.depth - 2) as nat),
            ),
    {
        let ghost g = self.cells();
        let ghost ox = self.offset.x as int;
        let ghost oy = self.offset.y as int;
        let ghost sub = (self.depth - 2) as nat;
        let ghost s = side(sub);
        let ghost m = self.store.nodes();
        let ghost dm = self.store.levels();
        proof {
            self.lemma_root_tile();
            lemma_side(sub);
            lemma_side(sub + 1);
            lemma_side(sub + 2);
            assert(crate::treespec::value_tile(m, dm, m[self.root].v, sub + 1, g, ox, oy)) by {
                self.store.lemma_wf();
                lemma_tile_quadrants(m, dm, self.root, sub + 1, g, ox, oy);
            }
            lemma_value_ready(m, dm, m[self.root].v, sub + 1, g, ox, oy);
        }
        let d = self.store.get(self.root).unwrap().v;
        let c0 = self.store.get(d.lt).unwrap().v;
        let c1 = self.store.get(d.rt).unwrap().v;
        let c2 = self.store.get(d.lb).unwrap().v;
        let c3 = self.store.get(d.rb).unwrap().v;
        let arg_map = [
            c0.lt,
            c0.rt,
            c0.lb,
            c0.rb,
            c1.lt,
            c1.rt,
            c1.lb,
            c1.rb,
            c2.lt,
            c2.rt,
            c2.lb,
            c2.rb,
            c3.lt,
            c3.rt,
            c3.lb,
            c3.rb,
        ];
        let transposed_map = transpose_quad(&arg_map);
        proof {
            assert(transposed_map@ =~= seq![
                c0.lt,
                c0.rt,
                c1.lt,
                c1.rt,
                c0.lb,
                c0.rb,
                c1.lb,
                c1.rb,
                c2.lt,
                c2.rt,
                c3.lt,
                c3.rt,
                c2.lb,
                c2.rb,
                c3.lb,
                c3.rb,
            ]);
            lemma_children_grid(&self.store, d, transposed_map@, sub, g, ox, oy);
        }
        let mut i: usize = 0;
        while i < 16
            invariant
                self.store.wf(),
                i <= 16,
                s == side(sub),
                sub == self.depth - 2,
                g == self.cells(),
                ox == self.offset.x,
                oy == self.offset.y,
                grid_ok(self.store.nodes(), self.store.levels(), transposed_map@, 4, sub, g, ox, oy),
                forall|r: int, c: int|
                    0 <= r < 4 && 0 <= c < 4 && 4 * r + c < i ==> #[trigger] ring_clear(
                        g,
                        ox,
                        oy,
                        s,
                        r,
                        c,
                    ),
            decreases 16 - i,
        {
            if is_on_4x4_border(i) {
                let key = transposed_map[i];
                proof {
                    lemma_grid_key(&self.store, transposed_map@, sub, g, ox, oy, i as int);
                }
                if !self.store.is_black(key, Ghost(sub)) {
                    proof {
                        lemma_grid_white(&self.store, transposed_map@, sub, g, ox, oy, i as int);
                    }
                    return true;
                }
                proof {
                    lemma_grid_black(&self.store, transposed_map@, sub, g, ox, oy, i as int);
                }
            }
            proof {
                lemma_ring_next(g, ox, oy, s, i as int);
            }
            i = i + 1;
        }
        proof {
            self.lemma_cells_inside();
            lemma_ring_clear(g, ox, oy, s);
        }
        false
    }

    /// Makes the tree at least three levels high and so wide that no live
    /// cell lies on the outer ring of its square cut in 4x4: brings it to the
    /// place that `roomy` gives.
    #[verifier::rlimit(50)]
    fn make_room(&mut self) -> (r: Result<(), StoreError>)
        requires
            old(self).wf(),
        ensures
            final(self).wf(),
            final(self).store_grew_from(old(self)),
            final(self).cells() == old(self).cells(),
            match r {
                Ok(_) => {
                    &&& final(self).depth >= 3
                    &&& inside(
                        final(self).cells(),
                        final(self).offset.x + side((final(self).depth - 2) as nat),
                        final(self).offset.y + side((final(self).depth - 2) as nat),
                        2 * side((final(self).depth - 2) as nat),
                    )
                    &&& roomy_fits(
                        old(self).cells(),
                        old(self).place().0,
                        old(self).place().1,
                        old(self).place().2,
                    )
                    &&& final(self).place() == roomy(
                        old(self).cells(),
                        old(self).place().0,
                        old(self).place().1,
                        old(self).place().2,
                    )
                },
                Err(e) => final(self).explains(e) || (e == StoreError::OutOfRange && !roomy_fits(
                    old(self).cells(),
                    old(self).place().0,
                    old(self).place().1,
                    old(self).place().2,
                )),
            },
    {
        let ghost start = *self;
        let ghost g = self.cells();
        proof {
            start.store.lemma_grows_refl();
        }
        while self.depth < 3
            invariant
                self.wf(),
                start == *old(self),
                self.cells() == g,
                g == start.cells(),
                start.store.grows_to(&self.store),
                roomy(g, start.place().0, start.place().1, start.place().2) == roomy(
                    g,
                    self.place().0,
                    self.place().1,
                    self.place().2,
                ),
                roomy_fits(g, start.place().0, start.place().1, start.place().2) == roomy_fits(
                    g,
                    self.place().0,
                    self.place().1,
                    self.place().2,
                ),
            decreases 3 - self.depth,
        {
            let ghost before = *self;
            match self.increase_depth() {
                Ok(_) => {},
                Err(e) => {
                    proof {
                        start.store.lemma_grows_trans(&before.store, &self.store);
                    }
                    return Err(e);
                },
            }
            proof {
                start.store.lemma_grows_trans(&before.store, &self.store);
            }
        }
        let white = self.has_white_on_border();
        if white {
            let ghost before = *self;
            proof {
                before.lemma_cells_inside();
                lemma_side(before.depth as nat);
                lemma_side((before.depth - 1) as nat);
                lemma_side((before.depth + 1) as nat);
            }
            match self.increase_depth() {
                Ok(_) => {},
                Err(e) => {
                    proof {
                        start.store.lemma_grows_trans(&before.store, &self.store);
                    }
                    return Err(e);
                },
            }
            proof {
                start.store.lemma_grows_trans(&before.store, &self.store);
            }
        }
        Ok(())
    }

    /// The root of the tree as a tile of its cells, and its quadrants.
    proof fn lemma_root_quadrants(&self)
        requires
            self.wf(),
        ensures
            self.store.nodes().contains_key(self.root),
            crate::treespec::value_tile(
                self.store.nodes(),
                self.store.levels(),
                self.store.nodes()[self.root].v,
                (self.depth - 1) as nat,
                self.cells(),
                self.offset.x as int,
                self.offset.y as int,
            ),
    {
        self.lemma_root_tile();
        self.store.lemma_wf();
        lemma_tile_quadrants(
            self.store.nodes(),
            self.store.levels(),
            self.root,
            (self.depth - 1) as nat,
            self.cells(),
            self.offset.x as int,
            self.offset.y as int,
        );
    }

    /// The cells of a tree after some generations are the cells of the key
    /// that stands for the middle of its square, where no cell can have
    /// left the middle.
    proof fn lemma_stepped(
        m: Map<u128, QuadTreeNode>,
        dm: Map<u128, nat>,
        newkey: u128,
        level: nat,
        g: Set<(int, int)>,
        ox: int,
        oy: int,
        n: nat,
    )
        requires
            level >= 1,
            tile(m, dm, newkey, level, generations(g, n), ox + quarter(level + 1), oy + quarter(level + 1)),
            inside(g, ox + 3 * side((level - 1) as nat) / 2, oy + 3 * side((level - 1) as nat) / 2, side((level - 1) as nat)),
            2 * n <= side((level - 1) as nat),
        ensures
            valid(m, dm, newkey, level),
            Set::new(
                |p: (int, int)|
                    cell(
                        m,
                        newkey,
                        level,
                        p.0 - (ox + quarter(level + 1)),
                        p.1 - (oy + quarter(level + 1)),
                    ),
            ) == generations(g, n),
    {
        let s2 = side((level - 1) as nat);
        let q = quarter(level + 1);
        lemma_side((level - 1) as nat);
        lemma_side(level);
        lemma_pow2_unfold(level);
        lemma_pow2_unfold(level + 1);
        assert(valid(m, dm, newkey, level)) by {
            reveal(tile);
        }
        lemma_light_cone(g, ox + 3 * s2 / 2, oy + 3 * s2 / 2, s2, n);
        let gn = generations(g, n);
        assert(inside(gn, ox + q, oy + q, side(level)));
        lemma_cells_from_tile(m, dm, newkey, level, gn, ox + q, oy + q);
    }

    /// One round of stepping: makes room around the cells, advances them by
    /// as many of the `n_steps` generations as the tree can be advanced by at
    /// once, and gives that number.  The tree is then at the place that
    /// `roomy` gives.
    #[verifier::rlimit(50)]
    fn step_round(&mut self, n_steps: u64) -> (r: Result<u64, StoreError>)
        requires
            old(self).wf(),
        ensures
            final(self).wf(),
            final(self).store_grew_from(old(self)),
            match r {
                Ok(cur) => {
                    &&& cur <= n_steps
                    &&& (n_steps > 0 ==> cur > 0)
                    &&& final(self).cells() == generations(old(self).cells(), cur as nat)
                    &&& cur == round_steps(
                        old(self).cells(),
                        old(self).place().0,
                        old(self).place().1,
                        old(self).place().2,
                        n_steps as nat,
                    )
                    &&& round_fits(
                        old(self).cells(),
                        old(self).place().0,
                        old(self).place().1,
                        old(self).place().2,
                    )
                    &&& final(self).place() == roomy(
                        old(self).cells(),
                        old(self).place().0,
                        old(self).place().1,
                        old(self).place().2,
                    )
                },
                Err(e) => {
                    &&& final(self).cells() == old(self).cells()
                    &&& final(self).explains(e) || (e == StoreError::OutOfRange && !round_fits(
                        old(self).cells(),
                        old(self).place().0,
                        old(self).place().1,
                        old(self).place().2,
                    ))
                },
            },
    {
        let ghost start = *self;
        let ghost g = self.cells();
        match self.make_room() {
            Ok(_) => {},
            Err(e) => {
                return Err(e);
            },
        }
        let ghost inner = *self;
        let ghost sub = (self.depth - 2) as nat;
        let ghost s = side(sub);
        proof {
            lemma_side(sub);
            lemma_side(sub + 1);
            lemma_side(sub + 2);
            lemma_side(sub + 3);
        }
        if self.depth >= 61 {
            return Err(StoreError::OutOfRange);
        }
        let max_steps = full_steps(self.depth - 1);
        let cur_steps = if n_steps < max_steps {
            n_steps
        } else {
            max_steps
        };
        match self.increase_depth() {
            Ok(_) => {},
            Err(e) => {
                proof {
                    start.store.lemma_grows_trans(&inner.store, &self.store);
                }
                return Err(e);
            },
        }
        let ghost padded = *self;
        let ghost ox = self.offset.x as int;
        let ghost oy = self.offset.y as int;
        proof {
            start.store.lemma_grows_trans(&inner.store, &padded.store);
            padded.lemma_root_quadrants();
            lemma_pow2_unfold(sub + 1);
            lemma_pow2_unfold(sub + 2);
            lemma_pow2_unfold(sub + 3);
            assert(inside(g, ox + 3 * s, oy + 3 * s, 2 * s));
        }
        let d = self.store.get(self.root).unwrap().v;
        let depth = self.depth;
        let res = self.store.step_forward_rec(
            d,
            depth - 1,
            cur_steps,
            Ghost(g),
            Ghost(ox),
            Ghost(oy),
        );
        match res {
            Ok(newkey) => {
                let magnitude = full_steps(depth - 1);
                self.root = newkey;
                self.depth = depth - 1;
                self.offset = Point {
                    x: ((self.offset.x as i128) + (magnitude as i128)) as i64,
                    y: ((self.offset.y as i128) + (magnitude as i128)) as i64,
                };
                proof {
                    start.store.lemma_grows_trans(&padded.store, &self.store);
                    Self::lemma_stepped(
                        self.store.nodes(),
                        self.store.levels(),
                        newkey,
                        (depth - 1) as nat,
                        g,
                        ox,
                        oy,
                        cur_steps as nat,
                    );
                }
                Ok(cur_steps)
            },
            Err(e) => {
                proof {
                    padded.lemma_store_grew(self);
                    start.store.lemma_grows_trans(&padded.store, &self.store);
                }
                Err(e)
            },
        }
    }

    /// Advances the grid by `n_steps` generations, round by round.  Where a
    /// round cannot be made, the grid is left as it was, and the error has a
    /// cause that can be named: the store cannot name the value or has no
    /// room, or a ring of dead cells that a round asks for would leave the
    /// plane.
    pub fn step_forward(&mut self, n_steps: u64) -> (r: Result<(), StoreError>)
        requires
            old(self).wf(),
        ensures
            final(self).wf(),
            final(self).store_grew_from(old(self)),
            match r {
                Ok(_) => {
                    &&& final(self).cells() == generations(old(self).cells(), n_steps as nat)
                    &&& rounds_fit(
                        old(self).cells(),
                        old(self).place().0,
                        old(self).place().1,
                        old(self).place().2,
                        n_steps as nat,
                        true,
                    )
                    &&& final(self).place() == rounds_place(
                        old(self).cells(),
                        old(self).place().0,
                        old(self).place().1,
                        old(self).place().2,
                        n_steps as nat,
                        true,
                    )
                },
                Err(e) => {
                    &&& final(self).cells() == old(self).cells()
                    &&& final(self).spec_depth() == old(self).spec_depth()
                    &&& final(self).spec_offset() == old(self).spec_offset()
                    &&& final(self).explains(e) || (e == StoreError::OutOfRange && !rounds_fit(
                        old(self).cells(),
                        old(self).place().0,
                        old(self).place().1,
                        old(self).place().2,
                        n_steps as nat,
                        true,
                    ))
                },
            },
    {
        let ghost start = *self;
        let ghost g = self.cells();
        let root0 = self.root;
        let depth0 = self.depth;
        let offset0 = self.offset;
        let mut left = n_steps;
        let mut first = true;
        proof {
            start.store.lemma_grows_refl();
        }
        while first || left > 0
            invariant
                self.wf(),
                start.wf(),
                start == *old(self),
                g == start.cells(),
                root0 == start.root,
                depth0 == start.depth,
                offset0 == start.offset,
                left <= n_steps,
                start.store.grows_to(&self.store),
                self.cells() == generations(g, (n_steps - left) as nat),
                rounds_fit(
                    g,
                    start.place().0,
                    start.place().1,
                    start.place().2,
                    n_steps as nat,
                    true,
                ) == rounds_fit(
                    self.cells(),
                    self.place().0,
                    self.place().1,
                    self.place().2,
                    left as nat,
                    first,
                ),
                rounds_place(
                    g,
                    start.place().0,
                    start.place().1,
                    start.place().2,
                    n_steps as nat,
                    true,
                ) == rounds_place(
                    self.cells(),
                    self.place().0,
                    self.place().1,
                    self.place().2,
                    left as nat,
                    first,
                ),
            decreases left + (if first { 1int } else { 0int }),
        {
            let ghost before = *self;
            match self.step_round(left) {
                Ok(done) => {
                    proof {
                        crate::life::lemma_generations_add(
                            g,
                            (n_steps - left) as nat,
                            done as nat,
                        );
                        start.store.lemma_grows_trans(&before.store, &self.store);
                    }
                    left = left - done;
                    first = false;
                },
                Err(e) => {
                    proof {
                        start.store.lemma_grows_trans(&before.store, &self.store);
                    }
                    self.root = root0;
                    self.depth = depth0;
                    self.offset = offset0;
                    proof {
                        start.lemma_store_grew(self);
                    }
                    return Err(e);
                },
            }
        }
        Ok(())
    }

    /// The live cells of the grid, quadrant by quadrant.
    pub fn dump_all_points(&self) -> (res: Vec<Point>)
        requires
            self.wf(),
        ensures
            res@ == crate::dump::zseq(
                self.cells(),
                self.spec_offset().0,
                self.spec_offset().1,
                self.spec_depth() + 3,
            ),
    {
        let mut res: Vec<Point> = Vec::new();
        proof {
            self.lemma_root_tile();
        }
        self.store.dump_node(self.root, self.depth, self.offset, &mut res, Ghost(self.cells()));
        proof {
            assert(res@ =~= crate::dump::zseq(
                self.cells(),
                self.offset.x as int,
                self.offset.y as int,
                (self.depth + 3) as nat,
            ));
        }
        res
    }

    /// The grid whose live cells are the given points.  Without a point it
    /// is the empty grid that `new` gives, and it is there where that one
    /// is.  With points, a value is refused only where the content hash
    /// cannot name it in a store of squares of this grid, and a table is
    /// full only where the points are at least a 1024th of the largest
    /// number.
    #[verifier::rlimit(50)]
    pub fn gather_all_points(points: &Vec<Point>) -> (r: Result<TreeData, StoreError>)
        ensures
            match r {
                Ok(t) => {
                    &&& t.wf()
                    &&& t.cells() == crate::gather::point_set(points@)
                    &&& t.place() == if points@.len() == 0 {
                        (2nat, -8int, -8int)
                    } else {
                        crate::gather::frame_of(points@)
                    }
                },
                Err(StoreError::OutOfRange) => points@.len() >= usize::MAX / 1024,
                Err(StoreError::KeyClash(v)) => points@.len() > 0 ==> exists|s: NodeStore|
                    #[trigger] s.explains(StoreError::KeyClash(v)) && s.wf()
                        && crate::gather::stores_squares(&s, crate::gather::point_set(points@)),
            },
            points@.len() == 0 ==> (r is Ok <==> empty_keys_ok()),
    {
        if points.len() == 0 {
            proof {
                assert(crate::gather::point_set(points@) =~= Set::<(int, int)>::empty());
            }
            return TreeData::new();
        }
        let mut minx = points[0].x;
        let mut maxx = points[0].x;
        let mut miny = points[0].y;
        let mut maxy = points[0].y;
        let mut i: usize = 1;
        let ghost xs = crate::gather::columns(points@);
        let ghost ys = crate::gather::rows(points@);
        while i < points.len()
            invariant
                1 <= i <= points.len(),
                forall|j: int|
                    0 <= j < i ==> minx <= (#[trigger] points@[j]).x <= maxx && miny <= points@[j].y
                        <= maxy,
                xs == crate::gather::columns(points@),
                ys == crate::gather::rows(points@),
                minx == crate::gather::least(xs.take(i as int)),
                maxx == crate::gather::most(xs.take(i as int)),
                miny == crate::gather::least(ys.take(i as int)),
                maxy == crate::gather::most(ys.take(i as int)),
            decreases points.len() - i,
        {
            proof {
                crate::gather::lemma_one_more(xs, i as int);
                crate::gather::lemma_one_more(ys, i as int);
            }
            let p = points[i];
            if p.x < minx {
                minx = p.x;
            }
            if p.x > maxx {
                maxx = p.x;
            }
            if p.y < miny {
                miny = p.y;
            }
            if p.y > maxy {
                maxy = p.y;
            }
            i = i + 1;
        }
        let span_x: i128 = (maxx as i128) - (minx as i128);
        let span_y: i128 = (maxy as i128) - (miny as i128);
        let span: i128 = if span_x > span_y {
            span_x
        } else {
            span_y
        };
        proof {
            assert(xs.take(points@.len() as int) =~= xs);
            assert(ys.take(points@.len() as int) =~= ys);
        }
        let mut depth: u64 = 3;
        while depth < 61 && 2 * (full_steps(depth) as i128) <= span
            invariant
                3 <= depth <= 61,
                crate::gather::level_for(span as int, 3) == crate::gather::level_for(
                    span as int,
                    depth as nat,
                ),
            decreases 61 - depth,
        {
            depth = depth + 1;
        }
        let wide: i128 = 2 * (full_steps(depth) as i128);
        let limit: i128 = 0x8000_0000_0000_0000 - wide;
        let fx: i128 = if (minx as i128) > limit {
            limit
        } else {
            minx as i128
        };
        let fy: i128 = if (miny as i128) > limit {
            limit
        } else {
            miny as i128
        };
        let frame = crate::gather::Frame { x: fx as i64, y: fy as i64, top: depth };
        let ghost g = crate::gather::point_set(points@);
        let ghost level = depth as nat;
        proof {
            lemma_side(level);
            lemma2_to64();
            lemma2_to64_rest();
            if depth == 61 {
                assert(side(61) == 0x1_0000_0000_0000_0000);
            }
            assert(span < wide);
            assert(crate::gather::fits(points@, fx as int, fy as int, level));
        }
        let mut store = NodeStore::new();
        let ghost fresh = store;
        let root = match crate::gather::gather_levels(&mut store, points, &frame) {
            Ok(found) => found,
            Err(e) => {
                proof {
                    if e != StoreError::OutOfRange {
                        assert(store.explains(e) && store.wf() && crate::gather::stores_squares(
                            &store,
                            g,
                        ));
                    } else {
                        assert(fresh.compact());
                        assert(depth * points@.len() <= 61 * points@.len()) by (nonlinear_arith)
                            requires
                                depth <= 61,
                        ;
                    }
                }
                return Err(e);
            },
        };
        let t = TreeData { store, root, depth, offset: Point { x: fx as i64, y: fy as i64 } };
        proof {
            assert(valid(t.store.nodes(), t.store.levels(), root, level)) by {
                reveal(tile);
            }
            assert(inside(g, fx as int, fy as int, side(level))) by {
                assert forall|p: (int, int)| #[trigger] g.contains(p) implies fx <= p.0 < fx + side(
                    level,
                ) && fy <= p.1 < fy + side(level) by {
                    let j = choose|j: int| 0 <= j < points@.len() && #[trigger] points@[j].pair() == p;
                    assert(0 <= crate::gather::biased(points@[j].x, fx as int) < side(level));
                }
            }
            lemma_cells_from_tile(
                t.store.nodes(),
                t.store.levels(),
                root,
                level,
                g,
                fx as int,
                fy as int,
            );
        }
        Ok(t)
    }

    /// The ladder of all-dead keys of the store, by level.
    pub closed spec fn ladder(&self) -> Seq<u128> {
        self.store.blacks()
    }

    /// Whether the table of the store can take one more node.
    pub closed spec fn store_has_room(&self) -> bool {
        self.store.has_room()
    }

    /// Whether the store of the tree shows why `e` was given: the content
    /// hash of the value cannot name it in the store, or the table has no
    /// room.
    pub open spec fn explains(&self, e: StoreError) -> bool {
        match e {
            StoreError::KeyClash(v) => !usable(self.store_nodes(), v),
            StoreError::OutOfRange => !self.store_has_room(),
        }
    }

    /// The level of the root and the corner of the square of the tree.
    pub open spec fn place(&self) -> (nat, int, int) {
        (self.spec_depth(), self.spec_offset().0, self.spec_offset().1)
    }

    /// The nodes in use: those that the root leads to, and those that the
    /// last key of the ladder of all-dead keys leads to.
    pub open spec fn live_nodes(&self) -> Map<u128, QuadTreeNode> {
        kept(self.store_nodes(), self.ladder(), self.spec_root(), self.spec_depth())
    }

    /// Drops every node that is not in use: the nodes in use are stored anew
    /// in a table of the same size, and that table takes the place of the
    /// old one.  The grid stays as it is.  Where the table has no room for a
    /// node, nothing is dropped.
    pub fn garbage_collect(&mut self)
        requires
            old(self).wf(),
        ensures
            final(self).wf(),
            final(self).cells() == old(self).cells(),
            final(self).spec_depth() == old(self).spec_depth(),
            final(self).spec_offset() == old(self).spec_offset(),
            final(self).spec_root() == old(self).spec_root(),
            final(self).ladder() == old(self).ladder(),
            final(self).spec_node_count() <= old(self).spec_node_count(),
            final(self).store_nodes() == if old(self).store_has_room() {
                old(self).live_nodes()
            } else {
                old(self).store_nodes()
            },
    {
        let ghost start = *self;
        match self.store.collect(self.root, Ghost(self.depth as nat)) {
            Ok(next_map) => {
                self.store = next_map;
                proof {
                    self.lemma_store_grew(&start);
                    self.store.lemma_grows(&start.store);
                    start.store.lemma_wf();
                    start.store.lemma_nodes_finite();
                    assert(self.store.nodes().dom().subset_of(start.store.nodes().dom())) by {
                        assert forall|k: u128|
                            self.store.nodes().dom().contains(k) implies start.store.nodes().dom().contains(
                            k,
                        ) by {
                            assert(self.store.nodes().contains_key(k));
                        }
                    }
                    vstd::set_lib::lemma_len_subset(
                        self.store.nodes().dom(),
                        start.store.nodes().dom(),
                    );
                }
            },
            Err(_) => {},
        }
    }

    /// The picture that `make_grayscale_map` draws: an empty picture on which
    /// the square of the root and its parts were visited.
    pub open spec fn gray_spec(&self, offset: Point, c: crate::gray::Canvas) -> Seq<u8> {
        crate::gray::paint_spec(
            self.store_nodes(),
            c,
            self.spec_root(),
            self.spec_depth(),
            self.spec_offset().0 - offset.x,
            self.spec_offset().1 - offset.y,
            crate::gray::blank(c),
        )
    }

    /// The picture pixel by pixel, where a pixel is as wide as the tree at
    /// the most, and the corner of the tree lies on the corner of a pixel,
    /// `qx` pixels right of the corner of the picture and `qy` pixels below
    /// it: every pixel is as bright as its square of the grid is full.  A
    /// pixel without a live cell in its square is black.
    pub proof fn lemma_gray_pixels(
        &self,
        offset: Point,
        c: crate::gray::Canvas,
        qx: int,
        qy: int,
        px: int,
        py: int,
    )
        requires
            self.wf(),
            c.zoom <= self.spec_depth() + 3,
            self.spec_offset().0 - offset.x == qx * pow2(c.zoom as nat),
            self.spec_offset().1 - offset.y == qy * pow2(c.zoom as nat),
            0 <= px < c.xsize,
            0 <= py < c.ysize,
        ensures
            self.gray_spec(offset, c)[py * c.xsize + px] == crate::gray::pixel_value(
                c,
                crate::treespec::capped(
                    crate::gray::cells_in(
                        self.cells(),
                        offset.x + px * pow2(c.zoom as nat),
                        offset.y + py * pow2(c.zoom as nat),
                        pow2(c.zoom as nat) as int,
                    ).len(),
                ),
            ),
            crate::gray::cells_in(
                self.cells(),
                offset.x + px * pow2(c.zoom as nat),
                offset.y + py * pow2(c.zoom as nat),
                pow2(c.zoom as nat) as int,
            ).len() == 0 ==> self.gray_spec(offset, c)[py * c.xsize + px] == 0,
    {
        let m = self.store.nodes();
        let dm = self.store.levels();
        let g = self.cells();
        let p = pow2(c.zoom as nat) as int;
        let tx = offset.x + qx * p;
        let ty = offset.y + qy * p;
        assert(tx == self.offset.x && ty == self.offset.y);
        assert(tile(m, dm, self.root, self.depth as nat, g, tx, ty)) by {
            self.lemma_root_tile();
        }
        assert(inside(g, tx, ty, side(self.depth as nat))) by {
            self.lemma_cells_inside();
        }
        assert(store_ok(m, dm)) by {
            self.store.lemma_wf();
        }
        assert(self.gray_spec(offset, c) == crate::gray::paint_spec(
            m,
            c,
            self.root,
            self.depth as nat,
            qx * p,
            qy * p,
            crate::gray::blank(c),
        ));
        crate::gray::lemma_picture_pixel(
            self.store.nodes(),
            self.store.levels(),
            c,
            self.root,
            self.depth as nat,
            qx,
            qy,
            self.cells(),
            offset.x as int,
            offset.y as int,
            px,
            py,
        );
    }

    /// A picture of the part of the grid whose top left corner is `offset`,
    /// row by row, one byte for each pixel.  A pixel stands for a square of
    /// `2^zoom` cells on each side.  The squares of the tree are visited from
    /// the root down: a square without a live cell or beside the picture is
    /// passed over, and a square that is no wider than a pixel makes the
    /// pixel of its top left corner as bright as it is full, times
    /// `brightness_int / 65536`.
    pub fn make_grayscale_map(
        &self,
        offset: Point,
        xsize: usize,
        ysize: usize,
        zoom: u8,
        brightness_int: u64,
    ) -> (res: Vec<u8>)
        requires
            self.wf(),
            xsize * ysize <= usize::MAX,
            zoom <= 23,
        ensures
            res@.len() == xsize * ysize,
            res@ == self.gray_spec(
                offset,
                crate::gray::Canvas { xsize, ysize, zoom, brightness: brightness_int },
            ),
    {
        let canvas = crate::gray::Canvas { xsize, ysize, zoom, brightness: brightness_int };
        let mut res: Vec<u8> = Vec::new();
        let mut rows: usize = 0;
        let ghost blank = crate::gray::blank(canvas);
        proof {
            assert(0 * xsize == 0) by (nonlinear_arith);
        }
        while rows < ysize
            invariant
                rows <= ysize,
                xsize * ysize <= usize::MAX,
                res@.len() == rows * xsize,
                forall|i: int| 0 <= i < res@.len() ==> res@[i] == 0,
            decreases ysize - rows,
        {
            let mut k: usize = 0;
            proof {
                assert((rows + 1) * xsize == rows * xsize + xsize) by (nonlinear_arith);
                assert((rows + 1) * xsize <= xsize * ysize) by (nonlinear_arith)
                    requires
                        rows + 1 <= ysize,
                        0 <= xsize,
                ;
            }
            while k < xsize
                invariant
                    k <= xsize,
                    res@.len() == rows * xsize + k,
                    forall|i: int| 0 <= i < res@.len() ==> res@[i] == 0,
                decreases xsize - k,
            {
                res.push(0);
                k = k + 1;
            }
            rows = rows + 1;
        }
        proof {
            assert(ysize * xsize == xsize * ysize) by (nonlinear_arith);
            assert(res@ =~= blank);
            lemma_side(self.depth as nat);
            lemma2_to64();
            lemma2_to64_rest();
            crate::stepper::lemma_pow2_le((self.depth + 3) as nat, 64);
            assert(side(self.depth as nat) == pow2((self.depth + 3) as nat)) by {
                lemma_pow2_unfold((self.depth + 3) as nat);
                lemma_pow2_unfold((self.depth + 2) as nat);
                lemma_pow2_unfold((self.depth + 1) as nat);
            }
        }
        let lx: i128 = (self.offset.x as i128) - (offset.x as i128);
        let ly: i128 = (self.offset.y as i128) - (offset.y as i128);
        self.store.paint_node(&canvas, self.root, self.depth, lx, ly, &mut res);
        res
    }

    /// The key of the square around the square of `root` that is twice as
    /// wide: `root` in the middle, and a ring of dead cells around it.
    #[verifier::rlimit(50)]
    fn padded_root(
        store: &mut NodeStore,
        root: u128,
        depth: u64,
        Ghost(g): Ghost<Set<(int, int)>>,
        Ghost(ox): Ghost<int>,
        Ghost(oy): Ghost<int>,
    ) -> (r: Result<u128, StoreError>)
        requires
            old(store).wf(),
            1 <= depth <= 60,
            tile(old(store).nodes(), old(store).levels(), root, depth as nat, g, ox, oy),
            inside(g, ox, oy, side(depth as nat)),
        ensures
            final(store).wf(),
            old(store).grows_to(final(store)),
            old(store).keyed() ==> final(store).keyed(),
            match r {
                Ok(k) => tile(
                    final(store).nodes(),
                    final(store).levels(),
                    k,
                    (depth + 1) as nat,
                    g,
                    ox - side((depth - 1) as nat),
                    oy - side((depth - 1) as nat),
                ),
                Err(e) => final(store).explains(e),
            },
    {
        let ghost start = *store;
        let ghost sub = (depth - 1) as nat;
        let ghost level = depth as nat;
        let ghost s = side(sub);
        let ghost nx = ox - s;
        let ghost ny = oy - s;
        proof {
            start.lemma_grows_refl();
            lemma_side(sub);
            lemma_side(level);
            assert(store.nodes().contains_key(root)) by {
                reveal(tile);
            }
        }
        let l1m = store.get(root).unwrap().v;
        let bkey = match store.black_key((depth - 1) as usize) {
            Ok(k) => k,
            Err(e) => {
                return Err(e);
            },
        };
        let ghost s1 = *store;
        let smap = [
            bkey,
            bkey,
            bkey,
            bkey,
            bkey,
            l1m.lt,
            l1m.rt,
            bkey,
            bkey,
            l1m.lb,
            l1m.rb,
            bkey,
            bkey,
            bkey,
            bkey,
            bkey,
        ];
        proof {
            let m = s1.nodes();
            let dm = s1.levels();
            lemma_frame(&start, &s1);
            assert(tile(m, dm, root, level, g, ox, oy));
            assert(value_tile(m, dm, l1m, sub, g, ox, oy)) by {
                s1.lemma_wf();
                start.lemma_grows(&s1);
                lemma_tile_quadrants(m, dm, root, sub, g, ox, oy);
                assert(start.nodes().contains_key(root));
            }
            s1.lemma_black(sub as int);
            assert forall|r: int, c: int| 0 <= r < 4 && 0 <= c < 4 implies #[trigger] tile_at(
                m,
                dm,
                smap@,
                sub,
                g,
                nx,
                ny,
                r,
                c,
            ) by {
                lemma_small_multiple(c, s);
                lemma_small_multiple(r, s);
                if (r == 1 || r == 2) && (c == 1 || c == 2) {
                    let k = smap@[4 * r + c];
                    if r == 1 && c == 1 {
                        assert(k == l1m.lt);
                        assert(tile(m, dm, k, sub, g, ox, oy));
                    } else if r == 1 && c == 2 {
                        assert(k == l1m.rt);
                        assert(tile(m, dm, k, sub, g, ox + s, oy));
                    } else if r == 2 && c == 1 {
                        assert(k == l1m.lb);
                        assert(tile(m, dm, k, sub, g, ox, oy + s));
                    } else {
                        assert(k == l1m.rb);
                        assert(tile(m, dm, k, sub, g, ox + s, oy + s));
                    }
                } else {
                    assert(smap@[4 * r + c] == bkey);
                    assert(tile(m, dm, bkey, sub, g, nx + c * s, ny + r * s)) by {
                        s1.lemma_wf();
                        assert(outside(g, nx + c * s, ny + r * s, s));
                        lemma_empty_tile(m, dm, bkey, sub, g, nx + c * s, ny + r * s);
                    }
                }
            }
            assert(grid_ok(m, dm, smap@, 4, sub, g, nx, ny));
        }
        let k0 = match Self::add_window(store, &smap, 0, 0, Ghost(sub), Ghost(g), Ghost(nx), Ghost(ny)) {
            Ok(k) => k,
            Err(e) => {
                proof {
                    start.lemma_grows_trans(&s1, store);
                }
                return Err(e);
            },
        };
        let ghost s2 = *store;
        proof {
            start.lemma_grows_trans(&s1, &s2);
            lemma_grid_frame(&s1, &s2, smap@, 4, sub, g, nx, ny);
        }
        let k1 = match Self::add_window(store, &smap, 2, 0, Ghost(sub), Ghost(g), Ghost(nx), Ghost(ny)) {
            Ok(k) => k,
            Err(e) => {
                proof {
                    start.lemma_grows_trans(&s2, store);
                }
                return Err(e);
            },
        };
        let ghost s3 = *store;
        proof {
            start.lemma_grows_trans(&s2, &s3);
            lemma_grid_frame(&s2, &s3, smap@, 4, sub, g, nx, ny);
            lemma_frame(&s2, &s3);
        }
        let k2 = match Self::add_window(store, &smap, 0, 2, Ghost(sub), Ghost(g), Ghost(nx), Ghost(ny)) {
            Ok(k) => k,
            Err(e) => {
                proof {
                    start.lemma_grows_trans(&s3, store);
                }
                return Err(e);
            },
        };
        let ghost s4 = *store;
        proof {
            start.lemma_grows_trans(&s3, &s4);
            lemma_grid_frame(&s3, &s4, smap@, 4, sub, g, nx, ny);
            lemma_frame(&s3, &s4);
        }
        let k3 = match Self::add_window(store, &smap, 2, 2, Ghost(sub), Ghost(g), Ghost(nx), Ghost(ny)) {
            Ok(k) => k,
            Err(e) => {
                proof {
                    start.lemma_grows_trans(&s4, store);
                }
                return Err(e);
            },
        };
        let ghost s5 = *store;
        let ghost top = QuadTreeValue { lt: k0, rt: k1, lb: k2, rb: k3 };
        proof {
            start.lemma_grows_trans(&s4, &s5);
            lemma_frame(&s4, &s5);
            assert(2 * s == side(level));
            assert(value_tile(s5.nodes(), s5.levels(), top, level, g, nx, ny));
            lemma_value_ready(s5.nodes(), s5.levels(), top, level, g, nx, ny);
        }
        match store.add_array([k0, k1, k2, k3]) {
            Ok(k) => {
                proof {
                    start.lemma_grows_trans(&s5, store);
                    lemma_frame(&s5, store);
                    lemma_node_tile(store.nodes(), store.levels(), k, level, g, nx, ny);
                }
                Ok(k)
            },
            Err(e) => {
                proof {
                    start.lemma_grows_trans(&s5, store);
                }
                Err(e)
            },
        }
    }

    /// The key of the node whose quadrants are the 2x2 window of a grid at
    /// column `x` and row `y`.
    fn add_window(
        store: &mut NodeStore,
        grid: &[u128; 16],
        x: usize,
        y: usize,
        Ghost(sub): Ghost<nat>,
        Ghost(g): Ghost<Set<(int, int)>>,
        Ghost(px): Ghost<int>,
        Ghost(py): Ghost<int>,
    ) -> (r: Result<u128, StoreError>)
        requires
            old(store).wf(),
            x <= 2,
            y <= 2,
            grid_ok(old(store).nodes(), old(store).levels(), grid@, 4, sub, g, px, py),
        ensures
            final(store).wf(),
            old(store).grows_to(final(store)),
            old(store).keyed() ==> final(store).keyed(),
            match r {
                Ok(k) => tile(
                    final(store).nodes(),
                    final(store).levels(),
                    k,
                    sub + 1,
                    g,
                    px + x * side(sub),
                    py + y * side(sub),
                ),
                Err(e) => final(store).explains(e),
            },
    {
        let ghost start = *store;
        let w = slice(grid, x, y);
        proof {
            lemma_window_tile(store.nodes(), store.levels(), grid@, 4, sub, g, px, py, x as int, y as int);
            assert(window_value(grid@, x as int, y as int) == (QuadTreeValue {
                lt: w@[0],
                rt: w@[1],
                lb: w@[2],
                rb: w@[3],
            }));
            lemma_value_ready(
                store.nodes(),
                store.levels(),
                window_value(grid@, x as int, y as int),
                sub,
                g,
                px + x * side(sub),
                py + y * side(sub),
            );
        }
        match store.add_array(w) {
            Ok(k) => {
                proof {
                    lemma_frame(&start, store);
                    lemma_node_tile(
                        store.nodes(),
                        store.levels(),
                        k,
                        sub,
                        g,
                        px + x * side(sub),
                        py + y * side(sub),
                    );
                }
                Ok(k)
            },
            Err(e) => Err(e),
        }
    }

    /// Puts a ring of dead cells around the square of the tree, so that the
    /// square is twice as wide and the cells stay where they are.  The ring
    /// is refused where it would leave the plane, and where the store cannot
    /// take its nodes.
    pub fn increase_depth(&mut self) -> (r: Result<(), StoreError>)
        requires
            old(self).wf(),
        ensures
            final(self).wf(),
            final(self).store_grew_from(old(self)),
            final(self).cells() == old(self).cells(),
            !old(self).can_grow() ==> r == Err::<(), StoreError>(StoreError::OutOfRange),
            match r {
                Ok(_) => {
                    &&& old(self).can_grow()
                    &&& final(self).spec_depth() == old(self).spec_depth() + 1
                    &&& final(self).spec_offset().0 == old(self).spec_offset().0 - side(
                        old(self).spec_depth(),
                    ) / 2
                    &&& final(self).spec_offset().1 == old(self).spec_offset().1 - side(
                        old(self).spec_depth(),
                    ) / 2
                },
                Err(e) => {
                    &&& final(self).spec_depth() == old(self).spec_depth()
                    &&& final(self).spec_offset() == old(self).spec_offset()
                    &&& final(self).explains(e) || (e == StoreError::OutOfRange && !old(
                        self,
                    ).can_grow())
                },
            },
    {
        let ghost start = *self;
        let ghost g = self.cells();
        let ghost level = self.depth as nat;
        proof {
            start.store.lemma_grows_refl();
            lemma_side(level);
            lemma_side(level + 1);
            lemma2_to64();
            lemma2_to64_rest();
            if self.depth == 61 {
                assert(side(61) == 0x1_0000_0000_0000_0000);
            }
        }
        if self.depth >= 61 {
            return Err(StoreError::OutOfRange);
        }
        let half = full_steps(self.depth);
        let nx: i128 = (self.offset.x as i128) - (half as i128);
        let ny: i128 = (self.offset.y as i128) - (half as i128);
        let low: i128 = -0x8000_0000_0000_0000;
        let high: i128 = 0x8000_0000_0000_0000;
        if nx < low || ny < low || nx + 4 * (half as i128) > high || ny + 4 * (half as i128) > high {
            return Err(StoreError::OutOfRange);
        }
        proof {
            start.lemma_root_tile();
            start.lemma_cells_inside();
            lemma_side((level - 1) as nat);
        }
        let root = self.root;
        let depth = self.depth;
        let res = Self::padded_root(
            &mut self.store,
            root,
            depth,
            Ghost(g),
            Ghost(start.offset.x as int),
            Ghost(start.offset.y as int),
        );
        match res {
            Ok(k) => {
                self.root = k;
                self.depth = depth + 1;
                self.offset = Point { x: nx as i64, y: ny as i64 };
                proof {
                    assert(valid(self.store.nodes(), self.store.levels(), k, level + 1)) by {
                        reveal(tile);
                    }
                    lemma_cells_from_tile(
                        self.store.nodes(),
                        self.store.levels(),
                        k,
                        level + 1,
                        g,
                        nx as int,
                        ny as int,
                    );
                }
                Ok(())
            },
            Err(e) => {
                proof {
                    start.lemma_store_grew(self);
                }
                Err(e)
            },
        }
    }
}

} // verus!
