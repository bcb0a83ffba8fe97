//! The live cells of a tree as a list of points, quadrant by quadrant.

use crate::bitgrid::{bit_of, block_cell, chunk_side, get_subchunk};
use crate::point::Point;

use crate::stepper::lemma_tile_quadrants;
use crate::store::NodeStore;
use crate::treespec::{lemma_side, side, tile, valid, value_tile};
use vstd::arithmetic::power2::{lemma2_to64, lemma_pow2_pos, lemma_pow2_unfold, pow2};
use vstd::prelude::*;

verus! {

/// Whether `g` has no cell in the square of side `s` at `(px, py)`.
pub open spec fn no_cell_in(g: Set<(int, int)>, px: int, py: int, s: int) -> bool {
    forall|p: (int, int)| #[trigger]
        g.contains(p) ==> !(px <= p.0 < px + s && py <= p.1 < py + s)
}

/// The cells of `g` in the square of side `2^k` at `(ox, oy)`, quadrant by
/// quadrant: top left, top right, bottom left, bottom right, and so within
/// each quadrant down to single cells.
pub open spec fn zseq(g: Set<(int, int)>, ox: int, oy: int, k: nat) -> Seq<Point>
    decreases k,
{
    if k == 0 {
        if g.contains((ox, oy)) {
            seq![Point { x: ox as i64, y: oy as i64 }]
        } else {
            Seq::empty()
        }
    } else {
        let h = pow2((k - 1) as nat) as int;
        zseq(g, ox, oy, (k - 1) as nat) + zseq(g, ox + h, oy, (k - 1) as nat) + zseq(
            g,
            ox,
            oy + h,
            (k - 1) as nat,
        ) + zseq(g, ox + h, oy + h, (k - 1) as nat)
    }
}

/// An empty square gives no points.
pub proof fn lemma_zseq_empty(g: Set<(int, int)>, ox: int, oy: int, k: nat)
    requires
        no_cell_in(g, ox, oy, pow2(k) as int),
    ensures
        zseq(g, ox, oy, k) == Seq::<Point>::empty(),
    decreases k,
{
    lemma_pow2_pos(k);
    if k == 0 {
        lemma2_to64();
        if g.contains((ox, oy)) {
            assert(false);
        }
    } else {
        let j = (k - 1) as nat;
        let h = pow2(j) as int;
        lemma_pow2_unfold(k);
        lemma_pow2_pos(j);
        lemma_zseq_empty(g, ox, oy, j);
        lemma_zseq_empty(g, ox + h, oy, j);
        lemma_zseq_empty(g, ox, oy + h, j);
        lemma_zseq_empty(g, ox + h, oy + h, j);
        assert(zseq(g, ox, oy, k) =~= Seq::<Point>::empty());
    }
}

/// The points of a square are its live cells: every live cell of the square
/// is among them, and nothing else.
pub proof fn lemma_zseq_points(g: Set<(int, int)>, ox: int, oy: int, k: nat, p: Point)
    requires
        i64::MIN <= ox,
        i64::MIN <= oy,
        ox + pow2(k) <= i64::MAX + 1,
        oy + pow2(k) <= i64::MAX + 1,
    ensures
        zseq(g, ox, oy, k).contains(p) <==> (g.contains(p.pair()) && ox <= p.x < ox + pow2(k) && oy
            <= p.y < oy + pow2(k)),
    decreases k,
{
    lemma_pow2_pos(k);
    if k == 0 {
        lemma2_to64();
        let z = zseq(g, ox, oy, 0);
        if g.contains((ox, oy)) {
            let q = Point { x: ox as i64, y: oy as i64 };
            assert(z[0] == q);
            if p == q {
                assert(z.contains(p));
            }
        }
    } else {
        let j = (k - 1) as nat;
        let h = pow2(j) as int;
        lemma_pow2_unfold(k);
        lemma_pow2_pos(j);
        lemma_zseq_points(g, ox, oy, j, p);
        lemma_zseq_points(g, ox + h, oy, j, p);
        lemma_zseq_points(g, ox, oy + h, j, p);
        lemma_zseq_points(g, ox + h, oy + h, j, p);
        let a = zseq(g, ox, oy, j);
        let b = zseq(g, ox + h, oy, j);
        let c = zseq(g, ox, oy + h, j);
        let d = zseq(g, ox + h, oy + h, j);
        lemma_concat_contains(a, b, p);
        lemma_concat_contains(a + b, c, p);
        lemma_concat_contains(a + b + c, d, p);
    }
}

/// Whether no point stands twice in the list.
pub open spec fn all_distinct(s: Seq<Point>) -> bool {
    forall|i: int, j: int| 0 <= i < j < s.len() ==> s[i] != s[j]
}

/// The points of a square name every live cell once.
pub proof fn lemma_zseq_distinct(g: Set<(int, int)>, ox: int, oy: int, k: nat)
    requires
        i64::MIN <= ox,
        i64::MIN <= oy,
        ox + pow2(k) <= i64::MAX + 1,
        oy + pow2(k) <= i64::MAX + 1,
    ensures
        all_distinct(zseq(g, ox, oy, k)),
    decreases k,
{
    lemma_pow2_pos(k);
    if k > 0 {
        let n = (k - 1) as nat;
        let h = pow2(n) as int;
        lemma_pow2_unfold(k);
        lemma_pow2_pos(n);
        let a = zseq(g, ox, oy, n);
        let b = zseq(g, ox + h, oy, n);
        let c = zseq(g, ox, oy + h, n);
        let d = zseq(g, ox + h, oy + h, n);
        lemma_zseq_distinct(g, ox, oy, n);
        lemma_zseq_distinct(g, ox + h, oy, n);
        lemma_zseq_distinct(g, ox, oy + h, n);
        lemma_zseq_distinct(g, ox + h, oy + h, n);
        let z = zseq(g, ox, oy, k);
        assert(z =~= a + b + c + d);
        assert forall|i: int, j: int| 0 <= i < j < z.len() implies z[i] != z[j] by {
            lemma_part(g, ox, oy, n, z, i);
            lemma_part(g, ox, oy, n, z, j);
        }
    }
}

/// Where the `i`-th point of a square lies: in the quadrant whose part of
/// the list it stands in.
proof fn lemma_part(g: Set<(int, int)>, ox: int, oy: int, n: nat, z: Seq<Point>, i: int)
    requires
        i64::MIN <= ox,
        i64::MIN <= oy,
        ox + 2 * pow2(n) <= i64::MAX + 1,
        oy + 2 * pow2(n) <= i64::MAX + 1,
        z == zseq(g, ox, oy, n) + zseq(g, ox + pow2(n), oy, n) + zseq(g, ox, oy + pow2(n), n)
            + zseq(g, ox + pow2(n), oy + pow2(n), n),
        0 <= i < z.len(),
    ensures
        ({
            let h = pow2(n) as int;
            let a = zseq(g, ox, oy, n);
            let b = zseq(g, ox + h, oy, n);
            let c = zseq(g, ox, oy + h, n);
            let d = zseq(g, ox + h, oy + h, n);
            if i < a.len() {
                z[i] == a[i] && ox <= z[i].x < ox + h && oy <= z[i].y < oy + h
            } else if i < a.len() + b.len() {
                z[i] == b[i - a.len()] && ox + h <= z[i].x && oy <= z[i].y < oy + h
            } else if i < a.len() + b.len() + c.len() {
                z[i] == c[i - a.len() - b.len()] && ox <= z[i].x < ox + h && oy + h <= z[i].y
            } else {
                z[i] == d[i - a.len() - b.len() - c.len()] && ox + h <= z[i].x && oy + h <= z[i].y
            }
        }),
{
    let h = pow2(n) as int;
    lemma_pow2_pos(n);
    let a = zseq(g, ox, oy, n);
    let b = zseq(g, ox + h, oy, n);
    let c = zseq(g, ox, oy + h, n);
    let d = zseq(g, ox + h, oy + h, n);
    if i < a.len() {
        assert(a.contains(a[i]));
        lemma_zseq_points(g, ox, oy, n, a[i]);
    } else if i < a.len() + b.len() {
        assert(b.contains(b[i - a.len()]));
        lemma_zseq_points(g, ox + h, oy, n, b[i - a.len()]);
    } else if i < a.len() + b.len() + c.len() {
        assert(c.contains(c[i - a.len() - b.len()]));
        lemma_zseq_points(g, ox, oy + h, n, c[i - a.len() - b.len()]);
    } else {
        assert(d.contains(d[i - a.len() - b.len() - c.len()]));
        lemma_zseq_points(g, ox + h, oy + h, n, d[i - a.len() - b.len() - c.len()]);
    }
}

proof fn lemma_concat_contains(a: Seq<Point>, b: Seq<Point>, p: Point)
    ensures
        (a + b).contains(p) <==> (a.contains(p) || b.contains(p)),
{
    if a.contains(p) {
        let i = choose|i: int| 0 <= i < a.len() && a[i] == p;
        assert((a + b)[i] == p);
    }
    if b.contains(p) {
        let i = choose|i: int| 0 <= i < b.len() && b[i] == p;
        assert((a + b)[a.len() + i] == p);
    }
    if (a + b).contains(p) {
        let i = choose|i: int| 0 <= i < (a + b).len() && (a + b)[i] == p;
        if i < a.len() {
            assert(a[i] == p);
        } else {
            assert(b[i - a.len()] == p);
        }
    }
}

/// Whether the top left part of side `s` of a raw block holds the cells of
/// `g` in the square at `(px, py)`.
pub open spec fn chunk_tile(val: u64, s: int, g: Set<(int, int)>, px: int, py: int) -> bool {
    forall|a: int, b: int|
        0 <= a < s && 0 <= b < s ==> (#[trigger] block_cell(val, a, b) <==> g.contains(
            (px + a, py + b),
        ))
}

proof fn lemma_chunk_empty(s: int, g: Set<(int, int)>, px: int, py: int)
    requires
        0 <= s <= 8,
        chunk_tile(0, s, g, px, py),
    ensures
        no_cell_in(g, px, py, s),
{
    assert forall|p: (int, int)| #[trigger] g.contains(p) implies !(px <= p.0 < px + s && py
        <= p.1 < py + s) by {
        let a = p.0 - px;
        let b = p.1 - py;
        if 0 <= a < s && 0 <= b < s {
            let i = (8 * b + a) as u64;
            assert(bit_of(0u64, i) == 0) by (bit_vector);
            assert(block_cell(0, a, b) <==> g.contains((px + a, py + b)));
        }
    }
}

/// Appends to `out` the live cells of the top left part of side `2^(d + 3)`
/// of a raw block, which stands at `loc` on the grid.
pub(crate) fn dump_chunk(val: u64, d: i64, loc: Point, out: &mut Vec<Point>, Ghost(g): Ghost<Set<(int, int)>>)
    requires
        -3 <= d <= 0,
        chunk_tile(val, pow2((d + 3) as nat) as int, g, loc.x as int, loc.y as int),
        loc.x + pow2((d + 3) as nat) <= i64::MAX + 1,
        loc.y + pow2((d + 3) as nat) <= i64::MAX + 1,
    ensures
        final(out)@ == old(out)@ + zseq(g, loc.x as int, loc.y as int, (d + 3) as nat),
    decreases d + 3,
{
    proof {
        lemma2_to64();
    }
    if d <= -3 {
        assert(bit_of(val, 0) == val & 1 && (val & 1 == 0 || val & 1 == 1)) by (bit_vector);
        proof {
            assert(block_cell(val, 0, 0) <==> g.contains((loc.x + 0, loc.y + 0)));
        }
        if val & 1 != 0 {
            out.push(loc);
            assert(out@ =~= old(out)@ + zseq(g, loc.x as int, loc.y as int, 0));
        } else {
            assert(out@ =~= old(out)@ + zseq(g, loc.x as int, loc.y as int, 0));
        }
    } else if val == 0 {
        proof {
            lemma_chunk_empty(pow2((d + 3) as nat) as int, g, loc.x as int, loc.y as int);
            lemma_zseq_empty(g, loc.x as int, loc.y as int, (d + 3) as nat);
            assert(out@ =~= old(out)@ + zseq(g, loc.x as int, loc.y as int, (d + 3) as nat));
        }
    } else {
        let half: i64 = if d == 0 {
            4
        } else if d == -1 {
            2
        } else {
            1
        };
        let ghost k = (d + 2) as nat;
        proof {
            assert(half == pow2(k));
            assert(half == chunk_side(d as int));
            lemma_pow2_unfold((d + 3) as nat);
        }
        let c0 = get_subchunk(val, d, 0, 0);
        let c1 = get_subchunk(val, d, 1, 0);
        let c2 = get_subchunk(val, d, 0, 1);
        let c3 = get_subchunk(val, d, 1, 1);
        let ghost x = loc.x as int;
        let ghost y = loc.y as int;
        proof {
            assert(chunk_tile(c0, half as int, g, x, y)) by {
                assert forall|a: int, b: int| 0 <= a < half && 0 <= b < half implies (
                #[trigger] block_cell(c0, a, b) <==> g.contains((x + a, y + b))) by {
                    assert(block_cell(val, a, b) <==> g.contains((x + a, y + b)));
                }
            }
            assert(chunk_tile(c1, half as int, g, x + half, y)) by {
                assert forall|a: int, b: int| 0 <= a < half && 0 <= b < half implies (
                #[trigger] block_cell(c1, a, b) <==> g.contains((x + half + a, y + b))) by {
                    assert(block_cell(val, a + half, b) <==> g.contains((x + (a + half), y + b)));
                }
            }
            assert(chunk_tile(c2, half as int, g, x, y + half)) by {
                assert forall|a: int, b: int| 0 <= a < half && 0 <= b < half implies (
                #[trigger] block_cell(c2, a, b) <==> g.contains((x + a, y + half + b))) by {
                    assert(block_cell(val, a, b + half) <==> g.contains((x + a, y + (b + half))));
                }
            }
            assert(chunk_tile(c3, half as int, g, x + half, y + half)) by {
                assert forall|a: int, b: int| 0 <= a < half && 0 <= b < half implies (
                #[trigger] block_cell(c3, a, b) <==> g.contains((x + half + a, y + half + b))) by {
                    assert(block_cell(val, a + half, b + half) <==> g.contains(
                        (x + (a + half), y + (b + half)),
                    ));
                }
            }
        }
        dump_chunk(c0, d - 1, loc, out, Ghost(g));
        dump_chunk(c1, d - 1, Point { x: loc.x + half, y: loc.y }, out, Ghost(g));
        dump_chunk(c2, d - 1, Point { x: loc.x, y: loc.y + half }, out, Ghost(g));
        dump_chunk(c3, d - 1, Point { x: loc.x + half, y: loc.y + half }, out, Ghost(g));
        proof {
            assert(out@ =~= old(out)@ + zseq(g, x, y, (d + 3) as nat));
        }
    }
}

impl NodeStore {
    /// Appends to `out` the live cells of the square that `key` stands for,
    /// which stands at `loc` on the grid.
    pub(crate) fn dump_node(
        &self,
        key: u128,
        level: u64,
        loc: Point,
        out: &mut Vec<Point>,
        Ghost(g): Ghost<Set<(int, int)>>,
    )
        requires
            self.wf(),
            level <= 61,
            tile(self.nodes(), self.levels(), key, level as nat, g, loc.x as int, loc.y as int),
            loc.x + side(level as nat) <= i64::MAX + 1,
            loc.y + side(level as nat) <= i64::MAX + 1,
        ensures
            final(out)@ == old(out)@ + zseq(g, loc.x as int, loc.y as int, (level + 3) as nat),
        decreases level,
    {
        let ghost x = loc.x as int;
        let ghost y = loc.y as int;
        proof {
            lemma2_to64();
            lemma_side(level as nat);
            lemma_pow2_unfold((level + 3) as nat);
            lemma_pow2_unfold((level + 2) as nat);
            lemma_pow2_unfold((level + 1) as nat);
        }
        if level == 0 {
            proof {
                reveal(tile);
                assert(chunk_tile(key as u64, 8, g, x, y)) by {
                    assert forall|a: int, b: int| 0 <= a < 8 && 0 <= b < 8 implies (
                    #[trigger] block_cell(key as u64, a, b) <==> g.contains((x + a, y + b))) by {
                        assert(crate::treespec::cell(self.nodes(), key, 0, a, b) <==> g.contains(
                            (x + a, y + b),
                        ));
                    }
                }
            }
            dump_chunk(#[verifier::truncate] (key as u64), 0, loc, out, Ghost(g));
        } else {
            proof {
                assert(valid(self.nodes(), self.levels(), key, level as nat)) by {
                    reveal(tile);
                }
            }
            let node = self.get(key).unwrap();
            if self.is_black(key, Ghost(level as nat)) {
                proof {
                    self.lemma_wf();
                    crate::quadtree::lemma_tile_empty(
                        self.nodes(),
                        self.levels(),
                        key,
                        level as nat,
                        g,
                        x,
                        y,
                    );
                    assert(side(level as nat) == pow2((level + 3) as nat));
                    assert(no_cell_in(g, x, y, pow2((level + 3) as nat) as int)) by {
                        assert(crate::quadtree::outside(g, x, y, side(level as nat)));
                    }
                    lemma_zseq_empty(g, x, y, (level + 3) as nat);
                    assert(out@ =~= old(out)@ + zseq(g, x, y, (level + 3) as nat));
                }
            } else {
                let ghost sub = (level - 1) as nat;
                let ghost h = side(sub);
                proof {
                    lemma_side(sub);
                    assert(h == pow2((level + 2) as nat));
                    assert(value_tile(self.nodes(), self.levels(), node.v, sub, g, x, y)) by {
                        self.lemma_wf();
                        lemma_tile_quadrants(self.nodes(), self.levels(), key, sub, g, x, y);
                    }
                }
                let half: u64 = crate::stepper::full_steps(level - 1);
                let rx: i64 = ((loc.x as i128) + 2 * (half as i128)) as i64;
                let by: i64 = ((loc.y as i128) + 2 * (half as i128)) as i64;
                self.dump_node(node.v.lt, level - 1, loc, out, Ghost(g));
                self.dump_node(node.v.rt, level - 1, Point { x: rx, y: loc.y }, out, Ghost(g));
                self.dump_node(node.v.lb, level - 1, Point { x: loc.x, y: by }, out, Ghost(g));
                self.dump_node(node.v.rb, level - 1, Point { x: rx, y: by }, out, Ghost(g));
                proof {
                    assert(out@ =~= old(out)@ + zseq(g, x, y, (level + 3) as nat));
                }
            }
        }
    }
}

} // verus!
