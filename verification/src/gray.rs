//! The density map: a picture of the grid in which every pixel stands for a
//! square of cells and is as bright as the square is full.

use crate::bitgrid::{block_cell, chunk_side, get_subchunk, lemma_subchunk_cell, subchunk_spec};
use crate::quadvalue::QuadTreeNode;
use crate::stepper::full_steps;
use crate::store::{count_ones, NodeStore};
use crate::treespec::{
    capped,
    cell,
    cells,
    lemma_cell_in_range,
    lemma_side,
    live_count,
    node_ok,
    popcount,
    side,
    store_ok,
    tile,
    valid,
};
use vstd::arithmetic::power2::{
    lemma2_to64,
    lemma2_to64_rest,
    lemma_pow2_adds,
    lemma_pow2_pos,
    lemma_pow2_unfold,
    pow2,
};
use vstd::prelude::*;

verus! {

/// The picture that is drawn: its width and height in pixels, the binary
/// logarithm of the side of the square of cells that a pixel stands for, and
/// the brightness in 65536ths.
pub struct Canvas {
    pub xsize: usize,
    pub ysize: usize,
    pub zoom: u8,
    pub brightness: u64,
}

/// `a / m` rounded towards zero.
pub open spec fn trunc_div(a: int, m: int) -> int {
    if a >= 0 {
        a / m
    } else {
        -((-a) / m)
    }
}

/// The brightness of a pixel whose square holds `count` live cells: the
/// part of the square that is alive, times the brightness, times 255, and
/// 255 at most.
pub open spec fn pixel_value(c: Canvas, count: u64) -> u8 {
    let v = (255 * c.brightness * count) / (pow2((16 + 2 * c.zoom) as nat) as int);
    if v > 255 {
        255u8
    } else {
        v as u8
    }
}

/// What a visit of a square does to the picture, and whether the parts of
/// the square are visited too.  The square has the side `2^k`, its top left
/// corner stands `(lx, ly)` cells from the top left corner of the picture,
/// and it holds `count` live cells.  A square without a live cell and a
/// square beside the picture are passed over, a square that is no wider than
/// a pixel is drawn.
pub open spec fn visit(c: Canvas, k: int, lx: int, ly: int, count: u64, img: Seq<u8>) -> (
    Seq<u8>,
    bool,
) {
    let m = pow2(k as nat) as int;
    let tx = trunc_div(lx, m);
    let ty = trunc_div(ly, m);
    if count == 0 {
        (img, false)
    } else if tx >= c.xsize || ty >= c.ysize || tx + 1 <= 0 || ty + 1 <= 0 {
        (img, false)
    } else if c.zoom >= k {
        (img.update(ty * c.xsize + tx, pixel_value(c, count)), false)
    } else {
        (img, true)
    }
}

/// The number of live cells of the top left part of a raw block that stands
/// `3 - k` levels below the whole block.
pub open spec fn chunk_count(val: u64, k: int) -> u64 {
    if k <= 0 {
        val & 1
    } else {
        popcount(val) as u64
    }
}

/// The picture after the top left part of side `2^k` of a raw block, and its
/// parts, were visited.
pub open spec fn paint_chunk_spec(c: Canvas, val: u64, k: int, lx: int, ly: int, img: Seq<u8>) -> Seq<
    u8,
>
    decreases k,
{
    let (img1, descend) = visit(c, k, lx, ly, chunk_count(val, k), img);
    if k <= 0 || !descend {
        img1
    } else {
        let h = pow2((k - 1) as nat) as int;
        let d = k - 3;
        let a = paint_chunk_spec(c, subchunk_spec(val, d, 0, 0), k - 1, lx, ly, img1);
        let b = paint_chunk_spec(c, subchunk_spec(val, d, 1, 0), k - 1, lx + h, ly, a);
        let e = paint_chunk_spec(c, subchunk_spec(val, d, 0, 1), k - 1, lx, ly + h, b);
        paint_chunk_spec(c, subchunk_spec(val, d, 1, 1), k - 1, lx + h, ly + h, e)
    }
}

/// The picture after the square that `key` stands for, and its parts, were
/// visited.
#[verifier::opaque]
pub open spec fn paint_spec(
    m: Map<u128, QuadTreeNode>,
    c: Canvas,
    key: u128,
    level: nat,
    lx: int,
    ly: int,
    img: Seq<u8>,
) -> Seq<u8>
    decreases level,
{
    if level == 0 {
        paint_chunk_spec(c, key as u64, 3, lx, ly, img)
    } else {
        let node = m[key];
        let (img1, descend) = visit(c, (level + 3) as int, lx, ly, node.set_count, img);
        if !descend {
            img1
        } else {
            let h = side((level - 1) as nat);
            let a = paint_spec(m, c, node.v.lt, (level - 1) as nat, lx, ly, img1);
            let b = paint_spec(m, c, node.v.rt, (level - 1) as nat, lx + h, ly, a);
            let e = paint_spec(m, c, node.v.lb, (level - 1) as nat, lx, ly + h, b);
            paint_spec(m, c, node.v.rb, (level - 1) as nat, lx + h, ly + h, e)
        }
    }
}

/// The picture before anything is drawn: every pixel is black.
pub open spec fn blank(c: Canvas) -> Seq<u8> {
    Seq::new((c.xsize * c.ysize) as nat, |i: int| 0u8)
}

/// The cells of `g` in the square of side `s` at `(x, y)`.
pub open spec fn cells_in(g: Set<(int, int)>, x: int, y: int, s: int) -> Set<(int, int)> {
    Set::new(|p: (int, int)| g.contains(p) && x <= p.0 < x + s && y <= p.1 < y + s)
}

/// The pixel in column `px` and row `py` of a picture.
pub open spec fn pix(img: Seq<u8>, c: Canvas, px: int, py: int) -> u8 {
    img[py * c.xsize + px]
}

/// The pixel `(px, py)` after a square was visited that begins at the pixel
/// `(qx, qy)` and is `n` pixels wide, where the pixel was `before`: a pixel
/// of the square in whose own square cells of `g` live is as bright as its
/// square is full, and every other pixel is as it was.  The picture has its
/// top left corner at `(ox, oy)`.
pub open spec fn painted(
    c: Canvas,
    g: Set<(int, int)>,
    ox: int,
    oy: int,
    qx: int,
    qy: int,
    n: int,
    px: int,
    py: int,
    before: u8,
) -> u8 {
    let p = pow2(c.zoom as nat) as int;
    let count = cells_in(g, ox + px * p, oy + py * p, p).len();
    if qx <= px < qx + n && qy <= py < qy + n && count > 0 {
        pixel_value(c, capped(count))
    } else {
        before
    }
}

proof fn lemma_pixel_index(xs: int, px: int, py: int, tx: int, ty: int)
    requires
        0 <= px < xs,
        0 <= tx < xs,
        0 <= py,
        0 <= ty,
        py * xs + px == ty * xs + tx,
    ensures
        px == tx,
        py == ty,
{
    if py < ty {
        assert((ty - py) * xs >= xs) by (nonlinear_arith)
            requires
                ty - py >= 1,
                xs > 0,
        ;
        assert((ty - py) * xs == ty * xs - py * xs) by (nonlinear_arith);
    } else if py > ty {
        assert((py - ty) * xs >= xs) by (nonlinear_arith)
            requires
                py - ty >= 1,
                xs > 0,
        ;
        assert((py - ty) * xs == py * xs - ty * xs) by (nonlinear_arith);
    }
}

proof fn lemma_trunc_div_exact(q: int, p: int)
    requires
        p > 0,
    ensures
        trunc_div(q * p, p) == q,
{
    if q >= 0 {
        assert(q * p >= 0) by (nonlinear_arith)
            requires
                q >= 0,
                p > 0,
        ;
        assert(q * p == p * q) by (nonlinear_arith);
        vstd::arithmetic::div_mod::lemma_div_multiples_vanish(q, p);
    } else {
        assert(q * p < 0) by (nonlinear_arith)
            requires
                q < 0,
                p > 0,
        ;
        assert(-(q * p) == p * (-q)) by (nonlinear_arith);
        vstd::arithmetic::div_mod::lemma_div_multiples_vanish(-q, p);
    }
}

/// A square that is passed over as lying beside the picture holds no pixel
/// of the picture.
proof fn lemma_beside(c: Canvas, q: int, n: int, p: int, size: int, px: int)
    requires
        p > 0,
        n >= 1,
        size >= 0,
        trunc_div(q * p, n * p) >= size || trunc_div(q * p, n * p) + 1 <= 0,
        q <= px < q + n,
    ensures
        !(0 <= px < size),
{
    let m = n * p;
    let lx = q * p;
    assert(m > 0) by (nonlinear_arith)
        requires
            n >= 1,
            p > 0,
            m == n * p,
    ;
    if lx >= 0 {
        let t = lx / m;
        vstd::arithmetic::div_mod::lemma_fundamental_div_mod(lx, m);
        vstd::arithmetic::div_mod::lemma_mod_bound(lx, m);
        assert(t >= 0) by {
            vstd::arithmetic::div_mod::lemma_div_pos_is_pos(lx, m);
        }
        if t >= size && 0 <= px < size {
            assert(m * t >= m * size) by (nonlinear_arith)
                requires
                    t >= size,
                    m > 0,
            ;
            assert(q * p >= size * n * p) by (nonlinear_arith)
                requires
                    lx >= m * size,
                    lx == q * p,
                    m == n * p,
            ;
            assert(q >= size * n) by (nonlinear_arith)
                requires
                    q * p >= size * n * p,
                    p > 0,
            ;
            assert(size * n >= size) by (nonlinear_arith)
                requires
                    n >= 1,
                    size >= 0,
            ;
        }
    } else {
        let t = (-lx) / m;
        vstd::arithmetic::div_mod::lemma_fundamental_div_mod(-lx, m);
        vstd::arithmetic::div_mod::lemma_mod_bound(-lx, m);
        vstd::arithmetic::div_mod::lemma_div_pos_is_pos(-lx, m);
        if -t + 1 <= 0 {
            assert(m * t >= m) by (nonlinear_arith)
                requires
                    t >= 1,
                    m > 0,
            ;
            assert((q + n) * p <= 0) by (nonlinear_arith)
                requires
                    -(q * p) >= n * p,
            ;
            assert(q + n <= 0) by (nonlinear_arith)
                requires
                    (q + n) * p <= 0,
                    p > 0,
            ;
        }
    }
}

proof fn lemma_tile_cell(
    m: Map<u128, QuadTreeNode>,
    dm: Map<u128, nat>,
    key: u128,
    level: nat,
    g: Set<(int, int)>,
    x: int,
    y: int,
    p: (int, int),
)
    requires
        tile(m, dm, key, level, g, x, y),
    ensures
        cell(m, key, level, p.0 - x, p.1 - y) <==> (g.contains(p) && x <= p.0 < x + side(level) && y
            <= p.1 < y + side(level)),
{
    reveal(tile);
    let a = p.0 - x;
    let b = p.1 - y;
    if cell(m, key, level, a, b) {
        lemma_cell_in_range(m, key, level, a, b);
    }
    if 0 <= a < side(level) && 0 <= b < side(level) {
        assert(cell(m, key, level, a, b) <==> g.contains((x + a, y + b)));
    }
}

/// The cells of a grid in the square that a key tiles are as many as the
/// key counts.
proof fn lemma_tile_count(
    m: Map<u128, QuadTreeNode>,
    dm: Map<u128, nat>,
    key: u128,
    level: nat,
    g: Set<(int, int)>,
    x: int,
    y: int,
)
    requires
        store_ok(m, dm),
        tile(m, dm, key, level, g, x, y),
    ensures
        cells_in(g, x, y, side(level)).finite(),
        cells_in(g, x, y, side(level)).len() == live_count(m, key, level),
{
    assert(valid(m, dm, key, level)) by {
        reveal(tile);
    }
    crate::census::lemma_census(m, dm, key, level);
    crate::census::lemma_shifted_len(cells(m, key, level), x, y);
    let moved = crate::life::shifted(cells(m, key, level), x, y);
    assert forall|p: (int, int)| cells_in(g, x, y, side(level)).contains(p) <==> moved.contains(
        p,
    ) by {
        lemma_tile_cell(m, dm, key, level, g, x, y, p);
    }
    assert(cells_in(g, x, y, side(level)) =~= moved);
}

/// A square of a grid without a cell holds no cell in any square within.
proof fn lemma_part_empty(g: Set<(int, int)>, x: int, y: int, s: int, x2: int, y2: int, s2: int)
    requires
        cells_in(g, x, y, s).len() == 0,
        cells_in(g, x, y, s).finite(),
        x <= x2,
        y <= y2,
        x2 + s2 <= x + s,
        y2 + s2 <= y + s,
    ensures
        cells_in(g, x2, y2, s2).len() == 0,
{
    cells_in(g, x, y, s).lemma_len0_is_empty();
    assert(cells_in(g, x2, y2, s2) =~= Set::<(int, int)>::empty()) by {
        assert forall|p: (int, int)| !cells_in(g, x2, y2, s2).contains(p) by {
            if cells_in(g, x2, y2, s2).contains(p) {
                assert(cells_in(g, x, y, s).contains(p));
            }
        }
    }
}

/// A picture on which a square without a cell was visited.
proof fn lemma_painted_empty(
    c: Canvas,
    g: Set<(int, int)>,
    ox: int,
    oy: int,
    qx: int,
    qy: int,
    n: int,
    img: Seq<u8>,
)
    requires
        n >= 1,
        cells_in(
            g,
            ox + qx * pow2(c.zoom as nat),
            oy + qy * pow2(c.zoom as nat),
            n * pow2(c.zoom as nat),
        ).finite(),
        cells_in(
            g,
            ox + qx * pow2(c.zoom as nat),
            oy + qy * pow2(c.zoom as nat),
            n * pow2(c.zoom as nat),
        ).len() == 0,
    ensures
        forall|px: int, py: int| #[trigger]
            pix(img, c, px, py) == painted(c, g, ox, oy, qx, qy, n, px, py, pix(img, c, px, py)),
{
    let p = pow2(c.zoom as nat) as int;
    lemma_pow2_pos(c.zoom as nat);
    assert forall|px: int, py: int| #[trigger]
        pix(img, c, px, py) == painted(c, g, ox, oy, qx, qy, n, px, py, pix(img, c, px, py)) by {
        if qx <= px < qx + n && qy <= py < qy + n {
            assert(qx * p <= px * p && px * p + p <= qx * p + n * p && qy * p <= py * p && py * p
                + p <= qy * p + n * p) by (nonlinear_arith)
                requires
                    qx <= px < qx + n,
                    qy <= py < qy + n,
                    p > 0,
            ;
            lemma_part_empty(g, ox + qx * p, oy + qy * p, n * p, ox + px * p, oy + py * p, p);
        }
    }
}

/// A picture on which a square beside the picture was visited.
proof fn lemma_painted_beside(
    c: Canvas,
    g: Set<(int, int)>,
    ox: int,
    oy: int,
    qx: int,
    qy: int,
    n: int,
    img: Seq<u8>,
)
    requires
        n >= 1,
        ({
            let p = pow2(c.zoom as nat) as int;
            let tx = trunc_div(qx * p, n * p);
            let ty = trunc_div(qy * p, n * p);
            tx >= c.xsize || ty >= c.ysize || tx + 1 <= 0 || ty + 1 <= 0
        }),
    ensures
        forall|px: int, py: int|
            0 <= px < c.xsize && 0 <= py < c.ysize ==> #[trigger] pix(img, c, px, py) == painted(
                c,
                g,
                ox,
                oy,
                qx,
                qy,
                n,
                px,
                py,
                pix(img, c, px, py),
            ),
{
    let p = pow2(c.zoom as nat) as int;
    let tx = trunc_div(qx * p, n * p);
    lemma_pow2_pos(c.zoom as nat);
    assert forall|px: int, py: int| 0 <= px < c.xsize && 0 <= py < c.ysize implies #[trigger] pix(
        img,
        c,
        px,
        py,
    ) == painted(c, g, ox, oy, qx, qy, n, px, py, pix(img, c, px, py)) by {
        if qx <= px < qx + n && qy <= py < qy + n {
            if tx >= c.xsize || tx + 1 <= 0 {
                lemma_beside(c, qx, n, p, c.xsize as int, px);
            } else {
                lemma_beside(c, qy, n, p, c.ysize as int, py);
            }
        }
    }
}

/// A picture on which a square as wide as a pixel was drawn.
proof fn lemma_painted_one(
    c: Canvas,
    g: Set<(int, int)>,
    ox: int,
    oy: int,
    qx: int,
    qy: int,
    count: nat,
    img: Seq<u8>,
)
    requires
        img.len() == c.xsize * c.ysize,
        0 <= qx < c.xsize,
        0 <= qy < c.ysize,
        count > 0,
        count == cells_in(
            g,
            ox + qx * pow2(c.zoom as nat),
            oy + qy * pow2(c.zoom as nat),
            pow2(c.zoom as nat) as int,
        ).len(),
    ensures
        forall|px: int, py: int|
            0 <= px < c.xsize && 0 <= py < c.ysize ==> #[trigger] pix(
                img.update(qy * c.xsize + qx, pixel_value(c, capped(count))),
                c,
                px,
                py,
            ) == painted(c, g, ox, oy, qx, qy, 1, px, py, pix(img, c, px, py)),
{
    let out = img.update(qy * c.xsize + qx, pixel_value(c, capped(count)));
    assert(0 <= qy * c.xsize + qx < c.xsize * c.ysize) by (nonlinear_arith)
        requires
            0 <= qx < c.xsize,
            0 <= qy < c.ysize,
    ;
    assert forall|px: int, py: int| 0 <= px < c.xsize && 0 <= py < c.ysize implies #[trigger] pix(
        out,
        c,
        px,
        py,
    ) == painted(c, g, ox, oy, qx, qy, 1, px, py, pix(img, c, px, py)) by {
        assert(0 <= py * c.xsize + px < c.xsize * c.ysize) by (nonlinear_arith)
            requires
                0 <= px < c.xsize,
                0 <= py < c.ysize,
        ;
        if !(px == qx && py == qy) {
            if py * c.xsize + px == qy * c.xsize + qx {
                lemma_pixel_index(c.xsize as int, px, py, qx, qy);
            }
        }
    }
}

/// A picture on which the four quadrants of a square were visited one
/// after the other.
proof fn lemma_painted_four(
    c: Canvas,
    g: Set<(int, int)>,
    ox: int,
    oy: int,
    qx: int,
    qy: int,
    n2: int,
    img: Seq<u8>,
    a: Seq<u8>,
    b: Seq<u8>,
    e: Seq<u8>,
    out: Seq<u8>,
)
    requires
        n2 >= 1,
        forall|px: int, py: int|
            0 <= px < c.xsize && 0 <= py < c.ysize ==> #[trigger] pix(a, c, px, py) == painted(
                c,
                g,
                ox,
                oy,
                qx,
                qy,
                n2,
                px,
                py,
                pix(img, c, px, py),
            ),
        forall|px: int, py: int|
            0 <= px < c.xsize && 0 <= py < c.ysize ==> #[trigger] pix(b, c, px, py) == painted(
                c,
                g,
                ox,
                oy,
                qx + n2,
                qy,
                n2,
                px,
                py,
                pix(a, c, px, py),
            ),
        forall|px: int, py: int|
            0 <= px < c.xsize && 0 <= py < c.ysize ==> #[trigger] pix(e, c, px, py) == painted(
                c,
                g,
                ox,
                oy,
                qx,
                qy + n2,
                n2,
                px,
                py,
                pix(b, c, px, py),
            ),
        forall|px: int, py: int|
            0 <= px < c.xsize && 0 <= py < c.ysize ==> #[trigger] pix(out, c, px, py) == painted(
                c,
                g,
                ox,
                oy,
                qx + n2,
                qy + n2,
                n2,
                px,
                py,
                pix(e, c, px, py),
            ),
    ensures
        forall|px: int, py: int|
            0 <= px < c.xsize && 0 <= py < c.ysize ==> #[trigger] pix(out, c, px, py) == painted(
                c,
                g,
                ox,
                oy,
                qx,
                qy,
                2 * n2,
                px,
                py,
                pix(img, c, px, py),
            ),
{
    assert forall|px: int, py: int| 0 <= px < c.xsize && 0 <= py < c.ysize implies #[trigger] pix(
        out,
        c,
        px,
        py,
    ) == painted(c, g, ox, oy, qx, qy, 2 * n2, px, py, pix(img, c, px, py)) by {
        assert(pix(a, c, px, py) == painted(c, g, ox, oy, qx, qy, n2, px, py, pix(img, c, px, py)));
        assert(pix(b, c, px, py) == painted(
            c,
            g,
            ox,
            oy,
            qx + n2,
            qy,
            n2,
            px,
            py,
            pix(a, c, px, py),
        ));
        assert(pix(e, c, px, py) == painted(
            c,
            g,
            ox,
            oy,
            qx,
            qy + n2,
            n2,
            px,
            py,
            pix(b, c, px, py),
        ));
    }
}

/// A pixel beside the square of a tree has no cell of the tree in its
/// square.
pub proof fn lemma_pixel_beside(
    g: Set<(int, int)>,
    ox: int,
    oy: int,
    zoom: nat,
    level: nat,
    qx: int,
    qy: int,
    px: int,
    py: int,
)
    requires
        zoom <= level + 3,
        crate::quadtree::inside(g, ox + qx * pow2(zoom), oy + qy * pow2(zoom), side(level)),
        !(qx <= px < qx + pow2((level + 3 - zoom) as nat) && qy <= py < qy + pow2(
            (level + 3 - zoom) as nat,
        )),
    ensures
        cells_in(g, ox + px * pow2(zoom), oy + py * pow2(zoom), pow2(zoom) as int).len() == 0,
{
    let p = pow2(zoom) as int;
    let n = pow2((level + 3 - zoom) as nat) as int;
    let sq = cells_in(g, ox + px * p, oy + py * p, p);
    lemma_sizes(level, zoom);
    assert(px * p + p <= qx * p || px * p >= qx * p + n * p || py * p + p <= qy * p || py * p >= qy
        * p + n * p) by (nonlinear_arith)
        requires
            !(qx <= px < qx + n && qy <= py < qy + n),
            p > 0,
    ;
    assert(sq =~= Set::<(int, int)>::empty()) by {
        assert forall|q: (int, int)| !sq.contains(q) by {
            if sq.contains(q) {
                assert(g.contains(q));
            }
        }
    }
}

/// The sides of a square of a level and of its quadrants in pixels.
proof fn lemma_sizes(level: nat, zoom: nat)
    requires
        zoom <= level + 3,
    ensures
        pow2(zoom) > 0,
        pow2((level + 3 - zoom) as nat) >= 1,
        side(level) == pow2(level + 3),
        pow2(level + 3) == pow2((level + 3 - zoom) as nat) * pow2(zoom),
        zoom < level + 3 ==> pow2((level + 3 - zoom) as nat) == 2 * pow2((level + 2 - zoom) as nat),
{
    lemma_pow2_pos(zoom);
    lemma_pow2_pos((level + 3 - zoom) as nat);
    lemma_pow2_adds((level + 3 - zoom) as nat, zoom);
    lemma_pow2_adds(3, level);
    lemma2_to64();
    if zoom < level + 3 {
        lemma_pow2_unfold((level + 3 - zoom) as nat);
    }
}

/// Whether the part `val` of a raw block, of side `2^k`, holds the cells of
/// `g` in the square at `(x, y)`, and no cell beside.
pub open spec fn chunk_tile(val: u64, k: int, g: Set<(int, int)>, x: int, y: int) -> bool {
    forall|a: int, b: int|
        0 <= a < 8 && 0 <= b < 8 ==> (#[trigger] block_cell(val, a, b) <==> (a < pow2(k as nat) && b
            < pow2(k as nat) && g.contains((x + a, y + b))))
}

/// The cells of a grid in the square of a part of a raw block are as many
/// as the part counts.
proof fn lemma_chunk_count(val: u64, k: int, g: Set<(int, int)>, x: int, y: int)
    requires
        0 <= k <= 3,
        chunk_tile(val, k, g, x, y),
    ensures
        cells_in(g, x, y, pow2(k as nat) as int).finite(),
        cells_in(g, x, y, pow2(k as nat) as int).len() == chunk_count(val, k),
        capped(cells_in(g, x, y, pow2(k as nat) as int).len()) == chunk_count(val, k),
{
    let none = Map::<u128, QuadTreeNode>::empty();
    let levels = Map::<u128, nat>::empty();
    let key = val as u128;
    lemma2_to64();
    crate::census::lemma_census(none, levels, key, 0);
    crate::census::lemma_shifted_len(cells(none, key, 0), x, y);
    crate::treespec::lemma_popcount_zero(val);
    let moved = crate::life::shifted(cells(none, key, 0), x, y);
    let here = cells_in(g, x, y, pow2(k as nat) as int);
    assert forall|p: (int, int)| here.contains(p) <==> moved.contains(p) by {
        let a = p.0 - x;
        let b = p.1 - y;
        if 0 <= a < 8 && 0 <= b < 8 {
            assert(block_cell(val, a, b) <==> (a < pow2(k as nat) && b < pow2(k as nat)
                && g.contains((x + a, y + b))));
        }
    }
    assert(here =~= moved);
    if k == 0 {
        crate::census::lemma_block_census_from(val, 1);
        assert(crate::census::block_cells_from(val, 1) =~= Set::<(int, int)>::empty()) by {
            assert forall|p: (int, int)| !crate::census::block_cells_from(val, 1).contains(p) by {
                if block_cell(val, p.0, p.1) {
                    assert(p.0 < pow2(0) && p.1 < pow2(0));
                }
            }
        }
        assert(popcount(val >> 1) == 0);
        if val == 0 {
            assert(0u64 & 1 == 0) by (bit_vector);
        }
    }
}

/// The visit of the four parts of a part of a raw block that is wider than
/// a pixel.
#[verifier::rlimit(100)]
proof fn lemma_paint_chunk_parts(
    c: Canvas,
    val: u64,
    k: int,
    qx: int,
    qy: int,
    img: Seq<u8>,
    g: Set<(int, int)>,
    ox: int,
    oy: int,
)
    requires
        0 <= c.zoom < k <= 3,
        chunk_tile(val, k, g, ox + qx * pow2(c.zoom as nat), oy + qy * pow2(c.zoom as nat)),
        img.len() == c.xsize * c.ysize,
    ensures
        ({
            let p = pow2(c.zoom as nat) as int;
            let h = pow2((k - 1) as nat) as int;
            let d = k - 3;
            let a = paint_chunk_spec(c, subchunk_spec(val, d, 0, 0), k - 1, qx * p, qy * p, img);
            let b = paint_chunk_spec(c, subchunk_spec(val, d, 1, 0), k - 1, qx * p + h, qy * p, a);
            let e = paint_chunk_spec(c, subchunk_spec(val, d, 0, 1), k - 1, qx * p, qy * p + h, b);
            let out = paint_chunk_spec(
                c,
                subchunk_spec(val, d, 1, 1),
                k - 1,
                qx * p + h,
                qy * p + h,
                e,
            );
            &&& out.len() == img.len()
            &&& forall|px: int, py: int|
                0 <= px < c.xsize && 0 <= py < c.ysize ==> #[trigger] pix(out, c, px, py)
                    == painted(
                    c,
                    g,
                    ox,
                    oy,
                    qx,
                    qy,
                    pow2((k - c.zoom) as nat) as int,
                    px,
                    py,
                    pix(img, c, px, py),
                )
        }),
    decreases k, 0int,
{
    let p = pow2(c.zoom as nat) as int;
    let h = pow2((k - 1) as nat) as int;
    let n2 = pow2((k - 1 - c.zoom) as nat) as int;
    let d = k - 3;
    let lx = qx * p;
    let ly = qy * p;
    let x0 = ox + lx;
    let y0 = oy + ly;
    assert(h == n2 * p && n2 >= 1 && pow2((k - c.zoom) as nat) == 2 * n2 && h == chunk_side(d)
        && pow2(k as nat) == 2 * h) by {
        lemma_pow2_pos((k - 1 - c.zoom) as nat);
        lemma_pow2_adds((k - 1 - c.zoom) as nat, c.zoom as nat);
        lemma_pow2_unfold((k - c.zoom) as nat);
        lemma_pow2_unfold(k as nat);
        lemma2_to64();
    }
    assert((qx + n2) * p == lx + h && (qy + n2) * p == ly + h) by (nonlinear_arith)
        requires
            lx == qx * p,
            ly == qy * p,
            h == n2 * p,
    ;
    let v0 = subchunk_spec(val, d, 0, 0);
    let v1 = subchunk_spec(val, d, 1, 0);
    let v2 = subchunk_spec(val, d, 0, 1);
    let v3 = subchunk_spec(val, d, 1, 1);
    assert(chunk_tile(v0, k - 1, g, x0, y0) && chunk_tile(v1, k - 1, g, x0 + h, y0) && chunk_tile(
        v2,
        k - 1,
        g,
        x0,
        y0 + h,
    ) && chunk_tile(v3, k - 1, g, x0 + h, y0 + h)) by {
        assert forall|a: int, b: int| 0 <= a < 8 && 0 <= b < 8 implies (#[trigger] block_cell(
            v0,
            a,
            b,
        ) <==> (a < h && b < h && g.contains((x0 + a, y0 + b)))) by {
            lemma_subchunk_cell(val, d, 0, 0, a, b);
            if a < h && b < h {
                assert(block_cell(val, a, b) <==> (a < pow2(k as nat) && b < pow2(k as nat)
                    && g.contains((x0 + a, y0 + b))));
            }
        }
        assert forall|a: int, b: int| 0 <= a < 8 && 0 <= b < 8 implies (#[trigger] block_cell(
            v1,
            a,
            b,
        ) <==> (a < h && b < h && g.contains((x0 + h + a, y0 + b)))) by {
            lemma_subchunk_cell(val, d, 1, 0, a, b);
            if a < h && b < h {
                assert(block_cell(val, a + h, b) <==> (a + h < pow2(k as nat) && b < pow2(
                    k as nat,
                ) && g.contains((x0 + (a + h), y0 + b))));
            }
        }
        assert forall|a: int, b: int| 0 <= a < 8 && 0 <= b < 8 implies (#[trigger] block_cell(
            v2,
            a,
            b,
        ) <==> (a < h && b < h && g.contains((x0 + a, y0 + h + b)))) by {
            lemma_subchunk_cell(val, d, 0, 1, a, b);
            if a < h && b < h {
                assert(block_cell(val, a, b + h) <==> (a < pow2(k as nat) && b + h < pow2(
                    k as nat,
                ) && g.contains((x0 + a, y0 + (b + h)))));
            }
        }
        assert forall|a: int, b: int| 0 <= a < 8 && 0 <= b < 8 implies (#[trigger] block_cell(
            v3,
            a,
            b,
        ) <==> (a < h && b < h && g.contains((x0 + h + a, y0 + h + b)))) by {
            lemma_subchunk_cell(val, d, 1, 1, a, b);
            if a < h && b < h {
                assert(block_cell(val, a + h, b + h) <==> (a + h < pow2(k as nat) && b + h < pow2(
                    k as nat,
                ) && g.contains((x0 + (a + h), y0 + (b + h)))));
            }
        }
    }
    let a = paint_chunk_spec(c, v0, k - 1, lx, ly, img);
    let b = paint_chunk_spec(c, v1, k - 1, lx + h, ly, a);
    let e = paint_chunk_spec(c, v2, k - 1, lx, ly + h, b);
    let out = paint_chunk_spec(c, v3, k - 1, lx + h, ly + h, e);
    lemma_paint_chunk_pixels(c, v0, k - 1, qx, qy, img, g, ox, oy);
    lemma_paint_chunk_pixels(c, v1, k - 1, qx + n2, qy, a, g, ox, oy);
    lemma_paint_chunk_pixels(c, v2, k - 1, qx, qy + n2, b, g, ox, oy);
    lemma_paint_chunk_pixels(c, v3, k - 1, qx + n2, qy + n2, e, g, ox, oy);
    lemma_painted_four(c, g, ox, oy, qx, qy, n2, img, a, b, e, out);
}

/// What a visit of a part of a raw block and of its parts does to a
/// picture, pixel by pixel, where the part is as wide as a pixel at the
/// least and begins at the corner of the pixel `(qx, qy)`.
#[verifier::rlimit(100)]
pub proof fn lemma_paint_chunk_pixels(
    c: Canvas,
    val: u64,
    k: int,
    qx: int,
    qy: int,
    img: Seq<u8>,
    g: Set<(int, int)>,
    ox: int,
    oy: int,
)
    requires
        0 <= c.zoom <= k <= 3,
        chunk_tile(val, k, g, ox + qx * pow2(c.zoom as nat), oy + qy * pow2(c.zoom as nat)),
        img.len() == c.xsize * c.ysize,
    ensures
        paint_chunk_spec(c, val, k, qx * pow2(c.zoom as nat), qy * pow2(c.zoom as nat), img).len()
            == img.len(),
        forall|px: int, py: int|
            0 <= px < c.xsize && 0 <= py < c.ysize ==> #[trigger] pix(
                paint_chunk_spec(
                    c,
                    val,
                    k,
                    qx * pow2(c.zoom as nat),
                    qy * pow2(c.zoom as nat),
                    img,
                ),
                c,
                px,
                py,
            ) == painted(
                c,
                g,
                ox,
                oy,
                qx,
                qy,
                pow2((k - c.zoom) as nat) as int,
                px,
                py,
                pix(img, c, px, py),
            ),
    decreases k, 1int,
{
    let p = pow2(c.zoom as nat) as int;
    let n = pow2((k - c.zoom) as nat) as int;
    let big = pow2(k as nat) as int;
    let lx = qx * p;
    let ly = qy * p;
    let out = paint_chunk_spec(c, val, k, lx, ly, img);
    assert(p > 0 && n >= 1 && big == n * p) by {
        lemma_pow2_pos(c.zoom as nat);
        lemma_pow2_pos((k - c.zoom) as nat);
        lemma_pow2_adds((k - c.zoom) as nat, c.zoom as nat);
    }
    lemma_chunk_count(val, k, g, ox + lx, oy + ly);
    let count = chunk_count(val, k);
    let vis = visit(c, k, lx, ly, count, img);
    let tx = trunc_div(lx, big);
    let ty = trunc_div(ly, big);
    if count == 0 {
        assert(out == img);
        lemma_painted_empty(c, g, ox, oy, qx, qy, n, img);
        assert forall|px: int, py: int| 0 <= px < c.xsize && 0 <= py < c.ysize implies #[trigger] pix(
            out,
            c,
            px,
            py,
        ) == painted(c, g, ox, oy, qx, qy, n, px, py, pix(img, c, px, py)) by {}
    } else if tx >= c.xsize || ty >= c.ysize || tx + 1 <= 0 || ty + 1 <= 0 {
        assert(out == img);
        lemma_painted_beside(c, g, ox, oy, qx, qy, n, img);
        assert forall|px: int, py: int| 0 <= px < c.xsize && 0 <= py < c.ysize implies #[trigger] pix(
            out,
            c,
            px,
            py,
        ) == painted(c, g, ox, oy, qx, qy, n, px, py, pix(img, c, px, py)) by {}
    } else if c.zoom >= k {
        lemma_trunc_div_exact(qx, p);
        lemma_trunc_div_exact(qy, p);
        assert(n == 1) by {
            lemma2_to64();
        }
        assert(tx == qx && ty == qy);
        assert(0 <= qy * c.xsize + qx < c.xsize * c.ysize) by (nonlinear_arith)
            requires
                0 <= qx < c.xsize,
                0 <= qy < c.ysize,
        ;
        assert(out == img.update(qy * c.xsize + qx, pixel_value(c, count)));
        lemma_painted_one(c, g, ox, oy, qx, qy, cells_in(g, ox + lx, oy + ly, p).len(), img);
        assert forall|px: int, py: int| 0 <= px < c.xsize && 0 <= py < c.ysize implies #[trigger] pix(
            out,
            c,
            px,
            py,
        ) == painted(c, g, ox, oy, qx, qy, n, px, py, pix(img, c, px, py)) by {}
    } else {
        assert(vis == (img, true));
        lemma_paint_chunk_parts(c, val, k, qx, qy, img, g, ox, oy);
        assert forall|px: int, py: int| 0 <= px < c.xsize && 0 <= py < c.ysize implies #[trigger] pix(
            out,
            c,
            px,
            py,
        ) == painted(c, g, ox, oy, qx, qy, n, px, py, pix(img, c, px, py)) by {}
    }
}

/// The visit of the square of a key, step by step.
proof fn lemma_paint_open(
    m: Map<u128, QuadTreeNode>,
    c: Canvas,
    key: u128,
    level: nat,
    lx: int,
    ly: int,
    img: Seq<u8>,
)
    ensures
        level == 0 ==> paint_spec(m, c, key, level, lx, ly, img) == paint_chunk_spec(
            c,
            key as u64,
            3,
            lx,
            ly,
            img,
        ),
        level >= 1 ==> paint_spec(m, c, key, level, lx, ly, img) == ({
            let vis = visit(c, (level + 3) as int, lx, ly, m[key].set_count, img);
            let below = (level - 1) as nat;
            let h = side(below);
            let v = m[key].v;
            if !vis.1 {
                vis.0
            } else {
                paint_spec(
                    m,
                    c,
                    v.rb,
                    below,
                    lx + h,
                    ly + h,
                    paint_spec(
                        m,
                        c,
                        v.lb,
                        below,
                        lx,
                        ly + h,
                        paint_spec(
                            m,
                            c,
                            v.rt,
                            below,
                            lx + h,
                            ly,
                            paint_spec(m, c, v.lt, below, lx, ly, vis.0),
                        ),
                    ),
                )
            }
        }),
{
    reveal(paint_spec);
}

/// The visit of a square that is wider than a pixel and is neither empty
/// nor beside the picture: its four quadrants are visited one after the
/// other.
#[verifier::rlimit(100)]
proof fn lemma_paint_parts(
    m: Map<u128, QuadTreeNode>,
    dm: Map<u128, nat>,
    c: Canvas,
    key: u128,
    level: nat,
    qx: int,
    qy: int,
    img: Seq<u8>,
    g: Set<(int, int)>,
    ox: int,
    oy: int,
)
    requires
        store_ok(m, dm),
        level >= 1,
        c.zoom < level + 3,
        tile(
            m,
            dm,
            key,
            level,
            g,
            ox + qx * pow2(c.zoom as nat),
            oy + qy * pow2(c.zoom as nat),
        ),
        img.len() == c.xsize * c.ysize,
    ensures
        ({
            let p = pow2(c.zoom as nat) as int;
            let h = side((level - 1) as nat);
            let below = (level - 1) as nat;
            let v = m[key].v;
            let a = paint_spec(m, c, v.lt, below, qx * p, qy * p, img);
            let b = paint_spec(m, c, v.rt, below, qx * p + h, qy * p, a);
            let e = paint_spec(m, c, v.lb, below, qx * p, qy * p + h, b);
            let out = paint_spec(m, c, v.rb, below, qx * p + h, qy * p + h, e);
            &&& out.len() == img.len()
            &&& forall|px: int, py: int|
                0 <= px < c.xsize && 0 <= py < c.ysize ==> #[trigger] pix(out, c, px, py)
                    == painted(
                    c,
                    g,
                    ox,
                    oy,
                    qx,
                    qy,
                    pow2((level + 3 - c.zoom) as nat) as int,
                    px,
                    py,
                    pix(img, c, px, py),
                )
        }),
    decreases level, 0int,
{
    let p = pow2(c.zoom as nat) as int;
    let below = (level - 1) as nat;
    let h = side(below);
    let n2 = pow2((below + 3 - c.zoom) as nat) as int;
    let v = m[key].v;
    let lx = qx * p;
    let ly = qy * p;
    assert(h == n2 * p && n2 >= 1 && pow2((level + 3 - c.zoom) as nat) == 2 * n2) by {
        lemma_sizes(level, c.zoom as nat);
        lemma_sizes(below, c.zoom as nat);
    }
    assert((qx + n2) * p == lx + h && (qy + n2) * p == ly + h) by (nonlinear_arith)
        requires
            lx == qx * p,
            ly == qy * p,
            h == n2 * p,
    ;
    assert(crate::treespec::value_tile(m, dm, v, below, g, ox + lx, oy + ly)) by {
        crate::stepper::lemma_tile_quadrants(m, dm, key, below, g, ox + lx, oy + ly);
    }
    let a = paint_spec(m, c, v.lt, below, lx, ly, img);
    let b = paint_spec(m, c, v.rt, below, lx + h, ly, a);
    let e = paint_spec(m, c, v.lb, below, lx, ly + h, b);
    let out = paint_spec(m, c, v.rb, below, lx + h, ly + h, e);
    lemma_paint_pixels(m, dm, c, v.lt, below, qx, qy, img, g, ox, oy);
    lemma_paint_pixels(m, dm, c, v.rt, below, qx + n2, qy, a, g, ox, oy);
    lemma_paint_pixels(m, dm, c, v.lb, below, qx, qy + n2, b, g, ox, oy);
    lemma_paint_pixels(m, dm, c, v.rb, below, qx + n2, qy + n2, e, g, ox, oy);
    lemma_painted_four(c, g, ox, oy, qx, qy, n2, img, a, b, e, out);
}

/// What a visit of the square of a key and of its parts does to a picture,
/// pixel by pixel, where the pixels are as wide as the square at the most,
/// and the square begins at the corner of the pixel `(qx, qy)`.
#[verifier::rlimit(50)]
pub proof fn lemma_paint_pixels(
    m: Map<u128, QuadTreeNode>,
    dm: Map<u128, nat>,
    c: Canvas,
    key: u128,
    level: nat,
    qx: int,
    qy: int,
    img: Seq<u8>,
    g: Set<(int, int)>,
    ox: int,
    oy: int,
)
    requires
        store_ok(m, dm),
        c.zoom <= level + 3,
        tile(
            m,
            dm,
            key,
            level,
            g,
            ox + qx * pow2(c.zoom as nat),
            oy + qy * pow2(c.zoom as nat),
        ),
        img.len() == c.xsize * c.ysize,
    ensures
        paint_spec(m, c, key, level, qx * pow2(c.zoom as nat), qy * pow2(c.zoom as nat), img).len()
            == img.len(),
        forall|px: int, py: int|
            0 <= px < c.xsize && 0 <= py < c.ysize ==> #[trigger] pix(
                paint_spec(
                    m,
                    c,
                    key,
                    level,
                    qx * pow2(c.zoom as nat),
                    qy * pow2(c.zoom as nat),
                    img,
                ),
                c,
                px,
                py,
            ) == painted(
                c,
                g,
                ox,
                oy,
                qx,
                qy,
                pow2((level + 3 - c.zoom) as nat) as int,
                px,
                py,
                pix(img, c, px, py),
            ),
    decreases level, 1int,
{
    let p = pow2(c.zoom as nat) as int;
    let k = (level + 3) as int;
    let n = pow2((level + 3 - c.zoom) as nat) as int;
    let big = pow2((level + 3) as nat) as int;
    let lx = qx * p;
    let ly = qy * p;
    let out = paint_spec(m, c, key, level, lx, ly, img);
    lemma_sizes(level, c.zoom as nat);
    assert(valid(m, dm, key, level)) by {
        reveal(tile);
    }
    lemma_paint_open(m, c, key, level, lx, ly, img);
    if level == 0 {
        assert(chunk_tile(key as u64, 3, g, ox + lx, oy + ly)) by {
            lemma2_to64();
            assert forall|a: int, b: int| 0 <= a < 8 && 0 <= b < 8 implies (#[trigger] block_cell(
                key as u64,
                a,
                b,
            ) <==> (a < pow2(3) && b < pow2(3) && g.contains((ox + lx + a, oy + ly + b)))) by {
                lemma_tile_cell(m, dm, key, level, g, ox + lx, oy + ly, (ox + lx + a, oy + ly + b));
            }
        }
        lemma_paint_chunk_pixels(c, key as u64, 3, qx, qy, img, g, ox, oy);
        return ;
    }
    lemma_tile_count(m, dm, key, level, g, ox + lx, oy + ly);
    let count: u64 = m[key].set_count;
    assert(count == capped(live_count(m, key, level))) by {
        assert(node_ok(m, dm, key));
    }
    let vis = visit(c, k, lx, ly, count, img);
    let tx = trunc_div(lx, big);
    let ty = trunc_div(ly, big);
    if count == 0 {
        assert(out == img);
        lemma_painted_empty(c, g, ox, oy, qx, qy, n, img);
        assert(out.len() == img.len());
        assert forall|px: int, py: int| 0 <= px < c.xsize && 0 <= py < c.ysize implies #[trigger] pix(
            out,
            c,
            px,
            py,
        ) == painted(c, g, ox, oy, qx, qy, n, px, py, pix(img, c, px, py)) by {}
    } else if tx >= c.xsize || ty >= c.ysize || tx + 1 <= 0 || ty + 1 <= 0 {
        assert(out == img);
        lemma_painted_beside(c, g, ox, oy, qx, qy, n, img);
        assert forall|px: int, py: int| 0 <= px < c.xsize && 0 <= py < c.ysize implies #[trigger] pix(
            out,
            c,
            px,
            py,
        ) == painted(c, g, ox, oy, qx, qy, n, px, py, pix(img, c, px, py)) by {}
    } else if c.zoom >= k {
        lemma_trunc_div_exact(qx, p);
        lemma_trunc_div_exact(qy, p);
        assert(n == 1) by {
            lemma2_to64();
        }
        assert(tx == qx && ty == qy);
        assert(0 <= qy * c.xsize + qx < c.xsize * c.ysize) by (nonlinear_arith)
            requires
                0 <= qx < c.xsize,
                0 <= qy < c.ysize,
        ;
        assert(out == img.update(qy * c.xsize + qx, pixel_value(c, count)));
        lemma_painted_one(c, g, ox, oy, qx, qy, live_count(m, key, level), img);
        assert(out.len() == img.len());
        assert forall|px: int, py: int| 0 <= px < c.xsize && 0 <= py < c.ysize implies #[trigger] pix(
            out,
            c,
            px,
            py,
        ) == painted(c, g, ox, oy, qx, qy, n, px, py, pix(img, c, px, py)) by {}
    } else {
        assert(vis == (img, true));
        lemma_paint_parts(m, dm, c, key, level, qx, qy, img, g, ox, oy);
        assert(out.len() == img.len());
        assert forall|px: int, py: int| 0 <= px < c.xsize && 0 <= py < c.ysize implies #[trigger] pix(
            out,
            c,
            px,
            py,
        ) == painted(c, g, ox, oy, qx, qy, n, px, py, pix(img, c, px, py)) by {}
    }
}

/// An empty picture on which the square of a key was visited, pixel by
/// pixel: every pixel is as bright as its square of the grid is full.
pub proof fn lemma_picture_pixel(
    m: Map<u128, QuadTreeNode>,
    dm: Map<u128, nat>,
    c: Canvas,
    key: u128,
    level: nat,
    qx: int,
    qy: int,
    g: Set<(int, int)>,
    ox: int,
    oy: int,
    px: int,
    py: int,
)
    requires
        store_ok(m, dm),
        c.zoom <= level + 3,
        tile(
            m,
            dm,
            key,
            level,
            g,
            ox + qx * pow2(c.zoom as nat),
            oy + qy * pow2(c.zoom as nat),
        ),
        crate::quadtree::inside(
            g,
            ox + qx * pow2(c.zoom as nat),
            oy + qy * pow2(c.zoom as nat),
            side(level),
        ),
        0 <= px < c.xsize,
        0 <= py < c.ysize,
    ensures
        0 <= py * c.xsize + px < c.xsize * c.ysize,
        paint_spec(
            m,
            c,
            key,
            level,
            qx * pow2(c.zoom as nat),
            qy * pow2(c.zoom as nat),
            blank(c),
        )[py * c.xsize + px] == pixel_value(
            c,
            capped(
                cells_in(
                    g,
                    ox + px * pow2(c.zoom as nat),
                    oy + py * pow2(c.zoom as nat),
                    pow2(c.zoom as nat) as int,
                ).len(),
            ),
        ),
        pixel_value(c, 0) == 0,
{
    let p = pow2(c.zoom as nat) as int;
    let n = pow2((level + 3 - c.zoom) as nat) as int;
    let blank = blank(c);
    let out = paint_spec(m, c, key, level, qx * p, qy * p, blank);
    assert(0 <= py * c.xsize + px < c.xsize * c.ysize) by (nonlinear_arith)
        requires
            0 <= px < c.xsize,
            0 <= py < c.ysize,
    ;
    lemma_paint_pixels(m, dm, c, key, level, qx, qy, blank, g, ox, oy);
    assert(pix(out, c, px, py) == painted(c, g, ox, oy, qx, qy, n, px, py, pix(blank, c, px, py)));
    assert(pix(blank, c, px, py) == 0u8);
    assert(pixel_value(c, 0) == 0) by {
        assert(255 * c.brightness * 0 == 0) by (nonlinear_arith);
        lemma_pow2_pos((16 + 2 * c.zoom) as nat);
    }
    if !(qx <= px < qx + n && qy <= py < qy + n) {
        lemma_pixel_beside(g, ox, oy, c.zoom as nat, level, qx, qy, px, py);
    }
}

/// Whether a square of side `2^k` at `(lx, ly)` is near enough to the
/// picture for its coordinates to be computed.
pub open spec fn in_reach(k: int, lx: int, ly: int) -> bool {
    &&& 0 <= k <= 64
    &&& -0x4_0000_0000_0000_0000 <= lx
    &&& -0x4_0000_0000_0000_0000 <= ly
    &&& lx + pow2(k as nat) <= 0x4_0000_0000_0000_0000
    &&& ly + pow2(k as nat) <= 0x4_0000_0000_0000_0000
}

/// The brightness of a pixel whose square holds `count` live cells.
fn pixel_of(c: &Canvas, count: u64) -> (v: u8)
    requires
        c.zoom <= 23,
    ensures
        v == pixel_value(*c, count),
{
    let shift: u32 = 16 + 2 * (c.zoom as u32);
    let first: u128 = 255 * (c.brightness as u128);
    proof {
        lemma2_to64();
        lemma2_to64_rest();
        crate::stepper::lemma_pow2_le((16 + 2 * c.zoom) as nat, 62);
        lemma_pow2_pos((16 + 2 * c.zoom) as nat);
    }
    let ghost p = pow2((16 + 2 * c.zoom) as nat) as int;
    proof {
        assert(255 * c.brightness * count == first * count) by (nonlinear_arith)
            requires
                first == 255 * c.brightness,
        ;
    }
    match first.checked_mul(count as u128) {
        Some(product) => {
            let scaled: u128 = product >> shift;
            proof {
                lemma_u128_shr(product, shift);
            }
            if scaled > 255 {
                255
            } else {
                scaled as u8
            }
        },
        None => {
            proof {
                let x = first * count;
                assert(x / p >= 256) by (nonlinear_arith)
                    requires
                        x >= 0x1_0000_0000_0000_0000_0000_0000_0000_0000,
                        0 < p <= 0x4000_0000_0000_0000,
                ;
            }
            255
        },
    }
}

proof fn lemma_u128_shr(x: u128, shift: u32)
    requires
        shift < 64,
    ensures
        x >> shift == x as nat / pow2(shift as nat),
    decreases shift,
{
    if shift == 0 {
        assert(x >> 0u32 == x) by (bit_vector);
        lemma2_to64();
    } else {
        let s1 = (shift - 1) as u32;
        assert(x >> shift == (x >> s1) / 2) by (bit_vector)
            requires
                0 < shift < 64,
                s1 == shift - 1,
        ;
        lemma_u128_shr(x, s1);
        lemma_pow2_unfold(shift as nat);
        lemma_pow2_pos(s1 as nat);
        let p = pow2(s1 as nat) as int;
        assert((x as int / p) / 2 == x as int / (p * 2)) by (nonlinear_arith)
            requires
                p > 0,
                x >= 0,
        ;
    }
}

/// Visits a square: draws it where it is no wider than a pixel, and says
/// whether its parts are to be visited.
fn visit_square(c: &Canvas, k: u64, lx: i128, ly: i128, count: u64, img: &mut Vec<u8>) -> (descend:
    bool)
    requires
        c.zoom <= 23,
        in_reach(k as int, lx as int, ly as int),
        old(img)@.len() == c.xsize * c.ysize,
    ensures
        (final(img)@, descend) == visit(*c, k as int, lx as int, ly as int, count, old(img)@),
        final(img)@.len() == old(img)@.len(),
{
    if count == 0 {
        return false;
    }
    proof {
        lemma2_to64();
        lemma2_to64_rest();
        lemma_pow2_pos(k as nat);
        if k < 64 {
            vstd::bits::lemma_u64_shl_is_mul(1, k);
            crate::stepper::lemma_pow2_le(k as nat, 63);
        }
    }
    let m: i128 = if k >= 64 {
        0x1_0000_0000_0000_0000
    } else {
        (1u64 << k) as i128
    };
    let tx: i128 = if lx >= 0 {
        lx / m
    } else {
        -((-lx) / m)
    };
    let ty: i128 = if ly >= 0 {
        ly / m
    } else {
        -((-ly) / m)
    };
    proof {
        assert(m == pow2(k as nat));
        assert(tx == trunc_div(lx as int, m as int));
        assert(ty == trunc_div(ly as int, m as int));
    }
    if tx >= c.xsize as i128 || ty >= c.ysize as i128 || tx + 1 <= 0 || ty + 1 <= 0 {
        false
    } else if c.zoom as u64 >= k {
        let value = pixel_of(c, count);
        proof {
            assert(ty * c.xsize + tx < c.xsize * c.ysize) by (nonlinear_arith)
                requires
                    0 <= tx < c.xsize,
                    0 <= ty < c.ysize,
            ;
            assert(0 <= ty * c.xsize <= 0xffff_ffff_ffff_ffff * 0xffff_ffff_ffff_ffff)
                by (nonlinear_arith)
                requires
                    0 <= ty <= 0xffff_ffff_ffff_ffff,
                    0 <= c.xsize <= 0xffff_ffff_ffff_ffff,
            ;
        }
        let wide: u128 = (ty as u128) * (c.xsize as u128) + (tx as u128);
        let pixels = img.len();
        proof {
            assert(wide == ty * c.xsize + tx);
            assert(wide < pixels);
        }
        let idx: usize = wide as usize;
        img.set(idx, value);
        proof {
            assert(img@ == old(img)@.update(ty * c.xsize + tx, pixel_value(*c, count)));
        }
        false
    } else {
        true
    }
}

/// Visits the top left part of side `2^k` of a raw block and its parts.
fn paint_chunk(c: &Canvas, val: u64, k: u64, lx: i128, ly: i128, img: &mut Vec<u8>)
    requires
        c.zoom <= 23,
        k <= 3,
        in_reach(k as int, lx as int, ly as int),
        old(img)@.len() == c.xsize * c.ysize,
    ensures
        final(img)@ == paint_chunk_spec(*c, val, k as int, lx as int, ly as int, old(img)@),
        final(img)@.len() == old(img)@.len(),
    decreases k,
{
    let count: u64 = if k == 0 {
        val & 1
    } else {
        proof {
            crate::treespec::lemma_popcount_zero(val);
        }
        count_ones(val)
    };
    let descend = visit_square(c, k, lx, ly, count, img);
    if k == 0 || !descend {
        return ;
    }
    let d: i64 = (k as i64) - 3;
    let half: i128 = if k == 3 {
        4
    } else if k == 2 {
        2
    } else {
        1
    };
    proof {
        lemma2_to64();
        assert(half == pow2((k - 1) as nat));
        lemma_pow2_unfold(k as nat);
    }
    let c0 = get_subchunk(val, d, 0, 0);
    let c1 = get_subchunk(val, d, 1, 0);
    let c2 = get_subchunk(val, d, 0, 1);
    let c3 = get_subchunk(val, d, 1, 1);
    paint_chunk(c, c0, k - 1, lx, ly, img);
    paint_chunk(c, c1, k - 1, lx + half, ly, img);
    paint_chunk(c, c2, k - 1, lx, ly + half, img);
    paint_chunk(c, c3, k - 1, lx + half, ly + half, img);
}

impl NodeStore {
    /// Visits the square that `key` stands for and its parts.
    pub(crate) fn paint_node(
        &self,
        c: &Canvas,
        key: u128,
        level: u64,
        lx: i128,
        ly: i128,
        img: &mut Vec<u8>,
    )
        requires
            self.wf(),
            c.zoom <= 23,
            level <= 61,
            valid(self.nodes(), self.levels(), key, level as nat),
            in_reach(level + 3, lx as int, ly as int),
            old(img)@.len() == c.xsize * c.ysize,
        ensures
            final(img)@ == paint_spec(
                self.nodes(),
                *c,
                key,
                level as nat,
                lx as int,
                ly as int,
                old(img)@,
            ),
            final(img)@.len() == old(img)@.len(),
        decreases level,
    {
        proof {
            reveal(paint_spec);
            lemma2_to64();
            lemma_side(level as nat);
            lemma_pow2_unfold((level + 3) as nat);
            lemma_pow2_unfold((level + 2) as nat);
            lemma_pow2_unfold((level + 1) as nat);
        }
        if level == 0 {
            paint_chunk(c, #[verifier::truncate] (key as u64), 3, lx, ly, img);
            return ;
        }
        let node = self.get(key).unwrap();
        let descend = visit_square(c, level + 3, lx, ly, node.set_count, img);
        if !descend {
            return ;
        }
        proof {
            self.lemma_children(key, level as nat);
            lemma_side((level - 1) as nat);
        }
        let half: i128 = 2 * (full_steps(level - 1) as i128);
        self.paint_node(c, node.v.lt, level - 1, lx, ly, img);
        self.paint_node(c, node.v.rt, level - 1, lx + half, ly, img);
        self.paint_node(c, node.v.lb, level - 1, lx, ly + half, img);
        self.paint_node(c, node.v.rb, level - 1, lx + half, ly + half, img);
    }
}

} // verus!
