//! Counting cells: the count that is kept with a node is the number of the
//! live cells of its square.

use crate::bitgrid::{bit_of, block_cell};
use crate::life::shifted;
use crate::quadvalue::QuadTreeNode;
use crate::treespec::{
    cell, cells, child_of, lemma_cell_in_range, lemma_side, live_count, node_ok, popcount, side,
    store_ok, valid, within,
};
use vstd::prelude::*;
use vstd::set_lib::{lemma_map_size, lemma_set_disjoint_lens};

verus! {

/// The live cells of a raw block from the cell with the number `j` on, cell
/// `(x, y)` having the number `8 * y + x`.
pub open spec fn block_cells_from(v: u64, j: int) -> Set<(int, int)> {
    Set::new(|p: (int, int)| block_cell(v, p.0, p.1) && 8 * p.1 + p.0 >= j)
}

proof fn lemma_shift_step(v: u64, j: u64)
    requires
        j < 64,
    ensures
        ({
            let w = v >> j;
            &&& w & 1 == bit_of(v, j)
            &&& w & 1 <= 1
            &&& (w == 0 ==> w & 1 == 0 && w >> 1 == 0)
            &&& (j < 63 ==> w >> 1 == v >> ((j + 1) as u64))
            &&& (j == 63 ==> w >> 1 == 0)
            &&& (j == 0 ==> w == v)
        }),
{
    assert({
        let w = v >> j;
        &&& w & 1 == bit_of(v, j)
        &&& w & 1 <= 1
        &&& (w == 0 ==> w & 1 == 0 && w >> 1 == 0)
        &&& (j < 63 ==> w >> 1 == v >> ((j + 1) as u64))
        &&& (j == 63 ==> w >> 1 == 0)
        &&& (j == 0 ==> w == v)
    }) by (bit_vector)
        requires
            j < 64,
    ;
}

/// The number of set bits of `v` from the bit `j` on.
pub open spec fn popcount_from(v: u64, j: int) -> nat {
    if j >= 64 {
        0
    } else {
        popcount(v >> (j as u64))
    }
}

pub(crate) proof fn lemma_block_census_from(v: u64, j: int)
    requires
        0 <= j <= 64,
    ensures
        block_cells_from(v, j).finite(),
        block_cells_from(v, j).len() == popcount_from(v, j),
    decreases 64 - j,
{
    let s = block_cells_from(v, j);
    if j == 64 {
        assert(s =~= Set::<(int, int)>::empty());
    } else {
        let ju = j as u64;
        lemma_shift_step(v, ju);
        lemma_block_census_from(v, j + 1);
        let rest = block_cells_from(v, j + 1);
        let here = (j % 8, j / 8);
        let w = v >> ju;
        assert(popcount(w) == (w & 1) + popcount(w >> 1)) by {
            if w == 0 {
                assert(popcount(0u64) == 0);
            }
        }
        assert(popcount(w >> 1) == popcount_from(v, j + 1)) by {
            if j == 63 {
                assert(popcount(0u64) == 0);
            }
        }
        if bit_of(v, ju) == 1 {
            assert(s =~= rest.insert(here)) by {
                assert forall|p: (int, int)| s.contains(p) <==> rest.insert(here).contains(p) by {
                    if block_cell(v, p.0, p.1) && 8 * p.1 + p.0 == j {
                        assert(p.0 == j % 8 && p.1 == j / 8);
                    }
                }
            }
            assert(!rest.contains(here));
        } else {
            assert(s =~= rest) by {
                assert forall|p: (int, int)| s.contains(p) <==> rest.contains(p) by {
                    if block_cell(v, p.0, p.1) && 8 * p.1 + p.0 == j {
                        assert(p.0 == j % 8 && p.1 == j / 8);
                    }
                }
            }
        }
    }
}

/// A set of cells that is moved has as many cells as before.
pub proof fn lemma_shifted_len(s: Set<(int, int)>, dx: int, dy: int)
    requires
        s.finite(),
    ensures
        shifted(s, dx, dy).finite(),
        shifted(s, dx, dy).len() == s.len(),
{
    let f = |p: (int, int)| (p.0 + dx, p.1 + dy);
    let t = shifted(s, dx, dy);
    assert(s.map(f) =~= t) by {
        assert forall|q: (int, int)| s.map(f).contains(q) <==> t.contains(q) by {
            if t.contains(q) {
                let p = (q.0 - dx, q.1 - dy);
                assert(s.contains(p) && f(p) == q);
            }
        }
    }
    assert(vstd::relations::injective_on(f, s));
    lemma_map_size(s, t, f);
}

/// Four sets of cells that lie in the four quadrants of a square have
/// together as many cells as they have one by one.
proof fn lemma_four_parts(
    a: Set<(int, int)>,
    b: Set<(int, int)>,
    c: Set<(int, int)>,
    d: Set<(int, int)>,
    h: int,
)
    requires
        a.finite(),
        b.finite(),
        c.finite(),
        d.finite(),
        forall|p: (int, int)| #[trigger] a.contains(p) ==> p.0 < h && p.1 < h,
        forall|p: (int, int)| #[trigger] b.contains(p) ==> h <= p.0 && p.1 < h,
        forall|p: (int, int)| #[trigger] c.contains(p) ==> p.0 < h && h <= p.1,
        forall|p: (int, int)| #[trigger] d.contains(p) ==> h <= p.0 && h <= p.1,
    ensures
        (a + b + c + d).finite(),
        (a + b + c + d).len() == a.len() + b.len() + c.len() + d.len(),
{
    assert(a.disjoint(b));
    lemma_set_disjoint_lens(a, b);
    let ab = a + b;
    assert(ab.disjoint(c));
    lemma_set_disjoint_lens(ab, c);
    let abc = ab + c;
    assert(abc.disjoint(d));
    lemma_set_disjoint_lens(abc, d);
}

/// The cells of a node are the cells of its quadrants, each moved to its
/// place.
proof fn lemma_cells_split(m: Map<u128, QuadTreeNode>, key: u128, level: nat)
    requires
        level >= 1,
    ensures
        ({
            let sub = (level - 1) as nat;
            let h = side(sub);
            let v = m[key].v;
            cells(m, key, level) == cells(m, v.lt, sub) + shifted(cells(m, v.rt, sub), h, 0)
                + shifted(cells(m, v.lb, sub), 0, h) + shifted(cells(m, v.rb, sub), h, h)
        }),
{
    let sub = (level - 1) as nat;
    let h = side(sub);
    lemma_side(sub);
    lemma_side(level);
    let v = m[key].v;
    let all = cells(m, key, level);
    let parts = cells(m, v.lt, sub) + shifted(cells(m, v.rt, sub), h, 0) + shifted(
        cells(m, v.lb, sub),
        0,
        h,
    ) + shifted(cells(m, v.rb, sub), h, h);
    assert forall|p: (int, int)| all.contains(p) <==> parts.contains(p) by {
        let k = child_of(v, h, p.0, p.1);
        if 0 <= p.0 < 2 * h && 0 <= p.1 < 2 * h {
            assert(cell(m, key, level, p.0, p.1) == cell(
                m,
                k,
                sub,
                within(h, p.0),
                within(h, p.1),
            ));
        }
        if cell(m, v.lt, sub, p.0, p.1) {
            lemma_cell_in_range(m, v.lt, sub, p.0, p.1);
        }
        if cell(m, v.rt, sub, p.0 - h, p.1) {
            lemma_cell_in_range(m, v.rt, sub, p.0 - h, p.1);
        }
        if cell(m, v.lb, sub, p.0, p.1 - h) {
            lemma_cell_in_range(m, v.lb, sub, p.0, p.1 - h);
        }
        if cell(m, v.rb, sub, p.0 - h, p.1 - h) {
            lemma_cell_in_range(m, v.rb, sub, p.0 - h, p.1 - h);
        }
    }
    assert(all =~= parts);
}

/// The cells of a key, moved by `(dx, dy)`, lie in the square of the key
/// moved by as much, and they are as many as the cells of the key.
proof fn lemma_part(m: Map<u128, QuadTreeNode>, key: u128, level: nat, dx: int, dy: int)
    requires
        cells(m, key, level).finite(),
    ensures
        shifted(cells(m, key, level), dx, dy).finite(),
        shifted(cells(m, key, level), dx, dy).len() == cells(m, key, level).len(),
        forall|p: (int, int)| #[trigger]
            shifted(cells(m, key, level), dx, dy).contains(p) ==> dx <= p.0 < dx + side(level)
                && dy <= p.1 < dy + side(level),
{
    lemma_shifted_len(cells(m, key, level), dx, dy);
    assert forall|p: (int, int)| #[trigger]
        shifted(cells(m, key, level), dx, dy).contains(p) implies dx <= p.0 < dx + side(level)
        && dy <= p.1 < dy + side(level) by {
        lemma_cell_in_range(m, key, level, p.0 - dx, p.1 - dy);
    }
}

/// Census: the cells of a key are as many as its count says.
pub proof fn lemma_census(m: Map<u128, QuadTreeNode>, dm: Map<u128, nat>, key: u128, level: nat)
    requires
        store_ok(m, dm),
        valid(m, dm, key, level),
    ensures
        cells(m, key, level).finite(),
        cells(m, key, level).len() == live_count(m, key, level),
    decreases level,
{
    if level == 0 {
        lemma_block_census_from(key as u64, 0);
        lemma_shift_step(key as u64, 0);
        assert(cells(m, key, level) =~= block_cells_from(key as u64, 0));
    } else {
        let sub = (level - 1) as nat;
        let h = side(sub);
        let v = m[key].v;
        assert(crate::treespec::value_valid(m, dm, v, sub)) by {
            assert(m.contains_key(key));
            assert(node_ok(m, dm, key));
        }
        lemma_census(m, dm, v.lt, sub);
        lemma_census(m, dm, v.rt, sub);
        lemma_census(m, dm, v.lb, sub);
        lemma_census(m, dm, v.rb, sub);
        lemma_part(m, v.lt, sub, 0, 0);
        lemma_part(m, v.rt, sub, h, 0);
        lemma_part(m, v.lb, sub, 0, h);
        lemma_part(m, v.rb, sub, h, h);
        let a = cells(m, v.lt, sub);
        assert(shifted(a, 0, 0) =~= a);
        lemma_four_parts(
            a,
            shifted(cells(m, v.rt, sub), h, 0),
            shifted(cells(m, v.lb, sub), 0, h),
            shifted(cells(m, v.rb, sub), h, h),
            h,
        );
        lemma_cells_split(m, key, level);
    }
}

} // verus!
