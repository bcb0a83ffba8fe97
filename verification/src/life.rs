//! The rule of Conway's Life on the unbounded grid, cell by cell.
//!
//! A grid is the set of its live cells.  Everything the engine computes is
//! stated against the functions of this module.

use vstd::prelude::*;

verus! {

/// 1 where the cell `(x, y)` of `g` is alive, else 0.
pub open spec fn alive(g: Set<(int, int)>, x: int, y: int) -> int {
    if g.contains((x, y)) {
        1
    } else {
        0
    }
}

/// The number of live cells among the eight neighbours of `(x, y)`.
pub open spec fn neighbours(g: Set<(int, int)>, x: int, y: int) -> int {
    alive(g, x - 1, y - 1) + alive(g, x, y - 1) + alive(g, x + 1, y - 1) + alive(g, x - 1, y)
        + alive(g, x + 1, y) + alive(g, x - 1, y + 1) + alive(g, x, y + 1) + alive(
        g,
        x + 1,
        y + 1,
    )
}

/// Whether `(x, y)` is alive in the next generation: a cell is born with
/// three live neighbours and survives with two or three.
pub open spec fn lives_on(g: Set<(int, int)>, x: int, y: int) -> bool {
    let n = neighbours(g, x, y);
    n == 3 || (n == 2 && g.contains((x, y)))
}

/// The next generation of `g`.
pub open spec fn evolve(g: Set<(int, int)>) -> Set<(int, int)> {
    Set::new(|p: (int, int)| lives_on(g, p.0, p.1))
}

/// The grid `g` after `n` generations.
pub open spec fn generations(g: Set<(int, int)>, n: nat) -> Set<(int, int)>
    decreases n,
{
    if n == 0 {
        g
    } else {
        evolve(generations(g, (n - 1) as nat))
    }
}

/// Whether `(a, b)` lies within `r` cells of `(x, y)` in both directions.
pub open spec fn near(x: int, y: int, a: int, b: int, r: int) -> bool {
    x - r <= a <= x + r && y - r <= b <= y + r
}

/// Whether two grids hold the same cells within `r` cells of `(x, y)`.
pub open spec fn agree_near(
    g1: Set<(int, int)>,
    g2: Set<(int, int)>,
    x: int,
    y: int,
    r: int,
) -> bool {
    forall|a: int, b: int| #[trigger] near(x, y, a, b, r) ==> (g1.contains((a, b)) <==> g2.contains((a, b)))
}

/// The grid `g` moved by `(dx, dy)`.
pub open spec fn shifted(g: Set<(int, int)>, dx: int, dy: int) -> Set<(int, int)> {
    Set::new(|p: (int, int)| g.contains((p.0 - dx, p.1 - dy)))
}

/// One generation reads nothing beyond the neighbours of a cell.
pub proof fn lemma_evolve_local(g1: Set<(int, int)>, g2: Set<(int, int)>, x: int, y: int)
    requires
        agree_near(g1, g2, x, y, 1),
    ensures
        lives_on(g1, x, y) == lives_on(g2, x, y),
{
    assert(near(x, y, x - 1, y - 1, 1));
    assert(near(x, y, x, y - 1, 1));
    assert(near(x, y, x + 1, y - 1, 1));
    assert(near(x, y, x - 1, y, 1));
    assert(near(x, y, x, y, 1));
    assert(near(x, y, x + 1, y, 1));
    assert(near(x, y, x - 1, y + 1, 1));
    assert(near(x, y, x, y + 1, 1));
    assert(near(x, y, x + 1, y + 1, 1));
}

/// Locality: after `n` generations a cell depends on nothing beyond the
/// cells within `n` of it.
pub proof fn lemma_locality(g1: Set<(int, int)>, g2: Set<(int, int)>, n: nat, x: int, y: int)
    requires
        agree_near(g1, g2, x, y, n as int),
    ensures
        generations(g1, n).contains((x, y)) <==> generations(g2, n).contains((x, y)),
    decreases n,
{
    if n == 0 {
        assert(near(x, y, x, y, 0));
    } else {
        let m = (n - 1) as nat;
        let h1 = generations(g1, m);
        let h2 = generations(g2, m);
        assert forall|a: int, b: int| #[trigger] near(x, y, a, b, 1) implies (h1.contains((a, b))
            <==> h2.contains((a, b))) by {
            assert forall|c: int, d: int| #[trigger] near(a, b, c, d, m as int) implies (
            g1.contains((c, d)) <==> g2.contains((c, d))) by {
                assert(near(x, y, c, d, n as int));
            }
            lemma_locality(g1, g2, m, a, b);
        }
        lemma_evolve_local(h1, h2, x, y);
    }
}

/// Generations add up: `b` generations after `a` generations are `a + b`
/// generations.
pub proof fn lemma_generations_add(g: Set<(int, int)>, a: nat, b: nat)
    ensures
        generations(generations(g, a), b) == generations(g, a + b),
    decreases b,
{
    if b > 0 {
        lemma_generations_add(g, a, (b - 1) as nat);
    }
}

proof fn lemma_alive_shifted(h: Set<(int, int)>, dx: int, dy: int, x: int, y: int)
    ensures
        alive(shifted(h, dx, dy), x, y) == alive(h, x - dx, y - dy),
{
}

proof fn lemma_lives_on_shifted(h: Set<(int, int)>, dx: int, dy: int, x: int, y: int)
    ensures
        lives_on(shifted(h, dx, dy), x, y) == lives_on(h, x - dx, y - dy),
{
    let s = shifted(h, dx, dy);
    lemma_alive_shifted(h, dx, dy, x - 1, y - 1);
    lemma_alive_shifted(h, dx, dy, x, y - 1);
    lemma_alive_shifted(h, dx, dy, x + 1, y - 1);
    lemma_alive_shifted(h, dx, dy, x - 1, y);
    lemma_alive_shifted(h, dx, dy, x, y);
    lemma_alive_shifted(h, dx, dy, x + 1, y);
    lemma_alive_shifted(h, dx, dy, x - 1, y + 1);
    lemma_alive_shifted(h, dx, dy, x, y + 1);
    lemma_alive_shifted(h, dx, dy, x + 1, y + 1);
}

proof fn lemma_evolve_shifted(h: Set<(int, int)>, dx: int, dy: int)
    ensures
        evolve(shifted(h, dx, dy)) == shifted(evolve(h), dx, dy),
{
    assert forall|p: (int, int)|
        evolve(shifted(h, dx, dy)).contains(p) <==> shifted(evolve(h), dx, dy).contains(p) by {
        lemma_lives_on_shifted(h, dx, dy, p.0, p.1);
    }
    assert(evolve(shifted(h, dx, dy)) =~= shifted(evolve(h), dx, dy));
}

/// The rule does not depend on where the origin lies.
pub proof fn lemma_generations_shifted(g: Set<(int, int)>, dx: int, dy: int, n: nat)
    ensures
        generations(shifted(g, dx, dy), n) == shifted(generations(g, n), dx, dy),
    decreases n,
{
    if n > 0 {
        let m = (n - 1) as nat;
        lemma_generations_shifted(g, dx, dy, m);
        lemma_evolve_shifted(generations(g, m), dx, dy);
    }
}

/// Nothing is born in the void: where no cell lives within `n` of `(x, y)`,
/// that cell is dead after `n` generations.
pub proof fn lemma_dead_stays_dead(g: Set<(int, int)>, n: nat, x: int, y: int)
    requires
        forall|a: int, b: int| #[trigger] near(x, y, a, b, n as int) ==> !g.contains((a, b)),
    ensures
        !generations(g, n).contains((x, y)),
    decreases n,
{
    if n == 0 {
        assert(near(x, y, x, y, 0));
    } else {
        let m = (n - 1) as nat;
        let h = generations(g, m);
        assert forall|a: int, b: int| #[trigger] near(x, y, a, b, 1) implies !h.contains(
            (a, b),
        ) by {
            assert forall|c: int, d: int| #[trigger] near(a, b, c, d, m as int) implies !g.contains(
                (c, d),
            ) by {
                assert(near(x, y, c, d, n as int));
            }
            lemma_dead_stays_dead(g, m, a, b);
        }
        assert(near(x, y, x - 1, y - 1, 1));
        assert(near(x, y, x, y - 1, 1));
        assert(near(x, y, x + 1, y - 1, 1));
        assert(near(x, y, x - 1, y, 1));
        assert(near(x, y, x, y, 1));
        assert(near(x, y, x + 1, y, 1));
        assert(near(x, y, x - 1, y + 1, 1));
        assert(near(x, y, x, y + 1, 1));
        assert(near(x, y, x + 1, y + 1, 1));
    }
}

} // verus!
