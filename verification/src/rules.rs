//! The cell coordinate type and the Game of Life transition rule.
//!
//! The rule is stated over a mathematical set of live cells: a cell survives
//! with 2 or 3 live Moore neighbors, a dead cell is born with exactly 3.
//! Neighbor positions are reckoned over unbounded integers, so a cell at the
//! edge of the representable coordinate range simply has fewer representable
//! neighbors.

use vstd::prelude::*;

verus! {

/// A grid coordinate pair. A cell is a plain value: equality and hashing are
/// by `(x, y)`; the pair carries no identity beyond its position.
#[derive(Clone, Copy, PartialEq, Eq, Structural, Hash, Debug)]
pub struct Cell {
    pub x: i64,
    pub y: i64,
}

impl Cell {
    pub fn new(x: i64, y: i64) -> (c: Cell)
        ensures
            c.x == x,
            c.y == y,
    {
        Cell { x, y }
    }
}

/// Two cells are neighbors when they are distinct and adjacent horizontally,
/// vertically, or diagonally (Moore neighborhood).
pub open spec fn is_neighbor(a: Cell, b: Cell) -> bool {
    &&& !(a.x == b.x && a.y == b.y)
    &&& -1 <= a.x - b.x <= 1
    &&& -1 <= a.y - b.y <= 1
}

/// Whether the (unbounded) position `(x, y)` holds a live cell: it must be
/// representable as a coordinate pair and be a member of the live set.
pub open spec fn live_at(live: Set<Cell>, x: int, y: int) -> bool {
    &&& i64::MIN <= x <= i64::MAX
    &&& i64::MIN <= y <= i64::MAX
    &&& live.contains(Cell { x: x as i64, y: y as i64 })
}

pub open spec fn one_if(b: bool) -> int {
    if b {
        1
    } else {
        0
    }
}

/// The number of the 8 Moore neighbors of `c` that are live.
pub open spec fn neighbor_count(live: Set<Cell>, c: Cell) -> int {
    one_if(live_at(live, c.x - 1, c.y - 1)) + one_if(live_at(live, c.x as int, c.y - 1)) + one_if(
        live_at(live, c.x + 1, c.y - 1),
    ) + one_if(live_at(live, c.x - 1, c.y as int)) + one_if(live_at(live, c.x + 1, c.y as int)) + one_if(
        live_at(live, c.x - 1, c.y + 1),
    ) + one_if(live_at(live, c.x as int, c.y + 1)) + one_if(live_at(live, c.x + 1, c.y + 1))
}

/// The classic Life rule for a single cell: survival on 2 or 3 live
/// neighbors, birth on exactly 3.
pub open spec fn lives_next(live: Set<Cell>, c: Cell) -> bool {
    if live.contains(c) {
        2 <= neighbor_count(live, c) <= 3
    } else {
        neighbor_count(live, c) == 3
    }
}

/// The next generation: exactly the cells that the rule keeps alive or births.
pub open spec fn next_gen(live: Set<Cell>) -> Set<Cell> {
    Set::new(|c: Cell| lives_next(live, c))
}

/// One step of an empty board yields an empty board: with no live cells every
/// neighbor tally is zero, so neither survival nor birth can hold anywhere.
pub proof fn lemma_next_gen_empty()
    ensures
        next_gen(Set::<Cell>::empty()) == Set::<Cell>::empty(),
{
    assert forall|c: Cell| !next_gen(Set::<Cell>::empty()).contains(c) by {
        assert(neighbor_count(Set::<Cell>::empty(), c) == 0);
    }
    assert(next_gen(Set::<Cell>::empty()) =~= Set::<Cell>::empty());
}

/// No spontaneous generation: a cell of the next generation that was dead has
/// exactly 3 live neighbors, and one that was live has 2 or 3 — a cell with
/// fewer than 2 or more than 3 live neighbors never appears.
pub proof fn lemma_next_gen_neighbor_bounds(live: Set<Cell>, c: Cell)
    requires
        next_gen(live).contains(c),
    ensures
        2 <= neighbor_count(live, c) <= 3,
        !live.contains(c) ==> neighbor_count(live, c) == 3,
{
}

/// A cell with a positive neighbor tally is adjacent to at least one member
/// of the live set. In particular every newborn cell touches a live cell.
pub proof fn lemma_neighbor_witness(live: Set<Cell>, c: Cell)
    requires
        neighbor_count(live, c) > 0,
    ensures
        exists|b: Cell| live.contains(b) && is_neighbor(c, b),
{
    if live_at(live, c.x - 1, c.y - 1) {
        let b = Cell { x: (c.x - 1) as i64, y: (c.y - 1) as i64 };
        assert(live.contains(b) && is_neighbor(c, b));
    } else if live_at(live, c.x as int, c.y - 1) {
        let b = Cell { x: c.x, y: (c.y - 1) as i64 };
        assert(live.contains(b) && is_neighbor(c, b));
    } else if live_at(live, c.x + 1, c.y - 1) {
        let b = Cell { x: (c.x + 1) as i64, y: (c.y - 1) as i64 };
        assert(live.contains(b) && is_neighbor(c, b));
    } else if live_at(live, c.x - 1, c.y as int) {
        let b = Cell { x: (c.x - 1) as i64, y: c.y };
        assert(live.contains(b) && is_neighbor(c, b));
    } else if live_at(live, c.x + 1, c.y as int) {
        let b = Cell { x: (c.x + 1) as i64, y: c.y };
        assert(live.contains(b) && is_neighbor(c, b));
    } else if live_at(live, c.x - 1, c.y + 1) {
        let b = Cell { x: (c.x - 1) as i64, y: (c.y + 1) as i64 };
        assert(live.contains(b) && is_neighbor(c, b));
    } else if live_at(live, c.x as int, c.y + 1) {
        let b = Cell { x: c.x, y: (c.y + 1) as i64 };
        assert(live.contains(b) && is_neighbor(c, b));
    } else if live_at(live, c.x + 1, c.y + 1) {
        let b = Cell { x: (c.x + 1) as i64, y: (c.y + 1) as i64 };
        assert(live.contains(b) && is_neighbor(c, b));
    } else {
        assert(neighbor_count(live, c) == 0);
    }
}

} // verus!
