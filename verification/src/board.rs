//! The sparse board: a set of live cells and the step transition.

use vstd::prelude::*;

use crate::rules::{is_neighbor, lemma_neighbor_witness, lives_next, neighbor_count, next_gen, Cell};

verus! {

/// Index of the first occurrence of `c` in `cells`, if any.
fn find_cell(cells: &Vec<Cell>, c: Cell) -> (r: Option<usize>)
    ensures
        match r {
            Some(i) => i < cells@.len() && cells@[i as int] == c,
            None => !cells@.to_set().contains(c),
        },
{
    let mut i: usize = 0;
    while i < cells.len()
        invariant
            i <= cells@.len(),
            forall|j: int| 0 <= j < i ==> cells@[j] != c,
        decreases cells@.len() - i,
    {
        if cells[i] == c {
            return Some(i);
        }
        i = i + 1;
    }
    proof {
        assert(!cells@.contains(c));
    }
    None
}

/// Whether `c` occurs in `cells`.
fn contains_cell(cells: &Vec<Cell>, c: Cell) -> (r: bool)
    ensures
        r == cells@.to_set().contains(c),
{
    match find_cell(cells, c) {
        Some(i) => {
            proof {
                assert(cells@.contains(c)) by {
                    assert(cells@[i as int] == c);
                }
            }
            true
        },
        None => false,
    }
}

/// Appends `c` unless it is already present, keeping the cells duplicate-free.
fn push_unique(cells: &mut Vec<Cell>, c: Cell)
    requires
        old(cells)@.no_duplicates(),
    ensures
        final(cells)@.no_duplicates(),
        final(cells)@.to_set() == old(cells)@.to_set().insert(c),
{
    if !contains_cell(cells, c) {
        let ghost before = cells@;
        cells.push(c);
        proof {
            assert forall|j: int| 0 <= j < before.len() implies before[j] != c by {
                if before[j] == c {
                    assert(before.contains(c));
                }
            }
            assert(cells@.no_duplicates());
            assert forall|d: Cell| cells@.contains(d) <==> (before.contains(d) || d == c) by {
                if cells@.contains(d) {
                    let j = choose|j: int| 0 <= j < cells@.len() && cells@[j] == d;
                    if j < before.len() {
                        assert(before[j] == d);
                    }
                }
                if before.contains(d) {
                    let j = choose|j: int| 0 <= j < before.len() && before[j] == d;
                    assert(cells@[j] == d);
                }
                if d == c {
                    assert(cells@[before.len() as int] == d);
                }
            }
            assert(cells@.to_set() =~= before.to_set().insert(c));
        }
    } else {
        proof {
            assert(cells@.to_set() =~= cells@.to_set().insert(c));
        }
    }
}

/// Counts how many of the 8 Moore neighbors of `c` occur in `cells`.
/// A neighbor position beyond the representable coordinate range holds no
/// cell and contributes nothing.
fn count_live_neighbors(cells: &Vec<Cell>, c: Cell) -> (n: u8)
    ensures
        n as int == neighbor_count(cells@.to_set(), c),
{
    let ghost live = cells@.to_set();
    let mut n: u8 = 0;
    if c.x > i64::MIN && c.y > i64::MIN && contains_cell(cells, Cell::new(c.x - 1, c.y - 1)) {
        n = n + 1;
    }
    if c.y > i64::MIN && contains_cell(cells, Cell::new(c.x, c.y - 1)) {
        n = n + 1;
    }
    if c.x < i64::MAX && c.y > i64::MIN && contains_cell(cells, Cell::new(c.x + 1, c.y - 1)) {
        n = n + 1;
    }
    if c.x > i64::MIN && contains_cell(cells, Cell::new(c.x - 1, c.y)) {
        n = n + 1;
    }
    if c.x < i64::MAX && contains_cell(cells, Cell::new(c.x + 1, c.y)) {
        n = n + 1;
    }
    if c.x > i64::MIN && c.y < i64::MAX && contains_cell(cells, Cell::new(c.x - 1, c.y + 1)) {
        n = n + 1;
    }
    if c.y < i64::MAX && contains_cell(cells, Cell::new(c.x, c.y + 1)) {
        n = n + 1;
    }
    if c.x < i64::MAX && c.y < i64::MAX && contains_cell(cells, Cell::new(c.x + 1, c.y + 1)) {
        n = n + 1;
    }
    assert(n as int == neighbor_count(live, c));
    n
}

/// Appends `b` and every representable neighbor of `b` to `cand`, skipping
/// cells already present.
fn push_with_neighbors(cand: &mut Vec<Cell>, b: Cell)
    requires
        old(cand)@.no_duplicates(),
    ensures
        final(cand)@.no_duplicates(),
        forall|c: Cell| old(cand)@.to_set().contains(c) ==> final(cand)@.to_set().contains(c),
        final(cand)@.to_set().contains(b),
        forall|c: Cell| is_neighbor(c, b) ==> final(cand)@.to_set().contains(c),
{
    push_unique(cand, b);
    if b.x > i64::MIN {
        push_unique(cand, Cell::new(b.x - 1, b.y));
        if b.y > i64::MIN {
            push_unique(cand, Cell::new(b.x - 1, b.y - 1));
        }
        if b.y < i64::MAX {
            push_unique(cand, Cell::new(b.x - 1, b.y + 1));
        }
    }
    if b.y > i64::MIN {
        push_unique(cand, Cell::new(b.x, b.y - 1));
    }
    if b.y < i64::MAX {
        push_unique(cand, Cell::new(b.x, b.y + 1));
    }
    if b.x < i64::MAX {
        push_unique(cand, Cell::new(b.x + 1, b.y));
        if b.y > i64::MIN {
            push_unique(cand, Cell::new(b.x + 1, b.y - 1));
        }
        if b.y < i64::MAX {
            push_unique(cand, Cell::new(b.x + 1, b.y + 1));
        }
    }
    proof {
        assert forall|c: Cell| is_neighbor(c, b) implies cand@.to_set().contains(c) by {
            if c.x == b.x - 1 {
                if c.y == b.y - 1 {
                    assert(c == (Cell { x: (b.x - 1) as i64, y: (b.y - 1) as i64 }));
                } else if c.y == b.y {
                    assert(c == (Cell { x: (b.x - 1) as i64, y: b.y }));
                } else {
                    assert(c == (Cell { x: (b.x - 1) as i64, y: (b.y + 1) as i64 }));
                }
            } else if c.x == b.x {
                if c.y == b.y - 1 {
                    assert(c == (Cell { x: b.x, y: (b.y - 1) as i64 }));
                } else {
                    assert(c == (Cell { x: b.x, y: (b.y + 1) as i64 }));
                }
            } else {
                if c.y == b.y - 1 {
                    assert(c == (Cell { x: (b.x + 1) as i64, y: (b.y - 1) as i64 }));
                } else if c.y == b.y {
                    assert(c == (Cell { x: (b.x + 1) as i64, y: b.y }));
                } else {
                    assert(c == (Cell { x: (b.x + 1) as i64, y: (b.y + 1) as i64 }));
                }
            }
        }
    }
}

/// Collects every cell that could be live next generation: each live cell and
/// each representable neighbor of a live cell, without duplicates.
fn collect_candidates(cells: &Vec<Cell>) -> (r: Vec<Cell>)
    ensures
        r@.no_duplicates(),
        forall|c: Cell| cells@.to_set().contains(c) ==> r@.to_set().contains(c),
        forall|b: Cell, c: Cell|
            cells@.to_set().contains(b) && #[trigger] is_neighbor(c, b) ==> r@.to_set().contains(
                c,
            ),
{
    let mut r: Vec<Cell> = Vec::new();
    let mut i: usize = 0;
    while i < cells.len()
        invariant
            i <= cells@.len(),
            r@.no_duplicates(),
            forall|j: int| 0 <= j < i ==> r@.to_set().contains(cells@[j]),
            forall|j: int, c: Cell|
                0 <= j < i && #[trigger] is_neighbor(c, cells@[j]) ==> r@.to_set().contains(c),
        decreases cells@.len() - i,
    {
        push_with_neighbors(&mut r, cells[i]);
        i = i + 1;
    }
    proof {
        assert forall|c: Cell| cells@.to_set().contains(c) implies r@.to_set().contains(c) by {
            let j = choose|j: int| 0 <= j < cells@.len() && cells@[j] == c;
            assert(r@.to_set().contains(cells@[j]));
        }
        assert forall|b: Cell, c: Cell|
            cells@.to_set().contains(b) && #[trigger] is_neighbor(c, b) implies r@.to_set()
            .contains(c) by {
            let j = choose|j: int| 0 <= j < cells@.len() && cells@[j] == b;
            assert(is_neighbor(c, cells@[j]));
        }
    }
    r
}

/// The live cells of the generation after `cells`, without duplicates.
fn next_cells(cells: &Vec<Cell>) -> (r: Vec<Cell>)
    ensures
        r@.no_duplicates(),
        r@.to_set() == next_gen(cells@.to_set()),
{
    let ghost live = cells@.to_set();
    let cand = collect_candidates(cells);
    let mut r: Vec<Cell> = Vec::new();
    let mut i: usize = 0;
    while i < cand.len()
        invariant
            i <= cand@.len(),
            live == cells@.to_set(),
            cand@.no_duplicates(),
            r@.no_duplicates(),
            forall|c: Cell|
                #[trigger] r@.to_set().contains(c) ==> cand@.take(i as int).to_set().contains(c)
                    && lives_next(live, c),
            forall|j: int| 0 <= j < i && lives_next(live, cand@[j]) ==> r@.to_set().contains(
                cand@[j],
            ),
        decreases cand@.len() - i,
    {
        let c = cand[i];
        let n = count_live_neighbors(cells, c);
        let was_live = contains_cell(cells, c);
        let keep = if was_live {
            n == 2 || n == 3
        } else {
            n == 3
        };
        let ghost r_before = r@;
        let ghost prefix = cand@.take(i as int);
        if keep {
            proof {
                assert(!r@.to_set().contains(c)) by {
                    if prefix.to_set().contains(c) {
                        let j = choose|j: int| 0 <= j < prefix.len() && prefix[j] == c;
                        assert(cand@[j] == cand@[i as int]);
                    }
                }
                assert forall|j: int| 0 <= j < r_before.len() implies r_before[j] != c by {
                    if r_before[j] == c {
                        assert(r_before.contains(c));
                    }
                }
            }
            r.push(c);
            proof {
                assert(r@.no_duplicates());
                assert forall|d: Cell| r@.contains(d) <==> (r_before.contains(d) || d == c) by {
                    if r@.contains(d) {
                        let j = choose|j: int| 0 <= j < r@.len() && r@[j] == d;
                        if j < r_before.len() {
                            assert(r_before[j] == d);
                        }
                    }
                    if r_before.contains(d) {
                        let j = choose|j: int| 0 <= j < r_before.len() && r_before[j] == d;
                        assert(r@[j] == d);
                    }
                    if d == c {
                        assert(r@[r_before.len() as int] == d);
                    }
                }
                assert(r@.to_set() =~= r_before.to_set().insert(c));
            }
        }
        proof {
            assert(cand@.take(i as int + 1) =~= prefix.push(c));
            assert forall|d: Cell| prefix.contains(d) implies cand@.take(i as int + 1).contains(
                d,
            ) by {
                let j = choose|j: int| 0 <= j < prefix.len() && prefix[j] == d;
                assert(cand@.take(i as int + 1)[j] == d);
            }
            assert(cand@.take(i as int + 1).contains(c)) by {
                assert(cand@.take(i as int + 1)[i as int] == c);
            }
        }
        i = i + 1;
    }
    proof {
        assert(cand@.take(cand@.len() as int) =~= cand@);
        assert forall|c: Cell| next_gen(live).contains(c) implies r@.to_set().contains(c) by {
            if live.contains(c) {
                assert(cand@.to_set().contains(c));
            } else {
                lemma_neighbor_witness(live, c);
                let b = choose|b: Cell| live.contains(b) && is_neighbor(c, b);
                assert(cand@.to_set().contains(c));
            }
            let j = choose|j: int| 0 <= j < cand@.len() && cand@[j] == c;
            assert(r@.to_set().contains(cand@[j]));
        }
        assert(r@.to_set() =~= next_gen(live));
    }
    r
}

/// An unbounded sparse Life board. Only live cells are stored; absence is the
/// sole representation of "dead".
pub struct LifeBoard {
    cells: Vec<Cell>,
}

impl View for LifeBoard {
    type V = Set<Cell>;

    /// The abstract state of the board: the set of live cells.
    closed spec fn view(&self) -> Set<Cell> {
        self.cells@.to_set()
    }
}

impl LifeBoard {
    /// The stored cells carry no duplicate coordinates.
    pub closed spec fn wf(&self) -> bool {
        self.cells@.no_duplicates()
    }

    /// Creates an empty board: no live cells.
    pub fn new() -> (b: LifeBoard)
        ensures
            b.wf(),
            b@ == Set::<Cell>::empty(),
    {
        let b = LifeBoard { cells: Vec::new() };
        proof {
            assert(b.cells@.to_set() =~= Set::<Cell>::empty());
        }
        b
    }

    /// Whether the cell at `(x, y)` is currently live. Any coordinate pair may
    /// be queried; an unpopulated one reads dead.
    pub fn get(&self, x: i64, y: i64) -> (r: bool)
        ensures
            r == self@.contains((Cell { x, y })),
    {
        contains_cell(&self.cells, Cell::new(x, y))
    }

    /// Makes the cell at `(x, y)` live or dead. Writing an already-live cell
    /// live, or an already-dead cell dead, leaves the board unchanged.
    pub fn set(&mut self, x: i64, y: i64, alive: bool)
        requires
            old(self).wf(),
        ensures
            final(self).wf(),
            alive ==> final(self)@ == old(self)@.insert((Cell { x, y })),
            !alive ==> final(self)@ == old(self)@.remove((Cell { x, y })),
    {
        let c = Cell::new(x, y);
        if alive {
            push_unique(&mut self.cells, c);
        } else {
            match find_cell(&self.cells, c) {
                Some(i) => {
                    let ghost before = self.cells@;
                    self.cells.remove(i);
                    proof {
                        lemma_remove_keeps_rest(before, i as int);
                    }
                },
                None => {
                    proof {
                        assert(self.cells@.to_set() =~= self.cells@.to_set().remove(c));
                    }
                },
            }
        }
    }

    /// Kills every cell, returning the board to the empty state.
    pub fn clear(&mut self)
        ensures
            final(self).wf(),
            final(self)@ == Set::<Cell>::empty(),
    {
        self.cells.clear();
        proof {
            assert(self.cells@.to_set() =~= Set::<Cell>::empty());
        }
    }

    /// Every currently-live cell, each exactly once, in unspecified order.
    pub fn iter_live_cells(&self) -> (r: Vec<Cell>)
        requires
            self.wf(),
        ensures
            r@.to_set() == self@,
            r@.no_duplicates(),
    {
        let mut r: Vec<Cell> = Vec::new();
        let mut i: usize = 0;
        while i < self.cells.len()
            invariant
                i <= self.cells@.len(),
                r@ == self.cells@.take(i as int),
            decreases self.cells@.len() - i,
        {
            r.push(self.cells[i]);
            proof {
                assert(r@ =~= self.cells@.take(i as int + 1));
            }
            i = i + 1;
        }
        proof {
            assert(self.cells@.take(self.cells@.len() as int) =~= self.cells@);
        }
        r
    }

    /// Advances the board by exactly one generation of the Life rule: the live
    /// set is replaced, atomically from the caller's view, by the set of cells
    /// that survive or are born.
    pub fn step(&mut self)
        ensures
            final(self).wf(),
            final(self)@ == next_gen(old(self)@),
    {
        let next = next_cells(&self.cells);
        self.cells = next;
    }
}

/// Setting a cell live makes it read live, and killing it afterwards makes it
/// read dead again, whatever the board held before.
pub proof fn lemma_set_then_get(live: Set<Cell>, c: Cell)
    ensures
        live.insert(c).contains(c),
        !live.insert(c).remove(c).contains(c),
{
}

/// A cleared board reads dead at every coordinate.
pub proof fn lemma_cleared_board_reads_dead(c: Cell)
    ensures
        !Set::<Cell>::empty().contains(c),
{
}

/// An enumeration of an empty live set yields no cells.
pub proof fn lemma_empty_board_yields_no_cells(s: Seq<Cell>)
    requires
        s.to_set() == Set::<Cell>::empty(),
    ensures
        s.len() == 0,
{
    if s.len() > 0 {
        assert(s.to_set().contains(s[0]));
    }
}

/// Writing the same cell state twice in a row leaves the live set exactly as
/// one write does, for both the live and the dead write.
pub proof fn lemma_set_idempotent(live: Set<Cell>, c: Cell)
    ensures
        live.insert(c).insert(c) == live.insert(c),
        live.remove(c).remove(c) == live.remove(c),
{
    assert(live.insert(c).insert(c) =~= live.insert(c));
    assert(live.remove(c).remove(c) =~= live.remove(c));
}

/// Removing the element at one index of a duplicate-free sequence removes
/// exactly that element from the set of members.
proof fn lemma_remove_keeps_rest(s: Seq<Cell>, i: int)
    requires
        0 <= i < s.len(),
        s.no_duplicates(),
    ensures
        s.remove(i).no_duplicates(),
        s.remove(i).to_set() == s.to_set().remove(s[i]),
{
    s.remove_ensures(i);
    let t = s.remove(i);
    assert forall|j: int, k: int|
        0 <= j < t.len() && 0 <= k < t.len() && j != k implies t[j] != t[k] by {
        let j0: int = if j < i { j } else { j + 1 };
        let k0: int = if k < i { k } else { k + 1 };
        assert(t[j] == s[j0] && t[k] == s[k0]);
    }
    assert forall|d: Cell| t.contains(d) <==> (s.contains(d) && d != s[i]) by {
        if t.contains(d) {
            let j = choose|j: int| 0 <= j < t.len() && t[j] == d;
            let j0: int = if j < i { j } else { j + 1 };
            assert(s[j0] == d);
        }
        if s.contains(d) && d != s[i] {
            let k = choose|k: int| 0 <= k < s.len() && s[k] == d;
            if k < i {
                assert(t[k] == d);
            } else {
                assert(t[k - 1] == d);
            }
        }
    }
    assert(t.to_set() =~= s.to_set().remove(s[i]));
}

} // verus!
