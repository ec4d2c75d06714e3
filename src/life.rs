//! Conway's Game of Life on an unbounded grid, and a window onto it.
//!
//! Rules of a step: a live cell with two or three live neighbours lives on,
//! a dead cell with exactly three live neighbours becomes alive, and every
//! other cell is dead afterwards.
use crate::text::string_of;
use vstd::std_specs::convert::FromSpec;
use vstd::prelude::*;

verus! {

broadcast use vstd::seq_lib::lemma_seq_contains_after_push;

/// A cell of the simulation.
#[derive(Debug, PartialEq, Eq, Structural, PartialOrd, Ord, Clone, Copy, Hash)]
pub struct SimCell {
    pub x: i32,
    pub y: i32,
}

/// Decimal digits of `n`, most significant first.
pub open spec fn decimal(n: nat) -> Seq<char>
    decreases n,
{
    if n < 10 {
        seq![digit_char(n)]
    } else {
        decimal(n / 10) + seq![digit_char(n % 10)]
    }
}

/// The character of decimal digit `d`.
pub open spec fn digit_char(d: nat) -> char {
    if d == 0 { '0' }
    else if d == 1 { '1' }
    else if d == 2 { '2' }
    else if d == 3 { '3' }
    else if d == 4 { '4' }
    else if d == 5 { '5' }
    else if d == 6 { '6' }
    else if d == 7 { '7' }
    else if d == 8 { '8' }
    else { '9' }
}

/// `v` in decimal, with a leading `-` when negative.
pub open spec fn int_text(v: int) -> Seq<char> {
    if v < 0 {
        seq!['-'] + decimal((-v) as nat)
    } else {
        decimal(v as nat)
    }
}

fn digit(d: u64) -> (c: char)
    requires
        d < 10,
    ensures
        c == digit_char(d as nat),
{
    if d == 0 { '0' }
    else if d == 1 { '1' }
    else if d == 2 { '2' }
    else if d == 3 { '3' }
    else if d == 4 { '4' }
    else if d == 5 { '5' }
    else if d == 6 { '6' }
    else if d == 7 { '7' }
    else if d == 8 { '8' }
    else { '9' }
}

fn push_decimal(out: &mut Vec<char>, n: u64)
    ensures
        final(out)@ == old(out)@ + decimal(n as nat),
    decreases n,
{
    if n >= 10 {
        push_decimal(out, n / 10);
    }
    out.push(digit(n % 10));
    proof {
        if n < 10 {
            assert(old(out)@ + decimal(n as nat) =~= old(out)@.push(digit_char(n as nat)));
        } else {
            assert(decimal(n as nat) == decimal((n / 10) as nat) + seq![digit_char((n % 10) as nat)]);
            assert(out@ =~= old(out)@ + decimal(n as nat));
        }
    }
}

fn push_int(out: &mut Vec<char>, v: i32)
    ensures
        final(out)@ == old(out)@ + int_text(v as int),
{
    if v < 0 {
        out.push('-');
        let magnitude = (0i64 - v as i64) as u64;
        push_decimal(out, magnitude);
        proof {
            assert(out@ =~= old(out)@ + int_text(v as int));
        }
    } else {
        push_decimal(out, v as u64);
    }
}

impl SimCell {
    /// A cell at `(x, y)`.
    pub fn new(x: i32, y: i32) -> (cell: Self)
        ensures
            cell.x == x,
            cell.y == y,
    {
        SimCell { x, y }
    }

    /// The cell as `(x,y)`.
    pub fn to_text(&self) -> (text: String)
        ensures
            text@ == seq!['('] + int_text(self.x as int) + seq![','] + int_text(self.y as int)
                + seq![')'],
    {
        let mut out: Vec<char> = Vec::new();
        out.push('(');
        push_int(&mut out, self.x);
        out.push(',');
        push_int(&mut out, self.y);
        out.push(')');
        proof {
            assert(out@ =~= seq!['('] + int_text(self.x as int) + seq![','] + int_text(self.y as int)
                + seq![')']);
        }
        string_of(&out)
    }
}

/// The cell is alive at `(x, y)`; positions outside the `i32` range never
/// are.
pub open spec fn alive_at(cells: Set<SimCell>, x: int, y: int) -> bool {
    &&& i32::MIN <= x <= i32::MAX
    &&& i32::MIN <= y <= i32::MAX
    &&& cells.contains(SimCell { x: x as i32, y: y as i32 })
}

/// `1` for `true`, `0` for `false`.
pub open spec fn one_if(b: bool) -> int {
    if b {
        1
    } else {
        0
    }
}

/// Number of live cells among the eight around `(x, y)`.
pub open spec fn live_neighbours(cells: Set<SimCell>, x: int, y: int) -> int {
    one_if(alive_at(cells, x - 1, y - 1)) + one_if(alive_at(cells, x - 1, y)) + one_if(
        alive_at(cells, x - 1, y + 1),
    ) + one_if(alive_at(cells, x, y - 1)) + one_if(alive_at(cells, x, y + 1)) + one_if(
        alive_at(cells, x + 1, y - 1),
    ) + one_if(alive_at(cells, x + 1, y)) + one_if(alive_at(cells, x + 1, y + 1))
}

/// The live cells after one step of the rules.
pub open spec fn next_generation(cells: Set<SimCell>) -> Set<SimCell> {
    Set::new(
        |c: SimCell|
            live_neighbours(cells, c.x as int, c.y as int) == 3 || (cells.contains(c)
                && live_neighbours(cells, c.x as int, c.y as int) == 2),
    )
}

/// All eight neighbours of the cell have `i32` coordinates.
pub open spec fn away_from_edge(c: SimCell) -> bool {
    &&& i32::MIN < c.x < i32::MAX
    &&& i32::MIN < c.y < i32::MAX
}

/// `c` lies in the 3 x 3 block centred on `q`.
pub open spec fn near(q: SimCell, c: SimCell) -> bool {
    &&& -1 <= c.x - q.x <= 1
    &&& -1 <= c.y - q.y <= 1
}

/// `c` is near one of the first `k` cells of `cells`.
pub open spec fn near_any(cells: Seq<SimCell>, k: int, c: SimCell) -> bool {
    exists|j: int| 0 <= j < k && #[trigger] near(cells[j], c)
}

fn contains(cells: &Vec<SimCell>, cell: &SimCell) -> (found: bool)
    ensures
        found == cells@.contains(*cell),
{
    let mut i: usize = 0;
    while i < cells.len()
        invariant
            i <= cells@.len(),
            forall|k: int| 0 <= k < i ==> cells@[k] != *cell,
        decreases cells@.len() - i,
    {
        if cells[i] == *cell {
            return true;
        }
        i += 1;
    }
    false
}

fn alive_at_exec(cells: &Vec<SimCell>, x: i64, y: i64) -> (alive: bool)
    ensures
        alive == alive_at(cells@.to_set(), x as int, y as int),
{
    if x < i32::MIN as i64 || x > i32::MAX as i64 || y < i32::MIN as i64 || y > i32::MAX as i64 {
        return false;
    }
    let cell = SimCell { x: x as i32, y: y as i32 };
    contains(cells, &cell)
}

fn neighbour_count(cells: &Vec<SimCell>, x: i32, y: i32) -> (n: u32)
    ensures
        n == live_neighbours(cells@.to_set(), x as int, y as int),
{
    let x = x as i64;
    let y = y as i64;
    let mut n: u32 = 0;
    if alive_at_exec(cells, x - 1, y - 1) {
        n += 1;
    }
    if alive_at_exec(cells, x - 1, y) {
        n += 1;
    }
    if alive_at_exec(cells, x - 1, y + 1) {
        n += 1;
    }
    if alive_at_exec(cells, x, y - 1) {
        n += 1;
    }
    if alive_at_exec(cells, x, y + 1) {
        n += 1;
    }
    if alive_at_exec(cells, x + 1, y - 1) {
        n += 1;
    }
    if alive_at_exec(cells, x + 1, y) {
        n += 1;
    }
    if alive_at_exec(cells, x + 1, y + 1) {
        n += 1;
    }
    n
}

/// Adds `cell` to `next` when it is alive in the generation after `cells`.
fn consider(cells: &Vec<SimCell>, next: &mut Vec<SimCell>, cell: SimCell)
    requires
        old(next)@.no_duplicates(),
    ensures
        final(next)@.no_duplicates(),
        final(next)@.to_set() == if next_generation(cells@.to_set()).contains(cell) {
            old(next)@.to_set().insert(cell)
        } else {
            old(next)@.to_set()
        },
{
    let n = neighbour_count(cells, cell.x, cell.y);
    let lives = n == 3 || (n == 2 && contains(cells, &cell));
    if lives && !contains(next, &cell) {
        next.push(cell);
        proof {
            assert(next@.to_set() =~= old(next)@.to_set().insert(cell));
        }
    } else {
        proof {
            assert(lives ==> old(next)@.contains(cell));
            assert(old(next)@.to_set() =~= if lives {
                old(next)@.to_set().insert(cell)
            } else {
                old(next)@.to_set()
            });
        }
    }
}

/// A live neighbour of `c` makes `c` near some cell of `cells`.
proof fn lemma_neighbour_is_near(cells: Seq<SimCell>, c: SimCell, dx: int, dy: int)
    requires
        -1 <= dx <= 1,
        -1 <= dy <= 1,
        alive_at(cells.to_set(), c.x + dx, c.y + dy),
    ensures
        near_any(cells, cells.len() as int, c),
{
    let q = SimCell { x: (c.x + dx) as i32, y: (c.y + dy) as i32 };
    assert(cells.contains(q));
    let j = choose|j: int| 0 <= j < cells.len() && cells[j] == q;
    assert(near(cells[j], c));
}

/// A cell of the next generation has a live neighbour.
proof fn lemma_next_is_near(cells: Seq<SimCell>, c: SimCell)
    requires
        next_generation(cells.to_set()).contains(c),
    ensures
        near_any(cells, cells.len() as int, c),
{
    let s = cells.to_set();
    let (x, y) = (c.x as int, c.y as int);
    if alive_at(s, x - 1, y - 1) {
        lemma_neighbour_is_near(cells, c, -1, -1);
    } else if alive_at(s, x - 1, y) {
        lemma_neighbour_is_near(cells, c, -1, 0);
    } else if alive_at(s, x - 1, y + 1) {
        lemma_neighbour_is_near(cells, c, -1, 1);
    } else if alive_at(s, x, y - 1) {
        lemma_neighbour_is_near(cells, c, 0, -1);
    } else if alive_at(s, x, y + 1) {
        lemma_neighbour_is_near(cells, c, 0, 1);
    } else if alive_at(s, x + 1, y - 1) {
        lemma_neighbour_is_near(cells, c, 1, -1);
    } else if alive_at(s, x + 1, y) {
        lemma_neighbour_is_near(cells, c, 1, 0);
    } else {
        lemma_neighbour_is_near(cells, c, 1, 1);
    }
}

/// Adds to `next` the cells of the 3 x 3 block around `q` that are alive in
/// the generation after `cells`.
#[verifier::rlimit(30)]
fn consider_block(cells: &Vec<SimCell>, next: &mut Vec<SimCell>, q: SimCell)
    requires
        old(next)@.no_duplicates(),
        away_from_edge(q),
    ensures
        final(next)@.no_duplicates(),
        forall|c: SimCell|
            #[trigger] final(next)@.to_set().contains(c) <==> (old(next)@.to_set().contains(c) || (
            next_generation(cells@.to_set()).contains(c) && near(q, c))),
{
    consider(cells, next, SimCell { x: q.x - 1, y: q.y - 1 });
    consider(cells, next, SimCell { x: q.x - 1, y: q.y });
    consider(cells, next, SimCell { x: q.x - 1, y: q.y + 1 });
    consider(cells, next, SimCell { x: q.x, y: q.y - 1 });
    consider(cells, next, SimCell { x: q.x, y: q.y });
    consider(cells, next, SimCell { x: q.x, y: q.y + 1 });
    consider(cells, next, SimCell { x: q.x + 1, y: q.y - 1 });
    consider(cells, next, SimCell { x: q.x + 1, y: q.y });
    consider(cells, next, SimCell { x: q.x + 1, y: q.y + 1 });
    proof {
        assert forall|c: SimCell| near(q, c) implies c == SimCell { x: (q.x + (c.x - q.x)) as i32, y: (q.y + (c.y - q.y)) as i32 } by {}
    }
}

/// An unbounded grid of cells that follows the rules of the Game of Life.
pub struct Environment {
    living_cells: Vec<SimCell>,
}

impl View for Environment {
    type V = Set<SimCell>;

    /// The live cells.
    closed spec fn view(&self) -> Set<SimCell> {
        self.living_cells@.to_set()
    }
}

impl Environment {
    #[verifier::type_invariant]
    spec fn listed_once(&self) -> bool {
        self.living_cells@.no_duplicates()
    }

    /// An environment without live cells.
    pub fn new() -> (env: Self)
        ensures
            env@ == Set::<SimCell>::empty(),
    {
        let env = Environment { living_cells: Vec::new() };
        proof {
            assert(env@ =~= Set::<SimCell>::empty());
        }
        env
    }

    /// Whether `cell` is alive.
    pub fn get_cell(&self, cell: &SimCell) -> (alive: bool)
        ensures
            alive == self@.contains(*cell),
    {
        contains(&self.living_cells, cell)
    }

    /// Number of live cells.
    pub fn get_living_count(&self) -> (n: usize)
        ensures
            self@.finite(),
            n == self@.len(),
    {
        proof {
            use_type_invariant(self);
            self.living_cells@.unique_seq_to_set();
        }
        self.living_cells.len()
    }

    /// Switches `cell` between alive and dead; returns whether it is alive
    /// now.
    pub fn toggle_cell(&mut self, cell: &SimCell) -> (alive: bool)
        ensures
            alive == !old(self)@.contains(*cell),
            final(self)@ == if alive {
                old(self)@.insert(*cell)
            } else {
                old(self)@.remove(*cell)
            },
    {
        proof {
            use_type_invariant(&*self);
        }
        let mut cells: Vec<SimCell> = Vec::new();
        std::mem::swap(&mut cells, &mut self.living_cells);
        let ghost start = cells@;
        assert(start.no_duplicates());
        assert(old(self)@ == start.to_set());
        let mut i: usize = 0;
        while i < cells.len()
            invariant
                cells@ == start,
                start.no_duplicates(),
                old(self)@ == start.to_set(),
                i <= cells@.len(),
                forall|k: int| 0 <= k < i ==> cells@[k] != *cell,
            decreases cells@.len() - i,
        {
            if cells[i] == *cell {
                cells.remove(i);
                proof {
                    let ghost j = i as int;
                    assert(cells@.len() == start.len() - 1);
                    assert forall|k: int| 0 <= k < cells@.len() implies #[trigger] cells@[k] == if k
                        < j {
                        start[k]
                    } else {
                        start[k + 1]
                    } by {}
                    assert forall|a: int, b: int|
                        0 <= a < cells@.len() && 0 <= b < cells@.len() && a != b implies #[trigger] cells@[a]
                        != #[trigger] cells@[b] by {
                        let a2 = if a < j {
                            a
                        } else {
                            a + 1
                        };
                        let b2 = if b < j {
                            b
                        } else {
                            b + 1
                        };
                        assert(start[a2] != start[b2]);
                    }
                    assert forall|c: SimCell| cells@.contains(c) <==> start.to_set().remove(
                        *cell,
                    ).contains(c) by {
                        if start.contains(c) && c != *cell {
                            let k = choose|k: int| 0 <= k < start.len() && start[k] == c;
                            assert(k != j);
                            if k < j {
                                assert(cells@[k] == c);
                            } else {
                                assert(cells@[k - 1] == c);
                            }
                        }
                        if cells@.contains(c) {
                            let k = choose|k: int| 0 <= k < cells@.len() && cells@[k] == c;
                            if k >= j {
                                assert(start[k + 1] == c);
                                assert(start[j] == *cell);
                            } else {
                                assert(start[k] == c);
                            }
                        }
                    }
                    assert(cells@.to_set() =~= start.to_set().remove(*cell));
                    assert(start[j] == *cell);
                    assert(start.contains(*cell));
                }
                self.living_cells = cells;
                return false;
            }
            i += 1;
        }
        cells.push(*cell);
        proof {
            assert(cells@.to_set() =~= start.to_set().insert(*cell));
        }
        self.living_cells = cells;
        true
    }

    /// Makes every cell of `cells` alive.
    pub fn set_living(&mut self, cells: &[SimCell])
        ensures
            final(self)@ == old(self)@.union(cells@.to_set()),
    {
        proof {
            use_type_invariant(&*self);
        }
        let mut living: Vec<SimCell> = Vec::new();
        std::mem::swap(&mut living, &mut self.living_cells);
        let ghost start = living@.to_set();
        let mut i: usize = 0;
        while i < cells.len()
            invariant
                i <= cells@.len(),
                living@.no_duplicates(),
                living@.to_set() == start.union(cells@.take(i as int).to_set()),
            decreases cells@.len() - i,
        {
            let cell = cells[i];
            let ghost before = living@.to_set();
            if !contains(&living, &cell) {
                living.push(cell);
            }
            assert(living@.to_set() =~= before.insert(cell));
            proof {
                assert(cells@.take(i + 1) =~= cells@.take(i as int).push(cell));
                assert(cells@.take(i + 1).to_set() =~= cells@.take(i as int).to_set().insert(cell));
                assert(living@.to_set() =~= start.union(cells@.take(i + 1).to_set()));
            }
            i += 1;
        }
        proof {
            assert(cells@.take(i as int) =~= cells@);
        }
        self.living_cells = living;
    }

    /// One step of the rules.
    pub fn simulate(&mut self)
        requires
            forall|c: SimCell| old(self)@.contains(c) ==> away_from_edge(c),
        ensures
            final(self)@ == next_generation(old(self)@),
    {
        let ghost now = self.living_cells@;
        let mut next: Vec<SimCell> = Vec::new();
        let n = self.living_cells.len();
        let mut i: usize = 0;
        while i < n
            invariant
                n == now.len(),
                self.living_cells@ == now,
                forall|c: SimCell| old(self)@.contains(c) ==> away_from_edge(c),
                old(self)@ == now.to_set(),
                i <= n,
                next@.no_duplicates(),
                forall|c: SimCell|
                    #[trigger] next@.to_set().contains(c) <==> (next_generation(now.to_set()).contains(c)
                        && near_any(now, i as int, c)),
            decreases n - i,
        {
            let q = self.living_cells[i];
            assert(now[i as int] == q);
            assert(now.contains(q));
            assert(now.to_set().contains(q));
            assert(old(self)@.contains(q));
            assert(away_from_edge(q));
            consider_block(&self.living_cells, &mut next, q);
            proof {
                assert forall|c: SimCell|
                    #[trigger] next@.to_set().contains(c) <==> (next_generation(now.to_set()).contains(c)
                        && near_any(now, i + 1, c)) by {
                    if near_any(now, i + 1, c) && !near_any(now, i as int, c) {
                        let j = choose|j: int| 0 <= j < i + 1 && #[trigger] near(now[j], c);
                        assert(j == i);
                    }
                    if near(q, c) {
                        assert(near_any(now, i + 1, c));
                    }
                    if near_any(now, i as int, c) {
                        let j = choose|j: int| 0 <= j < i && #[trigger] near(now[j], c);
                        assert(near_any(now, i + 1, c));
                    }
                }
            }
            i += 1;
        }
        proof {
            assert forall|c: SimCell| next_generation(now.to_set()).contains(c) implies #[trigger] next@.to_set().contains(c) by {
                lemma_next_is_near(now, c);
            }
            assert(next@.to_set() =~= next_generation(old(self)@));
        }
        self.living_cells = next;
    }
}

impl Environment {
    /// Draws the live cells inside the window of `viewport` into its buffer,
    /// after clearing it.
    pub fn fill_viewport(&self, viewport: &mut Viewport)
        requires
            old(viewport).wf(),
        ensures
            final(viewport).wf(),
            final(viewport).spec_x() == old(viewport).spec_x(),
            final(viewport).spec_y() == old(viewport).spec_y(),
            final(viewport).spec_width() == old(viewport).spec_width(),
            final(viewport).spec_height() == old(viewport).spec_height(),
            final(viewport)@.len() == old(viewport)@.len(),
            forall|k: int|
                0 <= k < final(viewport)@.len() ==> #[trigger] final(viewport)@[k] == painted(
                    self@,
                    old(viewport).spec_x(),
                    old(viewport).spec_y(),
                    old(viewport).spec_width(),
                    old(viewport).spec_height(),
                    k,
                ),
    {
        viewport.clear();
        let ghost left = viewport.spec_x();
        let ghost top = viewport.spec_y();
        let ghost w = viewport.spec_width();
        let ghost h = viewport.spec_height();
        let ghost cells = self.living_cells@;
        let mut i: usize = 0;
        while i < self.living_cells.len()
            invariant
                cells == self.living_cells@,
                i <= cells.len(),
                viewport.wf(),
                viewport.spec_x() == left,
                viewport.spec_y() == top,
                viewport.spec_width() == w,
                viewport.spec_height() == h,
                viewport@.len() == old(viewport)@.len(),
                forall|k: int|
                    0 <= k < viewport@.len() ==> #[trigger] viewport@[k] == exists|j: int|
                        0 <= j < i && #[trigger] marks(cells[j], left, top, w, h, k),
            decreases cells.len() - i,
        {
            let c = self.living_cells[i];
            if viewport.in_viewport(c.x, c.y) {
                let ghost before = viewport@;
                viewport.set_living(c.x, c.y);
                proof {
                    assert forall|k: int| 0 <= k < viewport@.len() implies #[trigger] viewport@[k] == exists|j: int|
                        0 <= j < i + 1 && #[trigger] marks(cells[j], left, top, w, h, k) by {
                        if marks(c, left, top, w, h, k) {
                            assert(marks(cells[i as int], left, top, w, h, k));
                        }
                        if exists|j: int| 0 <= j < i + 1 && #[trigger] marks(cells[j], left, top, w, h, k) {
                            let j = choose|j: int| 0 <= j < i + 1 && #[trigger] marks(cells[j], left, top, w, h, k);
                            if j < i {
                                assert(exists|j: int| 0 <= j < i && #[trigger] marks(cells[j], left, top, w, h, k));
                            }
                        }
                        if exists|j: int| 0 <= j < i && #[trigger] marks(cells[j], left, top, w, h, k) {
                            let j = choose|j: int| 0 <= j < i && #[trigger] marks(cells[j], left, top, w, h, k);
                            assert(0 <= j < i + 1 && marks(cells[j], left, top, w, h, k));
                        }
                    }
                }
            } else {
                proof {
                    assert forall|k: int| 0 <= k < viewport@.len() implies #[trigger] viewport@[k] == exists|j: int|
                        0 <= j < i + 1 && #[trigger] marks(cells[j], left, top, w, h, k) by {
                        assert(!marks(cells[i as int], left, top, w, h, k));
                        if exists|j: int| 0 <= j < i + 1 && #[trigger] marks(cells[j], left, top, w, h, k) {
                            let j = choose|j: int| 0 <= j < i + 1 && #[trigger] marks(cells[j], left, top, w, h, k);
                            assert(j < i);
                        }
                        if exists|j: int| 0 <= j < i && #[trigger] marks(cells[j], left, top, w, h, k) {
                            let j = choose|j: int| 0 <= j < i && #[trigger] marks(cells[j], left, top, w, h, k);
                            assert(0 <= j < i + 1 && marks(cells[j], left, top, w, h, k));
                        }
                    }
                }
            }
            i += 1;
        }
        proof {
            assert forall|k: int| 0 <= k < viewport@.len() implies #[trigger] viewport@[k] == painted(
                self@, left, top, w, h, k) by {
                if viewport@[k] {
                    let j = choose|j: int| 0 <= j < i && #[trigger] marks(cells[j], left, top, w, h, k);
                    assert(cells.contains(cells[j]));
                    assert(self@.contains(cells[j]));
                }
                if painted(self@, left, top, w, h, k) {
                    let c = choose|c: SimCell| self@.contains(c) && #[trigger] marks(c, left, top, w, h, k);
                    assert(cells.contains(c));
                    let j = choose|j: int| 0 <= j < cells.len() && cells[j] == c;
                    assert(marks(cells[j], left, top, w, h, k));
                }
            }
        }
    }
}

impl Default for Environment {
    fn default() -> (env: Self)
        ensures
            env@ == Set::<SimCell>::empty(),
    {
        Environment::new()
    }
}

/// Slot of the buffer that `set_living(x, y)` writes: the column offset
/// `x - left` counts whole buffer lines and the row offset `top - y` counts
/// single slots.
pub open spec fn slot_of(left: int, top: int, width: int, x: int, y: int) -> int {
    (x - left) * width + (top - y)
}

/// Cell `c` lies inside the window and marks slot `k`.
pub open spec fn marks(c: SimCell, left: int, top: int, width: int, height: int, k: int) -> bool {
    &&& left <= c.x < left + width
    &&& top - height < c.y <= top
    &&& slot_of(left, top, width, c.x as int, c.y as int) == k
}

/// Some cell of `cells` inside the window marks slot `k`.
pub open spec fn painted(cells: Set<SimCell>, left: int, top: int, width: int, height: int, k: int) -> bool {
    exists|c: SimCell| cells.contains(c) && #[trigger] marks(c, left, top, width, height, k)
}

/// The `(x, y)` pairs that `get_points` reports for the first `k` slots:
/// `(slot % width + left, slot / width - top)` for each living slot.
pub open spec fn points_upto(data: Seq<bool>, left: int, top: int, width: int, k: int) -> Seq<(int, int)>
    decreases k,
{
    if k <= 0 {
        Seq::empty()
    } else if data[k - 1] {
        points_upto(data, left, top, width, k - 1).push(((k - 1) % width + left, (k - 1) / width - top))
    } else {
        points_upto(data, left, top, width, k - 1)
    }
}

/// Text of the first `k` slots: `x` for living, a space for dead, a line
/// break before each new line of `width` slots.
pub open spec fn buffer_text(data: Seq<bool>, width: int, k: int) -> Seq<char>
    decreases k,
{
    if k <= 0 {
        Seq::empty()
    } else {
        let prefix = if k - 1 != 0 && (k - 1) % width == 0 {
            buffer_text(data, width, k - 1).push('\n')
        } else {
            buffer_text(data, width, k - 1)
        };
        prefix.push(if data[k - 1] { 'x' } else { ' ' })
    }
}

/// A `width` x `height` window onto the environment whose upper-left corner
/// is `(x, y)`; `x` grows to the right and `y` grows upwards.
pub struct Viewport {
    x: i32,
    width: usize,
    y: i32,
    height: usize,
    data: Vec<bool>,
}

impl View for Viewport {
    type V = Seq<bool>;

    /// The buffer of `width * height` slots, `true` for living.
    closed spec fn view(&self) -> Seq<bool> {
        self.data@
    }
}

impl Viewport {
    /// The window fits the `i32` plane and the buffer has one slot per cell.
    pub closed spec fn wf(&self) -> bool {
        &&& self.width >= 1
        &&& self.height >= 1
        &&& self.x + self.width <= i32::MAX
        &&& self.y - self.height >= i32::MIN
        &&& self.data@.len() == self.width * self.height
    }

    /// Left edge of the window.
    pub closed spec fn spec_x(&self) -> int {
        self.x as int
    }

    /// Top edge of the window.
    pub closed spec fn spec_y(&self) -> int {
        self.y as int
    }

    /// Width of the window.
    pub closed spec fn spec_width(&self) -> int {
        self.width as int
    }

    /// Height of the window.
    pub closed spec fn spec_height(&self) -> int {
        self.height as int
    }

    /// `(x, y)` lies inside the window.
    pub open spec fn contains_point(&self, x: int, y: int) -> bool {
        &&& self.spec_x() <= x < self.spec_x() + self.spec_width()
        &&& self.spec_y() - self.spec_height() < y <= self.spec_y()
    }

    /// A window with every cell dead.
    pub fn new(x: i32, y: i32, width: usize, height: usize) -> (viewport: Self)
        requires
            width != 0,
            height != 0,
            x + width <= i32::MAX,
            y - height >= i32::MIN,
            width * height <= usize::MAX,
        ensures
            viewport.spec_x() == x,
            viewport.spec_y() == y,
            viewport.spec_width() == width,
            viewport.spec_height() == height,
            viewport@ == Seq::new((width * height) as nat, |k: int| false),
            viewport.wf(),
    {
        let size = width * height;
        let data = vec![false; size];
        let viewport = Viewport { x, width, y, height, data };
        proof {
            assert(viewport@ =~= Seq::new((width * height) as nat, |k: int| false));
        }
        viewport
    }

    /// The `(x, y)` pairs of the living slots, in slot order: slot `k` gives
    /// `(k % width + x, k / width - y)`, each converted with `T::from`.
    pub fn get_points<T: From<i32>>(&self) -> (points: Vec<(T, T)>)
        requires
            self.wf(),
        ensures
            points@.len() == points_upto(
                self@,
                self.spec_x(),
                self.spec_y(),
                self.spec_width(),
                self@.len() as int,
            ).len(),
            T::obeys_from_spec() ==> forall|k: int|
                0 <= k < points@.len() ==> #[trigger] points@[k] == (
                    T::from_spec(
                        points_upto(
                            self@,
                            self.spec_x(),
                            self.spec_y(),
                            self.spec_width(),
                            self@.len() as int,
                        )[k].0 as i32,
                    ),
                    T::from_spec(
                        points_upto(
                            self@,
                            self.spec_x(),
                            self.spec_y(),
                            self.spec_width(),
                            self@.len() as int,
                        )[k].1 as i32,
                    ),
                ),
    {
        let ghost left = self.x as int;
        let ghost top = self.y as int;
        let ghost w = self.width as int;
        let mut points: Vec<(T, T)> = Vec::new();
        let mut index: usize = 0;
        while index < self.data.len()
            invariant
                index <= self.data@.len(),
                self.wf(),
                left == self.x,
                top == self.y,
                w == self.width,
                points@.len() == points_upto(self.data@, left, top, w, index as int).len(),
                forall|k: int| #![trigger points@[k]]
                    0 <= k < points@.len() ==> (T::obeys_from_spec() ==> points@[k] == (
                        T::from_spec(points_upto(self.data@, left, top, w, index as int)[k].0 as i32),
                        T::from_spec(points_upto(self.data@, left, top, w, index as int)[k].1 as i32),
                    )),
                forall|k: int|
                    0 <= k < points_upto(self.data@, left, top, w, index as int).len() ==> {
                        let p = #[trigger] points_upto(self.data@, left, top, w, index as int)[k];
                        i32::MIN <= p.0 <= i32::MAX && i32::MIN <= p.1 <= i32::MAX
                    },
            decreases self.data@.len() - index,
        {
            if self.data[index] {
                proof {
                    assert(index / self.width < self.height) by (nonlinear_arith)
                        requires
                            index < self.width * self.height,
                            self.width >= 1,
                    ;
                    assert(index % self.width < self.width) by (nonlinear_arith)
                        requires
                            self.width >= 1,
                    ;
                }
                let column = (index % self.width) as i64 + self.x as i64;
                let row = (index / self.width) as i64 - self.y as i64;
                let px = T::from(column as i32);
                let py = T::from(row as i32);
                points.push((px, py));
            }
            index += 1;
        }
        points
    }

    /// Marks every slot as dead.
    pub fn clear(&mut self)
        requires
            old(self).wf(),
        ensures
            final(self).wf(),
            final(self)@ == Seq::new(old(self)@.len(), |k: int| false),
            final(self).spec_x() == old(self).spec_x(),
            final(self).spec_y() == old(self).spec_y(),
            final(self).spec_width() == old(self).spec_width(),
            final(self).spec_height() == old(self).spec_height(),
    {
        let n = self.data.len();
        let mut i: usize = 0;
        while i < n
            invariant
                n == self.data@.len(),
                i <= n,
                self.x == old(self).x,
                self.y == old(self).y,
                self.width == old(self).width,
                self.height == old(self).height,
                forall|k: int| 0 <= k < i ==> #[trigger] self.data@[k] == false,
            decreases n - i,
        {
            self.data.set(i, false);
            i += 1;
        }
        proof {
            assert(self.data@ =~= Seq::new(old(self)@.len(), |k: int| false));
        }
    }

    /// Whether `(x, y)` lies inside the window.
    pub fn in_viewport(&self, x: i32, y: i32) -> (inside: bool)
        requires
            self.wf(),
        ensures
            inside == self.contains_point(x as int, y as int),
    {
        x >= self.x && x < self.right() && y <= self.y && y > self.bottom()
    }

    /// Marks `(x, y)` as living, in the slot that [`slot_of`] gives; a slot
    /// past the end of the buffer is left alone.
    pub fn set_living(&mut self, x: i32, y: i32)
        requires
            old(self).wf(),
            old(self).contains_point(x as int, y as int),
        ensures
            final(self).wf(),
            final(self)@ == if slot_of(
                old(self).spec_x(),
                old(self).spec_y(),
                old(self).spec_width(),
                x as int,
                y as int,
            ) < old(self)@.len() {
                old(self)@.update(
                    slot_of(
                        old(self).spec_x(),
                        old(self).spec_y(),
                        old(self).spec_width(),
                        x as int,
                        y as int,
                    ),
                    true,
                )
            } else {
                old(self)@
            },
            final(self).spec_x() == old(self).spec_x(),
            final(self).spec_y() == old(self).spec_y(),
            final(self).spec_width() == old(self).spec_width(),
            final(self).spec_height() == old(self).spec_height(),
    {
        let row = (x as i64 - self.x as i64) as usize;
        let column = (self.y as i64 - y as i64) as usize;
        let ghost slot = slot_of(self.x as int, self.y as int, self.width as int, x as int, y as int);
        assert(row == x - self.x && column == self.y - y);
        assert(slot == row * self.width + column);
        let len = self.data.len();
        match row.checked_mul(self.width) {
            Some(start) => {
                match start.checked_add(column) {
                    Some(index) => {
                        assert(index == slot);
                        if index < len {
                            self.data.set(index, true);
                        }
                    },
                    None => {
                        assert(slot > usize::MAX);
                    },
                }
            },
            None => {
                assert(row * self.width + column > usize::MAX) by (nonlinear_arith)
                    requires
                        row * self.width > usize::MAX,
                        column >= 0,
                ;
            },
        }
    }

    /// Left edge of the window.
    pub fn x(&self) -> (x: i32)
        ensures
            x == self.spec_x(),
    {
        self.x
    }

    /// Width of the window.
    pub fn width(&self) -> (width: usize)
        ensures
            width == self.spec_width(),
    {
        self.width
    }

    /// First column right of the window: `x + width`.
    pub fn right(&self) -> (right: i32)
        requires
            self.wf(),
        ensures
            right == self.spec_x() + self.spec_width(),
    {
        (self.x as i64 + self.width as i64) as i32
    }

    /// Top edge of the window.
    pub fn y(&self) -> (y: i32)
        ensures
            y == self.spec_y(),
    {
        self.y
    }

    /// Height of the window.
    pub fn height(&self) -> (height: usize)
        ensures
            height == self.spec_height(),
    {
        self.height
    }

    /// First row below the window: `y - height`.
    pub fn bottom(&self) -> (bottom: i32)
        requires
            self.wf(),
        ensures
            bottom == self.spec_y() - self.spec_height(),
    {
        (self.y as i64 - self.height as i64) as i32
    }

    /// The buffer as text: one line per `width` slots, `x` for living and a
    /// space for dead.
    pub fn to_text(&self) -> (text: String)
        requires
            self.wf(),
        ensures
            text@ == buffer_text(self@, self.spec_width(), self@.len() as int),
    {
        let mut out: Vec<char> = Vec::new();
        let mut i: usize = 0;
        while i < self.data.len()
            invariant
                i <= self.data@.len(),
                self.width >= 1,
                out@ == buffer_text(self.data@, self.width as int, i as int),
            decreases self.data@.len() - i,
        {
            if i != 0 && i % self.width == 0 {
                out.push('\n');
            }
            if self.data[i] {
                out.push('x');
            } else {
                out.push(' ');
            }
            i += 1;
        }
        string_of(&out)
    }
}

} // verus!
