use vstd::prelude::*;

use crate::grid::{
    Cell, Grid, dist2, empty_count, food_count, has_empty, snake_count, lemma_cell_partition,
    lemma_count_update, lemma_count_zero,
};

verus! {

use vstd::set_lib::lemma_len_subset;
use vstd::set_lib::lemma_int_range;
use vstd::set_lib::set_int_range;

/// A board coordinate: `x` grows to the right, `y` grows downward.
#[derive(Debug, Clone, Copy, PartialEq, Eq, Structural)]
pub struct Pos {
    pub x: usize,
    pub y: usize,
}

/// The direction the snake moves in on the next step.
#[derive(Debug, Clone, Copy, PartialEq, Eq, Structural)]
pub enum Direction {
    Up,
    Down,
    Left,
    Right,
}

/// The direction that would reverse `d`.
pub open spec fn opposite(d: Direction) -> Direction {
    match d {
        Direction::Up => Direction::Down,
        Direction::Down => Direction::Up,
        Direction::Left => Direction::Right,
        Direction::Right => Direction::Left,
    }
}

/// The simulation: a grid owned exclusively by the snake, the chain
/// endpoints, the current direction, and the scoring state. The ghost
/// `body` sequence lists the occupied coordinates from tail to head and
/// ties the forward links embedded in the grid to one coherent chain.
pub struct Snake {
    pub field: Grid,
    pub dir: Direction,
    pub head: Pos,
    pub tail: Pos,
    pub dead: bool,
    pub score: u64,
    pub best: u64,
    pub just_ate: bool,
    pub start_dir: Direction,
    pub start_pos: Pos,
    pub num_food: u32,
    pub closest_food: Option<Pos>,
    pub body: Ghost<Seq<Pos>>,
}

impl Snake {
    /// The ghost body is a duplicate-free chain of in-bounds coordinates
    /// from `tail` to `head`; each cell on it links forward to its
    /// successor, the head cell carries no link, and the snake occupies
    /// exactly the cells of the chain.
    pub open spec fn chain_ok(self) -> bool {
        grid_chain(self.field, self.body@, self.head, self.tail)
    }

    /// The cached closest-food coordinate agrees with the grid.
    pub open spec fn closest_ok(self) -> bool {
        match self.closest_food {
            None => !self.field.has_food(),
            Some(p) => self.field.is_closest_food(self.head, p),
        }
    }

    /// The simulation invariant. While the snake is alive the grid chain is
    /// coherent and the score counts the chain's growth since the round
    /// began; after death only the round-independent parts are maintained.
    pub open spec fn wf(self) -> bool {
        &&& self.field.wf()
        &&& self.field.in_bounds(self.start_pos)
        &&& self.score <= self.best
        &&& self.closest_ok()
        &&& !self.dead ==> self.chain_ok()
        &&& !self.dead ==> self.body@.len() == self.score + 1
    }

    pub fn score(&self) -> (r: u64)
        ensures
            r == self.score,
    {
        self.score
    }

    pub fn best(&self) -> (r: u64)
        ensures
            r == self.best,
    {
        self.best
    }

    pub fn dead(&self) -> (r: bool)
        ensures
            r == self.dead,
    {
        self.dead
    }

    /// Changes the movement direction. With `check` set (in-round use) a
    /// reversal into the snake's own neck is ignored; without it (the
    /// pre-round selection screen) the direction is always taken.
    pub fn set_dir(&mut self, dir: Direction, check: bool)
        ensures
            final(self).dir == (if check && old(self).dir == opposite(dir) {
                old(self).dir
            } else {
                dir
            }),
            *final(self) == (Snake { dir: final(self).dir, ..*old(self) }),
    {
        if check {
            match dir {
                Direction::Up => {
                    if !matches!(self.dir, Direction::Down) {
                        self.dir = dir;
                    }
                },
                Direction::Down => {
                    if !matches!(self.dir, Direction::Up) {
                        self.dir = dir;
                    }
                },
                Direction::Left => {
                    if !matches!(self.dir, Direction::Right) {
                        self.dir = dir;
                    }
                },
                Direction::Right => {
                    if !matches!(self.dir, Direction::Left) {
                        self.dir = dir;
                    }
                },
            }
        } else {
            self.dir = dir;
        }
    }
}

/// Whether one step from `p` in direction `d` stays on the board.
pub open spec fn step_in_bounds(g: Grid, p: Pos, d: Direction) -> bool {
    match d {
        Direction::Up => p.y >= 1,
        Direction::Down => p.y + 1 < g.height,
        Direction::Left => p.x >= 1,
        Direction::Right => p.x + 1 < g.width,
    }
}

/// The coordinate one cell from `p` in direction `d` (meaningful only when
/// the step stays on the board).
pub open spec fn step_target(p: Pos, d: Direction) -> Pos {
    match d {
        Direction::Up => Pos { x: p.x, y: (p.y - 1) as usize },
        Direction::Down => Pos { x: p.x, y: (p.y + 1) as usize },
        Direction::Left => Pos { x: (p.x - 1) as usize, y: p.y },
        Direction::Right => Pos { x: (p.x + 1) as usize, y: p.y },
    }
}

/// The character a cell is drawn with: food is `*`, the head `@`, a body
/// segment `#`, an empty cell a blank.
pub open spec fn spec_cell_char(c: Cell) -> char {
    match c {
        Cell::Food => '*',
        Cell::Snake(link) => if link is Some {
            '#'
        } else {
            '@'
        },
        Cell::Nothing => ' ',
    }
}

/// Draws one cell.
pub fn cell_char(c: Cell) -> (r: char)
    ensures
        r == spec_cell_char(c),
{
    match c {
        Cell::Food => '*',
        Cell::Snake(Some(_)) => '#',
        Cell::Snake(None) => '@',
        Cell::Nothing => ' ',
    }
}

/// The body of the snake as the grid sees it: `b` runs from `tail` to
/// `head`, each cell on it links forward to its successor, the head cell
/// carries no link, and the snake occupies exactly the cells of `b`.
pub open spec fn grid_chain(f: Grid, b: Seq<Pos>, head: Pos, tail: Pos) -> bool {
    &&& b.len() >= 1
    &&& b[0] == tail
    &&& b[b.len() - 1] == head
    &&& b.no_duplicates()
    &&& forall|k: int| 0 <= k < b.len() ==> f.in_bounds(#[trigger] b[k])
    &&& forall|k: int| 0 <= k < b.len() - 1 ==> f.cell(#[trigger] b[k]) == Cell::Snake(Some(b[k + 1]))
    &&& f.cell(head) == Cell::Snake(None)
    &&& forall|p: Pos| f.in_bounds(p) ==> ((#[trigger] f.cell(p)) is Snake <==> b.contains(p))
}

/// After eating: pushing the target onto the old chain matches a grid in
/// which the old head now links to the target, the target is the new
/// head cell, and every other cell kept its kind up to a food placement
/// on an empty cell.
proof fn lemma_chain_after_eat(f0: Grid, f3: Grid, b: Seq<Pos>, head: Pos, t: Pos)
    requires
        f0.wf(),
        f3.wf(),
        f3.width == f0.width,
        f3.height == f0.height,
        grid_chain(f0, b, head, b[0]),
        f0.in_bounds(t),
        !(f0.cell(t) is Snake),
        f3.cell(head) == Cell::Snake(Some(t)),
        f3.cell(t) == Cell::Snake(None),
        forall|p: Pos|
            f0.in_bounds(p) && p != head && p != t ==> (#[trigger] f3.cell(p)) == f0.cell(p) || (
            f0.cell(p) is Nothing && f3.cell(p) is Food),
    ensures
        b.push(t).no_duplicates(),
        forall|k: int| 0 <= k < b.push(t).len() ==> f3.in_bounds(#[trigger] b.push(t)[k]),
        forall|k: int|
            0 <= k < b.push(t).len() - 1 ==> f3.cell(#[trigger] b.push(t)[k]) == Cell::Snake(
                Some(b.push(t)[k + 1]),
            ),
        forall|p: Pos|
            f3.in_bounds(p) ==> ((#[trigger] f3.cell(p)) is Snake <==> b.push(t).contains(p)),
{
    let nb = b.push(t);
    assert(!b.contains(t));
    assert forall|i: int, j: int| 0 <= i < j < nb.len() implies nb[i] != nb[j] by {
        if j < b.len() {
        } else {
            assert(nb[j] == t);
            assert(b.contains(b[i]));
        }
    }
    assert forall|k: int| 0 <= k < nb.len() - 1 implies f3.cell(#[trigger] nb[k]) == Cell::Snake(
        Some(nb[k + 1]),
    ) by {
        if k < b.len() - 1 {
            assert(b.contains(b[k]));
            assert(b[k] != head);
            assert(b[k] != t);
            assert(f3.cell(b[k]) == f0.cell(b[k]));
        } else {
            assert(nb[k] == head);
        }
    }
    assert forall|p: Pos| f3.in_bounds(p) implies ((#[trigger] f3.cell(p)) is Snake
        <==> nb.contains(p)) by {
        lemma_push_contains(b, t, p);
        if p == head {
            assert(b.contains(head)) by {
                assert(b[b.len() - 1] == head);
            }
        } else if p == t {
        } else {
            assert(f3.cell(p) == f0.cell(p) || (f0.cell(p) is Nothing && f3.cell(p) is Food));
        }
    }
}

/// After a plain move: dropping the tail from the old chain and pushing
/// the target matches a grid in which the old head links to the target,
/// the target is the new head cell, the old tail cell was cleared and
/// every other cell kept its kind.
proof fn lemma_chain_after_move(f0: Grid, f3: Grid, b: Seq<Pos>, head: Pos, t: Pos)
    requires
        f0.wf(),
        f3.wf(),
        f3.width == f0.width,
        f3.height == f0.height,
        grid_chain(f0, b, head, b[0]),
        f0.in_bounds(t),
        f0.cell(t) is Nothing,
        b.len() >= 2 ==> f3.cell(head) == Cell::Snake(Some(t)),
        f3.cell(b[0]) == Cell::Nothing,
        f3.cell(t) == Cell::Snake(None),
        forall|p: Pos|
            f0.in_bounds(p) && p != head && p != t && p != b[0] ==> (#[trigger] f3.cell(p))
                == f0.cell(p),
    ensures
        b.drop_first().push(t).no_duplicates(),
        b.drop_first().push(t).len() == b.len(),
        forall|k: int|
            0 <= k < b.drop_first().push(t).len() ==> f3.in_bounds(
                #[trigger] b.drop_first().push(t)[k],
            ),
        forall|k: int|
            0 <= k < b.drop_first().push(t).len() - 1 ==> f3.cell(
                #[trigger] b.drop_first().push(t)[k],
            ) == Cell::Snake(Some(b.drop_first().push(t)[k + 1])),
        forall|p: Pos|
            f3.in_bounds(p) ==> ((#[trigger] f3.cell(p)) is Snake <==> b.drop_first().push(
                t,
            ).contains(p)),
{
    let d = b.drop_first();
    let nb = d.push(t);
    assert(!b.contains(t));
    assert(forall|k: int| 0 <= k < d.len() ==> #[trigger] d[k] == b[k + 1]);
    assert forall|i: int, j: int| 0 <= i < j < nb.len() implies nb[i] != nb[j] by {
        if j < d.len() {
            assert(nb[i] == b[i + 1] && nb[j] == b[j + 1]);
        } else {
            assert(nb[j] == t);
            assert(b.contains(b[i + 1]));
        }
    }
    assert forall|k: int| 0 <= k < nb.len() - 1 implies f3.cell(#[trigger] nb[k]) == Cell::Snake(
        Some(nb[k + 1]),
    ) by {
        if k < b.len() - 2 {
            assert(nb[k] == b[k + 1]);
            assert(nb[k + 1] == b[k + 2]);
            assert(b.contains(b[k + 1]));
            assert(b[k + 1] != head);
            assert(b[k + 1] != t);
            assert(b[k + 1] != b[0]);
            assert(f3.cell(b[k + 1]) == f0.cell(b[k + 1]));
        } else {
            assert(k == b.len() - 2);
            assert(nb[k] == b[b.len() - 1]);
            assert(nb[k + 1] == t);
        }
    }
    assert forall|p: Pos| f3.in_bounds(p) implies ((#[trigger] f3.cell(p)) is Snake
        <==> nb.contains(p)) by {
        lemma_push_contains(d, t, p);
        lemma_drop_first_contains(b, p);
        if p == t {
        } else if p == b[0] {
            assert(!nb.contains(p)) by {
                if d.contains(p) {
                    let k = choose|k: int| 1 <= k < b.len() && b[k] == p;
                    assert(b[k] == b[0]);
                }
            }
        } else if b.len() >= 2 && p == head {
            assert(d.contains(head)) by {
                assert(b[b.len() - 1] == head);
            }
        } else {
            assert(f3.cell(p) == f0.cell(p));
            assert(b.contains(p) <==> d.contains(p)) by {
                if b.contains(p) {
                    let k = choose|k: int| 0 <= k < b.len() && b[k] == p;
                    assert(k >= 1);
                }
            }
        }
    }
}

/// After the head moved onto an empty target and its old cell was linked
/// forward, the tail cell holds the link the tail will advance along.
#[verifier::spinoff_prover]
proof fn lemma_tail_link(f0: Grid, f1: Grid, f2: Grid, b: Seq<Pos>, oh: Pos, t: Pos)
    requires
        f0.wf(),
        grid_chain(f0, b, oh, b[0]),
        f0.in_bounds(t),
        t != oh,
        !(f0.cell(t) is Snake),
        forall|q: Pos|
            f0.in_bounds(q) ==> #[trigger] f1.cell(q) == (if q == oh {
                Cell::Snake(Some(t))
            } else {
                f0.cell(q)
            }),
        forall|q: Pos|
            f0.in_bounds(q) ==> #[trigger] f2.cell(q) == (if q == t {
                Cell::Snake(None)
            } else {
                f1.cell(q)
            }),
    ensures
        f0.in_bounds(b[0]),
        f2.cell(b[0]) == Cell::Snake(Some(if b.len() == 1 {
            t
        } else {
            b[1]
        })),
{
    assert(!b.contains(t));
    assert(b.contains(b[0]));
    assert(b[0] != t);
    if b.len() >= 2 {
        assert(b[0] != b[b.len() - 1]);
        assert(f0.cell(b[0]) == Cell::Snake(Some(b[1])));
    } else {
        assert(b[0] == oh);
    }
}

/// Collects the whole effect of an eating step on the grid: the two head
/// cell updates and the replacement food placement, giving the new counts
/// and the new chain.
#[verifier::spinoff_prover]
proof fn lemma_step_eat_state(
    f0: Grid,
    f1: Grid,
    f2: Grid,
    f3: Grid,
    b: Seq<Pos>,
    oh: Pos,
    t: Pos,
)
    requires
        f0.wf(),
        f1.wf(),
        f2.wf(),
        f3.wf(),
        grid_chain(f0, b, oh, b[0]),
        f0.in_bounds(t),
        f0.cell(t) is Food,
        t != oh,
        f1.width == f0.width,
        f1.height == f0.height,
        f1.cells@ == f0.cells@.update(f0.idx_of(oh), Cell::Snake(Some(t))),
        forall|q: Pos|
            f0.in_bounds(q) ==> #[trigger] f1.cell(q) == (if q == oh {
                Cell::Snake(Some(t))
            } else {
                f0.cell(q)
            }),
        f2.width == f0.width,
        f2.height == f0.height,
        f2.cells@ == f1.cells@.update(f1.idx_of(t), Cell::Snake(None)),
        forall|q: Pos|
            f0.in_bounds(q) ==> #[trigger] f2.cell(q) == (if q == t {
                Cell::Snake(None)
            } else {
                f1.cell(q)
            }),
        f3.width == f0.width,
        f3.height == f0.height,
        !has_empty(f2.cells@) ==> f3.cells@ == f2.cells@,
        has_empty(f2.cells@) ==> exists|j: int|
            0 <= j < f2.cells@.len() && f2.cells@[j] is Nothing && f3.cells@ == f2.cells@.update(
                j,
                Cell::Food,
            ),
    ensures
        snake_count(f3.cells@) == snake_count(f0.cells@) + 1,
        has_empty(f2.cells@) <==> has_empty(f0.cells@),
        has_empty(f0.cells@) ==> food_count(f3.cells@) == food_count(f0.cells@),
        !has_empty(f0.cells@) ==> food_count(f3.cells@) == food_count(f0.cells@) - 1,
        f3.cell(oh) == Cell::Snake(Some(t)),
        f3.cell(t) == Cell::Snake(None),
        grid_chain(f3, b.push(t), t, b[0]),
{
    f0.lemma_idx_in_range(oh);
    f0.lemma_idx_in_range(t);
    lemma_count_update(f0.cells@, |c: Cell| c is Snake, f0.idx_of(oh), Cell::Snake(Some(t)));
    lemma_count_update(f0.cells@, |c: Cell| c is Food, f0.idx_of(oh), Cell::Snake(Some(t)));
    lemma_count_update(f0.cells@, |c: Cell| c is Nothing, f0.idx_of(oh), Cell::Snake(Some(t)));
    lemma_count_update(f1.cells@, |c: Cell| c is Snake, f1.idx_of(t), Cell::Snake(None));
    lemma_count_update(f1.cells@, |c: Cell| c is Food, f1.idx_of(t), Cell::Snake(None));
    lemma_count_update(f1.cells@, |c: Cell| c is Nothing, f1.idx_of(t), Cell::Snake(None));
    assert(f1.cells@[f1.idx_of(t)] == f0.cells@[f0.idx_of(t)]);
    assert(snake_count(f2.cells@) == snake_count(f0.cells@) + 1);
    assert(food_count(f2.cells@) == food_count(f0.cells@) - 1);
    assert(empty_count(f2.cells@) == empty_count(f0.cells@));
    lemma_count_zero(f0.cells@, |c: Cell| c is Nothing);
    lemma_count_zero(f2.cells@, |c: Cell| c is Nothing);
    assert(has_empty(f2.cells@) <==> has_empty(f0.cells@));
    assert(f2.cell(oh) == Cell::Snake(Some(t)));
    assert(f2.cell(t) == Cell::Snake(None));
    if has_empty(f2.cells@) {
        let j = choose|j: int|
            0 <= j < f2.cells@.len() && f2.cells@[j] is Nothing && f3.cells@ == f2.cells@.update(
                j,
                Cell::Food,
            );
        lemma_count_update(f2.cells@, |c: Cell| c is Snake, j, Cell::Food);
        lemma_count_update(f2.cells@, |c: Cell| c is Food, j, Cell::Food);
        assert(f2.cells@[f2.idx_of(oh)] is Snake);
        assert(f2.cells@[f2.idx_of(t)] is Snake);
        assert(f3.cell(oh) == Cell::Snake(Some(t)));
        assert(f3.cell(t) == Cell::Snake(None));
    } else {
        assert(f3.cells@ == f2.cells@);
    }
    assert forall|p: Pos| f0.in_bounds(p) && p != oh && p != t implies (#[trigger] f3.cell(p))
        == f0.cell(p) || (f0.cell(p) is Nothing && f3.cell(p) is Food) by {
        f0.lemma_idx_in_range(p);
        assert(f2.cell(p) == f0.cell(p));
        if has_empty(f2.cells@) {
            let j = choose|j: int|
                0 <= j < f2.cells@.len() && f2.cells@[j] is Nothing && f3.cells@
                    == f2.cells@.update(j, Cell::Food);
            if f2.idx_of(p) == j {
                assert(f2.cell(p) is Nothing);
                assert(f3.cell(p) is Food);
            } else {
                assert(f3.cell(p) == f2.cell(p));
            }
        }
    }
    lemma_chain_after_eat(f0, f3, b, oh, t);
    assert(b.push(t)[0] == b[0]);
    assert(b.push(t)[b.push(t).len() - 1] == t);
}

/// Collects the whole effect of a plain move on the grid: the two head
/// cell updates and the cleared tail cell, giving unchanged counts and
/// the new chain.
#[verifier::spinoff_prover]
proof fn lemma_step_move_state(
    f0: Grid,
    f1: Grid,
    f2: Grid,
    f3: Grid,
    b: Seq<Pos>,
    oh: Pos,
    t: Pos,
)
    requires
        f0.wf(),
        f1.wf(),
        f2.wf(),
        f3.wf(),
        grid_chain(f0, b, oh, b[0]),
        f0.in_bounds(t),
        f0.cell(t) is Nothing,
        t != oh,
        f1.width == f0.width,
        f1.height == f0.height,
        f1.cells@ == f0.cells@.update(f0.idx_of(oh), Cell::Snake(Some(t))),
        forall|q: Pos|
            f0.in_bounds(q) ==> #[trigger] f1.cell(q) == (if q == oh {
                Cell::Snake(Some(t))
            } else {
                f0.cell(q)
            }),
        f2.width == f0.width,
        f2.height == f0.height,
        f2.cells@ == f1.cells@.update(f1.idx_of(t), Cell::Snake(None)),
        forall|q: Pos|
            f0.in_bounds(q) ==> #[trigger] f2.cell(q) == (if q == t {
                Cell::Snake(None)
            } else {
                f1.cell(q)
            }),
        f3.width == f0.width,
        f3.height == f0.height,
        f3.cells@ == f2.cells@.update(f2.idx_of(b[0]), Cell::Nothing),
        forall|q: Pos|
            f0.in_bounds(q) ==> #[trigger] f3.cell(q) == (if q == b[0] {
                Cell::Nothing
            } else {
                f2.cell(q)
            }),
    ensures
        snake_count(f3.cells@) == snake_count(f0.cells@),
        food_count(f3.cells@) == food_count(f0.cells@),
        b.drop_first().push(t).len() == b.len(),
        grid_chain(f3, b.drop_first().push(t), t, (if b.len() == 1 {
            t
        } else {
            b[1]
        })),
{
    f0.lemma_idx_in_range(oh);
    f0.lemma_idx_in_range(t);
    f0.lemma_idx_in_range(b[0]);
    assert(!b.contains(t));
    assert(b.contains(b[0]));
    assert(b[0] != t);
    lemma_count_update(f0.cells@, |c: Cell| c is Snake, f0.idx_of(oh), Cell::Snake(Some(t)));
    lemma_count_update(f0.cells@, |c: Cell| c is Food, f0.idx_of(oh), Cell::Snake(Some(t)));
    lemma_count_update(f1.cells@, |c: Cell| c is Snake, f1.idx_of(t), Cell::Snake(None));
    lemma_count_update(f1.cells@, |c: Cell| c is Food, f1.idx_of(t), Cell::Snake(None));
    lemma_count_update(f2.cells@, |c: Cell| c is Snake, f2.idx_of(b[0]), Cell::Nothing);
    lemma_count_update(f2.cells@, |c: Cell| c is Food, f2.idx_of(b[0]), Cell::Nothing);
    assert(f1.cells@[f1.idx_of(t)] == f0.cells@[f0.idx_of(t)]);
    assert(f2.cell(b[0]) is Snake);
    assert(f2.cells@[f2.idx_of(b[0])] is Snake);
    assert(snake_count(f3.cells@) == snake_count(f0.cells@));
    assert(food_count(f3.cells@) == food_count(f0.cells@));
    assert(f3.cell(b[0]) == Cell::Nothing);
    assert(f3.cell(t) == Cell::Snake(None));
    if b.len() >= 2 {
        assert(b[0] != b[b.len() - 1]);
        assert(f3.cell(oh) == Cell::Snake(Some(t)));
    }
    lemma_chain_after_move(f0, f3, b, oh, t);
    let nb = b.drop_first().push(t);
    assert(nb.len() == b.len());
    if b.len() >= 2 {
        assert(nb[0] == b.drop_first()[0]);
        assert(b.drop_first()[0] == b[1]);
    } else {
        assert(nb[0] == t);
    }
    assert(nb[nb.len() - 1] == t);
}

proof fn lemma_push_contains(s: Seq<Pos>, v: Pos, p: Pos)
    ensures
        s.push(v).contains(p) <==> (s.contains(p) || p == v),
{
    if s.push(v).contains(p) {
        let k = choose|k: int| 0 <= k < s.push(v).len() && s.push(v)[k] == p;
        if k < s.len() {
            assert(s[k] == p);
        }
    }
    if s.contains(p) {
        let k = choose|k: int| 0 <= k < s.len() && s[k] == p;
        assert(s.push(v)[k] == p);
    }
    if p == v {
        assert(s.push(v)[s.len() as int] == p);
    }
}

proof fn lemma_drop_first_contains(s: Seq<Pos>, p: Pos)
    requires
        s.len() >= 1,
    ensures
        s.drop_first().contains(p) <==> (exists|k: int| 1 <= k < s.len() && s[k] == p),
{
    if s.drop_first().contains(p) {
        let k = choose|k: int| 0 <= k < s.drop_first().len() && s.drop_first()[k] == p;
        assert(s[k + 1] == p);
    }
    if exists|k: int| 1 <= k < s.len() && s[k] == p {
        let k = choose|k: int| 1 <= k < s.len() && s[k] == p;
        assert(s.drop_first()[k - 1] == p);
    }
}

/// How many food cells initialisation actually places: the requested
/// number, capped at one less than the number of cells (the head keeps
/// its cell).
pub open spec fn capped_food(requested: int, area: int) -> int {
    if requested <= area - 1 {
        requested
    } else {
        area - 1
    }
}

/// Squared distances between in-bounds coordinates fit comfortably in
/// `u128`: both axis differences are below the dimensions, whose product
/// is at most `usize::MAX`.
proof fn lemma_dist2_bound(dx: int, dy: int, w: int, h: int)
    requires
        0 <= dx < w,
        0 <= dy < h,
        w * h <= usize::MAX,
    ensures
        dx * dx + dy * dy < u128::MAX,
{
    assert(dx * dx + dy * dy <= (dx + dy) * (dx + dy)) by (nonlinear_arith)
        requires
            0 <= dx,
            0 <= dy,
    ;
    assert(dx + dy <= w * h - 1) by (nonlinear_arith)
        requires
            0 <= dx < w,
            0 <= dy < h,
    ;
    assert((dx + dy) * (dx + dy) < u128::MAX) by (nonlinear_arith)
        requires
            0 <= dx + dy <= usize::MAX - 1,
            usize::MAX <= u64::MAX,
    ;
}

impl Snake {
    /// The squared Euclidean distance, computed in machine arithmetic.
    fn dist2_exec(a: Pos, b: Pos, g: &Grid) -> (d: u128)
        requires
            g.wf(),
            g.in_bounds(a),
            g.in_bounds(b),
        ensures
            d == dist2(a, b),
    {
        let dx: usize = if a.x >= b.x {
            a.x - b.x
        } else {
            b.x - a.x
        };
        let dy: usize = if a.y >= b.y {
            a.y - b.y
        } else {
            b.y - a.y
        };
        proof {
            assert(g.cells.len() == g.cells@.len());
            lemma_dist2_bound(dx as int, dy as int, g.width as int, g.height as int);
            assert((a.x - b.x) * (a.x - b.x) == dx * dx) by (nonlinear_arith)
                requires
                    dx == a.x - b.x || dx == b.x - a.x,
            ;
            assert((a.y - b.y) * (a.y - b.y) == dy * dy) by (nonlinear_arith)
                requires
                    dy == a.y - b.y || dy == b.y - a.y,
            ;
        }
        (dx as u128) * (dx as u128) + (dy as u128) * (dy as u128)
    }

    /// Scans the grid in row-major order for the food cell nearest to
    /// `head` (by Euclidean distance, ties resolved to the first cell in
    /// scan order); `None` exactly when the grid holds no food.
    pub fn get_closest_food(head: Pos, field: &Grid) -> (r: Option<Pos>)
        requires
            field.wf(),
            field.in_bounds(head),
        ensures
            match r {
                None => !field.has_food(),
                Some(p) => field.is_closest_food(head, p),
            },
    {
        let mut best: Option<Pos> = None;
        let mut best_d: u128 = 0;
        let n: usize = field.cells.len();
        let mut x: usize = 0;
        let mut y: usize = 0;
        let mut i: usize = 0;
        while i < n
            invariant
                field.wf(),
                field.in_bounds(head),
                n == field.cells@.len(),
                i <= n,
                x < field.width,
                y <= field.height,
                i == y * field.width + x,
                match best {
                    None => forall|q: Pos|
                        field.in_bounds(q) && field.idx_of(q) < i ==> !((#[trigger] field.cell(
                            q,
                        )) is Food),
                    Some(p) => {
                        &&& field.in_bounds(p)
                        &&& field.idx_of(p) < i
                        &&& field.cell(p) is Food
                        &&& best_d == dist2(head, p)
                        &&& forall|q: Pos|
                            field.in_bounds(q) && (#[trigger] field.cell(q)) is Food
                                && field.idx_of(q) < i ==> dist2(head, p) <= dist2(head, q)
                        &&& forall|q: Pos|
                            field.in_bounds(q) && (#[trigger] field.cell(q)) is Food
                                && field.idx_of(q) < field.idx_of(p) ==> dist2(head, q) > dist2(
                                head,
                                p,
                            )
                    },
                },
            decreases n - i,
        {
            let p = Pos { x, y };
            proof {
                assert(y < field.height) by (nonlinear_arith)
                    requires
                        y * field.width + x < field.width * field.height,
                        x < field.width,
                        0 <= y,
                        field.width > 0,
                ;
                assert(field.idx_of(p) == i);
            }
            match field.cell_at(p) {
                Cell::Food => {
                    let d = Self::dist2_exec(head, p, field);
                    let better = match best {
                        None => true,
                        Some(_) => d < best_d,
                    };
                    if better {
                        best = Some(p);
                        best_d = d;
                    }
                },
                _ => {},
            }
            proof {
                assert forall|q: Pos| field.in_bounds(q) && field.idx_of(q) == i implies q
                    == p by {
                    field.lemma_idx_injective(p, q);
                }
            }
            i = i + 1;
            x = x + 1;
            if x == field.width {
                x = 0;
                y = y + 1;
                proof {
                    assert((y as int) * field.width == (y - 1) * field.width + field.width)
                        by (nonlinear_arith);
                }
            }
        }
        proof {
            if best is None {
                assert forall|q: Pos| field.in_bounds(q) implies !((#[trigger] field.cell(
                    q,
                )) is Food) by {
                    field.lemma_idx_in_range(q);
                }
            } else {
                let p = best->0;
                assert forall|q: Pos|
                    field.in_bounds(q) && (#[trigger] field.cell(q)) is Food implies dist2(
                    head,
                    p,
                ) <= dist2(head, q) by {
                    field.lemma_idx_in_range(q);
                }
            }
        }
        best
    }
}

impl Snake {
    /// Builds the starting grid: all empty, the head cell at `start_pos`,
    /// then `num_food` random food placements (capped once the grid has no
    /// empty cell left).
    fn init_field(width: usize, height: usize, start_pos: Pos, num_food: u32) -> (g: Grid)
        requires
            width > 0,
            height > 0,
            width * height <= usize::MAX,
            start_pos.x < width,
            start_pos.y < height,
        ensures
            g.wf(),
            g.width == width,
            g.height == height,
            g.cell(start_pos) == Cell::Snake(None),
            forall|p: Pos|
                g.in_bounds(p) ==> ((#[trigger] g.cell(p)) is Snake <==> p == start_pos),
            food_count(g.cells@) == capped_food(num_food as int, width as int * height as int),
            snake_count(g.cells@) == 1,
    {
        let mut g = Grid::new(width, height);
        proof {
            lemma_count_zero(g.cells@, |c: Cell| c is Food);
            lemma_count_zero(g.cells@, |c: Cell| c is Snake);
            g.lemma_idx_in_range(start_pos);
        }
        let ghost pre = g.cells@;
        g.set_cell(start_pos, Cell::Snake(None));
        proof {
            lemma_count_update(pre, |c: Cell| c is Food, g.idx_of(start_pos), Cell::Snake(None));
            lemma_count_update(pre, |c: Cell| c is Snake, g.idx_of(start_pos), Cell::Snake(None));
            assert forall|p: Pos| g.in_bounds(p) implies ((#[trigger] g.cell(p)) is Snake <==> p
                == start_pos) by {
                g.lemma_idx_in_range(p);
            }
        }
        let area = width * height;
        let mut k: u32 = 0;
        while k < num_food
            invariant
                g.wf(),
                g.width == width,
                g.height == height,
                area == width * height,
                start_pos.x < width,
                start_pos.y < height,
                g.cell(start_pos) == Cell::Snake(None),
                forall|p: Pos|
                    g.in_bounds(p) ==> ((#[trigger] g.cell(p)) is Snake <==> p == start_pos),
                food_count(g.cells@) == capped_food(k as int, area as int),
                snake_count(g.cells@) == 1,
                k <= num_food,
            decreases num_food - k,
        {
            let ghost before = g;
            g.place_random_food();
            proof {
                let s = before.cells@;
                lemma_cell_partition(s);
                if has_empty(s) {
                    let j = choose|j: int|
                        0 <= j < s.len() && s[j] is Nothing && g.cells@ == s.update(j, Cell::Food);
                    assert(s[j] is Nothing && g.cells@ == s.update(j, Cell::Food));
                    lemma_count_update(s, |c: Cell| c is Food, j, Cell::Food);
                    lemma_count_update(s, |c: Cell| c is Snake, j, Cell::Food);
                    lemma_count_zero(s, |c: Cell| c is Nothing);
                    assert(empty_count(s) > 0);
                    assert(food_count(s) < area - 1);
                    assert forall|p: Pos| g.in_bounds(p) implies ((#[trigger] g.cell(p)) is Snake
                        <==> p == start_pos) by {
                        g.lemma_idx_in_range(p);
                        if g.idx_of(p) != j {
                            assert(g.cell(p) == before.cell(p));
                        } else {
                            assert(g.cell(p) == Cell::Food);
                        }
                    }
                    assert(g.cell(start_pos) == Cell::Snake(None)) by {
                        g.lemma_idx_in_range(start_pos);
                        if g.idx_of(start_pos) == j {
                            assert(s[j] is Nothing);
                        }
                    }
                } else {
                    lemma_count_zero(s, |c: Cell| c is Nothing);
                    assert(empty_count(s) == 0);
                    assert(food_count(s) == area - 1);
                    assert(g.cells@ == before.cells@);
                    assert forall|p: Pos| g.in_bounds(p) implies #[trigger] g.cell(p)
                        == before.cell(p) by {}
                }
            }
            k = k + 1;
        }
        g
    }

    /// Creates a simulation on a `width` by `height` board with the head at
    /// `start_pos`, facing `start_dir`, and `num_food` food cells placed at
    /// random (capped if the board is too small to hold them all).
    pub fn new(
        width: usize,
        height: usize,
        start_pos: Pos,
        num_food: u32,
        start_dir: Direction,
    ) -> (s: Snake)
        requires
            width > 0,
            height > 0,
            width * height <= usize::MAX,
            start_pos.x < width,
            start_pos.y < height,
        ensures
            s.wf(),
            !s.dead,
            s.score == 0,
            s.best == 0,
            !s.just_ate,
            s.dir == start_dir,
            s.head == start_pos,
            s.tail == start_pos,
            s.start_dir == start_dir,
            s.start_pos == start_pos,
            s.num_food == num_food,
            s.field.width == width,
            s.field.height == height,
            s.field.cell(start_pos) == Cell::Snake(None),
            forall|p: Pos|
                s.field.in_bounds(p) ==> ((#[trigger] s.field.cell(p)) is Snake <==> p
                    == start_pos),
            food_count(s.field.cells@) == capped_food(
                num_food as int,
                width as int * height as int,
            ),
            snake_count(s.field.cells@) == 1,
            s.body@ == seq![start_pos],
    {
        let field = Self::init_field(width, height, start_pos, num_food);
        let closest_food = Self::get_closest_food(start_pos, &field);
        let ghost b: Seq<Pos> = seq![start_pos];
        let s = Snake {
            field,
            dir: start_dir,
            head: start_pos,
            tail: start_pos,
            dead: false,
            score: 0,
            best: 0,
            just_ate: false,
            start_dir,
            start_pos,
            num_food,
            closest_food,
            body: Ghost(b),
        };
        proof {
            s.lemma_singleton_chain();
        }
        s
    }

    /// Starts a new round: rebuilds the grid, restores the head, tail and
    /// direction to their starting values and clears the transient state,
    /// while the best score survives.
    pub fn reset(&mut self)
        requires
            old(self).wf(),
        ensures
            final(self).wf(),
            !final(self).dead,
            final(self).score == 0,
            !final(self).just_ate,
            final(self).best == old(self).best,
            final(self).dir == old(self).start_dir,
            final(self).head == old(self).start_pos,
            final(self).tail == old(self).start_pos,
            final(self).start_dir == old(self).start_dir,
            final(self).start_pos == old(self).start_pos,
            final(self).num_food == old(self).num_food,
            final(self).field.width == old(self).field.width,
            final(self).field.height == old(self).field.height,
            final(self).field.cell(final(self).start_pos) == Cell::Snake(None),
            forall|p: Pos|
                final(self).field.in_bounds(p) ==> ((#[trigger] final(self).field.cell(
                    p,
                )) is Snake <==> p == final(self).start_pos),
            food_count(final(self).field.cells@) == capped_food(
                final(self).num_food as int,
                final(self).field.width as int * final(self).field.height as int,
            ),
            snake_count(final(self).field.cells@) == 1,
            final(self).body@ == seq![final(self).start_pos],
    {
        let width = self.field.width;
        let height = self.field.height;
        proof {
            assert(self.field.cells.len() == self.field.cells@.len());
        }
        self.field = Self::init_field(width, height, self.start_pos, self.num_food);
        self.dir = self.start_dir;
        self.head = self.start_pos;
        self.tail = self.start_pos;
        self.dead = false;
        self.score = 0;
        self.just_ate = false;
        let ghost b: Seq<Pos> = seq![self.start_pos];
        self.body = Ghost(b);
        self.closest_food = Self::get_closest_food(self.head, &self.field);
        proof {
            self.lemma_singleton_chain();
        }
    }

    /// Advances the simulation by one tick. A dead simulation is left
    /// untouched. Otherwise the head moves one cell in the current
    /// direction: leaving the board kills the snake on the spot; a food
    /// cell is eaten (the score rises by one, the body grows, a
    /// replacement food appears while any empty cell remains); a body
    /// cell kills the snake; an empty cell just moves the snake, the tail
    /// advancing along its link. The cached closest food is recomputed
    /// whenever the grid or the head changed.
    #[verifier::spinoff_prover]
    pub fn step(&mut self)
        requires
            old(self).wf(),
        ensures
            final(self).wf(),
            final(self).dir == old(self).dir,
            final(self).start_dir == old(self).start_dir,
            final(self).start_pos == old(self).start_pos,
            final(self).num_food == old(self).num_food,
            final(self).field.width == old(self).field.width,
            final(self).field.height == old(self).field.height,
            final(self).best >= old(self).best,
            old(self).dead ==> *final(self) == *old(self),
            !old(self).dead && !step_in_bounds(old(self).field, old(self).head, old(self).dir)
                ==> *final(self) == (Snake { dead: true, just_ate: false, ..*old(self) }),
            !old(self).dead && step_in_bounds(old(self).field, old(self).head, old(self).dir)
                ==> final(self).head == step_target(old(self).head, old(self).dir),
            ({
                let t = step_target(old(self).head, old(self).dir);
                !old(self).dead && step_in_bounds(old(self).field, old(self).head, old(self).dir)
                    && old(self).field.cell(t) is Food ==> {
                    &&& !final(self).dead
                    &&& final(self).score == old(self).score + 1
                    &&& final(self).best == (if old(self).score + 1 > old(self).best {
                        old(self).score + 1
                    } else {
                        old(self).best as int
                    })
                    &&& final(self).just_ate
                    &&& final(self).tail == old(self).tail
                    &&& final(self).body@ == old(self).body@.push(t)
                    &&& snake_count(final(self).field.cells@) == snake_count(
                        old(self).field.cells@,
                    ) + 1
                    &&& has_empty(old(self).field.cells@) ==> food_count(final(self).field.cells@)
                        == food_count(old(self).field.cells@)
                    &&& !has_empty(old(self).field.cells@) ==> food_count(final(self).field.cells@)
                        == food_count(old(self).field.cells@) - 1
                    &&& final(self).field.cell(old(self).head) == Cell::Snake(Some(t))
                    &&& final(self).field.cell(t) == Cell::Snake(None)
                    &&& has_empty(old(self).field.cells@) ==> exists|j: int|
                        0 <= j < old(self).field.cells@.len() && old(self).field.cells@[j] is Nothing
                            && final(self).field.cells@ == old(self).field.cells@.update(
                            old(self).field.idx_of(old(self).head),
                            Cell::Snake(Some(t)),
                        ).update(old(self).field.idx_of(t), Cell::Snake(None)).update(
                            j,
                            Cell::Food,
                        )
                    &&& !has_empty(old(self).field.cells@) ==> final(self).field.cells@ == old(
                        self,
                    ).field.cells@.update(
                        old(self).field.idx_of(old(self).head),
                        Cell::Snake(Some(t)),
                    ).update(old(self).field.idx_of(t), Cell::Snake(None))
                }
            }),
            ({
                let t = step_target(old(self).head, old(self).dir);
                !old(self).dead && step_in_bounds(old(self).field, old(self).head, old(self).dir)
                    && old(self).field.cell(t) is Snake ==> {
                    &&& final(self).dead
                    &&& final(self).score == old(self).score
                    &&& final(self).best == old(self).best
                    &&& !final(self).just_ate
                    &&& final(self).tail == old(self).tail
                    &&& final(self).field.cells@ == old(self).field.cells@.update(
                        old(self).field.idx_of(old(self).head),
                        Cell::Snake(Some(t)),
                    )
                    &&& food_count(final(self).field.cells@) == food_count(old(self).field.cells@)
                }
            }),
            ({
                let t = step_target(old(self).head, old(self).dir);
                !old(self).dead && step_in_bounds(old(self).field, old(self).head, old(self).dir)
                    && old(self).field.cell(t) is Nothing ==> {
                    &&& !final(self).dead
                    &&& final(self).score == old(self).score
                    &&& final(self).best == old(self).best
                    &&& !final(self).just_ate
                    &&& final(self).body@ == old(self).body@.drop_first().push(t)
                    &&& final(self).tail == (if old(self).body@.len() == 1 {
                        t
                    } else {
                        old(self).body@[1]
                    })
                    &&& snake_count(final(self).field.cells@) == snake_count(
                        old(self).field.cells@,
                    )
                    &&& food_count(final(self).field.cells@) == food_count(old(self).field.cells@)
                    &&& final(self).field.cells@ == old(self).field.cells@.update(
                        old(self).field.idx_of(old(self).head),
                        Cell::Snake(Some(t)),
                    ).update(old(self).field.idx_of(t), Cell::Snake(None)).update(
                        old(self).field.idx_of(old(self).tail),
                        Cell::Nothing,
                    )
                }
            }),
    {
        if self.dead {
            return ;
        }
        self.just_ate = false;
        let oh = self.head;
        let ghost b = self.body@;
        proof {
            assert(self.field.in_bounds(b[b.len() - 1]));
            assert(b.contains(oh)) by {
                assert(b[b.len() - 1] == oh);
            }
        }
        let t: Pos;
        match self.dir {
            Direction::Up => {
                if oh.y == 0 {
                    self.dead = true;
                    return ;
                }
                t = Pos { x: oh.x, y: oh.y - 1 };
            },
            Direction::Down => {
                if oh.y >= self.field.height - 1 {
                    self.dead = true;
                    return ;
                }
                t = Pos { x: oh.x, y: oh.y + 1 };
            },
            Direction::Left => {
                if oh.x == 0 {
                    self.dead = true;
                    return ;
                }
                t = Pos { x: oh.x - 1, y: oh.y };
            },
            Direction::Right => {
                if oh.x >= self.field.width - 1 {
                    self.dead = true;
                    return ;
                }
                t = Pos { x: oh.x + 1, y: oh.y };
            },
        }
        proof {
            assert(t == step_target(oh, self.dir));
            assert(self.field.in_bounds(t));
            assert(t != oh);
            assert(self.field.cell(oh) == Cell::Snake(None));
        }
        let ghost f0 = self.field;
        self.head = t;
        self.field.set_cell(oh, Cell::Snake(Some(t)));
        let ghost f1 = self.field;
        let at_t = self.field.cell_at(t);
        proof {
            if !(f0.cell(t) is Snake) {
                assert(!b.contains(t));
            }
            assert(at_t == f0.cell(t));
        }
        match at_t {
            Cell::Food => {
                self.step_eat(oh, t, Ghost(f0), Ghost(b));
            },
            Cell::Snake(_) => {
                self.dead = true;
                proof {
                    f0.lemma_idx_in_range(oh);
                    lemma_count_update(
                        f0.cells@,
                        |c: Cell| c is Food,
                        f0.idx_of(oh),
                        Cell::Snake(Some(t)),
                    );
                }
                self.closest_food = Self::get_closest_food(self.head, &self.field);
            },
            Cell::Nothing => {
                self.step_move(oh, t, Ghost(f0), Ghost(b));
            },
        }
    }

    /// The eating branch of `step`: the target cell becomes the new head,
    /// the body grows, the score rises and a replacement food is placed.
    #[verifier::spinoff_prover]
    fn step_eat(&mut self, oh: Pos, t: Pos, Ghost(f0): Ghost<Grid>, Ghost(b): Ghost<Seq<Pos>>)
        requires
            old(self).field.wf(),
            f0.wf(),
            grid_chain(f0, b, oh, b[0]),
            f0.in_bounds(t),
            f0.cell(t) is Food,
            t != oh,
            old(self).field.width == f0.width,
            old(self).field.height == f0.height,
            old(self).field.cells@ == f0.cells@.update(f0.idx_of(oh), Cell::Snake(Some(t))),
            forall|q: Pos|
                f0.in_bounds(q) ==> #[trigger] old(self).field.cell(q) == (if q == oh {
                    Cell::Snake(Some(t))
                } else {
                    f0.cell(q)
                }),
            old(self).head == t,
            old(self).tail == b[0],
            old(self).body@ == b,
            old(self).score + 1 == b.len(),
            old(self).score <= old(self).best,
            old(self).field.in_bounds(old(self).start_pos),
            !old(self).dead,
        ensures
            final(self).wf(),
            final(self).dir == old(self).dir,
            final(self).start_dir == old(self).start_dir,
            final(self).start_pos == old(self).start_pos,
            final(self).num_food == old(self).num_food,
            final(self).field.width == f0.width,
            final(self).field.height == f0.height,
            !final(self).dead,
            final(self).head == t,
            final(self).tail == old(self).tail,
            final(self).score == old(self).score + 1,
            final(self).best == (if old(self).score + 1 > old(self).best {
                old(self).score + 1
            } else {
                old(self).best as int
            }),
            final(self).best >= old(self).best,
            final(self).just_ate,
            final(self).body@ == b.push(t),
            snake_count(final(self).field.cells@) == snake_count(f0.cells@) + 1,
            has_empty(f0.cells@) ==> food_count(final(self).field.cells@) == food_count(f0.cells@),
            !has_empty(f0.cells@) ==> food_count(final(self).field.cells@) == food_count(f0.cells@)
                - 1,
            final(self).field.cell(oh) == Cell::Snake(Some(t)),
            final(self).field.cell(t) == Cell::Snake(None),
            has_empty(f0.cells@) ==> exists|j: int|
                0 <= j < f0.cells@.len() && f0.cells@[j] is Nothing && final(self).field.cells@
                    == f0.cells@.update(f0.idx_of(oh), Cell::Snake(Some(t))).update(
                    f0.idx_of(t),
                    Cell::Snake(None),
                ).update(j, Cell::Food),
            !has_empty(f0.cells@) ==> final(self).field.cells@ == f0.cells@.update(
                f0.idx_of(oh),
                Cell::Snake(Some(t)),
            ).update(f0.idx_of(t), Cell::Snake(None)),
    {
        let ghost f1 = self.field;
        self.field.set_cell(t, Cell::Snake(None));
        let ghost f2 = self.field;
        proof {
            lemma_distinct_positions_bound(f0, b);
            assert(self.field.cells.len() == self.field.cells@.len());
            assert(self.score + 1 <= u64::MAX);
        }
        self.score = self.score + 1;
        if self.score > self.best {
            self.best = self.score;
        }
        self.field.place_random_food();
        let ghost f3 = self.field;
        self.just_ate = true;
        let ghost nb = b.push(t);
        self.body = Ghost(nb);
        proof {
            lemma_step_eat_state(f0, f1, f2, f3, b, oh, t);
            assert(self.chain_ok()) by {
                assert(self.body@ == nb && self.field == f3 && self.head == t);
                assert(nb[0] == b[0]);
                assert(nb[nb.len() - 1] == t);
            }
            f0.lemma_idx_in_range(oh);
            f0.lemma_idx_in_range(t);
            assert(f1.idx_of(t) == f0.idx_of(t));
            assert(f2.cells@ == f0.cells@.update(f0.idx_of(oh), Cell::Snake(Some(t))).update(
                f0.idx_of(t),
                Cell::Snake(None),
            ));
            if has_empty(f0.cells@) {
                let j = choose|j: int|
                    0 <= j < f2.cells@.len() && f2.cells@[j] is Nothing && f3.cells@
                        == f2.cells@.update(j, Cell::Food);
                assert(f0.cells@[j] is Nothing) by {
                    assert(f2.cells@[f0.idx_of(oh)] is Snake);
                    assert(f2.cells@[f0.idx_of(t)] is Snake);
                }
                assert(0 <= j < f0.cells@.len() && f0.cells@[j] is Nothing && f3.cells@
                    == f0.cells@.update(f0.idx_of(oh), Cell::Snake(Some(t))).update(
                    f0.idx_of(t),
                    Cell::Snake(None),
                ).update(j, Cell::Food));
            }
        }
        self.closest_food = Self::get_closest_food(self.head, &self.field);
    }

    /// The plain-move branch of `step`: the target cell becomes the new
    /// head and the tail advances along its forward link.
    #[verifier::spinoff_prover]
    fn step_move(&mut self, oh: Pos, t: Pos, Ghost(f0): Ghost<Grid>, Ghost(b): Ghost<Seq<Pos>>)
        requires
            old(self).field.wf(),
            f0.wf(),
            grid_chain(f0, b, oh, b[0]),
            f0.in_bounds(t),
            f0.cell(t) is Nothing,
            t != oh,
            old(self).field.width == f0.width,
            old(self).field.height == f0.height,
            old(self).field.cells@ == f0.cells@.update(f0.idx_of(oh), Cell::Snake(Some(t))),
            forall|q: Pos|
                f0.in_bounds(q) ==> #[trigger] old(self).field.cell(q) == (if q == oh {
                    Cell::Snake(Some(t))
                } else {
                    f0.cell(q)
                }),
            old(self).head == t,
            old(self).tail == b[0],
            old(self).body@ == b,
            old(self).score + 1 == b.len(),
            old(self).score <= old(self).best,
            old(self).field.in_bounds(old(self).start_pos),
            !old(self).dead,
            !old(self).just_ate,
        ensures
            final(self).wf(),
            final(self).dir == old(self).dir,
            final(self).start_dir == old(self).start_dir,
            final(self).start_pos == old(self).start_pos,
            final(self).num_food == old(self).num_food,
            final(self).field.width == f0.width,
            final(self).field.height == f0.height,
            !final(self).dead,
            final(self).head == t,
            final(self).score == old(self).score,
            final(self).best == old(self).best,
            !final(self).just_ate,
            final(self).body@ == b.drop_first().push(t),
            final(self).tail == (if b.len() == 1 {
                t
            } else {
                b[1]
            }),
            snake_count(final(self).field.cells@) == snake_count(f0.cells@),
            food_count(final(self).field.cells@) == food_count(f0.cells@),
            final(self).field.cells@ == f0.cells@.update(
                f0.idx_of(oh),
                Cell::Snake(Some(t)),
            ).update(f0.idx_of(t), Cell::Snake(None)).update(f0.idx_of(b[0]), Cell::Nothing),
    {
        let ghost f1 = self.field;
        self.field.set_cell(t, Cell::Snake(None));
        let ghost f2 = self.field;
        let old_tail = self.tail;
        proof {
            lemma_tail_link(f0, f1, f2, b, oh, t);
        }
        let tc = self.field.cell_at(old_tail);
        match tc {
            Cell::Snake(Some(next)) => {
                self.tail = next;
                self.field.set_cell(old_tail, Cell::Nothing);
            },
            _ => {
                proof {
                    assert(false);
                }
            },
        }
        let ghost f3 = self.field;
        let ghost nb = b.drop_first().push(t);
        self.body = Ghost(nb);
        proof {
            lemma_step_move_state(f0, f1, f2, f3, b, oh, t);
            f0.lemma_idx_in_range(t);
            f0.lemma_idx_in_range(b[0]);
            assert(f1.idx_of(t) == f0.idx_of(t) && f2.idx_of(b[0]) == f0.idx_of(b[0]));
            assert(f3.cells@ == f0.cells@.update(f0.idx_of(oh), Cell::Snake(Some(t))).update(
                f0.idx_of(t),
                Cell::Snake(None),
            ).update(f0.idx_of(b[0]), Cell::Nothing));
            assert(self.chain_ok()) by {
                assert(self.body@ == nb && self.field == f3 && self.head == t);
                assert(nb.len() == b.len());
                if b.len() >= 2 {
                    assert(nb[0] == b.drop_first()[0]);
                    assert(b.drop_first()[0] == b[1]);
                    assert(self.tail == b[1]);
                } else {
                    assert(nb[0] == t);
                }
                assert(nb[nb.len() - 1] == t);
            }
        }
        self.closest_food = Self::get_closest_food(self.head, &self.field);
    }

    /// The frame body for the render adapter: one row of characters per
    /// board row, each cell drawn as `cell_char` says. Borders, the score
    /// header and colors are the adapter's business; it reads
    /// `closest_food` and `just_ate` for the color hints.
    pub fn render_rows(&self) -> (rows: Vec<Vec<char>>)
        requires
            self.field.wf(),
        ensures
            rows@.len() == self.field.height,
            forall|yy: int| 0 <= yy < rows@.len() ==> #[trigger] rows@[yy]@.len() == self.field.width,
            forall|yy: int, xx: int|
                0 <= yy < self.field.height && 0 <= xx < self.field.width ==> #[trigger] rows@[yy]@[xx]
                    == spec_cell_char(
                    self.field.cell(Pos { x: xx as usize, y: yy as usize }),
                ),
    {
        let mut rows: Vec<Vec<char>> = Vec::new();
        let mut y: usize = 0;
        while y < self.field.height
            invariant
                self.field.wf(),
                y <= self.field.height,
                rows@.len() == y,
                forall|yy: int| 0 <= yy < y ==> #[trigger] rows@[yy]@.len() == self.field.width,
                forall|yy: int, xx: int|
                    0 <= yy < y && 0 <= xx < self.field.width ==> #[trigger] rows@[yy]@[xx]
                        == spec_cell_char(
                        self.field.cell(Pos { x: xx as usize, y: yy as usize }),
                    ),
            decreases self.field.height - y,
        {
            let mut row: Vec<char> = Vec::new();
            let mut x: usize = 0;
            while x < self.field.width
                invariant
                    self.field.wf(),
                    y < self.field.height,
                    x <= self.field.width,
                    row@.len() == x,
                    forall|xx: int|
                        0 <= xx < x ==> #[trigger] row@[xx] == spec_cell_char(
                            self.field.cell(Pos { x: xx as usize, y: y }),
                        ),
                decreases self.field.width - x,
            {
                let c = self.field.cell_at(Pos { x, y });
                row.push(cell_char(c));
                x = x + 1;
            }
            rows.push(row);
            y = y + 1;
        }
        rows
    }

    /// A freshly initialised board with head and tail at `start_pos` and a
    /// singleton ghost body forms a coherent chain.
    proof fn lemma_singleton_chain(self)
        requires
            self.field.wf(),
            self.field.in_bounds(self.head),
            self.body@ == seq![self.head],
            self.tail == self.head,
            self.field.cell(self.head) == Cell::Snake(None),
            forall|p: Pos|
                self.field.in_bounds(p) ==> ((#[trigger] self.field.cell(p)) is Snake <==> p
                    == self.head),
        ensures
            self.chain_ok(),
    {
        let b = self.body@;
        assert(b.len() == 1);
        assert(b[0] == self.head);
        assert forall|p: Pos| b.contains(p) implies p == self.head by {
            let k = choose|k: int| 0 <= k < b.len() && b[k] == p;
        }
        assert(b.contains(self.head)) by {
            assert(b[0] == self.head);
        }
    }
}

/// No more duplicate-free in-bounds coordinates exist than the grid has
/// cells: their row-major indices are that many distinct values in
/// `[0, width * height)`.
pub proof fn lemma_distinct_positions_bound(g: Grid, b: Seq<Pos>)
    requires
        g.wf(),
        b.no_duplicates(),
        forall|k: int| 0 <= k < b.len() ==> g.in_bounds(#[trigger] b[k]),
    ensures
        b.len() <= g.cells@.len(),
{
    let f = |p: Pos| g.idx_of(p);
    let t = b.map_values(f);
    assert forall|i: int, j: int| 0 <= i < t.len() && 0 <= j < t.len() && i != j implies t[i]
        != t[j] by {
        if t[i] == t[j] {
            g.lemma_idx_injective(b[i], b[j]);
        }
    }
    assert(t.no_duplicates());
    t.unique_seq_to_set();
    let r = set_int_range(0, g.cells@.len() as int);
    assert forall|e: int| t.to_set().contains(e) implies r.contains(e) by {
        let k = choose|k: int| 0 <= k < t.len() && t[k] == e;
        g.lemma_idx_in_range(b[k]);
    }
    lemma_int_range(0, g.cells@.len() as int);
    lemma_len_subset(t.to_set(), r);
}

} // verus!
