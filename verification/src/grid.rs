use vstd::prelude::*;

use crate::snake::Pos;
use rand::Rng;

verus! {

/// One square of the board. A `Snake(Some(q))` cell is a body segment whose
/// forward link points at the next segment `q` toward the head; the head
/// itself is the unique `Snake(None)` cell.
#[derive(Debug, Clone, Copy, PartialEq, Eq, Structural)]
pub enum Cell {
    Food,
    Snake(Option<Pos>),
    Nothing,
}

/// A fixed-size two-dimensional occupancy structure, stored row-major:
/// the cell at `(x, y)` lives at index `y * width + x`.
#[derive(Debug, Clone)]
pub struct Grid {
    pub width: usize,
    pub height: usize,
    pub cells: Vec<Cell>,
}

/// How many entries of `s` satisfy `pred`.
pub open spec fn count_matching(s: Seq<Cell>, pred: spec_fn(Cell) -> bool) -> nat
    decreases s.len(),
{
    if s.len() == 0 {
        0
    } else {
        count_matching(s.drop_last(), pred) + if pred(s.last()) {
            1nat
        } else {
            0nat
        }
    }
}

pub open spec fn food_count(s: Seq<Cell>) -> nat {
    count_matching(s, |c: Cell| c is Food)
}

pub open spec fn snake_count(s: Seq<Cell>) -> nat {
    count_matching(s, |c: Cell| c is Snake)
}

pub open spec fn empty_count(s: Seq<Cell>) -> nat {
    count_matching(s, |c: Cell| c is Nothing)
}

/// Whether some cell of `s` is still unoccupied.
pub open spec fn has_empty(s: Seq<Cell>) -> bool {
    exists|i: int| 0 <= i < s.len() && s[i] is Nothing
}

/// Overwriting one entry changes a count by the two entries' indicators.
pub proof fn lemma_count_update(s: Seq<Cell>, pred: spec_fn(Cell) -> bool, i: int, c: Cell)
    requires
        0 <= i < s.len(),
    ensures
        count_matching(s.update(i, c), pred) == count_matching(s, pred) + (if pred(c) {
            1int
        } else {
            0int
        }) - (if pred(s[i]) {
            1int
        } else {
            0int
        }),
    decreases s.len(),
{
    let t = s.update(i, c);
    if i == s.len() - 1 {
        assert(t.drop_last() =~= s.drop_last());
        assert(t.last() == c);
    } else {
        assert(t.drop_last() =~= s.drop_last().update(i, c));
        assert(t.last() == s.last());
        lemma_count_update(s.drop_last(), pred, i, c);
        assert(s.drop_last()[i] == s[i]);
    }
}

/// A count is zero exactly when no entry matches.
pub proof fn lemma_count_zero(s: Seq<Cell>, pred: spec_fn(Cell) -> bool)
    ensures
        (count_matching(s, pred) == 0) <==> (forall|i: int| 0 <= i < s.len() ==> !pred(s[i])),
    decreases s.len(),
{
    if s.len() > 0 {
        lemma_count_zero(s.drop_last(), pred);
        assert(forall|i: int| 0 <= i < s.len() - 1 ==> s.drop_last()[i] == s[i]);
        assert(s.last() == s[s.len() - 1]);
    }
}

/// Every cell is counted by exactly one of the three kinds.
pub proof fn lemma_cell_partition(s: Seq<Cell>)
    ensures
        food_count(s) + snake_count(s) + empty_count(s) == s.len(),
    decreases s.len(),
{
    if s.len() > 0 {
        lemma_cell_partition(s.drop_last());
    }
}

/// The squared Euclidean distance between two coordinates.
pub open spec fn dist2(a: Pos, b: Pos) -> int {
    (a.x - b.x) * (a.x - b.x) + (a.y - b.y) * (a.y - b.y)
}

impl Grid {
    /// The basic shape invariant: positive dimensions, one cell per coordinate.
    pub open spec fn wf(self) -> bool {
        &&& self.width > 0
        &&& self.height > 0
        &&& self.cells@.len() == self.width * self.height
    }

    pub open spec fn in_bounds(self, p: Pos) -> bool {
        p.x < self.width && p.y < self.height
    }

    /// The row-major index of coordinate `p`.
    pub open spec fn idx_of(self, p: Pos) -> int {
        p.y * self.width + p.x
    }

    /// The cell stored at coordinate `p`.
    pub open spec fn cell(self, p: Pos) -> Cell {
        self.cells@[self.idx_of(p)]
    }

    pub open spec fn has_food(self) -> bool {
        exists|p: Pos| self.in_bounds(p) && (#[trigger] self.cell(p)) is Food
    }

    /// `p` is a food cell at minimum squared distance from `head`, and no
    /// food cell of the same distance precedes it in row-major order.
    pub open spec fn is_closest_food(self, head: Pos, p: Pos) -> bool {
        &&& self.in_bounds(p)
        &&& self.cell(p) is Food
        &&& forall|q: Pos|
            self.in_bounds(q) && (#[trigger] self.cell(q)) is Food ==> dist2(head, p) <= dist2(
                head,
                q,
            )
        &&& forall|q: Pos|
            self.in_bounds(q) && (#[trigger] self.cell(q)) is Food && self.idx_of(q) < self.idx_of(
                p,
            ) ==> dist2(head, q) > dist2(head, p)
    }

    /// A row-major index is in range exactly when its coordinate is.
    pub proof fn lemma_idx_in_range(self, p: Pos)
        requires
            self.wf(),
            self.in_bounds(p),
        ensures
            0 <= self.idx_of(p) < self.cells@.len(),
    {
        assert(p.y * self.width + p.x < self.width * self.height) by (nonlinear_arith)
            requires
                p.x < self.width,
                p.y < self.height,
        ;
    }

    /// Distinct in-bounds coordinates have distinct row-major indices.
    pub proof fn lemma_idx_injective(self, p: Pos, q: Pos)
        requires
            self.wf(),
            self.in_bounds(p),
            self.in_bounds(q),
            self.idx_of(p) == self.idx_of(q),
        ensures
            p == q,
    {
        assert(p.x == q.x && p.y == q.y) by (nonlinear_arith)
            requires
                p.x < self.width,
                q.x < self.width,
                p.y * self.width + p.x == q.y * self.width + q.x,
        ;
    }

    /// Builds an all-empty grid.
    pub fn new(width: usize, height: usize) -> (g: Grid)
        requires
            width > 0,
            height > 0,
            width * height <= usize::MAX,
        ensures
            g.wf(),
            g.width == width,
            g.height == height,
            forall|i: int| 0 <= i < g.cells@.len() ==> g.cells@[i] is Nothing,
    {
        let n: usize = width * height;
        let mut cells: Vec<Cell> = Vec::new();
        let mut i: usize = 0;
        while i < n
            invariant
                i <= n,
                cells@.len() == i,
                forall|j: int| 0 <= j < i ==> cells@[j] is Nothing,
            decreases n - i,
        {
            cells.push(Cell::Nothing);
            i = i + 1;
        }
        Grid { width, height, cells }
    }

    /// The row-major index of `p`, computed in machine arithmetic.
    fn pos_index(&self, p: Pos) -> (i: usize)
        requires
            self.wf(),
            self.in_bounds(p),
        ensures
            i == self.idx_of(p),
            i < self.cells@.len(),
    {
        proof {
            self.lemma_idx_in_range(p);
            assert(self.cells.len() == self.cells@.len());
        }
        p.y * self.width + p.x
    }

    /// Reads the cell at `p`.
    pub fn cell_at(&self, p: Pos) -> (c: Cell)
        requires
            self.wf(),
            self.in_bounds(p),
        ensures
            c == self.cell(p),
    {
        let i: usize = self.pos_index(p);
        self.cells[i]
    }

    /// Overwrites the cell at `p`.
    pub fn set_cell(&mut self, p: Pos, c: Cell)
        requires
            old(self).wf(),
            old(self).in_bounds(p),
        ensures
            final(self).wf(),
            final(self).width == old(self).width,
            final(self).height == old(self).height,
            final(self).cells@ == old(self).cells@.update(old(self).idx_of(p), c),
            forall|q: Pos|
                old(self).in_bounds(q) ==> final(self).cell(q) == (if q == p {
                    c
                } else {
                    old(self).cell(q)
                }),
    {
        let i: usize = self.pos_index(p);
        self.cells[i] = c;
        proof {
            assert forall|q: Pos| old(self).in_bounds(q) implies self.cell(q) == (if q == p {
                c
            } else {
                old(self).cell(q)
            }) by {
                old(self).lemma_idx_in_range(q);
                if q != p && old(self).idx_of(q) == old(self).idx_of(p) {
                    old(self).lemma_idx_injective(p, q);
                }
            }
        }
    }
    /// Turns one uniformly chosen unoccupied cell into food; if every cell
    /// is occupied, leaves the grid unchanged (the requested food count is
    /// silently capped).
    pub fn place_random_food(&mut self)
        requires
            old(self).wf(),
        ensures
            final(self).wf(),
            final(self).width == old(self).width,
            final(self).height == old(self).height,
            !has_empty(old(self).cells@) ==> final(self).cells@ == old(self).cells@,
            has_empty(old(self).cells@) ==> exists|j: int|
                0 <= j < old(self).cells@.len() && old(self).cells@[j] is Nothing
                    && final(self).cells@ == old(self).cells@.update(j, Cell::Food),
    {
        let mut empties: Vec<usize> = Vec::new();
        let n: usize = self.cells.len();
        let mut i: usize = 0;
        while i < n
            invariant
                i <= n,
                *self == *old(self),
                self.wf(),
                n == self.cells@.len(),
                forall|k: int|
                    0 <= k < empties@.len() ==> empties@[k] < n && self.cells@[#[trigger] empties@[k] as int] is Nothing,
                empties@.len() == 0 ==> forall|j: int| 0 <= j < i ==> !(self.cells@[j] is Nothing),
            decreases n - i,
        {
            match self.cells[i] {
                Cell::Nothing => empties.push(i),
                _ => {},
            }
            i = i + 1;
        }
        if empties.len() == 0 {
            return ;
        }
        let k: usize = random_below(empties.len());
        let j: usize = empties[k];
        self.cells[j] = Cell::Food;
    }
}

/// Relies on rand::Rng::gen_range over rand::thread_rng: returns a uniform
/// value in `[0, bound)`; the call panics only on an empty range, which the
/// precondition rules out. Nothing is assumed beyond the range of the result.
#[verifier::external_body]
fn random_below(bound: usize) -> (r: usize)
    requires
        bound > 0,
    ensures
        r < bound,
{
    rand::thread_rng().gen_range(0..bound)
}

} // verus!
