//! The constraint store and the step-by-step solver built on it.
use vstd::prelude::*;
use std::collections::VecDeque;
use crate::bitset::{BitSet, CAPACITY, cells};
use crate::constraint::{Constraint, cross_constraints, max2, min2, sat_sub, cross_spec, lemma_cross_sound};
use crate::puzzle::{Puzzle, bits_to_string, marks};
use vstd::set_lib::*;

verus! {

/// The cells revealed and flagged so far, over a puzzle.
#[derive(Clone)]
pub struct PuzzleState {
    pub base: Puzzle,
    pub revealed: BitSet,
    pub flagged: BitSet,
}

impl PuzzleState {
    /// The cells that are revealed or flagged.
    pub open spec fn done(&self) -> Set<int> {
        self.revealed@.union(self.flagged@)
    }

    /// No cell is both revealed and flagged, flags sit on mines, and no mine
    /// is revealed.
    pub open spec fn wf(&self) -> bool {
        &&& self.base.wf()
        &&& self.revealed@.subset_of(cells(self.base.n()))
        &&& self.flagged@.subset_of(cells(self.base.n()))
        &&& self.revealed@.disjoint(self.flagged@)
        &&& self.flagged@.subset_of(self.base.mines@)
        &&& self.revealed@.disjoint(self.base.mines@)
    }
}

proof fn lemma_push_contains<T>(s: Seq<T>, a: T, x: T)
    ensures
        s.push(a).contains(x) <==> (s.contains(x) || x == a),
{
    if s.contains(x) {
        let j = choose|j: int| 0 <= j < s.len() && s[j] == x;
        assert(s.push(a)[j] == x);
    }
    if x == a {
        assert(s.push(a)[s.len() as int] == x);
    }
    if s.push(a).contains(x) {
        let j = choose|j: int| 0 <= j < s.len() + 1 && s.push(a)[j] == x;
        if j < s.len() {
            assert(s[j] == x);
        }
    }
}

/// The exact constraint on the cells of `region` that are neither revealed
/// nor flagged, with the number of mines they hold.
pub fn mine_count_constraint(state: &PuzzleState, region: &BitSet) -> (r: Constraint)
    ensures
        r.bits@ == region@.difference(state.done()),
        r.min_mines == r.max_mines,
        r.min_mines == r.bits@.intersect(state.base.mines@).len(),
        r.wf(),
{
    let bits = region.and_not(&state.revealed).and_not(&state.flagged);
    let inside = bits.and(&state.base.mines);
    let mines = inside.count();
    let size = bits.count();
    proof {
        assert(bits@ =~= region@.difference(state.done()));
        bits.lemma_bounded();
        lemma_len_intersect(bits@, state.base.mines@);
    }
    Constraint { bits, min_mines: mines, max_mines: mines, size }
}

/// The constraint a revealed cell gives on its neighbors that are not yet
/// revealed or flagged.
pub fn get_neighbor_constraint(state: &PuzzleState, cell: usize) -> (r: Constraint)
    requires
        cell < state.base.neighbors.len(),
    ensures
        r.bits@ == state.base.neighbors@[cell as int]@.difference(state.done()),
        r.min_mines == r.max_mines,
        r.min_mines == r.bits@.intersect(state.base.mines@).len(),
        r.wf(),
{
    mine_count_constraint(state, &state.base.neighbors[cell])
}

impl PuzzleState {
    /// How cell `i` is drawn: a space (or `?` when its content is hidden)
    /// once revealed, `*` once flagged, `.` while neither.
    pub open spec fn cell_char(&self, i: int) -> char {
        if self.revealed@.contains(i) {
            if self.base.unknowns@.contains(i) {
                '?'
            } else {
                ' '
            }
        } else if self.flagged@.contains(i) {
            '*'
        } else {
            '.'
        }
    }

    /// Draws the cells between brackets, one character each.
    pub fn to_string(&self) -> (r: String)
        requires
            self.base.neighbors.len() <= CAPACITY,
        ensures
            r@ == seq!['['] + Seq::new(self.base.n() as nat, |i: int| self.cell_char(i)) + seq![']'],
    {
        proof {
            reveal_strlit("[");
        }
        let mut line = String::from_str("[");
        let n = self.base.size();
        let mut i: usize = 0;
        while i < n
            invariant
                i <= n == self.base.n() <= CAPACITY,
                line@ == seq!['['] + Seq::new(i as nat, |j: int| self.cell_char(j)),
            decreases n - i,
        {
            let ghost before = line@;
            proof {
                reveal_strlit("*");
                reveal_strlit("?");
                reveal_strlit(" ");
                reveal_strlit(".");
            }
            if self.revealed.get(i) {
                if self.base.unknowns.get(i) {
                    line.append("?");
                } else {
                    line.append(" ");
                }
            } else if self.flagged.get(i) {
                line.append("*");
            } else {
                line.append(".");
            }
            assert(line@ =~= before.push(self.cell_char(i as int)));
            assert(Seq::new((i + 1) as nat, |j: int| self.cell_char(j)) =~= Seq::new(
                i as nat,
                |j: int| self.cell_char(j),
            ).push(self.cell_char(i as int)));
            i = i + 1;
        }
        let ghost before = line@;
        proof {
            reveal_strlit("]");
        }
        line.append("]");
        assert(line@ =~= before.push(']'));
        line
    }
}

/// Taking `cell` out of a region takes it out of the region's mines.
proof fn lemma_remove_count(bits: Set<int>, mines: Set<int>, cell: int)
    requires
        bits.finite(),
        bits.contains(cell),
    ensures
        bits.remove(cell).len() == bits.len() - 1,
        bits.remove(cell).intersect(mines).len() == bits.intersect(mines).len() - (if mines.contains(
            cell,
        ) {
            1int
        } else {
            0int
        }),
        bits.remove(cell).intersect(mines).len() <= bits.remove(cell).len(),
{
    let inside = bits.intersect(mines);
    lemma_set_subset_finite(bits, inside);
    assert(bits.remove(cell).intersect(mines) =~= inside.remove(cell));
    if !mines.contains(cell) {
        assert(inside.remove(cell) =~= inside);
    }
    lemma_len_intersect(bits.remove(cell), mines);
}

/// A cell of a region that holds no mine is not a mine.
proof fn lemma_safe_cell(bits: Set<int>, mines: Set<int>, i: int)
    requires
        bits.finite(),
        bits.contains(i),
        bits.intersect(mines).len() == 0,
    ensures
        !mines.contains(i),
{
    lemma_set_subset_finite(bits, bits.intersect(mines));
    if mines.contains(i) {
        assert(bits.intersect(mines).contains(i));
        bits.intersect(mines).lemma_len0_is_empty();
    }
}

/// A cell of a region whose cells are all mines is a mine.
proof fn lemma_mine_cell(bits: Set<int>, mines: Set<int>, i: int)
    requires
        bits.finite(),
        bits.contains(i),
        bits.intersect(mines).len() >= bits.len(),
    ensures
        mines.contains(i),
{
    if !mines.contains(i) {
        assert(bits.intersect(mines).subset_of(bits.remove(i)));
        lemma_len_subset(bits.intersect(mines), bits.remove(i));
    }
}

/// The exact count of the mines in `region`, as a region and bounds.
pub open spec fn count_model(region: Set<int>, mines: Set<int>) -> (Set<int>, int, int) {
    (region, region.intersect(mines).len() as int, region.intersect(mines).len() as int)
}

/// The reason a store gives when the bounds on `region` contradict each
/// other: the region drawn over the `n` cells.
pub open spec fn inconsistency_text(region: Set<int>, n: int) -> Seq<char> {
    "inconsistent bounds on region "@ + seq!['['] + marks(region, n) + seq![']']
}

/// The index of the work-queue bucket of `c` in a puzzle of `n` cells:
/// ordered by size, then by slack.
pub open spec fn bucket_of(c: Constraint, n: int) -> int {
    (c.size - 1) * n + (c.max_mines - c.min_mines)
}

/// `s` without the entries equal to `c`, in the same order.
pub open spec fn drop_all(s: Seq<Constraint>, c: Constraint) -> Seq<Constraint> {
    s.filter(|x: Constraint| x != c)
}

proof fn lemma_drop_all(s: Seq<Constraint>, c: Constraint, y: Constraint)
    requires
        drop_all(s, c).contains(y),
    ensures
        s.contains(y),
        y != c,
    decreases s.len(),
{
    reveal(Seq::filter);
    if s.len() > 0 {
        let rest = drop_all(s.drop_last(), c);
        let last = s.last();
        if rest.contains(y) {
            lemma_drop_all(s.drop_last(), c, y);
            let j = choose|j: int| 0 <= j < s.drop_last().len() && s.drop_last()[j] == y;
            assert(s[j] == y);
        } else {
            assert(last != c);
            assert(drop_all(s, c) == rest.push(last));
            let j = choose|j: int| 0 <= j < rest.len() + 1 && rest.push(last)[j] == y;
            if j < rest.len() {
                assert(rest[j] == y);
            }
            assert(y == last);
            assert(s[s.len() - 1] == y);
        }
    }
}

/// `q` without the entries equal to `c`, in the same order.
fn deque_without(q: &VecDeque<Constraint>, c: &Constraint) -> (r: VecDeque<Constraint>)
    ensures
        r@ == drop_all(q@, *c),
{
    reveal(Seq::filter);
    let mut r: VecDeque<Constraint> = VecDeque::new();
    let mut i: usize = 0;
    while i < q.len()
        invariant
            i <= q.len(),
            r@ == drop_all(q@.subrange(0, i as int), *c),
        decreases q.len() - i,
    {
        let x = q[i];
        reveal(Seq::filter);
        assert(q@.subrange(0, i + 1).drop_last() == q@.subrange(0, i as int));
        assert(q@.subrange(0, i + 1).last() == x);
        if x != *c {
            r.push_back(x);
        }
        i = i + 1;
    }
    assert(q@.subrange(0, q.len() as int) == q@);
    r
}

/// What becomes of the constraint `x` when `cell` is revealed (`is_mine`
/// false) or flagged: the cell leaves the region; a safe cell caps the upper
/// bound at the new size, a mine takes one mine off both bounds.
pub open spec fn shrunk_model(x: Constraint, cell: int, is_mine: bool) -> (Set<int>, int, int) {
    if is_mine {
        (x.bits@.remove(cell), sat_sub(x.min_mines as int, 1), x.max_mines - 1)
    } else {
        (x.bits@.remove(cell), x.min_mines as int, min2(x.max_mines as int, x.size - 1))
    }
}

/// `x` is a constraint of `a` on `cell`, or has the region of one of them
/// with `cell` taken out.
pub open spec fn from_shrink(a: Solver, cell: int, x: Constraint) -> bool {
    ||| a.live(x) && x.bits@.contains(cell)
    ||| exists|q: Constraint|
        #[trigger] a.live(q) && q.bits@.contains(cell) && x.bits@ == q.bits@.remove(cell)
}

/// `region` is the region of a constraint that crossing `c` with one of its
/// partners in `a` yields.
pub open spec fn from_cross(a: Solver, c: Constraint, region: Set<int>) -> bool {
    exists|k: Constraint, q: int|
        #[trigger] a.partner(c, k) && 0 <= q < cross_spec(c, k).len() && #[trigger] cross_spec(
            c,
            k,
        )[q].0 == region
}

/// `x` contradicts revealing (`is_mine` false) or flagging one of its
/// cells: all its cells are mines, or none is.
pub open spec fn blocks(x: Constraint, is_mine: bool) -> bool {
    if is_mine {
        x.max_mines == 0
    } else {
        x.min_mines == x.size
    }
}

/// Some constraint of `v` has the region and bounds `p`.
pub open spec fn listed(v: Seq<Constraint>, p: (Set<int>, int, int)) -> bool {
    exists|j: int| 0 <= j < v.len() && (#[trigger] v[j]).model() == p
}

/// Every constraint that crossing `c` with `k` yields is in `v`.
pub open spec fn all_listed(v: Seq<Constraint>, c: Constraint, k: Constraint) -> bool {
    forall|i: int| 0 <= i < cross_spec(c, k).len() ==> #[trigger] listed(v, cross_spec(c, k)[i])
}

/// `c` and `k` share a cell below `square`.
pub open spec fn met_before(c: Constraint, k: Constraint, square: int) -> bool {
    exists|s: int| 0 <= s < square && c.bits@.contains(s) && k.bits@.contains(s)
}

/// A constraint with region and bounds `p` says nothing: its region is
/// empty, or its bounds are those of any region of its size.
pub open spec fn trivial(p: (Set<int>, int, int)) -> bool {
    p.0 == Set::<int>::empty() || (p.1 == 0 && p.2 == p.0.len())
}

proof fn lemma_listed_push(v: Seq<Constraint>, x: Constraint)
    ensures
        forall|p: (Set<int>, int, int)| listed(v, p) ==> #[trigger] listed(v.push(x), p),
        listed(v.push(x), x.model()),
{
    assert forall|p: (Set<int>, int, int)| listed(v, p) implies #[trigger] listed(v.push(x), p) by {
        let j = choose|j: int| 0 <= j < v.len() && (#[trigger] v[j]).model() == p;
        assert(v.push(x)[j] == v[j]);
    }
    assert(v.push(x)[v.len() as int] == x);
}

proof fn lemma_all_listed_grow(a: Seq<Constraint>, b: Seq<Constraint>)
    requires
        forall|p: (Set<int>, int, int)| listed(a, p) ==> #[trigger] listed(b, p),
    ensures
        forall|c: Constraint, k: Constraint| all_listed(a, c, k) ==> #[trigger] all_listed(b, c, k),
{
    assert forall|c: Constraint, k: Constraint| all_listed(a, c, k) implies #[trigger] all_listed(b, c, k) by {
        assert forall|i: int| 0 <= i < cross_spec(c, k).len() implies #[trigger] listed(b, cross_spec(c, k)[i]) by {
            assert(listed(a, cross_spec(c, k)[i]));
        }
    }
}

/// The first index at which `v` holds `c`, if any.
fn position(v: &Vec<Constraint>, c: &Constraint) -> (r: Option<usize>)
    ensures
        r matches Some(i) ==> i < v.len() && v@[i as int] == *c,
        r is None ==> !v@.contains(*c),
{
    let mut i: usize = 0;
    while i < v.len()
        invariant
            i <= v.len(),
            forall|j: int| 0 <= j < i ==> v@[j] != *c,
        decreases v.len() - i,
    {
        if v[i] == *c {
            return Some(i);
        }
        i = i + 1;
    }
    None
}

/// A copy of `v`.
fn copied(v: &Vec<Constraint>) -> (r: Vec<Constraint>)
    ensures
        r@ == v@,
{
    let mut r: Vec<Constraint> = Vec::new();
    let mut i: usize = 0;
    while i < v.len()
        invariant
            i <= v.len(),
            r@ == v@.subrange(0, i as int),
        decreases v.len() - i,
    {
        r.push(v[i]);
        assert(v@.subrange(0, i + 1) == v@.subrange(0, i as int).push(v@[i as int]));
        i = i + 1;
    }
    assert(v@.subrange(0, v.len() as int) == v@);
    r
}

/// The elements of `v` other than `c`.
fn without(v: &Vec<Constraint>, c: &Constraint) -> (r: Vec<Constraint>)
    ensures
        forall|x: Constraint| #[trigger] r@.contains(x) <==> (v@.contains(x) && x != *c),
        forall|j: int| 0 <= j < r.len() ==> v@.contains(#[trigger] r@[j]),
{
    let mut r: Vec<Constraint> = Vec::new();
    let mut i: usize = 0;
    while i < v.len()
        invariant
            i <= v.len(),
            forall|x: Constraint|
                #[trigger] r@.contains(x) <==> (v@.subrange(0, i as int).contains(x) && x != *c),
            forall|j: int| 0 <= j < r.len() ==> v@.contains(#[trigger] r@[j]),
        decreases v.len() - i,
    {
        let x = v[i];
        let ghost r0 = r@;
        let ghost before = v@.subrange(0, i as int);
        assert(v@.subrange(0, i + 1) == before.push(x));
        if x != *c {
            r.push(x);
        }
        proof {
            assert forall|y: Constraint| #[trigger] r@.contains(y) <==> (before.push(x).contains(y)
                && y != *c) by {
                lemma_push_contains(before, x, y);
                if x != *c {
                    lemma_push_contains(r0, x, y);
                }
            }
        }
        i = i + 1;
    }
    assert(v@.subrange(0, v.len() as int) == v@);
    r
}

/// Records `c` under every cell of its region.
fn index_insert(by_cell: &mut Vec<Vec<Constraint>>, c: Constraint)
    requires
        c.bits@.subset_of(cells(old(by_cell).len() as int)),
        old(by_cell).len() <= CAPACITY,
    ensures
        final(by_cell).len() == old(by_cell).len(),
        forall|i: int, x: Constraint|
            0 <= i < final(by_cell).len() ==> (#[trigger] final(by_cell)@[i]@.contains(x) <==> (
            old(by_cell)@[i]@.contains(x) || (x == c && c.bits@.contains(i)))),
{
    let n = by_cell.len();
    let mut i: usize = 0;
    while i < n
        invariant
            i <= n == by_cell.len() <= CAPACITY,
            forall|j: int, x: Constraint|
                0 <= j < n ==> (#[trigger] by_cell@[j]@.contains(x) <==> (old(by_cell)@[j]@.contains(x)
                    || (x == c && c.bits@.contains(j) && j < i))),
        decreases n - i,
    {
        let ghost prev = *by_cell;
        if c.bits.get(i) {
            by_cell[i].push(c);
            proof {
                assert forall|x: Constraint| #[trigger] by_cell@[i as int]@.contains(x) <==> (
                prev@[i as int]@.contains(x) || x == c) by {
                    lemma_push_contains(prev@[i as int]@, c, x);
                }
            }
        }
        i = i + 1;
    }
}

/// Drops `c` from the entry of every cell of its region.
fn index_remove(by_cell: &mut Vec<Vec<Constraint>>, c: Constraint)
    requires
        c.bits@.subset_of(cells(old(by_cell).len() as int)),
        old(by_cell).len() <= CAPACITY,
    ensures
        final(by_cell).len() == old(by_cell).len(),
        forall|i: int, x: Constraint|
            0 <= i < final(by_cell).len() ==> (#[trigger] final(by_cell)@[i]@.contains(x) <==> (
            old(by_cell)@[i]@.contains(x) && (x != c || !c.bits@.contains(i)))),
{
    let n = by_cell.len();
    let mut i: usize = 0;
    while i < n
        invariant
            i <= n == by_cell.len() <= CAPACITY,
            forall|j: int, x: Constraint|
                0 <= j < n ==> (#[trigger] by_cell@[j]@.contains(x) <==> (old(by_cell)@[j]@.contains(x)
                    && (x != c || !c.bits@.contains(j) || j >= i))),
        decreases n - i,
    {
        if c.bits.get(i) {
            let kept = without(&by_cell[i], &c);
            by_cell[i] = kept;
        }
        i = i + 1;
    }
}

/// Default size gate, cells: crossing skips a constraint that has more cells
/// than this and more mines than `DEFAULT_MAX_MINES`.
pub const DEFAULT_MAX_CELLS: usize = 9;

/// Default size gate, mines: see `DEFAULT_MAX_CELLS`.
pub const DEFAULT_MAX_MINES: usize = 3;

/// What one step of the solver did.
pub enum StepResult {
    /// The solved constraints were applied: these cells were revealed and flagged.
    Progress { revealed: BitSet, flagged: BitSet },
    /// This constraint was crossed with the constraints it overlaps.
    CrossConstraint(Constraint),
    /// Solving stopped for the given reason.
    UnexpectedStop(String),
    /// Every cell is revealed or flagged.
    Finished,
}

/// Solves a puzzle one deduction at a time. The fields are public so that
/// contracts can speak of them; the store's invariants are `wf`, which every
/// operation requires and keeps.
pub struct Solver {
    pub puzzle: PuzzleState,
    /// The live unsolved constraints, at most one per region.
    pub by_region: Vec<Constraint>,
    /// For each cell, the live constraints whose region holds it.
    pub by_cell: Vec<Vec<Constraint>>,
    /// The live solved constraints, waiting to be applied.
    pub solved: Vec<Constraint>,
    /// Work queue: one FIFO bucket per (size, slack), smallest first.
    pub queue: Vec<VecDeque<Constraint>>,
    /// Every cell of the puzzle.
    pub all_bits: BitSet,
    /// Size gate: crossing skips a constraint with more cells than this
    /// and more mines than `max_mines`.
    pub max_cells: usize,
    pub max_mines: usize,
    /// Why solving stopped for good, once it has.
    pub stop: Option<String>,
}

impl Solver {
    /// The number of cells.
    pub open spec fn n(&self) -> int {
        self.puzzle.base.n()
    }

    /// The cells revealed so far.
    pub open spec fn revealed(&self) -> Set<int> {
        self.puzzle.revealed@
    }

    /// The cells flagged so far.
    pub open spec fn flagged(&self) -> Set<int> {
        self.puzzle.flagged@
    }

    /// The cells that are revealed or flagged.
    pub open spec fn done(&self) -> Set<int> {
        self.puzzle.done()
    }

    /// A constraint that may stand in the store in the current state.
    pub closed spec fn storable(&self, c: Constraint) -> bool {
        &&& c.wf()
        &&& c.bits@.subset_of(cells(self.n()))
        &&& c.bits@.disjoint(self.puzzle.done())
        &&& c.size > 0
        &&& c.min_mines <= c.max_mines
    }

    /// `x` is a live constraint: unsolved in the region map, or solved.
    pub open spec fn live(&self, x: Constraint) -> bool {
        self.by_region@.contains(x) || self.solved@.contains(x)
    }

    /// Every live unsolved constraint is storable, not solved and not useless.
    pub closed spec fn regions_ok(&self) -> bool {
        forall|k: int|
            0 <= k < self.by_region.len() ==> {
                let c = #[trigger] self.by_region@[k];
                self.storable(c) && !c.solved() && !c.useless()
            }
    }

    /// Every member of the solved set is storable and solved.
    pub closed spec fn solved_ok(&self) -> bool {
        forall|k: int|
            0 <= k < self.solved.len() ==> {
                let c = #[trigger] self.solved@[k];
                self.storable(c) && c.solved()
            }
    }

    /// No two unsolved constraints share a region.
    pub closed spec fn regions_unique(&self) -> bool {
        forall|j: int, k: int|
            0 <= j < k < self.by_region.len() ==> #[trigger] self.by_region@[j].bits
                != #[trigger] self.by_region@[k].bits
    }

    /// No two live constraints, solved or not, share a region.
    pub closed spec fn live_unique(&self) -> bool {
        forall|x: Constraint, y: Constraint|
            #[trigger] self.live(x) && #[trigger] self.live(y) && x.bits == y.bits ==> x == y
    }

    /// A solved constraint sits on the region of `c`.
    pub closed spec fn solved_on(&self, c: Constraint) -> bool {
        exists|k: Constraint| #[trigger] self.solved@.contains(k) && k.bits == c.bits
    }

    /// The per-cell index lists exactly the live constraints on each cell.
    pub closed spec fn index_ok(&self) -> bool {
        forall|i: int, x: Constraint|
            0 <= i < self.n() ==> (#[trigger] self.by_cell@[i]@.contains(x) <==> (
            x.bits@.contains(i) && self.live(x)))
    }

    /// Nothing is left to do: no solved constraint waits and the work queue
    /// is empty.
    pub closed spec fn stalled(&self) -> bool {
        self.queue_empty() && self.solved.len() == 0
    }

    /// Seeding the store again would add nothing new: the count on every
    /// hint, and around every revealed cell that shows a number, over the
    /// cells not yet revealed or flagged, says nothing or is already known.
    pub closed spec fn reseeds_known(&self) -> bool {
        &&& forall|h: int|
            0 <= h < self.puzzle.base.hints.len() ==> {
                let p = #[trigger] count_model(
                    self.puzzle.base.hints@[h]@.difference(self.done()),
                    self.mines(),
                );
                trivial(p) || self.knows(p)
            }
        &&& forall|i: int|
            0 <= i < self.n() && self.revealed().contains(i) && !self.puzzle.base.unknowns@.contains(i)
                ==> {
                let p = #[trigger] count_model(
                    self.puzzle.base.neighbors@[i]@.difference(self.done()),
                    self.mines(),
                );
                trivial(p) || self.knows(p)
            }
    }

    /// Every bucket of the work queue is empty.
    pub closed spec fn queue_empty(&self) -> bool {
        forall|b: int| 0 <= b < self.queue.len() ==> self.queue@[b]@.len() == 0
    }

    /// Every live constraint is true of the puzzle's mines.
    pub closed spec fn sound(&self) -> bool {
        forall|x: Constraint| #[trigger] self.live(x) ==> x.holds_of(self.puzzle.base.mines@)
    }

    /// The contents of the work-queue buckets.
    pub closed spec fn queues(&self) -> Seq<Seq<Constraint>> {
        self.queue@.map_values(|q: VecDeque<Constraint>| q@)
    }

    /// `x` waits in the work queue, in the bucket of its size and slack.
    pub closed spec fn queued(&self, x: Constraint) -> bool {
        &&& 0 <= bucket_of(x, self.n()) < self.queue.len()
        &&& self.queues()[bucket_of(x, self.n())].contains(x)
    }

    /// The work queue holds unsolved live constraints only, each in the
    /// bucket of its size and slack.
    pub closed spec fn queue_ok(&self) -> bool {
        forall|b: int, i: int|
            0 <= b < self.queue.len() && 0 <= i < self.queue@[b]@.len() ==> {
                let y = #[trigger] self.queue@[b]@[i];
                self.by_region@.contains(y) && bucket_of(y, self.n()) == b
            }
    }

    /// The store's invariants.
    pub closed spec fn wf(&self) -> bool {
        &&& self.puzzle.wf()
        &&& self.all_bits@ == cells(self.n())
        &&& self.by_cell.len() == self.n()
        &&& self.queue.len() == self.n() * self.n()
        &&& self.regions_ok()
        &&& self.solved_ok()
        &&& self.regions_unique()
        &&& self.index_ok()
        &&& self.queue_ok()
        &&& self.live_unique()
    }

    /// What the invariants say of a well-formed solver, which `new` and
    /// `step` keep: no cell is both revealed and flagged, flags sit on
    /// mines, no mine is revealed; the unsolved constraints avoid finished
    /// cells, are consistent and informative, and own their regions alone;
    /// the per-cell index matches the live constraints; solved constraints
    /// are solved and kept apart from the unsolved ones and the work queue;
    /// no two live constraints, solved or not, share a region.
    pub proof fn lemma_invariants(s: Solver)
        requires
            s.wf(),
        ensures
            s.revealed().disjoint(s.flagged()),
            s.flagged().subset_of(s.mines()),
            s.revealed().disjoint(s.mines()),
            s.regions_ok(),
            s.index_ok(),
            s.regions_unique(),
            s.live_unique(),
            s.solved_ok(),
            forall|x: Constraint|
                #[trigger] s.solved@.contains(x) ==> x.solved() && !s.by_region@.contains(x) && !s.queued(
                    x,
                ),
            forall|k: int|
                0 <= k < s.by_region.len() ==> {
                    let c = #[trigger] s.by_region@[k];
                    &&& c.bits@.disjoint(s.done())
                    &&& c.min_mines <= c.max_mines <= c.size
                    &&& c.size == c.bits@.len()
                    &&& !c.useless()
                },
            forall|i: int, x: Constraint|
                0 <= i < s.n() ==> (#[trigger] s.by_cell@[i]@.contains(x) <==> x.bits@.contains(i) && (
                s.by_region@.contains(x) || s.solved@.contains(x))),
            forall|x: Constraint, y: Constraint|
                #[trigger] s.live(x) && #[trigger] s.live(y) && x.bits == y.bits ==> x == y,
    {
        assert forall|k: int| 0 <= k < s.by_region.len() implies {
            let c = #[trigger] s.by_region@[k];
            &&& c.bits@.disjoint(s.done())
            &&& c.min_mines <= c.max_mines <= c.size
            &&& c.size == c.bits@.len()
            &&& !c.useless()
        } by {
            assert(s.storable(s.by_region@[k]));
        }
        assert forall|x: Constraint| #[trigger] s.solved@.contains(x) implies x.solved()
            && !s.by_region@.contains(x) && !s.queued(x) by {
            let j = choose|j: int| 0 <= j < s.solved.len() && s.solved@[j] == x;
            assert(s.solved@[j].solved());
            if s.by_region@.contains(x) {
                let k = choose|k: int| 0 <= k < s.by_region.len() && s.by_region@[k] == x;
                assert(!s.by_region@[k].solved());
            }
            if s.queued(x) {
                let b = bucket_of(x, s.n());
                assert(s.queues()[b] == s.queue@[b]@);
                let i = choose|i: int| 0 <= i < s.queues()[b].len() && s.queues()[b][i] == x;
                assert(s.by_region@.contains(s.queue@[b]@[i]));
                let k = choose|k: int| 0 <= k < s.by_region.len() && s.by_region@[k] == x;
                assert(!s.by_region@[k].solved());
            }
        }
    }

    /// A puzzle without cells is finished from the start: with the solver
    /// not stopped, as `new` leaves it for such a puzzle, `step` reports
    /// `Finished`.
    pub proof fn lemma_empty_puzzle_done(s: Solver)
        requires
            s.wf(),
            s.n() == 0,
        ensures
            s.done() == cells(s.n()),
    {
        assert(s.done() =~= cells(0));
    }

    /// The constraint that adding `c` would store: `c` tightened by the
    /// unsolved constraint already on its region, if any.
    pub closed spec fn tightened(&self, c: Constraint) -> Constraint {
        if exists|k: Constraint| #[trigger] self.by_region@.contains(k) && k.bits == c.bits {
            let k = choose|k: Constraint| #[trigger] self.by_region@.contains(k) && k.bits == c.bits;
            Constraint {
                bits: c.bits,
                min_mines: max2(k.min_mines as int, c.min_mines as int) as usize,
                max_mines: min2(k.max_mines as int, c.max_mines as int) as usize,
                size: c.size,
            }
        } else {
            c
        }
    }

    /// The store already knows as much as `c` says.
    pub closed spec fn covers(&self, c: Constraint) -> bool {
        ||| exists|k: Constraint|
            #[trigger] self.by_region@.contains(k) && k.bits == c.bits && k.min_mines
                >= c.min_mines && k.max_mines <= c.max_mines
        ||| exists|k: Constraint|
            #[trigger] self.solved@.contains(k) && k.bits == c.bits && k.min_mines >= c.min_mines
                && k.max_mines <= c.max_mines
    }

    /// Everything but the constraint store is the same in both.
    pub closed spec fn same_frame(&self, other: &Solver) -> bool {
        &&& self.puzzle == other.puzzle
        &&& self.all_bits == other.all_bits
        &&& self.max_cells == other.max_cells
        &&& self.max_mines == other.max_mines
        &&& self.stop == other.stop
    }

    /// What adding `c` to the store `self` does: `new` is the store after,
    /// `r` the result.
    pub closed spec fn add_result(&self, c: Constraint, new: Solver, r: Result<(), String>) -> bool {
        if c.bits@ == Set::<int>::empty() || c.useless() || self.covers(c) {
            new == *self && r is Ok
        } else if self.solved_on(c) || self.tightened(c).min_mines > self.tightened(c).max_mines {
            new == *self && r is Err
        } else {
            &&& r is Ok
            &&& new.same_frame(self)
            &&& forall|x: Constraint|
                #[trigger] new.live(x) <==> ((self.live(x) && !(x.bits == c.bits && !x.solved()))
                    || x == self.tightened(c))
        }
    }

    /// The index in the region map of the constraint on `bits`, if any.
    fn find_region(&self, bits: &BitSet) -> (r: Option<usize>)
        ensures
            match r {
                Some(k) => k < self.by_region.len() && self.by_region@[k as int].bits == *bits,
                None => forall|k: int|
                    0 <= k < self.by_region.len() ==> self.by_region@[k].bits != *bits,
            },
    {
        let mut i: usize = 0;
        while i < self.by_region.len()
            invariant
                i <= self.by_region.len(),
                forall|k: int| 0 <= k < i ==> self.by_region@[k].bits != *bits,
            decreases self.by_region.len() - i,
        {
            if self.by_region[i].bits == *bits {
                return Some(i);
            }
            i = i + 1;
        }
        None
    }

    /// The work-queue bucket of `t`, ordered by size, then by slack.
    fn bucket(&self, t: &Constraint) -> (b: usize)
        requires
            self.wf(),
            self.storable(*t),
            !t.useless(),
        ensures
            b < self.queue.len(),
            b == bucket_of(*t, self.n()),
    {
        let n = self.by_cell.len();
        proof {
            lemma_int_range(0, n as int);
            lemma_len_subset(t.bits@, cells(n as int));
            let size = t.size as int;
            let slack = t.max_mines - t.min_mines;
            assert((size - 1) * n + slack < n * n) by (nonlinear_arith)
                requires
                    1 <= size <= n,
                    0 <= slack < size,
            ;
            assert((size - 1) * n <= n * n) by (nonlinear_arith)
                requires
                    1 <= size <= n,
            ;
        }
        (t.size - 1) * n + (t.max_mines - t.min_mines)
    }

    /// Stores `t`, which is not live unless solved.
    fn insert(&mut self, t: Constraint)
        requires
            old(self).wf(),
            old(self).storable(t),
            !t.useless(),
            !t.solved() ==> forall|k: int|
                0 <= k < old(self).by_region.len() ==> old(self).by_region@[k].bits != t.bits,
            forall|x: Constraint| #[trigger] old(self).live(x) && x.bits == t.bits ==> x == t,
        ensures
            final(self).wf(),
            final(self).same_frame(old(self)),
            forall|x: Constraint| #[trigger] final(self).live(x) <==> (old(self).live(x) || x == t),
            t.solved() ==> final(self).queue == old(self).queue && final(self).solved@.contains(t),
            !t.solved() ==> final(self).queues() == old(self).queues().update(
                bucket_of(t, old(self).n()),
                old(self).queues()[bucket_of(t, old(self).n())].push(t),
            ) && final(self).by_region@.contains(t),
            !t.solved() ==> final(self).queued(t),
            !final(self).stalled(),
    {
        let ghost prev = *self;
        if t.is_solved() {
            if position(&self.solved, &t).is_none() {
                self.solved.push(t);
                index_insert(&mut self.by_cell, t);
                proof {
                    assert forall|x: Constraint| #[trigger] self.solved@.contains(x) <==> (
                    prev.solved@.contains(x) || x == t) by {
                        lemma_push_contains(prev.solved@, t, x);
                    }
                    assert forall|x: Constraint| #[trigger] self.live(x) <==> (prev.live(x) || x == t) by {
                        assert(self.solved@.contains(x) <==> (prev.solved@.contains(x) || x == t));
                    }
                    assert forall|k: int| 0 <= k < self.solved.len() implies {
                        let c = #[trigger] self.solved@[k];
                        self.storable(c) && c.solved()
                    } by {
                        if k < prev.solved.len() {
                            assert(self.solved@[k] == prev.solved@[k]);
                        }
                    }
                }
            }
        } else {
            let b = self.bucket(&t);
            self.by_region.push(t);
            self.queue[b].push_back(t);
            index_insert(&mut self.by_cell, t);
            proof {
                assert(self.queues() =~= prev.queues().update(b as int, prev.queues()[b as int].push(t)));
                assert forall|d: int, i: int|
                    0 <= d < self.queue.len() && 0 <= i < self.queue@[d]@.len() implies {
                    let y = #[trigger] self.queue@[d]@[i];
                    self.by_region@.contains(y) && bucket_of(y, self.n()) == d
                } by {
                    lemma_push_contains(prev.by_region@, t, self.queue@[d]@[i]);
                    if d == b && i == prev.queue@[d]@.len() {
                    } else {
                        assert(self.queue@[d]@[i] == prev.queue@[d]@[i]);
                    }
                }
                assert forall|x: Constraint| #[trigger] self.by_region@.contains(x) <==> (
                prev.by_region@.contains(x) || x == t) by {
                    lemma_push_contains(prev.by_region@, t, x);
                }
                assert forall|x: Constraint| #[trigger] self.live(x) <==> (prev.live(x) || x == t) by {
                    assert(self.by_region@.contains(x) <==> (prev.by_region@.contains(x) || x == t));
                }
                assert forall|k: int| 0 <= k < self.by_region.len() implies {
                    let c = #[trigger] self.by_region@[k];
                    self.storable(c) && !c.solved() && !c.useless()
                } by {
                    if k < prev.by_region.len() {
                        assert(self.by_region@[k] == prev.by_region@[k]);
                    }
                }
                assert forall|j: int, k: int| 0 <= j < k < self.by_region.len() implies #[trigger] self.by_region@[j].bits
                    != #[trigger] self.by_region@[k].bits by {
                    if k < prev.by_region.len() {
                        assert(self.by_region@[k] == prev.by_region@[k]);
                    }
                    assert(self.by_region@[j] == prev.by_region@[j]);
                }
            }
        }
        proof {
            if !t.solved() {
                let b = bucket_of(t, prev.n());
                assert(self.queues()[b].contains(t)) by {
                    assert(self.queues()[b] == prev.queues()[b].push(t));
                    assert(self.queues()[b][prev.queues()[b].len() as int] == t);
                }
                assert(self.queued(t));
            } else {
                lemma_push_contains(prev.solved@, t, t);
            }
            self.lemma_inserted_not_stalled(t);
        }
    }

    /// A solved constraint waiting means some cell is pending.
    proof fn lemma_pending_nonempty(&self)
        requires
            self.wf(),
            self.solved.len() > 0,
        ensures
            self.pending_safe().union(self.pending_mines()) != Set::<int>::empty(),
    {
        let c = self.solved@[0];
        assert(self.storable(c));
        if c.bits@ == Set::<int>::empty() {
            assert(c.bits@.len() == 0);
        }
        assert(exists|i: int| c.bits@.contains(i)) by {
            if !exists|i: int| c.bits@.contains(i) {
                assert(c.bits@ =~= Set::<int>::empty());
            }
        }
        let i = choose|i: int| c.bits@.contains(i);
        assert(self.pending_safe().union(self.pending_mines()).contains(i));
    }

    /// A store holding `t` as a solved constraint, or queuing it, has work left.
    proof fn lemma_inserted_not_stalled(&self, t: Constraint)
        requires
            self.wf(),
            t.solved() ==> self.solved@.contains(t),
            !t.solved() ==> 0 <= bucket_of(t, self.n()) < self.queue.len() && self.queues()[bucket_of(
                t,
                self.n(),
            )].contains(t),
        ensures
            !self.stalled(),
    {
        if t.solved() {
            let j = choose|j: int| 0 <= j < self.solved.len() && self.solved@[j] == t;
        } else {
            let b = bucket_of(t, self.n());
            assert(self.queues()[b] == self.queue@[b]@);
            let j = choose|j: int| 0 <= j < self.queues()[b].len() && self.queues()[b][j] == t;
        }
    }

    /// Drops the unsolved constraint at `idx` of the region map.
    fn remove_unsolved(&mut self, idx: usize)
        requires
            old(self).wf(),
            idx < old(self).by_region.len(),
        ensures
            final(self).wf(),
            final(self).same_frame(old(self)),
            final(self).solved == old(self).solved,
            forall|x: Constraint| #[trigger] final(self).live(x) <==> (old(self).live(x) && x
                != old(self).by_region@[idx as int]),
            forall|x: Constraint| #[trigger] final(self).by_region@.contains(x) <==> (old(self).by_region@.contains(x) && x
                != old(self).by_region@[idx as int]),
            final(self).queues() == old(self).queues().update(
                bucket_of(old(self).by_region@[idx as int], old(self).n()),
                drop_all(
                    old(self).queues()[bucket_of(old(self).by_region@[idx as int], old(self).n())],
                    old(self).by_region@[idx as int],
                ),
            ),
    {
        let ghost prev = *self;
        let b = self.bucket(&self.by_region[idx]);
        let k = self.by_region.remove(idx);
        let kept = deque_without(&self.queue[b], &k);
        self.queue[b] = kept;
        index_remove(&mut self.by_cell, k);
        proof {
            assert(self.queues() =~= prev.queues().update(b as int, drop_all(prev.queues()[b as int], k)));
            assert forall|x: Constraint| #[trigger] self.by_region@.contains(x) <==> (
            prev.by_region@.contains(x) && x != k) by {
                if prev.by_region@.contains(x) && x != k {
                    let j = choose|j: int| 0 <= j < prev.by_region.len() && prev.by_region@[j] == x;
                    if j < idx {
                        assert(self.by_region@[j] == x);
                    } else {
                        assert(self.by_region@[j - 1] == x);
                    }
                }
                if self.by_region@.contains(x) {
                    let j = choose|j: int| 0 <= j < self.by_region.len() && self.by_region@[j] == x;
                    if j < idx {
                        assert(prev.by_region@[j] == x);
                        assert(prev.by_region@[j].bits != prev.by_region@[idx as int].bits);
                    } else {
                        assert(prev.by_region@[j + 1] == x);
                        assert(prev.by_region@[idx as int].bits != prev.by_region@[j + 1].bits);
                    }
                }
            }
            assert forall|x: Constraint| #[trigger] self.live(x) <==> (prev.live(x) && x != k) by {
                assert(self.by_region@.contains(x) <==> (prev.by_region@.contains(x) && x != k));
                if x == k {
                    assert(!k.solved());
                    if self.solved@.contains(x) {
                        let j = choose|j: int| 0 <= j < self.solved.len() && self.solved@[j] == x;
                        assert(self.solved@[j].solved());
                    }
                }
            }
            assert forall|k1: int| 0 <= k1 < self.by_region.len() implies {
                let c = #[trigger] self.by_region@[k1];
                self.storable(c) && !c.solved() && !c.useless()
            } by {
                if k1 < idx {
                    assert(self.by_region@[k1] == prev.by_region@[k1]);
                } else {
                    assert(self.by_region@[k1] == prev.by_region@[k1 + 1]);
                }
            }
            assert forall|j: int, k1: int| 0 <= j < k1 < self.by_region.len() implies #[trigger] self.by_region@[j].bits
                != #[trigger] self.by_region@[k1].bits by {
                let pj = if j < idx { j } else { j + 1 };
                let pk = if k1 < idx { k1 } else { k1 + 1 };
                assert(self.by_region@[j] == prev.by_region@[pj]);
                assert(self.by_region@[k1] == prev.by_region@[pk]);
            }
            assert forall|d: int, i: int|
                0 <= d < self.queue.len() && 0 <= i < self.queue@[d]@.len() implies {
                let y = #[trigger] self.queue@[d]@[i];
                self.by_region@.contains(y) && bucket_of(y, self.n()) == d
            } by {
                let y = self.queue@[d]@[i];
                if d == b {
                    assert(self.queue@[d]@ == drop_all(prev.queue@[d]@, k));
                    assert(self.queue@[d]@.contains(y));
                    lemma_drop_all(prev.queue@[d]@, k, y);
                    let w = choose|w: int| 0 <= w < prev.queue@[d]@.len() && prev.queue@[d]@[w] == y;
                    assert(prev.by_region@.contains(prev.queue@[d]@[w]));
                    assert(y != k);
                } else {
                    assert(self.queue@[d] == prev.queue@[d]);
                    assert(prev.by_region@.contains(prev.queue@[d]@[i]));
                    assert(y != k);
                }
            }
        }
    }

    /// Whether a solved constraint on the region of `c` is at least as tight.
    fn solved_covers(&self, c: &Constraint) -> (r: bool)
        ensures
            r == exists|k: Constraint|
                #[trigger] self.solved@.contains(k) && k.bits == c.bits && k.min_mines
                    >= c.min_mines && k.max_mines <= c.max_mines,
    {
        let mut i: usize = 0;
        while i < self.solved.len()
            invariant
                i <= self.solved.len(),
                forall|j: int|
                    0 <= j < i ==> !(self.solved@[j].bits == c.bits && self.solved@[j].min_mines
                        >= c.min_mines && self.solved@[j].max_mines <= c.max_mines),
            decreases self.solved.len() - i,
        {
            let k = self.solved[i];
            if k.bits == c.bits && k.min_mines >= c.min_mines && k.max_mines <= c.max_mines {
                assert(self.solved@.contains(k));
                return true;
            }
            i = i + 1;
        }
        proof {
            assert forall|k: Constraint| #[trigger] self.solved@.contains(k) implies !(k.bits == c.bits
                && k.min_mines >= c.min_mines && k.max_mines <= c.max_mines) by {
                let j = choose|j: int| 0 <= j < self.solved.len() && self.solved@[j] == k;
            }
        }
        false
    }

    /// Whether a solved constraint sits on the region `bits`.
    fn solved_shares(&self, bits: &BitSet) -> (r: bool)
        ensures
            r == exists|k: Constraint| #[trigger] self.solved@.contains(k) && k.bits == *bits,
    {
        let mut i: usize = 0;
        while i < self.solved.len()
            invariant
                i <= self.solved.len(),
                forall|j: int| 0 <= j < i ==> self.solved@[j].bits != *bits,
            decreases self.solved.len() - i,
        {
            if self.solved[i].bits == *bits {
                assert(self.solved@.contains(self.solved@[i as int]));
                return true;
            }
            i = i + 1;
        }
        proof {
            assert forall|k: Constraint| #[trigger] self.solved@.contains(k) implies k.bits != *bits by {
                let j = choose|j: int| 0 <= j < self.solved.len() && self.solved@[j] == k;
            }
        }
        false
    }

    /// The reason given when the bounds on `bits` contradict each other.
    fn inconsistency(&self, bits: &BitSet) -> (r: String)
        requires
            self.wf(),
        ensures
            r@ == inconsistency_text(bits@, self.n()),
    {
        let mut reason = String::from_str("inconsistent bounds on region ");
        let drawn = bits_to_string(*bits, self.by_cell.len());
        reason.append(drawn.as_str());
        reason
    }

    /// Adds `c` to the store: discards it when empty, useless or weaker than
    /// what is known; tightens the constraint already on its region;
    /// fails when the bounds then contradict each other.
    pub fn add_constraint(&mut self, c: Constraint) -> (r: Result<(), String>)
        requires
            old(self).wf(),
            c.wf(),
            c.bits@.subset_of(cells(old(self).n())),
            c.bits@.disjoint(old(self).done()),
        ensures
            final(self).wf(),
            old(self).add_result(c, *final(self), r),
            old(self).sound() && c.holds_of(old(self).mines()) ==> r is Ok && final(self).sound(),
            final(self).stalled() ==> old(self).stalled() && forall|x: Constraint|
                #[trigger] final(self).live(x) == old(self).live(x),
            r matches Err(reason) ==> reason@ == inconsistency_text(c.bits@, old(self).n()),
            final(self).n() == old(self).n(),
            final(self).done() == old(self).done(),
            final(self).mines() == old(self).mines(),
            final(self).stopped() == old(self).stopped(),
            forall|x: Constraint|
                #[trigger] final(self).live(x) && !old(self).live(x) ==> if x.solved() {
                    final(self).solved@.contains(x)
                } else {
                    final(self).queued(x) && final(self).by_region@.contains(x)
                },
            forall|x: Constraint|
                #[trigger] final(self).live(x) != old(self).live(x) ==> x.bits == c.bits,
    {
        let ghost prev = *self;
        proof {
            c.bits.lemma_bounded();
            lemma_set_subset_finite(c.bits@, c.bits@);
        }
        if !c.bits.any() || c.is_useless() || self.solved_covers(&c) {
            return Ok(());
        }
        if self.solved_shares(&c.bits) {
            proof {
                let k = choose|k: Constraint| #[trigger] prev.solved@.contains(k) && k.bits == c.bits;
                let j = choose|j: int| 0 <= j < prev.solved.len() && prev.solved@[j] == k;
                assert(prev.storable(prev.solved@[j]));
                if prev.sound() && c.holds_of(prev.mines()) {
                    assert(prev.live(k));
                    assert(k.bits@ == c.bits@);
                    assert(prev.covers(c));
                }
                assert forall|k2: Constraint| #[trigger] prev.by_region@.contains(k2) implies k2.bits
                    != c.bits by {
                    if k2.bits == c.bits {
                        assert(prev.live(k2) && prev.live(k));
                        let i = choose|i: int| 0 <= i < prev.by_region.len() && prev.by_region@[i] == k2;
                        assert(!prev.by_region@[i].solved());
                    }
                }
                assert(prev.solved_on(c));
            }
            return Err(self.inconsistency(&c.bits));
        }
        proof {
            if c.size == 0 {
                c.bits@.lemma_len0_is_empty();
            }
        }
        match self.find_region(&c.bits) {
            Some(idx) => {
                let k = self.by_region[idx];
                proof {
                    assert(prev.by_region@.contains(k));
                    assert forall|k2: Constraint| #[trigger] prev.by_region@.contains(k2) && k2.bits
                        == c.bits implies k2 == k by {
                        let j = choose|j: int| 0 <= j < prev.by_region.len() && prev.by_region@[j] == k2;
                        if j != idx {
                            assert(prev.by_region@[j].bits != prev.by_region@[idx as int].bits);
                        }
                    }
                    assert(prev.storable(k));
                }
                if k.min_mines >= c.min_mines && k.max_mines <= c.max_mines {
                    return Ok(());
                }
                let t = Constraint {
                    bits: c.bits,
                    min_mines: if k.min_mines >= c.min_mines {
                        k.min_mines
                    } else {
                        c.min_mines
                    },
                    max_mines: if k.max_mines <= c.max_mines {
                        k.max_mines
                    } else {
                        c.max_mines
                    },
                    size: c.size,
                };
                assert(t == prev.tightened(c));
                proof {
                    if prev.sound() && c.holds_of(prev.mines()) {
                        assert(prev.by_region@.contains(k));
                        assert(prev.live(k));
                        assert(k.holds_of(prev.mines()));
                    }
                }
                proof {
                    if prev.solved@.contains(c) {
                        let j = choose|j: int| 0 <= j < prev.solved.len() && prev.solved@[j] == c;
                        assert(prev.storable(prev.solved@[j]));
                    }
                }
                if t.min_mines > t.max_mines {
                    return Err(self.inconsistency(&c.bits));
                }
                self.remove_unsolved(idx);
                let ghost mid = *self;
                proof {
                    assert forall|j: int| 0 <= j < mid.by_region.len() implies mid.by_region@[j].bits
                        != t.bits by {
                        assert(mid.by_region@.contains(mid.by_region@[j]));
                    }
                }
                self.insert(t);
                proof {
                    if prev.sound() && c.holds_of(prev.mines()) {
                        assert forall|x: Constraint| #[trigger] self.live(x) implies x.holds_of(self.puzzle.base.mines@) by {
                            assert(self.live(x) <==> (mid.live(x) || x == t));
                            assert(mid.live(x) ==> prev.live(x));
                        }
                    }
                    assert forall|x: Constraint| #[trigger] self.live(x) <==> ((prev.live(x) && !(
                    x.bits == c.bits && !x.solved())) || x == t) by {
                        assert(self.live(x) <==> (mid.live(x) || x == t));
                        assert(mid.live(x) <==> (prev.live(x) && x != k));
                        if prev.live(x) && x.bits == c.bits && !x.solved() {
                            if prev.solved@.contains(x) {
                                let j = choose|j: int| 0 <= j < prev.solved.len() && prev.solved@[j] == x;
                                assert(prev.solved@[j].solved());
                            }
                        }
                    }
                }
                Ok(())
            },
            None => {
                proof {
                    assert(!exists|k2: Constraint| #[trigger] prev.by_region@.contains(k2) && k2.bits
                        == c.bits);
                    assert(prev.tightened(c) == c);
                }
                if c.min_mines > c.max_mines {
                    proof {
                        if prev.solved@.contains(c) {
                            let j = choose|j: int| 0 <= j < prev.solved.len() && prev.solved@[j] == c;
                            assert(prev.storable(prev.solved@[j]));
                        }
                    }
                    return Err(self.inconsistency(&c.bits));
                }
                proof {
                    if prev.solved@.contains(c) {
                        let j = choose|j: int| 0 <= j < prev.solved.len() && prev.solved@[j] == c;
                        assert(prev.solved@[j].solved());
                    }
                }
                self.insert(c);
                proof {
                    if prev.sound() && c.holds_of(prev.mines()) {
                        assert forall|x: Constraint| #[trigger] self.live(x) implies x.holds_of(self.puzzle.base.mines@) by {
                            assert(self.live(x) <==> (prev.live(x) || x == c));
                        }
                    }
                    assert forall|x: Constraint| #[trigger] self.live(x) <==> ((prev.live(x) && !(
                    x.bits == c.bits && !x.solved())) || x == c) by {
                        if prev.live(x) && x.bits == c.bits && !x.solved() {
                            if prev.by_region@.contains(x) {
                                let j = choose|j: int| 0 <= j < prev.by_region.len() && prev.by_region@[j] == x;
                            }
                            if prev.solved@.contains(x) {
                                let j = choose|j: int| 0 <= j < prev.solved.len() && prev.solved@[j] == x;
                                assert(prev.solved@[j].solved());
                            }
                        }
                    }
                }
                Ok(())
            },
        }
    }

    /// The store holds a live constraint on the region `part.0` whose bounds
    /// lie within `part.1 ..= part.2`.
    pub closed spec fn knows(&self, part: (Set<int>, int, int)) -> bool {
        exists|x: Constraint|
            #[trigger] self.live(x) && x.bits@ == part.0 && x.min_mines >= part.1 && x.max_mines
                <= part.2
    }

    /// `k` is one of the constraints that crossing `c` visits: live, other
    /// than `c`, sharing a cell with it, and through the size gate.
    pub closed spec fn partner(&self, c: Constraint, k: Constraint) -> bool {
        &&& self.live(k)
        &&& k != c
        &&& !k.bits@.disjoint(c.bits@)
        &&& !(k.max_mines > self.max_mines && k.size > self.max_cells)
    }

    /// Crossing `c` in this store left `new` knowing every constraint that
    /// crossing `c` with a partner yields, but for those that say nothing.
    pub closed spec fn crossed_into(&self, c: Constraint, new: Solver) -> bool {
        forall|k: Constraint|
            #[trigger] self.partner(c, k) ==> forall|q: int|
                0 <= q < cross_spec(c, k).len() ==> trivial(#[trigger] cross_spec(c, k)[q]) || new.knows(
                    cross_spec(c, k)[q],
                )
    }

    /// Adding a constraint forgets nothing the store knew, and afterwards the
    /// store knows the constraint unless it was empty or useless.
    pub proof fn lemma_add_knows(s0: Solver, c: Constraint, s1: Solver, r: Result<(), String>)
        requires
            s0.wf(),
            s0.add_result(c, s1, r),
            r is Ok,
        ensures
            forall|p: (Set<int>, int, int)| s0.knows(p) ==> #[trigger] s1.knows(p),
            c.bits@ != Set::<int>::empty() && !c.useless() ==> s1.knows(c.model()),
    {
        if c.bits@ == Set::<int>::empty() || c.useless() || s0.covers(c) {
            if c.bits@ != Set::<int>::empty() && !c.useless() {
                if exists|k: Constraint|
                    #[trigger] s0.by_region@.contains(k) && k.bits == c.bits && k.min_mines
                        >= c.min_mines && k.max_mines <= c.max_mines {
                    let k = choose|k: Constraint|
                        #[trigger] s0.by_region@.contains(k) && k.bits == c.bits && k.min_mines
                            >= c.min_mines && k.max_mines <= c.max_mines;
                    assert(s1.live(k));
                } else {
                    let k = choose|k: Constraint|
                        #[trigger] s0.solved@.contains(k) && k.bits == c.bits && k.min_mines
                            >= c.min_mines && k.max_mines <= c.max_mines;
                    assert(s1.live(k));
                }
            }
        } else {
            let t = s0.tightened(c);
            assert(s1.live(t));
            assert(t.bits == c.bits);
            if exists|k: Constraint| #[trigger] s0.by_region@.contains(k) && k.bits == c.bits {
                let k = choose|k: Constraint| #[trigger] s0.by_region@.contains(k) && k.bits == c.bits;
                assert forall|p: (Set<int>, int, int)| s0.knows(p) implies #[trigger] s1.knows(p) by {
                    let x = choose|x: Constraint|
                        #[trigger] s0.live(x) && x.bits@ == p.0 && x.min_mines >= p.1 && x.max_mines
                            <= p.2;
                    if s1.live(x) {
                    } else {
                        assert(x.bits == c.bits && !x.solved());
                        if s0.solved@.contains(x) {
                            let j = choose|j: int| 0 <= j < s0.solved.len() && s0.solved@[j] == x;
                            assert(s0.solved@[j].solved());
                        }
                        assert(s0.by_region@.contains(x));
                        let a = choose|a: int| 0 <= a < s0.by_region.len() && s0.by_region@[a] == x;
                        let b = choose|b: int| 0 <= b < s0.by_region.len() && s0.by_region@[b] == k;
                        if a < b {
                            assert(s0.by_region@[a].bits != s0.by_region@[b].bits);
                        } else if b < a {
                            assert(s0.by_region@[b].bits != s0.by_region@[a].bits);
                        }
                        assert(x == k);
                    }
                }
            } else {
                assert forall|p: (Set<int>, int, int)| s0.knows(p) implies #[trigger] s1.knows(p) by {
                    let x = choose|x: Constraint|
                        #[trigger] s0.live(x) && x.bits@ == p.0 && x.min_mines >= p.1 && x.max_mines
                            <= p.2;
                    if !s1.live(x) {
                        assert(x.bits == c.bits && !x.solved());
                        if s0.solved@.contains(x) {
                            let j = choose|j: int| 0 <= j < s0.solved.len() && s0.solved@[j] == x;
                            assert(s0.solved@[j].solved());
                        }
                        assert(s0.by_region@.contains(x));
                    }
                }
            }
        }
    }

    /// A solver whose store fields are those of a well-formed one keeps its
    /// live set and the uniqueness of regions.
    proof fn lemma_same_store(a: Solver, b: Solver)
        requires
            a.live_unique(),
            b.by_region == a.by_region,
            b.solved == a.solved,
        ensures
            forall|x: Constraint| #[trigger] b.live(x) == a.live(x),
            b.live_unique(),
    {
        assert forall|x: Constraint, y: Constraint|
            #[trigger] b.live(x) && #[trigger] b.live(y) && x.bits == y.bits implies x == y by {
            assert(a.live(x) && a.live(y));
        }
    }

    /// Adding a constraint that the store already knows, or that says
    /// nothing, changes nothing.
    proof fn lemma_known_add_noop(s0: Solver, c: Constraint, s1: Solver, r: Result<(), String>)
        requires
            s0.wf(),
            c.wf(),
            trivial(c.model()) || s0.knows(c.model()),
            s0.add_result(c, s1, r),
        ensures
            s1 == s0,
            r is Ok,
    {
        if trivial(c.model()) {
            if c.bits@ != Set::<int>::empty() {
                assert(c.useless());
            }
        } else {
            let x = choose|x: Constraint|
                #[trigger] s0.live(x) && x.bits@ == c.bits@ && x.min_mines >= c.min_mines
                    && x.max_mines <= c.max_mines;
            BitSet::lemma_ext(x.bits, c.bits);
            assert(s0.covers(c));
        }
    }

    /// Knowledge held by constraints that stay live is kept.
    proof fn lemma_knows_kept(a: Solver, b: Solver, p: (Set<int>, int, int))
        requires
            a.knows(p),
            forall|y: Constraint| #[trigger] a.live(y) && y.bits@ == p.0 ==> b.live(y),
        ensures
            b.knows(p),
    {
        let y = choose|y: Constraint|
            #[trigger] a.live(y) && y.bits@ == p.0 && y.min_mines >= p.1 && y.max_mines <= p.2;
        assert(b.live(y));
    }

    /// Revealing the safe `cell` keeps the exact count on any region known:
    /// over the cells still open, before and after.
    proof fn lemma_count_after_reveal(a: Solver, b: Solver, region: Set<int>, cell: int)
        requires
            a.wf(),
            region.subset_of(cells(a.n())),
            !a.mines().contains(cell),
            !a.done().contains(cell),
            b.done() == a.done().insert(cell),
            b.mines() == a.mines(),
            trivial(count_model(region.difference(a.done()), a.mines())) || a.knows(
                count_model(region.difference(a.done()), a.mines()),
            ),
            forall|x: Constraint|
                #[trigger] a.live(x) && x.bits@.contains(cell) ==> trivial(shrunk_model(x, cell, false))
                    || b.knows(shrunk_model(x, cell, false)),
            forall|p: (Set<int>, int, int)| a.knows(p) && !p.0.contains(cell) ==> #[trigger] b.knows(p),
        ensures
            trivial(count_model(region.difference(b.done()), b.mines())) || b.knows(
                count_model(region.difference(b.done()), b.mines()),
            ),
    {
        let m = a.mines();
        let open0 = region.difference(a.done());
        let open1 = region.difference(b.done());
        lemma_int_range(0, a.n());
        lemma_len_subset(open0, cells(a.n()));
        lemma_set_subset_finite(open0, open0.intersect(m));
        let p0 = count_model(open0, m);
        let p1 = count_model(open1, m);
        if !open0.contains(cell) {
            assert(open1 =~= open0);
            if !trivial(p0) {
                assert(a.knows(p0));
            }
        } else {
            assert(open1 =~= open0.remove(cell));
            assert(open1.intersect(m) =~= open0.intersect(m));
            assert(open0.intersect(m).subset_of(open1));
            lemma_len_subset(open0.intersect(m), open1);
            if trivial(p0) {
                if open0 == Set::<int>::empty() {
                    assert(open0.contains(cell));
                }
                open0.lemma_len0_is_empty();
            }
            let x = choose|x: Constraint|
                #[trigger] a.live(x) && x.bits@ == p0.0 && x.min_mines >= p0.1 && x.max_mines <= p0.2;
            if a.by_region@.contains(x) {
                let k = choose|k: int| 0 <= k < a.by_region.len() && a.by_region@[k] == x;
                assert(a.storable(a.by_region@[k]));
            } else {
                let k = choose|k: int| 0 <= k < a.solved.len() && a.solved@[k] == x;
                assert(a.storable(a.solved@[k]));
            }
            let q = shrunk_model(x, cell, false);
            assert(q.0 == open1);
            if trivial(q) {
                if q.0 != Set::<int>::empty() {
                    open1.lemma_len0_is_empty();
                }
            } else {
                let y = choose|y: Constraint|
                    #[trigger] b.live(y) && y.bits@ == q.0 && y.min_mines >= q.1 && y.max_mines <= q.2;
                assert(b.knows(p1));
            }
        }
    }

    /// Adding a constraint a second time leaves the store as the first
    /// addition left it.
    pub proof fn lemma_add_idempotent(
        s0: Solver,
        c: Constraint,
        s1: Solver,
        r1: Result<(), String>,
        s2: Solver,
        r2: Result<(), String>,
    )
        requires
            s0.wf(),
            s1.wf(),
            c.wf(),
            s0.add_result(c, s1, r1),
            r1 is Ok,
            s1.add_result(c, s2, r2),
        ensures
            s2 == s1,
            r2 is Ok,
    {
        if !(c.bits@ == Set::<int>::empty() || c.useless() || s0.covers(c)) {
            let t = s0.tightened(c);
            assert(s1.live(t));
            if !t.solved() {
                if s1.solved@.contains(t) {
                    let j = choose|j: int| 0 <= j < s1.solved.len() && s1.solved@[j] == t;
                    assert(s1.solved@[j].solved());
                }
                assert(s1.by_region@.contains(t));
                assert(s1.covers(c));
            } else {
                assert(t == c);
                if s1.by_region@.contains(t) {
                    let j = choose|j: int| 0 <= j < s1.by_region.len() && s1.by_region@[j] == t;
                    assert(!s1.by_region@[j].solved());
                }
                assert(s1.solved@.contains(c));
                assert forall|x: Constraint| #[trigger] s1.by_region@.contains(x) implies x.bits
                    != c.bits by {
                    let j = choose|j: int| 0 <= j < s1.by_region.len() && s1.by_region@[j] == x;
                    assert(!s1.by_region@[j].solved());
                    assert(s1.live(x));
                }
                assert(s1.covers(c));
            }
        }
    }

    /// Adding a constraint that is weaker than a live constraint on its
    /// region changes nothing.
    pub proof fn lemma_add_weaker(s0: Solver, k: Constraint, c: Constraint, s1: Solver, r: Result<(), String>)
        requires
            s0.live(k),
            c.bits == k.bits,
            c.min_mines <= k.min_mines,
            k.max_mines <= c.max_mines,
            s0.add_result(c, s1, r),
        ensures
            s1 == s0,
            r is Ok,
    {
        assert(s0.covers(c));
    }

    /// Removes `q` from the store if it is live there; tells whether it was.
    fn take_live(&mut self, q: Constraint) -> (r: bool)
        requires
            old(self).wf(),
        ensures
            final(self).wf(),
            final(self).same_frame(old(self)),
            r == old(self).live(q),
            forall|x: Constraint| #[trigger] final(self).live(x) <==> (old(self).live(x) && x != q),
    {
        let ghost prev = *self;
        if q.is_solved() {
            proof {
                if prev.by_region@.contains(q) {
                    let j = choose|j: int| 0 <= j < prev.by_region.len() && prev.by_region@[j] == q;
                    assert(!prev.by_region@[j].solved());
                }
            }
            if position(&self.solved, &q).is_some() {
                self.remove_solved(q);
                true
            } else {
                false
            }
        } else {
            proof {
                if prev.solved@.contains(q) {
                    let j = choose|j: int| 0 <= j < prev.solved.len() && prev.solved@[j] == q;
                    assert(prev.solved@[j].solved());
                }
            }
            match self.find_region(&q.bits) {
                Some(idx) => {
                    if self.by_region[idx] == q {
                        self.remove_unsolved(idx);
                        true
                    } else {
                        proof {
                            if prev.by_region@.contains(q) {
                                let j = choose|j: int| 0 <= j < prev.by_region.len() && prev.by_region@[j] == q;
                                if j != idx {
                                    assert(prev.by_region@[j].bits != prev.by_region@[idx as int].bits);
                                }
                            }
                        }
                        false
                    }
                },
                None => {
                    proof {
                        if prev.by_region@.contains(q) {
                            let j = choose|j: int| 0 <= j < prev.by_region.len() && prev.by_region@[j] == q;
                        }
                    }
                    false
                },
            }
        }
    }

    /// The same puzzle, settings and stop reason in both.
    pub closed spec fn same_config(&self, other: &Solver) -> bool {
        &&& self.puzzle.base == other.puzzle.base
        &&& self.all_bits == other.all_bits
        &&& self.max_cells == other.max_cells
        &&& self.max_mines == other.max_mines
        &&& self.stop == other.stop
    }

    /// Removes every live constraint on `cell` and adds it back without the
    /// cell: with the same bounds capped by the new size when the cell is
    /// safe, with one mine fewer when it is a mine.
    fn shrink_around(&mut self, cell: usize, is_mine: bool) -> (r: Result<(), String>)
        requires
            old(self).wf(),
            cell < old(self).n(),
        ensures
            final(self).wf(),
            final(self).same_config(old(self)),
            final(self).puzzle == old(self).puzzle,
            r is Ok ==> forall|x: Constraint| #[trigger] final(self).live(x) ==> !x.bits@.contains(
                cell as int),
            old(self).sound() && is_mine == old(self).mines().contains(cell as int) ==> r is Ok
                && final(self).sound(),
            (exists|x: Constraint|
                #[trigger] old(self).live(x) && x.bits@.contains(cell as int) && blocks(x, is_mine))
                ==> r is Err,
            r is Ok ==> forall|x: Constraint|
                #[trigger] old(self).live(x) && x.bits@.contains(cell as int) ==> trivial(
                    shrunk_model(x, cell as int, is_mine),
                ) || final(self).knows(shrunk_model(x, cell as int, is_mine)),
            r is Ok ==> forall|p: (Set<int>, int, int)|
                old(self).knows(p) && !p.0.contains(cell as int) ==> #[trigger] final(self).knows(p),
            forall|x: Constraint|
                #[trigger] final(self).live(x) != old(self).live(x) ==> from_shrink(
                    *old(self),
                    cell as int,
                    x,
                ),
    {
        let ghost prev = *self;
        let ghost expect = prev.sound() && is_mine == prev.mines().contains(cell as int);
        let snapshot = copied(&self.by_cell[cell]);
        proof {
            assert forall|k: int| 0 <= k < snapshot.len() implies (#[trigger] snapshot@[k]).bits@.contains(
                cell as int) by {
                assert(prev.by_cell@[cell as int]@.contains(snapshot@[k]));
            }
            assert forall|x: Constraint| #[trigger] prev.live(x) && x.bits@.contains(cell as int)
                implies snapshot@.subrange(0, snapshot.len() as int).contains(x) by {
                assert(prev.by_cell@[cell as int]@.contains(x));
                assert(snapshot@.subrange(0, snapshot.len() as int) == snapshot@);
            }
            assert(snapshot@.take(0) =~= Seq::<Constraint>::empty());
        }
        let mut j: usize = 0;
        while j < snapshot.len()
            invariant
                j <= snapshot.len(),
                self.wf(),
                prev == *old(self),
                self.same_frame(&prev),
                expect == (prev.sound() && is_mine == prev.mines().contains(cell as int)),
                expect ==> self.sound(),
                forall|k: int|
                    0 <= k < snapshot.len() ==> (#[trigger] snapshot@[k]).bits@.contains(cell as int),
                forall|x: Constraint| #[trigger] self.live(x) && x.bits@.contains(cell as int)
                    ==> snapshot@.subrange(j as int, snapshot.len() as int).contains(x),
                forall|x: Constraint|
                    #[trigger] prev.live(x) && x.bits@.contains(cell as int) && !snapshot@.take(
                        j as int,
                    ).contains(x) ==> self.live(x),
                forall|x: Constraint|
                    #[trigger] prev.live(x) && x.bits@.contains(cell as int) && snapshot@.take(
                        j as int,
                    ).contains(x) ==> !blocks(x, is_mine) && (trivial(
                        shrunk_model(x, cell as int, is_mine),
                    ) || self.knows(shrunk_model(x, cell as int, is_mine))),
                forall|p: (Set<int>, int, int)|
                    prev.knows(p) && !p.0.contains(cell as int) ==> #[trigger] self.knows(p),
                forall|x: Constraint|
                    #[trigger] self.live(x) != prev.live(x) ==> from_shrink(prev, cell as int, x),
            decreases snapshot.len() - j,
        {
            let q = snapshot[j];
            let ghost before = *self;
            let ghost done_part = snapshot@.take(j as int);
            assert(snapshot@.take(j + 1) == done_part.push(q));
            let ghost rest = snapshot@.subrange(j as int, snapshot.len() as int);
            let ghost tail = snapshot@.subrange(j + 1, snapshot.len() as int);
            assert(rest == seq![q] + tail);
            proof {
                assert forall|x: Constraint| rest.contains(x) && x != q implies tail.contains(x) by {
                    let k = choose|k: int| 0 <= k < rest.len() && rest[k] == x;
                    assert(k != 0);
                    assert(tail[k - 1] == x);
                }
            }
            if self.take_live(q) {
                proof {
                    if before.by_region@.contains(q) {
                        let k = choose|k: int| 0 <= k < before.by_region.len() && before.by_region@[k] == q;
                        assert(before.storable(before.by_region@[k]));
                    } else {
                        let k = choose|k: int| 0 <= k < before.solved.len() && before.solved@[k] == q;
                        assert(before.storable(before.solved@[k]));
                    }
                    q.bits.lemma_bounded();
                    lemma_remove_count(q.bits@, self.puzzle.base.mines@, cell as int);
                    if expect {
                        assert(before.live(q));
                        assert(q.holds_of(self.puzzle.base.mines@));
                        assert forall|x: Constraint| #[trigger] self.live(x) implies x.holds_of(
                            self.puzzle.base.mines@,
                        ) by {
                            assert(before.live(x));
                        }
                        if is_mine {
                            assert(q.bits@.intersect(self.puzzle.base.mines@).contains(cell as int));
                            lemma_set_subset_finite(q.bits@, q.bits@.intersect(self.puzzle.base.mines@));
                            if q.bits@.intersect(self.puzzle.base.mines@).len() == 0 {
                                q.bits@.intersect(self.puzzle.base.mines@).lemma_len0_is_empty();
                            }
                        }
                    }
                }
                if !is_mine && q.min_mines == q.size {
                    let mut reason = String::from_str("revealed a safe cell in a region of mines: ");
                    let drawn = bits_to_string(q.bits, self.by_cell.len());
                    reason.append(drawn.as_str());
                    return Err(reason);
                }
                if is_mine && q.max_mines == 0 {
                    let mut reason = String::from_str("flagged a mine in a region with no mines: ");
                    let drawn = bits_to_string(q.bits, self.by_cell.len());
                    reason.append(drawn.as_str());
                    return Err(reason);
                }
                let mut bits = q.bits;
                bits.set(cell, false);
                let size = q.size - 1;
                let shrunk = if is_mine {
                    Constraint {
                        bits,
                        min_mines: if q.min_mines > 0 {
                            q.min_mines - 1
                        } else {
                            0
                        },
                        max_mines: q.max_mines - 1,
                        size,
                    }
                } else {
                    Constraint {
                        bits,
                        min_mines: q.min_mines,
                        max_mines: if q.max_mines < size {
                            q.max_mines
                        } else {
                            size
                        },
                        size,
                    }
                };
                let ghost mid = *self;
                proof {
                    assert(shrunk.bits@ == q.bits@.remove(cell as int));
                    if expect {
                        assert(shrunk.holds_of(self.puzzle.base.mines@));
                    }
                }
                match self.add_constraint(shrunk) {
                    Ok(()) => {},
                    Err(reason) => {
                        return Err(reason);
                    },
                }
                proof {
                    assert forall|x: Constraint| #[trigger] self.live(x) && x.bits@.contains(
                        cell as int) implies tail.contains(x) by {
                        if !(shrunk.bits@ == Set::<int>::empty() || shrunk.useless() || mid.covers(
                            shrunk,
                        )) {
                            assert(mid.tightened(shrunk).bits == shrunk.bits);
                        }
                        assert(mid.live(x));
                    }
                    Solver::lemma_add_knows(mid, shrunk, *self, Ok(()));
                    assert(prev.live(q)) by {
                        if !prev.live(q) {
                            assert(before.live(q) != prev.live(q));
                            assert(from_shrink(prev, cell as int, q));
                            if !(prev.live(q) && q.bits@.contains(cell as int)) {
                                let q0 = choose|q0: Constraint|
                                    #[trigger] prev.live(q0) && q0.bits@.contains(cell as int) && q.bits@
                                        == q0.bits@.remove(cell as int);
                            }
                        }
                    }
                    assert forall|x: Constraint| #[trigger] self.live(x) != prev.live(x) implies from_shrink(
                        prev,
                        cell as int,
                        x,
                    ) by {
                        if before.live(x) == prev.live(x) {
                            if mid.live(x) != before.live(x) {
                                assert(x == q);
                            } else {
                                assert(self.live(x) != mid.live(x));
                                assert(x.bits == shrunk.bits);
                                assert(prev.live(q) && q.bits@.contains(cell as int) && x.bits@
                                    == q.bits@.remove(cell as int));
                            }
                        }
                    }
                    assert(shrunk.model() == shrunk_model(q, cell as int, is_mine));
                    // constraints on the cell other than `q` are untouched
                    assert forall|x: Constraint| #[trigger] mid.live(x) && x.bits@.contains(cell as int)
                        implies self.live(x) by {
                        if !(shrunk.bits@ == Set::<int>::empty() || shrunk.useless() || mid.covers(
                            shrunk,
                        )) {
                            assert(mid.tightened(shrunk).bits == shrunk.bits);
                            assert(x.bits != shrunk.bits);
                        }
                    }
                    assert forall|p: (Set<int>, int, int)| before.knows(p) && !p.0.contains(cell as int)
                        implies #[trigger] self.knows(p) by {
                        assert forall|y: Constraint| #[trigger] before.live(y) && y.bits@ == p.0
                            implies mid.live(y) by {
                            assert(y != q);
                        }
                        Solver::lemma_knows_kept(before, mid, p);
                    }
                    assert forall|x: Constraint|
                        #[trigger] prev.live(x) && x.bits@.contains(cell as int) && !snapshot@.take(
                            j + 1,
                        ).contains(x) implies self.live(x) by {
                        lemma_push_contains(done_part, q, x);
                        assert(before.live(x));
                        assert(mid.live(x));
                    }
                    assert forall|x: Constraint|
                        #[trigger] prev.live(x) && x.bits@.contains(cell as int) && snapshot@.take(
                            j + 1,
                        ).contains(x) implies !blocks(x, is_mine) && (trivial(
                            shrunk_model(x, cell as int, is_mine),
                        ) || self.knows(shrunk_model(x, cell as int, is_mine))) by {
                        lemma_push_contains(done_part, q, x);
                        if x != q {
                            let p = shrunk_model(x, cell as int, is_mine);
                            if !trivial(p) {
                                assert(before.knows(p));
                                assert(!p.0.contains(cell as int));
                            }
                        }
                    }
                }
            } else {
                proof {
                    assert forall|x: Constraint| #[trigger] self.live(x) && x.bits@.contains(
                        cell as int) implies tail.contains(x) by {
                        assert(before.live(x));
                    }
                    assert forall|p: (Set<int>, int, int)| before.knows(p) implies #[trigger] self.knows(p) by {
                        assert forall|y: Constraint| #[trigger] before.live(y) && y.bits@ == p.0
                            implies self.live(y) by {}
                        Solver::lemma_knows_kept(before, *self, p);
                    }
                    assert forall|x: Constraint| #[trigger] self.live(x) != prev.live(x) implies from_shrink(
                        prev,
                        cell as int,
                        x,
                    ) by {
                        assert(self.live(x) == before.live(x));
                    }
                    assert forall|x: Constraint|
                        #[trigger] prev.live(x) && x.bits@.contains(cell as int) && !snapshot@.take(
                            j + 1,
                        ).contains(x) implies self.live(x) by {
                        lemma_push_contains(done_part, q, x);
                        assert(before.live(x));
                    }
                    assert forall|x: Constraint|
                        #[trigger] prev.live(x) && x.bits@.contains(cell as int) && snapshot@.take(
                            j + 1,
                        ).contains(x) implies !blocks(x, is_mine) && (trivial(
                            shrunk_model(x, cell as int, is_mine),
                        ) || self.knows(shrunk_model(x, cell as int, is_mine))) by {
                        lemma_push_contains(done_part, q, x);
                        if x == q && !done_part.contains(x) {
                            assert(before.live(x));
                        }
                        let p = shrunk_model(x, cell as int, is_mine);
                        if !trivial(p) {
                            assert(before.knows(p));
                        }
                    }
                }
            }
            j = j + 1;
        }
        proof {
            assert forall|x: Constraint| #[trigger] self.live(x) implies !x.bits@.contains(cell as int) by {
                if x.bits@.contains(cell as int) {
                    assert(snapshot@.subrange(snapshot.len() as int, snapshot.len() as int).len() == 0);
                }
            }
            assert(snapshot@.take(snapshot.len() as int) == snapshot@);
            assert forall|x: Constraint| #[trigger] prev.live(x) && x.bits@.contains(cell as int)
                implies snapshot@.take(snapshot.len() as int).contains(x) by {
                assert(prev.by_cell@[cell as int]@.contains(x));
            }
        }
        Ok(())
    }

    /// The cells that hold a mine.
    pub open spec fn mines(&self) -> Set<int> {
        self.puzzle.base.mines@
    }

    /// Reveals the safe `cell`: takes it out of every constraint, then adds
    /// the count of its neighbors unless its content is hidden.
    fn reveal_square(&mut self, cell: usize) -> (r: Result<(), String>)
        requires
            old(self).wf(),
            cell < old(self).n(),
        ensures
            final(self).wf(),
            final(self).same_config(old(self)),
            old(self).done().contains(cell as int) || old(self).mines().contains(cell as int) ==> r is Err,
            r is Ok ==> final(self).revealed() == old(self).revealed().insert(cell as int),
            r is Err ==> final(self).revealed() == old(self).revealed() || final(self).revealed()
                == old(self).revealed().insert(cell as int),
            final(self).flagged() == old(self).flagged(),
            old(self).sound() && !old(self).done().contains(cell as int) && !old(self).mines().contains(
                cell as int,
            ) ==> r is Ok && final(self).sound(),
            (exists|x: Constraint|
                #[trigger] old(self).live(x) && x.bits@.contains(cell as int) && blocks(x, false))
                ==> r is Err,
            r is Ok ==> forall|x: Constraint|
                #[trigger] old(self).live(x) && x.bits@.contains(cell as int) ==> trivial(
                    shrunk_model(x, cell as int, false),
                ) || final(self).knows(shrunk_model(x, cell as int, false)),
            r is Ok ==> forall|p: (Set<int>, int, int)|
                old(self).knows(p) && !p.0.contains(cell as int) ==> #[trigger] final(self).knows(p),
            r is Ok && !old(self).base().unknowns@.contains(cell as int) ==> trivial(
                count_model(
                    old(self).base().neighbors@[cell as int]@.difference(final(self).done()),
                    old(self).mines(),
                ),
            ) || final(self).knows(
                count_model(
                    old(self).base().neighbors@[cell as int]@.difference(final(self).done()),
                    old(self).mines(),
                ),
            ),
            forall|x: Constraint|
                #[trigger] final(self).live(x) != old(self).live(x) ==> from_shrink(
                    *old(self),
                    cell as int,
                    x,
                ) || x.bits@ == old(self).base().neighbors@[cell as int]@.difference(final(self).done()),
    {
        if self.puzzle.revealed.get(cell) || self.puzzle.flagged.get(cell) {
            return Err(String::from_str("revealed a cell that was already revealed or flagged"));
        }
        if self.puzzle.base.mines.get(cell) {
            return Err(String::from_str("revealed a mine"));
        }
        let ghost prev = *self;
        match self.shrink_around(cell, false) {
            Ok(()) => {},
            Err(reason) => {
                return Err(reason);
            },
        }
        let ghost mid = *self;
        self.puzzle.revealed.set(cell, true);
        proof {
            Solver::lemma_same_store(mid, *self);
            assert forall|p: (Set<int>, int, int)| mid.knows(p) implies #[trigger] self.knows(p) by {
                assert forall|y: Constraint| #[trigger] mid.live(y) && y.bits@ == p.0 implies self.live(y) by {}
                Solver::lemma_knows_kept(mid, *self, p);
            }

            if mid.sound() {
                assert forall|x: Constraint| #[trigger] self.live(x) implies x.holds_of(
                    self.puzzle.base.mines@,
                ) by {
                    assert(mid.live(x));
                }
            }
            assert(self.puzzle.done() == mid.puzzle.done().insert(cell as int));
            assert forall|k: int| 0 <= k < self.by_region.len() implies {
                let c = #[trigger] self.by_region@[k];
                self.storable(c) && !c.solved() && !c.useless()
            } by {
                assert(mid.storable(self.by_region@[k]));
                assert(mid.live(self.by_region@[k]));
            }
            assert forall|k: int| 0 <= k < self.solved.len() implies {
                let c = #[trigger] self.solved@[k];
                self.storable(c) && c.solved()
            } by {
                assert(mid.storable(self.solved@[k]));
                assert(mid.live(self.solved@[k]));
            }
            assert forall|i: int, x: Constraint| 0 <= i < self.n() implies (#[trigger] self.by_cell@[i]@.contains(x) <==> (
            x.bits@.contains(i) && self.live(x))) by {
                assert(mid.by_cell@[i]@.contains(x) <==> (x.bits@.contains(i) && mid.live(x)));
            }
        }
        if !self.puzzle.base.unknowns.get(cell) {
            let around = get_neighbor_constraint(&self.puzzle, cell);
            proof {
                assert(self.puzzle.base.neighbors@[cell as int]@.subset_of(cells(self.n())));
                assert(around.holds_of(self.puzzle.base.mines@));
            }
            let ghost seen = *self;
            match self.add_constraint(around) {
                Ok(()) => {},
                Err(reason) => {
                    return Err(reason);
                },
            }
            proof {
                Solver::lemma_add_knows(seen, around, *self, Ok(()));
                assert(around.model() == count_model(
                    self.puzzle.base.neighbors@[cell as int]@.difference(self.done()),
                    self.mines(),
                ));
            }
        }
        Ok(())
    }

    /// Flags the mine `cell`: takes it out of every constraint, counting one
    /// mine fewer in each.
    fn flag_square(&mut self, cell: usize) -> (r: Result<(), String>)
        requires
            old(self).wf(),
            cell < old(self).n(),
        ensures
            final(self).wf(),
            final(self).same_config(old(self)),
            old(self).done().contains(cell as int) || !old(self).mines().contains(cell as int) ==> r is Err,
            r is Ok ==> final(self).flagged() == old(self).flagged().insert(cell as int),
            r is Err ==> final(self).flagged() == old(self).flagged(),
            final(self).revealed() == old(self).revealed(),
            old(self).sound() && !old(self).done().contains(cell as int) && old(self).mines().contains(
                cell as int,
            ) ==> r is Ok && final(self).sound(),
            (exists|x: Constraint|
                #[trigger] old(self).live(x) && x.bits@.contains(cell as int) && blocks(x, true))
                ==> r is Err,
            r is Ok ==> forall|x: Constraint|
                #[trigger] old(self).live(x) && x.bits@.contains(cell as int) ==> trivial(
                    shrunk_model(x, cell as int, true),
                ) || final(self).knows(shrunk_model(x, cell as int, true)),
            r is Ok ==> forall|p: (Set<int>, int, int)|
                old(self).knows(p) && !p.0.contains(cell as int) ==> #[trigger] final(self).knows(p),
            forall|x: Constraint|
                #[trigger] final(self).live(x) != old(self).live(x) ==> from_shrink(
                    *old(self),
                    cell as int,
                    x,
                ),
    {
        if self.puzzle.revealed.get(cell) || self.puzzle.flagged.get(cell) {
            return Err(String::from_str("flagged a cell that was already revealed or flagged"));
        }
        if !self.puzzle.base.mines.get(cell) {
            return Err(String::from_str("flagged a safe cell"));
        }
        match self.shrink_around(cell, true) {
            Ok(()) => {},
            Err(reason) => {
                return Err(reason);
            },
        }
        let ghost mid = *self;
        self.puzzle.flagged.set(cell, true);
        proof {
            Solver::lemma_same_store(mid, *self);
            assert forall|p: (Set<int>, int, int)| mid.knows(p) implies #[trigger] self.knows(p) by {
                assert forall|y: Constraint| #[trigger] mid.live(y) && y.bits@ == p.0 implies self.live(y) by {}
                Solver::lemma_knows_kept(mid, *self, p);
            }

            if mid.sound() {
                assert forall|x: Constraint| #[trigger] self.live(x) implies x.holds_of(
                    self.puzzle.base.mines@,
                ) by {
                    assert(mid.live(x));
                }
            }
            assert(self.puzzle.done() == mid.puzzle.done().insert(cell as int));
            assert forall|k: int| 0 <= k < self.by_region.len() implies {
                let c = #[trigger] self.by_region@[k];
                self.storable(c) && !c.solved() && !c.useless()
            } by {
                assert(mid.storable(self.by_region@[k]));
                assert(mid.live(self.by_region@[k]));
            }
            assert forall|k: int| 0 <= k < self.solved.len() implies {
                let c = #[trigger] self.solved@[k];
                self.storable(c) && c.solved()
            } by {
                assert(mid.storable(self.solved@[k]));
                assert(mid.live(self.solved@[k]));
            }
            assert forall|i: int, x: Constraint| 0 <= i < self.n() implies (#[trigger] self.by_cell@[i]@.contains(x) <==> (
            x.bits@.contains(i) && self.live(x))) by {
                assert(mid.by_cell@[i]@.contains(x) <==> (x.bits@.contains(i) && mid.live(x)));
            }
        }
        Ok(())
    }

    /// Crosses the live constraint `c` with every live constraint that shares
    /// a cell with it and passes the size gate, and adds what comes out.
    fn add_all_crosses(&mut self, c: Constraint) -> (r: Result<(), String>)
        requires
            old(self).wf(),
            old(self).live(c),
        ensures
            final(self).wf(),
            final(self).same_config(old(self)),
            final(self).puzzle == old(self).puzzle,
            old(self).sound() ==> r is Ok && final(self).sound(),
            forall|p: (Set<int>, int, int)| old(self).knows(p) ==> #[trigger] final(self).knows(p),
            r is Ok ==> old(self).crossed_into(c, *final(self)),
            forall|x: Constraint|
                #[trigger] final(self).live(x) != old(self).live(x) ==> from_cross(
                    *old(self),
                    c,
                    x.bits@,
                ),
    {
        let ghost prev = *self;
        proof {
            if self.by_region@.contains(c) {
                let k = choose|k: int| 0 <= k < self.by_region.len() && self.by_region@[k] == c;
                assert(self.storable(self.by_region@[k]));
            } else {
                let k = choose|k: int| 0 <= k < self.solved.len() && self.solved@[k] == c;
                assert(self.storable(self.solved@[k]));
            }
            assert(c.bits@.intersect(cells(0)) =~= Set::<int>::empty());
        }
        let n = self.by_cell.len();
        let mut seen = BitSet::new();
        let mut crosses: Vec<Constraint> = Vec::new();
        let mut square: usize = 0;
        while square < n
            invariant
                square <= n == self.by_cell.len() == self.n() <= CAPACITY,
                *self == prev,
                prev == *old(self),
                self.wf(),
                self.storable(c),
                prev.live(c),
                seen@ == c.bits@.intersect(cells(square as int)),
                forall|k: int| 0 <= k < crosses.len() ==> {
                    let x = #[trigger] crosses@[k];
                    x.wf() && x.bits@.subset_of(cells(self.n())) && x.bits@.disjoint(self.done())
                },
                prev.sound() ==> forall|k: int|
                    0 <= k < crosses.len() ==> (#[trigger] crosses@[k]).holds_of(self.mines()),
                forall|k: Constraint|
                    #[trigger] prev.partner(c, k) && met_before(c, k, square as int) ==> all_listed(
                        crosses@,
                        c,
                        k,
                    ),
                forall|w: int| 0 <= w < crosses.len() ==> from_cross(prev, c, (#[trigger] crosses@[w]).bits@),
            decreases n - square,
        {
            if c.bits.get(square) {
                let mut j: usize = 0;
                while j < self.by_cell[square].len()
                    invariant
                        square < n == self.by_cell.len() == self.n() <= CAPACITY,
                        j <= self.by_cell@[square as int].len(),
                        *self == prev,
                        prev == *old(self),
                        self.wf(),
                        self.storable(c),
                        prev.live(c),
                        c.bits@.contains(square as int),
                        seen@ == c.bits@.intersect(cells(square as int)),
                        forall|k: int| 0 <= k < crosses.len() ==> {
                            let x = #[trigger] crosses@[k];
                            x.wf() && x.bits@.subset_of(cells(self.n())) && x.bits@.disjoint(self.done())
                        },
                        prev.sound() ==> forall|k: int|
                            0 <= k < crosses.len() ==> (#[trigger] crosses@[k]).holds_of(self.mines()),
                        forall|k: Constraint|
                            #[trigger] prev.partner(c, k) && met_before(c, k, square as int) ==> all_listed(
                                crosses@,
                                c,
                                k,
                            ),
                        forall|q: int|
                            0 <= q < j && prev.partner(c, #[trigger] self.by_cell@[square as int]@[q]) ==> all_listed(
                                crosses@,
                                c,
                                self.by_cell@[square as int]@[q],
                            ),
                        forall|w: int| 0 <= w < crosses.len() ==> from_cross(prev, c, (#[trigger] crosses@[w]).bits@),
                    decreases self.by_cell@[square as int].len() - j,
                {
                    let k = self.by_cell[square][j];
                    proof {
                        assert(self.by_cell@[square as int]@.contains(k));
                        if self.by_region@.contains(k) {
                            let i = choose|i: int| 0 <= i < self.by_region.len() && self.by_region@[i] == k;
                            assert(self.storable(self.by_region@[i]));
                        } else {
                            let i = choose|i: int| 0 <= i < self.solved.len() && self.solved@[i] == k;
                            assert(self.storable(self.solved@[i]));
                        }
                    }
                    let gated = k.max_mines > self.max_mines && k.size > self.max_cells;
                    let overlap = k.bits.and(&seen).any();
                    if !gated && !overlap && c != k {
                        let out = cross_constraints(c, k);
                        proof {
                            if prev.sound() {
                                assert(self.live(c));
                                assert(self.live(k));
                                lemma_cross_sound(c, k, self.mines());
                                assert forall|i: int| 0 <= i < out.len() implies (#[trigger] out@[i]).holds_of(
                                    self.mines(),
                                ) by {
                                    assert(out@.map_values(|x: Constraint| x.model())[i] == out@[i].model());
                                    assert(cross_spec(c, k)[i] == out@[i].model());
                                }
                            }
                        }
                        let ghost start = crosses@;
                        proof {
                            assert(self.by_cell@[square as int]@.contains(k));
                            assert(prev.live(k));
                            assert(c.bits@.contains(square as int) && k.bits@.contains(square as int));
                            assert(!k.bits@.disjoint(c.bits@));
                            assert(prev.partner(c, k));
                        }
                        let mut o: usize = 0;
                        while o < out.len()
                            invariant
                                o <= out.len(),
                                *self == prev,
                                prev == *old(self),
                                self.storable(c),
                                self.storable(k),
                                forall|i: int| 0 <= i < out.len() ==> (#[trigger] out@[i]).wf(),
                                forall|i: int|
                                    0 <= i < out.len() ==> (#[trigger] out@[i]).bits@.subset_of(
                                        c.bits@.union(k.bits@),
                                    ),
                                forall|i: int| 0 <= i < crosses.len() ==> {
                                    let x = #[trigger] crosses@[i];
                                    x.wf() && x.bits@.subset_of(cells(self.n())) && x.bits@.disjoint(
                                        self.done(),
                                    )
                                },
                                prev.sound() ==> forall|i: int|
                                    0 <= i < out.len() ==> (#[trigger] out@[i]).holds_of(self.mines()),
                                prev.sound() ==> forall|i: int|
                                    0 <= i < crosses.len() ==> (#[trigger] crosses@[i]).holds_of(
                                        self.mines(),
                                    ),
                                forall|p: (Set<int>, int, int)| listed(start, p) ==> #[trigger] listed(crosses@, p),
                                forall|i: int| 0 <= i < o ==> #[trigger] listed(crosses@, out@[i].model()),
                                forall|w: int|
                                    0 <= w < crosses.len() ==> from_cross(prev, c, (#[trigger] crosses@[w]).bits@),
                                prev.partner(c, k),
                                out@.map_values(|x: Constraint| x.model()) == cross_spec(c, k),
                            decreases out.len() - o,
                        {
                            let ghost before = crosses@;
                            crosses.push(out[o]);
                            proof {
                                assert(out@.map_values(|x: Constraint| x.model())[o as int] == out@[o as int].model());
                                assert(cross_spec(c, k)[o as int].0 == out@[o as int].bits@);
                                assert(from_cross(prev, c, out@[o as int].bits@));
                                assert forall|w: int| 0 <= w < crosses.len() implies from_cross(
                                    prev,
                                    c,
                                    (#[trigger] crosses@[w]).bits@,
                                ) by {
                                    if w < before.len() {
                                        assert(crosses@[w] == before[w]);
                                    }
                                }
                                assert(out@[o as int].bits@.subset_of(c.bits@.union(k.bits@)));
                                lemma_listed_push(before, out@[o as int]);
                            }
                            o = o + 1;
                        }
                        proof {
                            lemma_all_listed_grow(start, crosses@);
                            assert forall|i: int| 0 <= i < cross_spec(c, k).len() implies #[trigger] listed(
                                crosses@,
                                cross_spec(c, k)[i],
                            ) by {
                                assert(out@.map_values(|x: Constraint| x.model())[i] == out@[i].model());
                                assert(listed(crosses@, out@[i].model()));
                            }
                            assert(all_listed(crosses@, c, k));
                        }
                    } else {
                        proof {
                            if prev.partner(c, k) {
                                assert(!gated);
                                assert(c != k);
                                assert(overlap);
                                let both = k.bits@.intersect(seen@);
                                assert(exists|s: int| both.contains(s)) by {
                                    if !exists|s: int| both.contains(s) {
                                        assert(both =~= Set::<int>::empty());
                                    }
                                }
                                let s = choose|s: int| both.contains(s);
                                assert(c.bits@.contains(s) && k.bits@.contains(s) && 0 <= s < square);
                                assert(met_before(c, k, square as int));
                            }
                        }
                    }
                    j = j + 1;
                }
                let ghost row = self.by_cell@[square as int]@;
                seen.set(square, true);
                proof {
                    assert(seen@ =~= c.bits@.intersect(cells(square + 1)));
                    assert forall|k: Constraint| #[trigger] prev.partner(c, k) && met_before(c, k, square + 1)
                        implies all_listed(crosses@, c, k) by {
                        if !met_before(c, k, square as int) {
                            assert(k.bits@.contains(square as int)) by {
                                let s = choose|s: int| 0 <= s < square + 1 && c.bits@.contains(s) && k.bits@.contains(s);
                                if s < square {
                                    assert(met_before(c, k, square as int));
                                }
                            }
                            assert(prev.live(k));
                            assert(row.contains(k));
                            let q = choose|q: int| 0 <= q < row.len() && row[q] == k;
                            assert(prev.partner(c, self.by_cell@[square as int]@[q]));
                        }
                    }
                }
            } else {
                proof {
                    assert(seen@ =~= c.bits@.intersect(cells(square + 1)));
                    assert forall|k: Constraint| #[trigger] prev.partner(c, k) && met_before(c, k, square + 1)
                        implies all_listed(crosses@, c, k) by {
                        let s = choose|s: int| 0 <= s < square + 1 && c.bits@.contains(s) && k.bits@.contains(s);
                        assert(s != square);
                        assert(met_before(c, k, square as int));
                    }
                }
            }
            square = square + 1;
        }
        proof {
            assert forall|k: Constraint| #[trigger] prev.partner(c, k) implies all_listed(crosses@, c, k) by {
                let both = k.bits@.intersect(c.bits@);
                assert(!k.bits@.disjoint(c.bits@));
                assert(exists|s: int| both.contains(s)) by {
                    if !exists|s: int| both.contains(s) {
                        assert forall|a: int| !(k.bits@.contains(a) && c.bits@.contains(a)) by {
                            assert(!both.contains(a));
                        }
                        assert(k.bits@.disjoint(c.bits@));
                    }
                }
                let s = choose|s: int| both.contains(s);
                assert(prev.storable(c));
                assert(met_before(c, k, square as int));
            }
        }
        let mut i: usize = 0;
        while i < crosses.len()
            invariant
                i <= crosses.len(),
                self.wf(),
                self.same_frame(&prev),
                prev == *old(self),
                forall|k: int| 0 <= k < crosses.len() ==> {
                    let x = #[trigger] crosses@[k];
                    x.wf() && x.bits@.subset_of(cells(prev.n())) && x.bits@.disjoint(prev.done())
                },
                prev.sound() ==> self.sound(),
                prev.sound() ==> forall|k: int|
                    0 <= k < crosses.len() ==> (#[trigger] crosses@[k]).holds_of(prev.mines()),
                forall|p: (Set<int>, int, int)| prev.knows(p) ==> #[trigger] self.knows(p),
                forall|k: int| 0 <= k < i ==> trivial((#[trigger] crosses@[k]).model()) || self.knows(crosses@[k].model()),
                forall|w: int| 0 <= w < crosses.len() ==> from_cross(prev, c, (#[trigger] crosses@[w]).bits@),
                forall|x: Constraint| #[trigger] self.live(x) != prev.live(x) ==> from_cross(prev, c, x.bits@),
            decreases crosses.len() - i,
        {
            let ghost before = *self;
            match self.add_constraint(crosses[i]) {
                Ok(()) => {},
                Err(reason) => {
                    return Err(reason);
                },
            }
            proof {
                assert forall|x: Constraint| #[trigger] self.live(x) != prev.live(x) implies from_cross(
                    prev,
                    c,
                    x.bits@,
                ) by {
                    if self.live(x) != before.live(x) {
                        assert(x.bits == crosses@[i as int].bits);
                    }
                }
                Solver::lemma_add_knows(before, crosses@[i as int], *self, Ok(()));
                assert forall|k: int| 0 <= k < i + 1 implies trivial((#[trigger] crosses@[k]).model()) || self.knows(crosses@[k].model()) by {
                    if k < i {
                        if !trivial(crosses@[k].model()) {
                            assert(before.knows(crosses@[k].model()));
                        }
                    }
                }
            }
            i = i + 1;
        }
        proof {
            assert forall|k: Constraint| #[trigger] prev.partner(c, k) implies forall|q: int|
                0 <= q < cross_spec(c, k).len() ==> trivial(#[trigger] cross_spec(c, k)[q]) || self.knows(
                    cross_spec(c, k)[q],
                ) by {
                assert(all_listed(crosses@, c, k));
                assert forall|q: int| 0 <= q < cross_spec(c, k).len() implies trivial(#[trigger] cross_spec(c, k)[q]) || self.knows(
                    cross_spec(c, k)[q],
                ) by {
                    assert(listed(crosses@, cross_spec(c, k)[q]));
                    let w = choose|w: int| 0 <= w < crosses.len() && (#[trigger] crosses@[w]).model() == cross_spec(c, k)[q];
                    assert(trivial(crosses@[w].model()) || self.knows(crosses@[w].model()));
                }
            }
        }
        Ok(())
    }

    /// `b` is the first bucket of the work queue that is not empty.
    pub closed spec fn is_next_bucket(&self, b: int) -> bool {
        &&& 0 <= b < self.queue.len()
        &&& self.queue@[b]@.len() > 0
        &&& forall|d: int| 0 <= d < b ==> self.queue@[d]@.len() == 0
    }

    /// `c` is what the work queue hands out next: the oldest entry of its
    /// first non-empty bucket, which is the bucket of smallest size, then
    /// smallest slack.
    pub closed spec fn next_queued(&self, c: Constraint) -> bool {
        exists|b: int| #[trigger] self.is_next_bucket(b) && self.queue@[b]@[0] == c
    }

    /// Takes the next constraint off the work queue: smallest bucket first
    /// and oldest first within a bucket.
    fn pop_next(&mut self) -> (r: Option<Constraint>)
        requires
            old(self).wf(),
        ensures
            final(self).wf(),
            final(self).same_frame(old(self)),
            forall|x: Constraint| #[trigger] final(self).live(x) <==> old(self).live(x),
            r matches Some(c) ==> old(self).next_queued(c) && old(self).live(c) && !c.solved(),
            r is None ==> old(self).queue_empty() && final(self).queue_empty() && *final(self)
                == *old(self),
            old(self).sound() ==> final(self).sound(),
            final(self).solved == old(self).solved,
            forall|p: (Set<int>, int, int)| old(self).knows(p) ==> #[trigger] final(self).knows(p),
    {
        let ghost prev = *self;
        proof {
            assert forall|y: Constraint| #[trigger] self.live(y) <==> prev.live(y) by {}
            assert forall|p: (Set<int>, int, int)| prev.knows(p) implies #[trigger] self.knows(p) by {}
        }
        let mut b: usize = 0;
        while b < self.queue.len()
            invariant
                b <= self.queue.len(),
                *self == prev,
                prev == *old(self),
                self.wf(),
                forall|d: int| 0 <= d < b ==> self.queue@[d]@.len() == 0,
            decreases self.queue.len() - b,
        {
            if self.queue[b].len() > 0 {
                proof {
                    assert(prev.is_next_bucket(b as int));
                }
                match self.queue[b].pop_front() {
                    Some(x) => {
                        proof {
                            assert(prev.queue@[b as int]@[0] == x);
                            assert(prev.next_queued(x));
                            assert(prev.by_region@.contains(x));
                            let i = choose|i: int| 0 <= i < prev.by_region.len() && prev.by_region@[i] == x;
                            assert(!prev.by_region@[i].solved());
                            assert forall|d: int, i: int|
                                0 <= d < self.queue.len() && 0 <= i < self.queue@[d]@.len() implies {
                                let y = #[trigger] self.queue@[d]@[i];
                                self.by_region@.contains(y) && bucket_of(y, self.n()) == d
                            } by {
                                if d == b {
                                    assert(self.queue@[d]@[i] == prev.queue@[d]@[i + 1]);
                                } else {
                                    assert(self.queue@[d] == prev.queue@[d]);
                                }
                            }
                            assert forall|y: Constraint| #[trigger] self.live(y) <==> prev.live(y) by {}
                            assert forall|p: (Set<int>, int, int)| prev.knows(p) implies #[trigger] self.knows(p) by {
                                let y = choose|y: Constraint|
                                    #[trigger] prev.live(y) && y.bits@ == p.0 && y.min_mines >= p.1 && y.max_mines <= p.2;
                                assert(self.live(y));
                            }
                        }
                        return Some(x);
                    },
                    None => {},
                }
            }
            b = b + 1;
        }
        None
    }

    /// Seeds the store again with every hint and with the count around
    /// every revealed cell whose content shows.
    fn replenish(&mut self) -> (r: Result<(), String>)
        requires
            old(self).wf(),
        ensures
            final(self).wf(),
            final(self).same_config(old(self)),
            final(self).puzzle == old(self).puzzle,
            old(self).sound() ==> r is Ok && final(self).sound(),
            forall|p: (Set<int>, int, int)| old(self).knows(p) ==> #[trigger] final(self).knows(p),
            r is Ok ==> final(self).reseeds_known(),
            final(self).stalled() ==> forall|x: Constraint| #[trigger] final(self).live(x) == old(self).live(x),
            old(self).reseeds_known() ==> r is Ok && *final(self) == *old(self),
    {
        let ghost prev = *self;
        let mut h: usize = 0;
        while h < self.puzzle.base.hints.len()
            invariant
                self.wf(),
                self.same_frame(&prev),
                prev == *old(self),
                prev.sound() ==> self.sound(),
                forall|p: (Set<int>, int, int)| prev.knows(p) ==> #[trigger] self.knows(p),
                self.stalled() ==> forall|x: Constraint| #[trigger] self.live(x) == prev.live(x),
                prev.reseeds_known() ==> *self == prev,
                forall|g: int|
                    0 <= g < h ==> {
                        let p = #[trigger] count_model(
                            self.puzzle.base.hints@[g]@.difference(self.done()),
                            self.mines(),
                        );
                        trivial(p) || self.knows(p)
                    },
            decreases self.puzzle.base.hints.len() - h,
        {
            let region = self.puzzle.base.hints[h];
            proof {
                assert(self.puzzle.base.hints@[h as int]@.subset_of(cells(self.n())));
            }
            let hint = mine_count_constraint(&self.puzzle, &region);
            assert(hint.holds_of(self.mines()));
            let ghost before = *self;
            proof {
                assert(hint.model() == count_model(
                    self.puzzle.base.hints@[h as int]@.difference(self.done()),
                    self.mines(),
                ));
            }
            match self.add_constraint(hint) {
                Ok(()) => {},
                Err(reason) => {
                    proof {
                        if prev.reseeds_known() {
                            Solver::lemma_known_add_noop(before, hint, *self, Err(reason));
                        }
                    }
                    return Err(reason);
                },
            }
            proof {
                if prev.reseeds_known() {
                    Solver::lemma_known_add_noop(before, hint, *self, Ok(()));
                }
                Solver::lemma_add_knows(before, hint, *self, Ok(()));
                assert(self.puzzle == before.puzzle);
                assert(self.done() == before.done() && self.mines() == before.mines());
                assert(hint.model() == count_model(
                    self.puzzle.base.hints@[h as int]@.difference(self.done()),
                    self.mines(),
                ));
                assert forall|g: int| 0 <= g < h + 1 implies {
                    let p = #[trigger] count_model(
                        self.puzzle.base.hints@[g]@.difference(self.done()),
                        self.mines(),
                    );
                    trivial(p) || self.knows(p)
                } by {
                    let p = count_model(self.puzzle.base.hints@[g]@.difference(self.done()), self.mines());
                    if g < h && !trivial(p) {
                        assert(before.knows(p));
                    }
                }
            }
            h = h + 1;
        }
        let n = self.by_cell.len();
        let mut i: usize = 0;
        while i < n
            invariant
                n == self.n(),
                self.wf(),
                self.same_frame(&prev),
                prev == *old(self),
                prev.sound() ==> self.sound(),
                forall|p: (Set<int>, int, int)| prev.knows(p) ==> #[trigger] self.knows(p),
                self.stalled() ==> forall|x: Constraint| #[trigger] self.live(x) == prev.live(x),
                prev.reseeds_known() ==> *self == prev,
                forall|g: int|
                    0 <= g < self.puzzle.base.hints.len() ==> {
                        let p = #[trigger] count_model(
                            self.puzzle.base.hints@[g]@.difference(self.done()),
                            self.mines(),
                        );
                        trivial(p) || self.knows(p)
                    },
                forall|j: int|
                    0 <= j < i && self.revealed().contains(j) && !self.puzzle.base.unknowns@.contains(j)
                        ==> {
                        let p = #[trigger] count_model(
                            self.puzzle.base.neighbors@[j]@.difference(self.done()),
                            self.mines(),
                        );
                        trivial(p) || self.knows(p)
                    },
            decreases n - i,
        {
            if self.puzzle.revealed.get(i) && !self.puzzle.base.unknowns.get(i) {
                let around = get_neighbor_constraint(&self.puzzle, i);
                assert(around.holds_of(self.mines()));
                let ghost before = *self;
                proof {
                    assert(around.model() == count_model(
                        self.puzzle.base.neighbors@[i as int]@.difference(self.done()),
                        self.mines(),
                    ));
                }
                proof {
                    assert(self.puzzle.base.neighbors@[i as int]@.subset_of(cells(self.n())));
                }
                match self.add_constraint(around) {
                    Ok(()) => {},
                    Err(reason) => {
                        proof {
                            if prev.reseeds_known() {
                                Solver::lemma_known_add_noop(before, around, *self, Err(reason));
                            }
                        }
                        return Err(reason);
                    },
                }
                proof {
                    if prev.reseeds_known() {
                        Solver::lemma_known_add_noop(before, around, *self, Ok(()));
                    }
                    Solver::lemma_add_knows(before, around, *self, Ok(()));
                    assert(self.puzzle == before.puzzle);
                    assert(self.done() == before.done() && self.mines() == before.mines());
                    assert(self.revealed() == before.revealed());
                    assert(around.model() == count_model(
                        self.puzzle.base.neighbors@[i as int]@.difference(self.done()),
                        self.mines(),
                    ));
                    assert forall|g: int| 0 <= g < self.puzzle.base.hints.len() implies {
                        let p = #[trigger] count_model(
                            self.puzzle.base.hints@[g]@.difference(self.done()),
                            self.mines(),
                        );
                        trivial(p) || self.knows(p)
                    } by {
                        let p = count_model(self.puzzle.base.hints@[g]@.difference(self.done()), self.mines());
                        if !trivial(p) {
                            assert(before.knows(p));
                        }
                    }
                    assert forall|j: int|
                        0 <= j < i + 1 && self.revealed().contains(j) && !self.puzzle.base.unknowns@.contains(j)
                            implies {
                            let p = #[trigger] count_model(
                                self.puzzle.base.neighbors@[j]@.difference(self.done()),
                                self.mines(),
                            );
                            trivial(p) || self.knows(p)
                        } by {
                        let p = count_model(self.puzzle.base.neighbors@[j]@.difference(self.done()), self.mines());
                        if j < i && !trivial(p) {
                            assert(before.knows(p));
                        }
                    }
                }
            }
            i = i + 1;
        }
        Ok(())
    }

    /// Whether solving has stopped for good.
    pub open spec fn stopped(&self) -> bool {
        self.stop is Some
    }

    /// The puzzle being solved.
    pub open spec fn base(&self) -> Puzzle {
        self.puzzle.base
    }

    /// The cells of solved constraints that hold no mine.
    pub closed spec fn pending_safe(&self) -> Set<int> {
        Set::new(
            |i: int|
                exists|k: int|
                    0 <= k < self.solved.len() && (#[trigger] self.solved@[k]).max_mines == 0
                        && self.solved@[k].bits@.contains(i),
        )
    }

    /// The cells of solved constraints that are all mines.
    pub closed spec fn pending_mines(&self) -> Set<int> {
        Set::new(
            |i: int|
                exists|k: int|
                    0 <= k < self.solved.len() && (#[trigger] self.solved@[k]).max_mines != 0
                        && self.solved@[k].bits@.contains(i),
        )
    }

    /// Stops solving for good with `reason`.
    fn halt(&mut self, reason: String) -> (r: StepResult)
        requires
            old(self).wf(),
        ensures
            final(self).wf(),
            final(self).stopped(),
            final(self).puzzle == old(self).puzzle,
            final(self).by_region == old(self).by_region,
            final(self).solved == old(self).solved,
            final(self).queue == old(self).queue,
            r matches StepResult::UnexpectedStop(s) && s@ == reason@,
    {
        let ghost prev = *self;
        self.stop = Some(reason.clone());
        proof {
            Solver::lemma_same_store(prev, *self);
        }
        StepResult::UnexpectedStop(reason)
    }

    /// Whether every cell is revealed or flagged.
    fn is_finished(&self) -> (r: bool)
        requires
            self.wf(),
        ensures
            r == (self.done() == cells(self.n())),
    {
        let done = self.puzzle.revealed.or(&self.puzzle.flagged);
        proof {
            if done@ == self.all_bits@ {
                BitSet::lemma_ext(done, self.all_bits);
            }
        }
        done == self.all_bits
    }

    /// Applies every solved constraint: reveals the cells of those with no
    /// mine, then flags the cells of the others.
    fn drain(&mut self) -> (r: StepResult)
        requires
            old(self).wf(),
            !old(self).stopped(),
        ensures
            final(self).wf(),
            final(self).base() == old(self).base(),
            old(self).revealed().subset_of(final(self).revealed()),
            old(self).flagged().subset_of(final(self).flagged()),
            r is Progress || r is Finished || (r is UnexpectedStop && final(self).stopped()),
            r matches StepResult::Progress { revealed, flagged } ==> {
                &&& revealed@ == old(self).pending_safe()
                &&& flagged@ == old(self).pending_mines()
                &&& final(self).revealed() == old(self).revealed().union(revealed@)
                &&& final(self).flagged() == old(self).flagged().union(flagged@)
                &&& !final(self).stopped()
                &&& final(self).done() != cells(final(self).n())
            },
            r is Finished ==> {
                &&& final(self).revealed() == old(self).revealed().union(old(self).pending_safe())
                &&& final(self).flagged() == old(self).flagged().union(old(self).pending_mines())
                &&& !final(self).stopped()
                &&& final(self).done() == cells(final(self).n())
            },
            old(self).sound() ==> (r is Progress || r is Finished) && final(self).sound(),
    {
        let ghost prev = *self;
        let mut to_reveal = BitSet::new();
        let mut to_flag = BitSet::new();
        let mut k: usize = 0;
        while k < self.solved.len()
            invariant
                *self == prev,
                k <= self.solved.len(),
                to_reveal@ == Set::new(
                    |i: int|
                        exists|j: int|
                            0 <= j < k && (#[trigger] self.solved@[j]).max_mines == 0
                                && self.solved@[j].bits@.contains(i),
                ),
                to_flag@ == Set::new(
                    |i: int|
                        exists|j: int|
                            0 <= j < k && (#[trigger] self.solved@[j]).max_mines != 0
                                && self.solved@[j].bits@.contains(i),
                ),
            decreases self.solved.len() - k,
        {
            let x = self.solved[k];
            if x.max_mines == 0 {
                to_reveal = to_reveal.or(&x.bits);
            } else {
                to_flag = to_flag.or(&x.bits);
            }
            proof {
                assert(to_reveal@ =~= Set::new(
                    |i: int|
                        exists|j: int|
                            0 <= j < k + 1 && (#[trigger] self.solved@[j]).max_mines == 0
                                && self.solved@[j].bits@.contains(i),
                ));
                assert(to_flag@ =~= Set::new(
                    |i: int|
                        exists|j: int|
                            0 <= j < k + 1 && (#[trigger] self.solved@[j]).max_mines != 0
                                && self.solved@[j].bits@.contains(i),
                ));
            }
            k = k + 1;
        }
        proof {
            assert(to_reveal@ =~= prev.pending_safe());
            assert(to_flag@ =~= prev.pending_mines());
            assert forall|i: int| to_reveal@.contains(i) implies !prev.done().contains(i) && (prev.sound()
                ==> !prev.mines().contains(i)) by {
                let j = choose|j: int|
                    0 <= j < prev.solved.len() && (#[trigger] prev.solved@[j]).max_mines == 0
                        && prev.solved@[j].bits@.contains(i);
                let x = prev.solved@[j];
                assert(prev.storable(x));
                if prev.sound() {
                    assert(prev.live(x));
                    x.bits.lemma_bounded();
                    lemma_safe_cell(x.bits@, prev.mines(), i);
                }
            }
            assert forall|i: int| to_flag@.contains(i) implies !prev.done().contains(i) && (prev.sound()
                ==> prev.mines().contains(i)) by {
                let j = choose|j: int|
                    0 <= j < prev.solved.len() && (#[trigger] prev.solved@[j]).max_mines != 0
                        && prev.solved@[j].bits@.contains(i);
                let x = prev.solved@[j];
                assert(prev.storable(x));
                if prev.sound() {
                    assert(prev.live(x));
                    x.bits.lemma_bounded();
                    lemma_mine_cell(x.bits@, prev.mines(), i);
                }
            }
            assert forall|i: int| to_reveal@.contains(i) implies 0 <= i < prev.n() by {
                let j = choose|j: int|
                    0 <= j < prev.solved.len() && (#[trigger] prev.solved@[j]).max_mines == 0
                        && prev.solved@[j].bits@.contains(i);
                assert(prev.storable(prev.solved@[j]));
            }
            assert forall|i: int| to_flag@.contains(i) implies 0 <= i < prev.n() by {
                let j = choose|j: int|
                    0 <= j < prev.solved.len() && (#[trigger] prev.solved@[j]).max_mines != 0
                        && prev.solved@[j].bits@.contains(i);
                assert(prev.storable(prev.solved@[j]));
            }
        }
        let n = self.by_cell.len();
        let mut i: usize = 0;
        while i < n
            invariant
                n == self.n() == prev.n(),
                i <= n,
                self.wf(),
                self.same_config(&prev),
                prev == *old(self),
                !self.stopped(),
                self.revealed() == prev.revealed().union(to_reveal@.intersect(cells(i as int))),
                self.flagged() == prev.flagged(),
                prev.sound() ==> self.sound(),
                forall|c: int| to_reveal@.contains(c) ==> !prev.done().contains(c) && (prev.sound()
                    ==> !prev.mines().contains(c)),
            decreases n - i,
        {
            if to_reveal.get(i) {
                match self.reveal_square(i) {
                    Ok(()) => {},
                    Err(reason) => {
                        return self.halt(reason);
                    },
                }
            }
            assert(self.revealed() =~= prev.revealed().union(to_reveal@.intersect(cells(i + 1))));
            i = i + 1;
        }
        assert(to_reveal@.intersect(cells(n as int)) =~= to_reveal@);
        let mut i: usize = 0;
        while i < n
            invariant
                n == self.n() == prev.n(),
                i <= n,
                self.wf(),
                self.same_config(&prev),
                prev == *old(self),
                !self.stopped(),
                self.revealed() == prev.revealed().union(to_reveal@),
                self.flagged() == prev.flagged().union(to_flag@.intersect(cells(i as int))),
                prev.sound() ==> self.sound(),
                forall|c: int| to_reveal@.contains(c) ==> !prev.done().contains(c) && (prev.sound()
                    ==> !prev.mines().contains(c)),
                forall|c: int| to_flag@.contains(c) ==> !prev.done().contains(c) && (prev.sound()
                    ==> prev.mines().contains(c)),
            decreases n - i,
        {
            if to_flag.get(i) {
                match self.flag_square(i) {
                    Ok(()) => {},
                    Err(reason) => {
                        return self.halt(reason);
                    },
                }
            }
            assert(self.flagged() =~= prev.flagged().union(to_flag@.intersect(cells(i + 1))));
            i = i + 1;
        }
        assert(to_flag@.intersect(cells(n as int)) =~= to_flag@);
        if self.is_finished() {
            StepResult::Finished
        } else {
            StepResult::Progress { revealed: to_reveal, flagged: to_flag }
        }
    }

    /// A solver for `base` with nothing revealed or flagged: seeds the store
    /// with the hints (or with the whole puzzle's mine count when there are
    /// none), then reveals the cells the puzzle starts with revealed.
    /// `max_cells` and `max_mines` set the size gate of crossing.
    pub fn new(base: Puzzle, max_cells: usize, max_mines: usize) -> (r: Solver)
        requires
            base.wf(),
        ensures
            r.wf(),
            r.base() == base,
            r.n() == base.n(),
            r.mines() == base.mines@,
            base.n() == 0 ==> !r.stopped(),
            !r.stopped() ==> r.revealed() == base.revealed@.intersect(cells(base.n())),
            !r.stopped() ==> r.flagged() == Set::<int>::empty(),
            base.revealed@.disjoint(base.mines@) ==> !r.stopped() && r.sound(),
            !r.stopped() ==> r.reseeds_known(),
            !r.stopped() && base.hints.len() == 0 ==> trivial(
                count_model(cells(base.n()).difference(r.done()), base.mines@),
            ) || r.knows(count_model(cells(base.n()).difference(r.done()), base.mines@)),
    {
        let ghost given = base;
        let n = base.neighbors.len();
        let pre = base.revealed;
        proof {
            assert(n * n <= CAPACITY * CAPACITY) by (nonlinear_arith)
                requires
                    n <= CAPACITY,
            ;
        }
        let all_bits = BitSet::universe(n);
        let mut by_cell: Vec<Vec<Constraint>> = Vec::new();
        let mut i: usize = 0;
        while i < n
            invariant
                i <= n,
                by_cell.len() == i,
                forall|j: int, x: Constraint| 0 <= j < i ==> !(#[trigger] by_cell@[j]@.contains(x)),
            decreases n - i,
        {
            by_cell.push(Vec::new());
            i = i + 1;
        }
        let mut queue: Vec<VecDeque<Constraint>> = Vec::new();
        let buckets = n * n;
        let mut b: usize = 0;
        while b < buckets
            invariant
                b <= buckets,
                queue.len() == b,
                forall|d: int| 0 <= d < b ==> queue@[d]@.len() == 0,
            decreases buckets - b,
        {
            queue.push(VecDeque::new());
            b = b + 1;
        }
        let mut solver = Solver {
            puzzle: PuzzleState { base, revealed: BitSet::new(), flagged: BitSet::new() },
            by_region: Vec::new(),
            by_cell,
            solved: Vec::new(),
            queue,
            all_bits,
            max_cells,
            max_mines,
            stop: None,
        };
        let ghost first = solver;
        assert(solver.wf());
        let ghost consistent = given.revealed@.disjoint(given.mines@);
        assert(solver.sound());
        let mut h: usize = 0;
        while h < solver.puzzle.base.hints.len()
            invariant
                solver.wf(),
                solver.same_frame(&first),
                first.puzzle.base == given,
                given == base,
                n == solver.n(),
                !solver.stopped(),
                solver.sound(),
                solver.done() == Set::<int>::empty(),
                forall|g: int|
                    0 <= g < h ==> trivial(#[trigger] count_model(given.hints@[g]@, given.mines@))
                        || solver.knows(count_model(given.hints@[g]@, given.mines@)),
            decreases solver.puzzle.base.hints.len() - h,
        {
            let region = solver.puzzle.base.hints[h];
            proof {
                assert(solver.puzzle.base.hints@[h as int]@.subset_of(cells(solver.n())));
            }
            let hint = mine_count_constraint(&solver.puzzle, &region);
            assert(hint.holds_of(solver.mines()));
            proof {
                if n == 0 {
                    assert(hint.bits@ =~= Set::<int>::empty());
                }
            }
            let ghost before = solver;
            match solver.add_constraint(hint) {
                Ok(()) => {},
                Err(reason) => {
                    let ghost failed = solver;
                    solver.stop = Some(reason);
                    proof {
                        Solver::lemma_same_store(failed, solver);
                    }
                    return solver;
                },
            }
            proof {
                Solver::lemma_add_knows(before, hint, solver, Ok(()));
                assert(hint.bits@ =~= given.hints@[h as int]@);
                assert(hint.model() == count_model(given.hints@[h as int]@, given.mines@));
                assert forall|g: int| 0 <= g < h + 1 implies trivial(#[trigger] count_model(given.hints@[g]@, given.mines@))
                    || solver.knows(count_model(given.hints@[g]@, given.mines@)) by {
                    if g < h && !trivial(count_model(given.hints@[g]@, given.mines@)) {
                        assert(before.knows(count_model(given.hints@[g]@, given.mines@)));
                    }
                }
            }
            h = h + 1;
        }
        if solver.puzzle.base.hints.len() == 0 {
            let whole = mine_count_constraint(&solver.puzzle, &all_bits);
            assert(whole.holds_of(solver.mines()));
            proof {
                if n == 0 {
                    assert(whole.bits@ =~= Set::<int>::empty());
                }
            }
            let ghost before = solver;
            match solver.add_constraint(whole) {
                Ok(()) => {},
                Err(reason) => {
                    let ghost failed = solver;
                    solver.stop = Some(reason);
                    proof {
                        Solver::lemma_same_store(failed, solver);
                    }
                    return solver;
                },
            }
            proof {
                Solver::lemma_add_knows(before, whole, solver, Ok(()));
                assert(whole.bits@ =~= cells(n as int));
            }
        }
        proof {
            assert(solver.done() =~= Set::<int>::empty());
            assert forall|g: int| 0 <= g < given.hints.len() implies {
                let p = #[trigger] count_model(given.hints@[g]@.difference(solver.done()), given.mines@);
                trivial(p) || solver.knows(p)
            } by {
                assert(given.hints@[g]@.difference(solver.done()) =~= given.hints@[g]@);
            }
            assert(cells(n as int).difference(solver.done()) =~= cells(n as int));
        }
        let mut i: usize = 0;
        while i < n
            invariant
                i <= n == solver.n(),
                solver.wf(),
                solver.same_config(&first),
                first.puzzle.base == given,
                given == base,
                solver.revealed() == pre@.intersect(cells(i as int)),
                solver.flagged() == Set::<int>::empty(),
                !solver.stopped(),
                consistent == given.revealed@.disjoint(given.mines@),
                consistent ==> solver.sound(),
                pre == given.revealed,
                forall|g: int|
                    0 <= g < given.hints.len() ==> {
                        let p = #[trigger] count_model(
                            given.hints@[g]@.difference(solver.done()),
                            given.mines@,
                        );
                        trivial(p) || solver.knows(p)
                    },
                given.hints.len() == 0 ==> trivial(
                    count_model(cells(n as int).difference(solver.done()), given.mines@),
                ) || solver.knows(count_model(cells(n as int).difference(solver.done()), given.mines@)),
                forall|j: int|
                    0 <= j < n && solver.revealed().contains(j) && !given.unknowns@.contains(j) ==> {
                        let p = #[trigger] count_model(
                            given.neighbors@[j]@.difference(solver.done()),
                            given.mines@,
                        );
                        trivial(p) || solver.knows(p)
                    },
            decreases n - i,
        {
            if pre.get(i) {
                proof {
                    assert(pre@.intersect(cells(n as int)).contains(i as int));
                    assert(!solver.done().contains(i as int));
                    assert(solver.mines() == given.mines@);
                }
                let ghost before = solver;
                match solver.reveal_square(i) {
                    Ok(()) => {},
                    Err(reason) => {
                        let ghost failed = solver;
                        solver.stop = Some(reason);
                        proof {
                            Solver::lemma_same_store(failed, solver);
                        }
                        return solver;
                    },
                }
                proof {
                    assert(solver.done() =~= before.done().insert(i as int));
                    assert(!before.mines().contains(i as int));
                    assert forall|g: int| 0 <= g < given.hints.len() implies {
                        let p = #[trigger] count_model(
                            given.hints@[g]@.difference(solver.done()),
                            given.mines@,
                        );
                        trivial(p) || solver.knows(p)
                    } by {
                        assert(given.hints@[g]@.subset_of(cells(before.n())));
                        Solver::lemma_count_after_reveal(before, solver, given.hints@[g]@, i as int);
                    }
                    if given.hints.len() == 0 {
                        Solver::lemma_count_after_reveal(before, solver, cells(n as int), i as int);
                    }
                    assert forall|j: int|
                        0 <= j < n && solver.revealed().contains(j) && !given.unknowns@.contains(j)
                            implies {
                            let p = #[trigger] count_model(
                                given.neighbors@[j]@.difference(solver.done()),
                                given.mines@,
                            );
                            trivial(p) || solver.knows(p)
                        } by {
                        if j != i {
                            assert(before.revealed().contains(j));
                            assert(given.neighbors@[j]@.subset_of(cells(before.n())));
                            Solver::lemma_count_after_reveal(before, solver, given.neighbors@[j]@, i as int);
                        }
                    }
                }
            }
            assert(solver.revealed() =~= pre@.intersect(cells(i + 1)));
            i = i + 1;
        }
        proof {
            assert(solver.puzzle.base == given);
        }
        solver
    }

    /// Crosses `c`, then reports it.
    fn cross_step(&mut self, c: Constraint) -> (r: StepResult)
        requires
            old(self).wf(),
            old(self).live(c),
            !c.solved(),
            !old(self).stopped(),
        ensures
            final(self).wf(),
            final(self).puzzle == old(self).puzzle,
            r matches StepResult::CrossConstraint(x) ==> x == c && !final(self).stopped(),
            r is CrossConstraint || (r is UnexpectedStop && final(self).stopped()),
            old(self).sound() ==> r is CrossConstraint && final(self).sound(),
            r is CrossConstraint ==> old(self).crossed_into(c, *final(self)),
    {
        match self.add_all_crosses(c) {
            Ok(()) => StepResult::CrossConstraint(c),
            Err(reason) => self.halt(reason),
        }
    }

    /// Performs one step: applies the solved constraints if there are any,
    /// else crosses the next constraint of the work queue, seeding the store
    /// again from the hints and revealed counts when the queue runs dry.
    /// A step whose applied constraints finish the puzzle reports `Finished`
    /// in place of `Progress`.
    pub fn step(&mut self) -> (r: StepResult)
        requires
            old(self).wf(),
        ensures
            final(self).wf(),
            final(self).base() == old(self).base(),
            final(self).n() == old(self).n(),
            final(self).mines() == old(self).mines(),
            old(self).revealed().subset_of(final(self).revealed()),
            old(self).flagged().subset_of(final(self).flagged()),
            old(self).stopped() ==> r is UnexpectedStop && *final(self) == *old(self),
            r is UnexpectedStop <==> final(self).stopped(),
            !old(self).stopped() && old(self).done() == cells(old(self).n()) ==> r is Finished,
            r is Finished <==> !final(self).stopped() && final(self).done() == cells(final(self).n()),
            r is Finished && old(self).pending_safe().union(old(self).pending_mines())
                != Set::<int>::empty() ==> {
                &&& final(self).revealed() == old(self).revealed().union(old(self).pending_safe())
                &&& final(self).flagged() == old(self).flagged().union(old(self).pending_mines())
            },
            !old(self).stopped() && old(self).pending_safe().union(old(self).pending_mines())
                != Set::<int>::empty() ==> r is Progress || r is Finished || r is UnexpectedStop,
            r matches StepResult::Progress { revealed, flagged } ==> {
                &&& old(self).pending_safe().union(old(self).pending_mines()) != Set::<int>::empty()
                    ==> revealed@ == old(self).pending_safe() && flagged@ == old(self).pending_mines()
                &&& final(self).revealed() == old(self).revealed().union(revealed@)
                &&& final(self).flagged() == old(self).flagged().union(flagged@)
            },
            r matches StepResult::CrossConstraint(c) ==> {
                &&& old(self).live(c) || old(self).pending_safe().union(old(self).pending_mines())
                    == Set::<int>::empty()
                &&& !c.solved()
                &&& final(self).revealed() == old(self).revealed()
                &&& final(self).flagged() == old(self).flagged()
            },
            old(self).sound() && !old(self).stopped() ==> final(self).sound(),
            old(self).sound() && !old(self).stopped() && old(self).pending_safe().union(
                old(self).pending_mines(),
            ) != Set::<int>::empty() ==> r is Progress || r is Finished,
            old(self).sound() && !old(self).stopped() && r is UnexpectedStop ==> final(self).stalled(),
            r matches StepResult::Progress { revealed, flagged } ==> exists|mid: Solver|
                #![trigger mid.pending_safe()]
                mid.same_config(old(self)) && mid.revealed() == old(self).revealed() && mid.flagged()
                    == old(self).flagged() && (forall|p: (Set<int>, int, int)|
                    old(self).knows(p) ==> #[trigger] mid.knows(p)) && revealed@ == mid.pending_safe()
                    && flagged@ == mid.pending_mines(),
            r matches StepResult::CrossConstraint(c) ==> exists|mid: Solver|
                #![trigger mid.crossed_into(c, *final(self))]
                mid.live(c) && mid.same_config(old(self)) && mid.revealed() == old(self).revealed()
                    && mid.flagged() == old(self).flagged() && (forall|p: (Set<int>, int, int)|
                    old(self).knows(p) ==> #[trigger] mid.knows(p)) && mid.crossed_into(c, *final(self)),
            !old(self).stopped() && old(self).pending_safe().union(old(self).pending_mines())
                == Set::<int>::empty() && old(self).done() != cells(old(self).n())
                && !old(self).queue_empty() ==> (r matches StepResult::CrossConstraint(c)
                ==> old(self).next_queued(c)) && (old(self).sound() ==> r is CrossConstraint),
            !old(self).stopped() && old(self).pending_safe().union(old(self).pending_mines())
                == Set::<int>::empty() && old(self).queue_empty() && old(self).reseeds_known()
                && old(self).done() != cells(old(self).n()) ==> (r matches StepResult::UnexpectedStop(
                reason,
            ) && reason@ == "no more constraints"@),
            old(self).sound() && !old(self).stopped() && r is UnexpectedStop ==> {
                &&& old(self).queue_empty()
                &&& old(self).pending_safe().union(old(self).pending_mines()) == Set::<int>::empty()
                &&& old(self).reseeds_known()
            },
    {
        let ghost prev = *self;
        match &self.stop {
            Some(reason) => {
                return StepResult::UnexpectedStop(reason.clone());
            },
            None => {},
        }
        proof {
            if self.solved.len() > 0 && self.done() == cells(self.n()) {
                let c = self.solved@[0];
                assert(self.storable(c));
                if c.bits@ == Set::<int>::empty() {
                    assert(c.bits@.len() == 0);
                }
                assert(exists|i: int| c.bits@.contains(i)) by {
                    if !exists|i: int| c.bits@.contains(i) {
                        assert(c.bits@ =~= Set::<int>::empty());
                    }
                }
                let i = choose|i: int| c.bits@.contains(i);
                assert(self.done().contains(i));
            }
        }
        if self.solved.len() > 0 {
            proof {
                self.lemma_pending_nonempty();
            }
            let ghost mid = *self;
            let r = self.drain();
            proof {
                assert(mid.same_config(&prev));
            }
            return r;
        }
        proof {
            assert(self.pending_safe().union(self.pending_mines()) =~= Set::<int>::empty());
        }
        if self.is_finished() {
            return StepResult::Finished;
        }
        proof {
            assert(self.done() != cells(self.n()));
        }
        match self.pop_next() {
            Some(c) => {
                let ghost mid = *self;
                let r = self.cross_step(c);
                proof {
                    if r is CrossConstraint {
                        assert(mid.crossed_into(c, *self));
                    }
                }
                return r;
            },
            None => {},
        }
        let ghost drained = *self;
        match self.replenish() {
            Ok(()) => {},
            Err(reason) => {
                return self.halt(reason);
            },
        }
        let ghost seeded = *self;
        if self.solved.len() > 0 {
            let ghost mid = *self;
            let r = self.drain();
            proof {
                assert(mid.same_config(&prev));
            }
            return r;
        }
        match self.pop_next() {
            Some(c) => {
                let ghost mid = *self;
                let r = self.cross_step(c);
                proof {
                    if r is CrossConstraint {
                        assert(mid.crossed_into(c, *self));
                    }
                }
                return r;
            },
            None => {},
        }
        let ghost idle = *self;
        let r = self.halt(String::from_str("no more constraints"));
        proof {
            assert forall|x: Constraint| #[trigger] self.live(x) <==> idle.live(x) by {}
            assert(self.queue_empty() == idle.queue_empty());
            if prev.sound() {
                assert(seeded.reseeds_known());
                assert(seeded.stalled());
                assert(seeded.puzzle == prev.puzzle);
                assert(seeded.done() == prev.done() && seeded.mines() == prev.mines());
                assert forall|p: (Set<int>, int, int)| seeded.knows(p) implies prev.knows(p) by {
                    let y = choose|y: Constraint|
                        #[trigger] seeded.live(y) && y.bits@ == p.0 && y.min_mines >= p.1 && y.max_mines <= p.2;
                    assert(drained.live(y));
                    assert(prev.live(y));
                }
                assert forall|h: int| 0 <= h < prev.puzzle.base.hints.len() implies {
                    let p = #[trigger] count_model(
                        prev.puzzle.base.hints@[h]@.difference(prev.done()),
                        prev.mines(),
                    );
                    trivial(p) || prev.knows(p)
                } by {
                    let p = count_model(prev.puzzle.base.hints@[h]@.difference(prev.done()), prev.mines());
                    assert(trivial(p) || seeded.knows(p));
                }
                assert forall|i: int|
                    0 <= i < prev.n() && prev.revealed().contains(i) && !prev.puzzle.base.unknowns@.contains(i)
                        implies {
                        let p = #[trigger] count_model(
                            prev.puzzle.base.neighbors@[i]@.difference(prev.done()),
                            prev.mines(),
                        );
                        trivial(p) || prev.knows(p)
                    } by {
                    let p = count_model(prev.puzzle.base.neighbors@[i]@.difference(prev.done()), prev.mines());
                    assert(trivial(p) || seeded.knows(p));
                }
            }
        }
        r
    }

    /// Drops the solved constraint `c`.
    fn remove_solved(&mut self, c: Constraint)
        requires
            old(self).wf(),
            old(self).solved@.contains(c),
        ensures
            final(self).wf(),
            final(self).same_frame(old(self)),
            final(self).by_region == old(self).by_region,
            forall|x: Constraint| #[trigger] final(self).live(x) <==> (old(self).live(x) && x != c),
    {
        let ghost prev = *self;
        proof {
            let j = choose|j: int| 0 <= j < prev.solved.len() && prev.solved@[j] == c;
            assert(prev.storable(prev.solved@[j]));
        }
        let kept = without(&self.solved, &c);
        self.solved = kept;
        index_remove(&mut self.by_cell, c);
        proof {
            assert forall|x: Constraint| #[trigger] self.live(x) <==> (prev.live(x) && x != c) by {
                assert(self.solved@.contains(x) <==> (prev.solved@.contains(x) && x != c));
                if x == c && self.by_region@.contains(x) {
                    let j = choose|j: int| 0 <= j < self.by_region.len() && self.by_region@[j] == x;
                    assert(!self.by_region@[j].solved());
                    let i = choose|i: int| 0 <= i < prev.solved.len() && prev.solved@[i] == c;
                    assert(prev.solved@[i].solved());
                }
            }
            assert forall|k: int| 0 <= k < self.solved.len() implies {
                let x = #[trigger] self.solved@[k];
                self.storable(x) && x.solved()
            } by {
                let x = self.solved@[k];
                assert(prev.solved@.contains(x));
                let i = choose|i: int| 0 <= i < prev.solved.len() && prev.solved@[i] == x;
                assert(prev.storable(prev.solved@[i]));
            }
        }
    }
}

} // verus!
