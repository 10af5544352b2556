//! Interval constraints on the number of mines in a region, and the rule
//! that derives new constraints from two overlapping ones.
use vstd::prelude::*;
use vstd::set_lib::*;
use crate::bitset::{BitSet, CAPACITY};

verus! {

/// `a - b`, or zero when `b` exceeds `a`.
pub open spec fn sat_sub(a: int, b: int) -> int {
    if a >= b {
        a - b
    } else {
        0
    }
}

/// The smaller of `a` and `b`.
pub open spec fn min2(a: int, b: int) -> int {
    if a <= b {
        a
    } else {
        b
    }
}

/// The larger of `a` and `b`.
pub open spec fn max2(a: int, b: int) -> int {
    if a >= b {
        a
    } else {
        b
    }
}

/// The region `bits` holds between `min_mines` and `max_mines` mines;
/// `size` is the number of cells in the region.
#[derive(Clone, Copy, Eq, Hash, Debug)]
pub struct Constraint {
    pub bits: BitSet,
    pub min_mines: usize,
    pub max_mines: usize,
    pub size: usize,
}

impl Constraint {
    /// The cached size is the region's cardinality and the upper bound fits in it.
    pub open spec fn wf(&self) -> bool {
        &&& self.size == self.bits@.len()
        &&& self.max_mines <= self.size
        &&& self.min_mines <= CAPACITY
    }

    /// Region and bounds, the abstract value of a constraint.
    pub open spec fn model(&self) -> (Set<int>, int, int) {
        (self.bits@, self.min_mines as int, self.max_mines as int)
    }

    /// The constraint is true of the set of mines `mines`.
    pub open spec fn holds_of(&self, mines: Set<int>) -> bool {
        bounds_hold(self.bits@, self.min_mines as int, self.max_mines as int, mines)
    }

    /// Every cell of the region is safe, or every one is a mine.
    pub open spec fn solved(&self) -> bool {
        self.max_mines == 0 || self.min_mines == self.size
    }

    /// The bounds are those of any region of this size.
    pub open spec fn useless(&self) -> bool {
        self.min_mines == 0 && self.max_mines == self.size
    }

    /// Every cell of the region is known: all safe or all mines.
    pub fn is_solved(self) -> (r: bool)
        ensures
            r == self.solved(),
    {
        self.max_mines == 0 || self.min_mines == self.size
    }

    /// The bounds say nothing that the region's size does not.
    pub fn is_useless(self) -> (r: bool)
        ensures
            r == self.useless(),
    {
        self.min_mines == 0 && self.max_mines == self.size
    }
}

impl PartialEq for Constraint {
    fn eq(&self, other: &Constraint) -> (r: bool) {
        self.bits == other.bits && self.min_mines == other.min_mines && self.max_mines
            == other.max_mines && self.size == other.size
    }
}

impl vstd::std_specs::cmp::PartialEqSpecImpl for Constraint {
    open spec fn obeys_eq_spec() -> bool {
        true
    }

    open spec fn eq_spec(&self, other: &Constraint) -> bool {
        *self == *other
    }
}

/// Lower bound on the mines in `l ∩ r`.
pub open spec fn inter_min(l: Constraint, r: Constraint) -> int {
    let c = l.bits@.intersect(r.bits@).len() as int;
    max2(sat_sub(l.min_mines + c, l.size as int), sat_sub(r.min_mines + c, r.size as int))
}

/// Upper bound on the mines in `l ∩ r`.
pub open spec fn inter_max(l: Constraint, r: Constraint) -> int {
    let c = l.bits@.intersect(r.bits@).len() as int;
    min2(min2(c, l.max_mines as int), r.max_mines as int)
}

/// Lower bound on the mines in `l \ r`.
pub open spec fn only_min(l: Constraint, r: Constraint) -> int {
    sat_sub(l.min_mines as int, inter_max(l, r))
}

/// Upper bound on the mines in `l \ r`.
pub open spec fn only_max(l: Constraint, r: Constraint) -> int {
    let c = l.bits@.intersect(r.bits@).len() as int;
    min2(sat_sub(l.max_mines as int, inter_min(l, r)), l.size - c)
}

/// What crossing `l` with `r` yields: the intersection, then `l \ r` and
/// `r \ l`, each of the last two only when it is not empty.
pub open spec fn cross_spec(l: Constraint, r: Constraint) -> Seq<(Set<int>, int, int)> {
    let left = l.bits@.difference(r.bits@);
    let right = r.bits@.difference(l.bits@);
    seq![(l.bits@.intersect(r.bits@), inter_min(l, r), inter_max(l, r))] + (if left.len() > 0 {
        seq![(left, only_min(l, r), only_max(l, r))]
    } else {
        Seq::empty()
    }) + (if right.len() > 0 {
        seq![(right, only_min(r, l), only_max(r, l))]
    } else {
        Seq::empty()
    })
}

proof fn lemma_split_len(a: BitSet, b: BitSet)
    ensures
        a@.difference(b@).len() == a@.len() - a@.intersect(b@).len(),
        a@.intersect(b@).len() <= a@.len(),
        a@.len() <= CAPACITY,
        a@.intersect(b@) == b@.intersect(a@),
        a@.difference(b@).len() == 0 <==> a@.difference(b@) == Set::<int>::empty(),
{
    a.lemma_bounded();
    b.lemma_bounded();
    lemma_set_difference_len(a@, b@);
    lemma_len_intersect(a@, b@);
    assert(a@.intersect(b@) =~= b@.intersect(a@));
    lemma_set_subset_finite(a@, a@.difference(b@));
    if a@.difference(b@).len() == 0 {
        a@.difference(b@).lemma_len0_is_empty();
    }
}

/// The intersection part of crossing `l` with `r`.
fn intersection_part(l: Constraint, r: Constraint) -> (out: Constraint)
    requires
        l.wf(),
        r.wf(),
    ensures
        out.model() == (l.bits@.intersect(r.bits@), inter_min(l, r), inter_max(l, r)),
        out.wf(),
{
    proof {
        lemma_split_len(l.bits, r.bits);
        lemma_split_len(r.bits, l.bits);
    }
    let bits = l.bits.and(&r.bits);
    let c = bits.count();
    let lo = if l.min_mines + c >= l.size {
        l.min_mines + c - l.size
    } else {
        0
    };
    let ro = if r.min_mines + c >= r.size {
        r.min_mines + c - r.size
    } else {
        0
    };
    let lo_ro = if lo >= ro {
        lo
    } else {
        ro
    };
    let mut hi = c;
    if l.max_mines < hi {
        hi = l.max_mines;
    }
    if r.max_mines < hi {
        hi = r.max_mines;
    }
    Constraint { bits, min_mines: lo_ro, max_mines: hi, size: c }
}

/// The part of crossing `l` with `r` on the cells of `l` outside `r`.
fn one_sided_part(l: Constraint, r: Constraint, inter: Constraint) -> (out: Constraint)
    requires
        l.wf(),
        r.wf(),
        inter.model() == (l.bits@.intersect(r.bits@), inter_min(l, r), inter_max(l, r)),
        inter.wf(),
    ensures
        out.model() == (l.bits@.difference(r.bits@), only_min(l, r), only_max(l, r)),
        out.wf(),
{
    proof {
        lemma_split_len(l.bits, r.bits);
    }
    let bits = l.bits.and_not(&r.bits);
    let lo = if l.min_mines >= inter.max_mines {
        l.min_mines - inter.max_mines
    } else {
        0
    };
    let mut hi = if l.max_mines >= inter.min_mines {
        l.max_mines - inter.min_mines
    } else {
        0
    };
    if l.size - inter.size < hi {
        hi = l.size - inter.size;
    }
    Constraint { bits, min_mines: lo, max_mines: hi, size: l.size - inter.size }
}

/// Crosses two constraints: splits their regions into the intersection and
/// the two one-sided parts, and bounds the mines in each.
pub fn cross_constraints(left: Constraint, right: Constraint) -> (out: Vec<Constraint>)
    requires
        left.wf(),
        right.wf(),
    ensures
        out@.map_values(|c: Constraint| c.model()) == cross_spec(left, right),
        forall|i: int| 0 <= i < out.len() ==> (#[trigger] out@[i]).wf(),
        forall|i: int|
            0 <= i < out.len() ==> (#[trigger] out@[i]).bits@.subset_of(
                left.bits@.union(right.bits@),
            ),
{
    proof {
        lemma_split_len(left.bits, right.bits);
        lemma_split_len(right.bits, left.bits);
    }
    let mut out: Vec<Constraint> = Vec::new();
    let inter = intersection_part(left, right);
    out.push(inter);
    let ghost first = seq![inter.model()];
    assert(out@.map_values(|c: Constraint| c.model()) =~= first);
    let ghost left_set = left.bits@.difference(right.bits@);
    let ghost right_set = right.bits@.difference(left.bits@);
    let ghost second = if left_set.len() > 0 {
        seq![(left_set, only_min(left, right), only_max(left, right))]
    } else {
        Seq::empty()
    };
    if left.bits.and_not(&right.bits).any() {
        let part = one_sided_part(left, right, inter);
        out.push(part);
    }
    assert(out@.map_values(|c: Constraint| c.model()) =~= first + second);
    let ghost third = if right_set.len() > 0 {
        seq![(right_set, only_min(right, left), only_max(right, left))]
    } else {
        Seq::empty()
    };
    if right.bits.and_not(&left.bits).any() {
        let flipped = Constraint {
            bits: inter.bits,
            min_mines: inter.min_mines,
            max_mines: inter.max_mines,
            size: inter.size,
        };
        let part = one_sided_part(right, left, flipped);
        out.push(part);
    }
    assert(out@.map_values(|c: Constraint| c.model()) =~= first + second + third);
    proof {
        assert forall|i: int| 0 <= i < out.len() implies (#[trigger] out@[i]).bits@.subset_of(
            left.bits@.union(right.bits@),
        ) by {
            assert(out@.map_values(|c: Constraint| c.model())[i] == out@[i].model());
        }
    }
    out
}

/// The bounds `lo ..= hi` hold of the number of cells of `region` in `mines`.
pub open spec fn bounds_hold(region: Set<int>, lo: int, hi: int, mines: Set<int>) -> bool {
    lo <= region.intersect(mines).len() <= hi
}

/// Crossing is sound: when both constraints hold of a set of mines, so does
/// every constraint that crossing them yields.
pub proof fn lemma_cross_sound(l: Constraint, r: Constraint, mines: Set<int>)
    requires
        l.wf(),
        r.wf(),
        bounds_hold(l.bits@, l.min_mines as int, l.max_mines as int, mines),
        bounds_hold(r.bits@, r.min_mines as int, r.max_mines as int, mines),
    ensures
        forall|k: int|
            0 <= k < cross_spec(l, r).len() ==> {
                let part = #[trigger] cross_spec(l, r)[k];
                bounds_hold(part.0, part.1, part.2, mines)
            },
{
    lemma_split_len(l.bits, r.bits);
    lemma_split_len(r.bits, l.bits);
    l.bits.lemma_bounded();
    r.bits.lemma_bounded();
    lemma_part_counts(l.bits@, r.bits@, mines);
    lemma_part_counts(r.bits@, l.bits@, mines);
    assert(l.bits@.intersect(r.bits@) == r.bits@.intersect(l.bits@));
    let both = l.bits@.intersect(r.bits@);
    assert(both.intersect(mines) == r.bits@.intersect(l.bits@).intersect(mines));
    assert(inter_min(l, r) <= both.intersect(mines).len() <= inter_max(l, r));
    assert(inter_min(r, l) == inter_min(l, r));
    assert(inter_max(r, l) == inter_max(l, r));
    let c = cross_spec(l, r);
    assert forall|k: int| 0 <= k < c.len() implies {
        let part = #[trigger] c[k];
        bounds_hold(part.0, part.1, part.2, mines)
    } by {
        if k > 0 {
            if k == 1 && l.bits@.difference(r.bits@).len() > 0 {
                assert(c[k] == (l.bits@.difference(r.bits@), only_min(l, r), only_max(l, r)));
            } else {
                assert(c[k] == (r.bits@.difference(l.bits@), only_min(r, l), only_max(r, l)));
            }
        }
    }
}

/// The mines of `a` split into those in `b` and those outside it.
proof fn lemma_part_counts(a: Set<int>, b: Set<int>, mines: Set<int>)
    requires
        a.subset_of(crate::bitset::cells(CAPACITY as int)),
    ensures
        a.intersect(mines).len() == a.intersect(b).intersect(mines).len() + a.difference(
            b,
        ).intersect(mines).len(),
        a.difference(b).intersect(mines).len() <= a.difference(b).len(),
        a.intersect(b).intersect(mines).len() <= a.intersect(b).len(),
{
    lemma_int_range(0, CAPACITY as int);
    lemma_len_subset(a, crate::bitset::cells(CAPACITY as int));
    let inside = a.intersect(b).intersect(mines);
    let outside = a.difference(b).intersect(mines);
    lemma_set_subset_finite(a, inside);
    lemma_set_subset_finite(a, outside);
    lemma_set_subset_finite(a, a.difference(b));
    lemma_set_subset_finite(a, a.intersect(b));
    assert(inside.disjoint(outside));
    lemma_set_disjoint_lens(inside, outside);
    assert(a.intersect(mines) =~= inside + outside);
    lemma_len_intersect(a.difference(b), mines);
    lemma_len_intersect(a.intersect(b), mines);
}

/// Crossing `l` with `r` yields the same constraints as crossing `r` with
/// `l`, only in another order.
pub proof fn lemma_cross_symmetric(l: Constraint, r: Constraint)
    requires
        l.wf(),
        r.wf(),
    ensures
        cross_spec(l, r).len() == cross_spec(r, l).len(),
        cross_spec(l, r).to_set() == cross_spec(r, l).to_set(),
        cross_spec(l, r)[0] == cross_spec(r, l)[0],
{
    lemma_split_len(l.bits, r.bits);
    assert(inter_min(l, r) == inter_min(r, l));
    assert(inter_max(l, r) == inter_max(r, l));
    let a = cross_spec(l, r);
    let b = cross_spec(r, l);
    assert(a[0] == b[0]);
    assert forall|x| a.contains(x) implies b.contains(x) by {
        let i = choose|i: int| 0 <= i < a.len() && a[i] == x;
        if i == 0 {
            assert(b[0] == x);
        } else if i == 1 && l.bits@.difference(r.bits@).len() > 0 {
            assert(b[b.len() - 1] == x);
        } else {
            assert(b[1] == x);
        }
    }
    assert forall|x| b.contains(x) implies a.contains(x) by {
        let i = choose|i: int| 0 <= i < b.len() && b[i] == x;
        if i == 0 {
            assert(a[0] == x);
        } else if i == 1 && r.bits@.difference(l.bits@).len() > 0 {
            assert(a[a.len() - 1] == x);
        } else {
            assert(a[1] == x);
        }
    }
    assert(a.to_set() =~= b.to_set());
}

/// Crossing two constraints on disjoint, non-empty regions gives nothing new:
/// an empty intersection with no mines, then the two constraints themselves.
pub proof fn lemma_cross_disjoint(l: Constraint, r: Constraint)
    requires
        l.wf(),
        r.wf(),
        l.min_mines <= l.max_mines,
        r.min_mines <= r.max_mines,
        l.bits@.disjoint(r.bits@),
        l.bits@ != Set::<int>::empty(),
        r.bits@ != Set::<int>::empty(),
    ensures
        cross_spec(l, r) == seq![(Set::<int>::empty(), 0int, 0int), l.model(), r.model()],
{
    lemma_split_len(l.bits, r.bits);
    lemma_split_len(r.bits, l.bits);
    assert(l.bits@.intersect(r.bits@) =~= Set::<int>::empty());
    assert(l.bits@.difference(r.bits@) =~= l.bits@);
    assert(r.bits@.difference(l.bits@) =~= r.bits@);
    assert(cross_spec(l, r) =~= seq![(Set::<int>::empty(), 0int, 0int), l.model(), r.model()]);
}

} // verus!
