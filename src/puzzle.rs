//! The immutable description of a puzzle.
use vstd::prelude::*;
use crate::bitset::{BitSet, CAPACITY, cells};

verus! {

/// A puzzle over the cells `0 .. neighbors.len()`.
#[derive(Clone)]
pub struct Puzzle {
    /// `neighbors[i]` is the set of cells adjacent to cell `i`.
    pub neighbors: Vec<BitSet>,
    /// The cells that hold a mine.
    pub mines: BitSet,
    /// The cells that show no count even once revealed.
    pub unknowns: BitSet,
    /// The cells revealed before solving starts.
    pub revealed: BitSet,
    /// Regions whose number of mines is given.
    pub hints: Vec<BitSet>,
}

impl Puzzle {
    /// The number of cells.
    pub open spec fn n(&self) -> int {
        self.neighbors.len() as int
    }

    /// Every region the puzzle names lies within its cells.
    pub open spec fn wf(&self) -> bool {
        &&& self.neighbors.len() <= CAPACITY
        &&& forall|i: int|
            0 <= i < self.neighbors.len() ==> (#[trigger] self.neighbors@[i])@.subset_of(
                cells(self.n()),
            )
        &&& forall|j: int|
            0 <= j < self.hints.len() ==> (#[trigger] self.hints@[j])@.subset_of(cells(self.n()))
    }

    /// The number of cells.
    pub fn size(&self) -> (r: usize)
        ensures
            r == self.n(),
    {
        self.neighbors.len()
    }

    /// How cell `i` is drawn: `*` for a mine, `?` for a hidden cell, a space
    /// for the others.
    pub open spec fn cell_char(&self, i: int) -> char {
        if self.mines@.contains(i) {
            '*'
        } else if self.unknowns@.contains(i) {
            '?'
        } else {
            ' '
        }
    }

    /// Draws the cells between brackets, one character each.
    pub fn to_string(&self) -> (r: String)
        requires
            self.neighbors.len() <= CAPACITY,
        ensures
            r@ == seq!['['] + Seq::new(self.n() as nat, |i: int| self.cell_char(i)) + seq![']'],
    {
        proof {
            reveal_strlit("[");
        }
        let mut line = String::from_str("[");
        let n = self.size();
        let mut i: usize = 0;
        while i < n
            invariant
                i <= n == self.n() <= CAPACITY,
                line@ == seq!['['] + Seq::new(i as nat, |j: int| self.cell_char(j)),
            decreases n - i,
        {
            let ghost before = line@;
            proof {
                reveal_strlit("*");
                reveal_strlit("?");
                reveal_strlit(" ");
            }
            if self.mines.get(i) {
                line.append("*");
            } else if self.unknowns.get(i) {
                line.append("?");
            } else {
                line.append(" ");
            }
            assert(line@ =~= before.push(self.cell_char(i as int)));
            assert(Seq::new((i + 1) as nat, |j: int| self.cell_char(j)) =~= Seq::new(
                i as nat,
                |j: int| self.cell_char(j),
            ).push(self.cell_char(i as int)));
            i = i + 1;
        }
        let ghost before = line@;
        proof {
            reveal_strlit("]");
        }
        line.append("]");
        assert(line@ =~= before.push(']'));
        line
    }
}

/// One character per cell `0 .. len`: `X` for the cells of `s`, a space for the others.
pub open spec fn marks(s: Set<int>, len: int) -> Seq<char> {
    Seq::new(len as nat, |i: int| if s.contains(i) { 'X' } else { ' ' })
}

/// Draws the cells `0 .. len` of `bits` between brackets, `X` for a member.
pub fn bits_to_string(bits: BitSet, len: usize) -> (r: String)
    requires
        len <= CAPACITY,
    ensures
        r@ == seq!['['] + marks(bits@, len as int) + seq![']'],
{
    proof {
        reveal_strlit("[");
        reveal_strlit("]");
        reveal_strlit("X");
        reveal_strlit(" ");
    }
    let mut line = String::from_str("[");
    let mut i: usize = 0;
    while i < len
        invariant
            i <= len <= CAPACITY,
            line@ == seq!['['] + marks(bits@, i as int),
        decreases len - i,
    {
        let ghost before = line@;
        proof {
            reveal_strlit("X");
            reveal_strlit(" ");
        }
        if bits.get(i) {
            line.append("X");
            assert(line@ =~= before.push('X'));
        } else {
            line.append(" ");
            assert(line@ =~= before.push(' '));
        }
        assert(marks(bits@, i + 1) =~= marks(bits@, i as int).push(
            if bits@.contains(i as int) { 'X' } else { ' ' },
        ));
        i = i + 1;
    }
    let ghost before = line@;
    proof {
        reveal_strlit("]");
    }
    line.append("]");
    assert(line@ =~= before.push(']'));
    line
}

} // verus!
