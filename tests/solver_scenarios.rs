use tametsi_solver::bitset::BitSet;
use tametsi_solver::constraint::{cross_constraints, Constraint};
use tametsi_solver::puzzle::Puzzle;
use tametsi_solver::solver::{Solver, StepResult};

fn set_of(cells: &[usize]) -> BitSet {
    let mut b = BitSet::new();
    for &c in cells {
        b.set(c, true);
    }
    b
}

fn members(b: &BitSet, n: usize) -> Vec<usize> {
    (0..n).filter(|&i| b.get(i)).collect()
}

fn puzzle(n: usize, mines: &[usize], hints: &[&[usize]]) -> Puzzle {
    Puzzle {
        neighbors: vec![BitSet::new(); n],
        mines: set_of(mines),
        unknowns: BitSet::new(),
        revealed: BitSet::new(),
        hints: hints.iter().map(|h| set_of(h)).collect(),
    }
}

fn exact(cells: &[usize], mines: usize) -> Constraint {
    Constraint { bits: set_of(cells), min_mines: mines, max_mines: mines, size: cells.len() }
}

fn check_state(s: &Solver, n: usize) {
    let p = &s.puzzle;
    for i in 0..n {
        assert!(!(p.revealed.get(i) && p.flagged.get(i)));
        assert!(!p.flagged.get(i) || p.base.mines.get(i));
        assert!(!p.revealed.get(i) || !p.base.mines.get(i));
    }
}

fn run(s: &mut Solver, n: usize, limit: usize) -> StepResult {
    for _ in 0..limit {
        let r = s.step();
        check_state(s, n);
        match r {
            StepResult::Finished | StepResult::UnexpectedStop(_) => return r,
            _ => {}
        }
    }
    panic!("solver did not stop");
}

#[test]
fn single_exact_zero_hint() {
    let mut s = Solver::new(puzzle(3, &[], &[&[0, 1, 2]]), 9, 3);
    assert!(matches!(s.step(), StepResult::Finished));
    assert_eq!(members(&s.puzzle.revealed, 3), vec![0, 1, 2]);
    assert_eq!(members(&s.puzzle.flagged, 3), Vec::<usize>::new());
    assert!(matches!(s.step(), StepResult::Finished));
}

#[test]
fn one_two_one_chain() {
    let mut s = Solver::new(puzzle(5, &[0, 4], &[&[0, 1], &[1, 2, 3], &[3, 4]]), 9, 3);
    assert!(matches!(run(&mut s, 5, 50), StepResult::Finished));
    assert_eq!(members(&s.puzzle.flagged, 5), vec![0, 4]);
    assert_eq!(members(&s.puzzle.revealed, 5), vec![1, 2, 3]);
}

#[test]
fn subset_subtraction_reveals_the_rest() {
    let mut s = Solver::new(puzzle(3, &[0], &[&[0, 1, 2], &[0, 1]]), 9, 3);
    match s.step() {
        StepResult::CrossConstraint(c) => assert_eq!(members(&c.bits, 3), vec![0, 1]),
        _ => panic!("expected a cross"),
    }
    match s.step() {
        StepResult::Progress { revealed, flagged } => {
            assert_eq!(members(&revealed, 3), vec![2]);
            assert!(!flagged.any());
        }
        _ => panic!("expected progress"),
    }
    assert!(s.puzzle.revealed.get(2));
}

#[test]
fn removed_constraint_is_skipped_in_the_queue() {
    let mut s = Solver::new(puzzle(3, &[2], &[&[0, 1, 2], &[0]]), 9, 3);
    match s.step() {
        StepResult::Progress { revealed, .. } => assert_eq!(members(&revealed, 3), vec![0]),
        _ => panic!("expected progress"),
    }
    match s.step() {
        StepResult::CrossConstraint(c) => {
            assert_eq!(members(&c.bits, 3), vec![1, 2]);
            assert_eq!((c.min_mines, c.max_mines, c.size), (1, 1, 2));
        }
        _ => panic!("expected the shrunken constraint"),
    }
    assert!(matches!(s.step(), StepResult::UnexpectedStop(_)));
}

#[test]
fn size_gate_still_finishes_a_solvable_puzzle() {
    let mut s = Solver::new(puzzle(5, &[0, 4], &[&[0, 1], &[1, 2, 3], &[3, 4]]), 1, 0);
    assert!(matches!(run(&mut s, 5, 50), StepResult::Finished));
    assert_eq!(members(&s.puzzle.flagged, 5), vec![0, 4]);
}

#[test]
fn size_gate_blocks_crossing_then_stops() {
    let mut s = Solver::new(puzzle(3, &[0], &[&[0, 1, 2], &[0, 1]]), 1, 0);
    match run(&mut s, 3, 50) {
        StepResult::UnexpectedStop(reason) => assert_eq!(reason, "no more constraints"),
        _ => panic!("expected a stop"),
    }
    assert!(!s.puzzle.revealed.get(2));
}

#[test]
fn contradictory_bounds_are_reported() {
    let mut s = Solver::new(puzzle(3, &[], &[]), 9, 3);
    let mut s2 = Solver::new(puzzle(3, &[0], &[&[2]]), 9, 3);
    assert!(s2.add_constraint(exact(&[0, 1], 1)).is_ok());
    match s2.add_constraint(exact(&[0, 1], 0)) {
        Err(reason) => assert_eq!(reason, "inconsistent bounds on region [XX ]"),
        Ok(()) => panic!("expected an inconsistency"),
    }
    assert!(s.add_constraint(exact(&[0, 1], 0)).is_ok());
}

#[test]
fn empty_puzzle_finishes_at_once() {
    let mut s = Solver::new(puzzle(0, &[], &[]), 9, 3);
    assert!(matches!(s.step(), StepResult::Finished));
}

#[test]
fn global_count_hint_solves_when_it_decides() {
    let mut none = Solver::new(puzzle(3, &[], &[&[0, 1, 2]]), 9, 3);
    assert!(matches!(run(&mut none, 3, 10), StepResult::Finished));
    let mut all = Solver::new(puzzle(3, &[0, 1, 2], &[&[0, 1, 2]]), 9, 3);
    assert!(matches!(run(&mut all, 3, 10), StepResult::Finished));
    assert_eq!(members(&all.puzzle.flagged, 3), vec![0, 1, 2]);
    let mut one = Solver::new(puzzle(3, &[1], &[&[0, 1, 2]]), 9, 3);
    assert!(matches!(run(&mut one, 3, 10), StepResult::UnexpectedStop(_)));
}

#[test]
fn no_hints_uses_the_whole_mine_count() {
    let mut s = Solver::new(puzzle(2, &[0, 1], &[]), 9, 3);
    assert!(matches!(run(&mut s, 2, 10), StepResult::Finished));
    assert_eq!(members(&s.puzzle.flagged, 2), vec![0, 1]);
}

#[test]
fn adding_twice_is_idempotent() {
    let mut s = Solver::new(puzzle(3, &[0], &[&[2]]), 9, 3);
    assert!(s.add_constraint(exact(&[0, 1], 1)).is_ok());
    assert!(s.add_constraint(exact(&[0, 1], 1)).is_ok());
    match s.step() {
        StepResult::Progress { revealed, .. } => assert_eq!(members(&revealed, 3), vec![2]),
        _ => panic!("expected progress"),
    }
    match s.step() {
        StepResult::CrossConstraint(c) => assert_eq!(members(&c.bits, 3), vec![0, 1]),
        _ => panic!("expected a cross"),
    }
    assert!(matches!(s.step(), StepResult::UnexpectedStop(_)));
}

#[test]
fn weaker_constraint_changes_nothing() {
    let mut s = Solver::new(puzzle(3, &[0], &[&[2]]), 9, 3);
    assert!(s.add_constraint(exact(&[0, 1], 1)).is_ok());
    let weaker = Constraint { bits: set_of(&[0, 1]), min_mines: 0, max_mines: 1, size: 2 };
    assert!(s.add_constraint(weaker).is_ok());
    let _ = s.step();
    match s.step() {
        StepResult::CrossConstraint(c) => assert_eq!((c.min_mines, c.max_mines), (1, 1)),
        _ => panic!("expected a cross"),
    }
}

#[test]
fn tighter_constraint_replaces_the_known_one() {
    let mut s = Solver::new(puzzle(3, &[0], &[&[2]]), 9, 3);
    let loose = Constraint { bits: set_of(&[0, 1]), min_mines: 0, max_mines: 1, size: 2 };
    let firm = Constraint { bits: set_of(&[0, 1]), min_mines: 1, max_mines: 2, size: 2 };
    assert!(s.add_constraint(loose).is_ok());
    assert!(s.add_constraint(firm).is_ok());
    let _ = s.step();
    match s.step() {
        StepResult::CrossConstraint(c) => assert_eq!((c.min_mines, c.max_mines), (1, 1)),
        _ => panic!("expected a cross"),
    }
}

#[test]
fn crossing_is_symmetric() {
    let l = exact(&[0, 1, 2], 1);
    let r = Constraint { bits: set_of(&[2, 3]), min_mines: 1, max_mines: 2, size: 2 };
    let a = cross_constraints(l, r);
    let b = cross_constraints(r, l);
    assert_eq!(a.len(), 3);
    assert_eq!(b.len(), 3);
    assert!(a[0] == b[0]);
    assert!(a[1] == b[2]);
    assert!(a[2] == b[1]);
}

#[test]
fn crossing_values() {
    let l = exact(&[0, 1, 2], 1);
    let r = exact(&[0, 1], 1);
    let out = cross_constraints(l, r);
    assert_eq!(out.len(), 2);
    assert_eq!(members(&out[0].bits, 3), vec![0, 1]);
    assert_eq!((out[0].min_mines, out[0].max_mines, out[0].size), (1, 1, 2));
    assert_eq!(members(&out[1].bits, 3), vec![2]);
    assert_eq!((out[1].min_mines, out[1].max_mines, out[1].size), (0, 0, 1));
}

#[test]
fn crossing_disjoint_regions_is_a_no_op() {
    let l = Constraint { bits: set_of(&[0, 1]), min_mines: 1, max_mines: 2, size: 2 };
    let r = exact(&[3], 0);
    let out = cross_constraints(l, r);
    assert_eq!(out.len(), 3);
    assert!(!out[0].bits.any());
    assert_eq!((out[0].min_mines, out[0].max_mines, out[0].size), (0, 0, 0));
    assert!(out[0].is_useless());
    assert!(out[1] == l);
    assert!(out[2] == r);
}

#[test]
fn neighbor_counts_drive_the_solve() {
    let mut p = puzzle(3, &[2], &[]);
    p.neighbors = vec![set_of(&[1]), set_of(&[0, 2]), set_of(&[1])];
    p.revealed = set_of(&[0]);
    p.hints = vec![set_of(&[0, 1, 2])];
    let mut s = Solver::new(p, 9, 3);
    assert!(s.puzzle.revealed.get(0));
    assert!(matches!(run(&mut s, 3, 20), StepResult::Finished));
    assert_eq!(members(&s.puzzle.revealed, 3), vec![0, 1]);
    assert_eq!(members(&s.puzzle.flagged, 3), vec![2]);
}

#[test]
fn revealed_mine_at_start_stops_the_solver() {
    let mut p = puzzle(2, &[0], &[&[0, 1]]);
    p.revealed = set_of(&[0]);
    let mut s = Solver::new(p, 9, 3);
    match s.step() {
        StepResult::UnexpectedStop(reason) => assert_eq!(reason, "revealed a mine"),
        _ => panic!("expected a stop"),
    }
    assert!(matches!(s.step(), StepResult::UnexpectedStop(_)));
}

#[test]
fn crossing_keeps_true_bounds() {
    let mines = set_of(&[1, 3]);
    let count = |c: &Constraint| c.bits.and(&mines).count();
    let l = Constraint { bits: set_of(&[0, 1, 2]), min_mines: 0, max_mines: 2, size: 3 };
    let r = Constraint { bits: set_of(&[1, 2, 3, 4]), min_mines: 2, max_mines: 2, size: 4 };
    for out in [cross_constraints(l, r), cross_constraints(r, l)] {
        assert_eq!(out.len(), 3);
        for c in &out {
            assert!(c.min_mines <= count(c) && count(c) <= c.max_mines);
            assert_eq!(c.size, c.bits.count());
        }
    }
    let out = cross_constraints(l, r);
    assert_eq!((out[0].min_mines, out[0].max_mines), (0, 2));
    assert_eq!((out[1].min_mines, out[1].max_mines), (0, 1));
    assert_eq!((out[2].min_mines, out[2].max_mines), (0, 2));
}

#[test]
fn hidden_cells_give_no_count() {
    let mut p = puzzle(3, &[2], &[&[0]]);
    p.neighbors = vec![set_of(&[1]), set_of(&[0, 2]), set_of(&[1])];
    p.unknowns = set_of(&[0, 1]);
    let mut s = Solver::new(p, 9, 3);
    match s.step() {
        StepResult::Progress { revealed, .. } => assert_eq!(members(&revealed, 3), vec![0]),
        _ => panic!("expected progress"),
    }
    assert!(matches!(s.step(), StepResult::UnexpectedStop(_)));
    assert!(!s.puzzle.revealed.get(1));
}

#[test]
fn revealing_inside_an_all_mine_region_fails() {
    let mut s = Solver::new(puzzle(3, &[], &[]), 9, 3);
    assert!(s.add_constraint(exact(&[0], 1)).is_ok());
    match s.step() {
        StepResult::UnexpectedStop(reason) => {
            assert_eq!(reason, "revealed a safe cell in a region of mines: [X  ]")
        }
        _ => panic!("expected a stop"),
    }
}

#[test]
fn contradictory_solved_constraints_stop() {
    let mut s = Solver::new(puzzle(2, &[0, 1], &[]), 9, 3);
    assert!(s.add_constraint(exact(&[0], 0)).is_ok());
    match s.step() {
        StepResult::UnexpectedStop(reason) => assert_eq!(reason, "revealed a mine"),
        _ => panic!("expected a stop"),
    }
}

#[test]
fn queue_hands_out_smallest_tightest_first() {
    let mut s = Solver::new(puzzle(4, &[0], &[&[0, 1, 2, 3], &[0, 1, 2], &[0, 1]]), 0, 0);
    let mut sizes = Vec::new();
    for _ in 0..3 {
        match s.step() {
            StepResult::CrossConstraint(c) => sizes.push(c.size),
            _ => panic!("expected a cross"),
        }
    }
    assert_eq!(sizes, vec![2, 3, 4]);
}

#[test]
fn weaker_than_a_solved_constraint_changes_nothing() {
    let mut s = Solver::new(puzzle(3, &[2], &[&[0, 1]]), 9, 3);
    let weaker = Constraint { bits: set_of(&[0, 1]), min_mines: 0, max_mines: 1, size: 2 };
    assert!(s.add_constraint(weaker).is_ok());
    match s.step() {
        StepResult::Progress { revealed, .. } => assert_eq!(members(&revealed, 3), vec![0, 1]),
        _ => panic!("expected progress"),
    }
    assert!(matches!(s.step(), StepResult::UnexpectedStop(_)));
}

#[test]
fn contradicting_a_solved_constraint_is_reported() {
    let mut s = Solver::new(puzzle(2, &[0], &[&[0]]), 9, 3);
    match s.add_constraint(exact(&[0], 0)) {
        Err(reason) => assert_eq!(reason, "inconsistent bounds on region [X ]"),
        Ok(()) => panic!("expected an inconsistency"),
    }
    assert!(s.add_constraint(exact(&[0], 1)).is_ok());
}

#[test]
fn stalled_store_stops_with_no_more_constraints() {
    let mut s = Solver::new(puzzle(2, &[1], &[&[0, 1]]), 9, 3);
    match s.step() {
        StepResult::CrossConstraint(c) => assert_eq!(members(&c.bits, 2), vec![0, 1]),
        _ => panic!("expected a cross"),
    }
    match s.step() {
        StepResult::UnexpectedStop(reason) => assert_eq!(reason, "no more constraints"),
        _ => panic!("expected a stop"),
    }
}
