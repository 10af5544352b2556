use std::path::PathBuf;

use tametsi_solver::bitset::BitSet;
use tametsi_solver::engine::{decimal_string, format_text, keeps_running, Command};
use tametsi_solver::parser::{build_puzzle, split_ids, NodeRecord, ParseError, Parser, PuzzleListing};
use tametsi_solver::puzzle::{bits_to_string, Puzzle};
use tametsi_solver::solver::{PuzzleState, StepResult};

fn node(id: &str, edges: &str, has_mine: bool, secret: bool, revealed: bool) -> NodeRecord {
    NodeRecord { id: id.to_string(), edges: edges.to_string(), has_mine, secret, revealed }
}

fn members(b: &BitSet, n: usize) -> Vec<usize> {
    (0..n).filter(|&i| b.get(i)).collect()
}

#[test]
fn split_ids_follows_str_split() {
    assert_eq!(split_ids("a,bc,d"), vec!["a", "bc", "d"]);
    assert_eq!(split_ids(""), vec![""]);
    assert_eq!(split_ids("x,"), vec!["x", ""]);
}

#[test]
fn build_puzzle_interns_ids_in_order() {
    let nodes = vec![
        node("n7", "n3", false, false, true),
        node("n3", "n7,n9", true, false, false),
        node("n9", "", false, true, false),
    ];
    let hints = vec!["n9,n7".to_string()];
    let p = match build_puzzle(&nodes, &hints) {
        Ok(p) => p,
        Err(_) => panic!("expected a puzzle"),
    };
    assert_eq!(p.size(), 3);
    assert_eq!(members(&p.neighbors[0], 3), vec![1]);
    assert_eq!(members(&p.neighbors[1], 3), vec![0, 2]);
    assert_eq!(members(&p.neighbors[2], 3), Vec::<usize>::new());
    assert_eq!(members(&p.mines, 3), vec![1]);
    assert_eq!(members(&p.unknowns, 3), vec![2]);
    assert_eq!(members(&p.revealed, 3), vec![0]);
    assert_eq!(p.hints.len(), 1);
    assert_eq!(members(&p.hints[0], 3), vec![0, 2]);
}

#[test]
fn build_puzzle_rejects_mine_and_secret() {
    let nodes = vec![node("a", "", true, true, false)];
    assert!(matches!(build_puzzle(&nodes, &vec![]), Err(ParseError::MineAndSecret(id)) if id == "a"));
}

#[test]
fn build_puzzle_rejects_unknown_ids() {
    let nodes = vec![node("a", "b", false, false, false)];
    assert!(matches!(build_puzzle(&nodes, &vec![]), Err(ParseError::UnknownId(id)) if id == "b"));
    let nodes = vec![node("a", "", false, false, false)];
    assert!(matches!(build_puzzle(&nodes, &vec!["a,z".to_string()]), Err(ParseError::UnknownId(id)) if id == "z"));
}

#[test]
fn build_puzzle_rejects_duplicate_ids() {
    let nodes = vec![node("a", "", false, false, false), node("a", "", false, false, false)];
    assert!(matches!(build_puzzle(&nodes, &vec![]), Err(ParseError::DuplicateId(id)) if id == "a"));
}

#[test]
fn build_puzzle_rejects_too_many_nodes() {
    let nodes: Vec<NodeRecord> = (0..449).map(|i| node(&i.to_string(), "", false, false, false)).collect();
    assert!(matches!(build_puzzle(&nodes, &vec![]), Err(ParseError::TooManyCells)));
}

#[test]
fn drawing_cells() {
    let mut b = BitSet::new();
    b.set(1, true);
    assert_eq!(bits_to_string(b, 3), "[ X ]");
    let mut mines = BitSet::new();
    mines.set(0, true);
    let mut unknowns = BitSet::new();
    unknowns.set(2, true);
    let p = Puzzle { neighbors: vec![BitSet::new(); 3], mines, unknowns, revealed: BitSet::new(), hints: vec![] };
    assert_eq!(p.to_string(), "[* ?]");
    let mut revealed = BitSet::new();
    revealed.set(1, true);
    revealed.set(2, true);
    let state = PuzzleState { base: p, revealed, flagged: mines };
    assert_eq!(state.to_string(), "[* ?]");
    let fresh = PuzzleState { base: state.base.clone(), revealed: BitSet::new(), flagged: BitSet::new() };
    assert_eq!(fresh.to_string(), "[...]");
}

#[test]
fn bitset_operations() {
    let mut a = BitSet::new();
    let mut b = BitSet::new();
    for i in [0usize, 5, 64, 447] {
        a.set(i, true);
    }
    for i in [5usize, 64, 100] {
        b.set(i, true);
    }
    assert_eq!(a.count(), 4);
    assert_eq!(members(&a.and(&b), 448), vec![5, 64]);
    assert_eq!(members(&a.or(&b), 448), vec![0, 5, 64, 100, 447]);
    assert_eq!(members(&a.and_not(&b), 448), vec![0, 447]);
    assert_eq!(members(&BitSet::universe(3), 448), vec![0, 1, 2]);
    a.set(447, false);
    assert!(!a.get(447));
    assert!(!BitSet::new().any());
    assert!(a != b);
    assert!(a.and(&b) == b.and(&a));
}

#[test]
fn engine_keeps_running_until_the_solver_stops() {
    assert!(keeps_running(&Command::Run, None));
    assert!(keeps_running(&Command::Run, Some(&StepResult::Progress { revealed: BitSet::new(), flagged: BitSet::new() })));
    assert!(!keeps_running(&Command::Run, Some(&StepResult::Finished)));
    assert!(!keeps_running(&Command::Run, Some(&StepResult::UnexpectedStop("x".to_string()))));
    assert!(!keeps_running(&Command::Step, None));
    assert!(!keeps_running(&Command::Stop, None));
    let listing = PuzzleListing { name: "p".to_string(), path: PathBuf::from("p.xml") };
    assert!(!keeps_running(&Command::Load(listing), None));
    assert!(Command::Step.steps());
    assert!(!Command::Stop.steps());
}

#[test]
fn parser_from_folder_keeps_the_path() {
    let p = Parser::from_folder("puzzles");
    assert_eq!(p.puzzle_dir, PathBuf::from("puzzles"));
}

#[test]
fn counts_of_squares_are_spelled_out() {
    assert_eq!(format_text(1), "1 square");
    assert_eq!(format_text(0), "0 squares");
    assert_eq!(format_text(12), "12 squares");
    assert_eq!(decimal_string(407), "407");
    assert_eq!(decimal_string(9), "9");
}
