//! Puzzle catalogs, and the construction of a puzzle from the records of
//! its document.
use vstd::prelude::*;
use std::path::PathBuf;
use vstd::std_specs::convert::IntoSpec;
use vstd::string::*;
use crate::bitset::{BitSet, CAPACITY, cells};
use crate::puzzle::Puzzle;

verus! {

/// std's `PathBuf`, which the library only carries along; nothing is read
/// of a path here.
#[verifier::external_type_specification]
#[verifier::external_body]
pub struct ExPathBuf(PathBuf);

/// Relies on `PathBuf::clone`, which copies a path; nothing is claimed of the copy.
pub assume_specification[ <PathBuf as Clone>::clone ](p: &PathBuf) -> PathBuf;

/// A puzzle file and its title.
#[derive(Clone, PartialEq, Eq)]
pub struct PuzzleListing {
    pub name: String,
    pub path: PathBuf,
}

/// Where the puzzle files are.
pub struct Parser {
    pub puzzle_dir: PathBuf,
}

impl Parser {
    /// A parser over the puzzle files of `path`.
    pub fn from_folder<T: Into<PathBuf>>(path: T) -> (r: Parser)
        ensures
            T::obeys_into_spec() ==> r.puzzle_dir == path.into_spec(),
    {
        Parser { puzzle_dir: path.into() }
    }
}

/// The pieces of `s` between occurrences of `sep`, as `str::split` gives
/// them: the empty text gives one empty piece.
pub open spec fn split_on(s: Seq<char>, sep: char) -> Seq<Seq<char>>
    decreases s.len(),
{
    if s.len() == 0 {
        seq![Seq::empty()]
    } else {
        let rest = split_on(s.drop_last(), sep);
        if s.last() == sep {
            rest.push(Seq::empty())
        } else {
            rest.update(rest.len() - 1, rest.last().push(s.last()))
        }
    }
}

/// Splits a comma-separated list of node IDs.
pub fn split_ids(text: &str) -> (r: Vec<String>)
    ensures
        r@.map_values(|x: String| x@) == split_on(text@, ','),
{
    let n = text.unicode_len();
    let mut pieces: Vec<String> = Vec::new();
    let mut start: usize = 0;
    let mut i: usize = 0;
    assert(text@.subrange(0, 0) =~= Seq::<char>::empty());
    while i < n
        invariant
            n == text@.len(),
            start <= i <= n,
            split_on(text@.subrange(0, i as int), ',') == pieces@.map_values(|x: String| x@).push(
                text@.subrange(start as int, i as int),
            ),
        decreases n - i,
    {
        let c = text.get_char(i);
        let ghost prefix = text@.subrange(0, i as int);
        assert(text@.subrange(0, i + 1).drop_last() == prefix);
        assert(text@.subrange(0, i + 1).last() == c);
        if c == ',' {
            let piece = text.substring_char(start, i);
            let ghost before = pieces@.map_values(|x: String| x@);
            pieces.push(String::from_str(piece));
            assert(pieces@.map_values(|x: String| x@) =~= before.push(text@.subrange(start as int, i as int)));
            assert(text@.subrange((i + 1) as int, (i + 1) as int) =~= Seq::<char>::empty());
            start = i + 1;
        } else {
            assert(text@.subrange(start as int, i + 1) =~= text@.subrange(start as int, i as int).push(c));
        }
        i = i + 1;
    }
    let last = text.substring_char(start, n);
    let ghost before = pieces@.map_values(|x: String| x@);
    pieces.push(String::from_str(last));
    assert(pieces@.map_values(|x: String| x@) =~= before.push(text@.subrange(start as int, n as int)));
    assert(text@.subrange(0, n as int) =~= text@);
    pieces
}

/// One node of a puzzle's graph, as its document gives it.
pub struct NodeRecord {
    /// The node's ID.
    pub id: String,
    /// The IDs of its neighbors, comma-separated; empty when it has none.
    pub edges: String,
    pub has_mine: bool,
    /// Its content stays hidden once revealed.
    pub secret: bool,
    pub revealed: bool,
}

/// Why a puzzle's records do not describe a puzzle.
pub enum ParseError {
    /// More nodes than a puzzle can have.
    TooManyCells,
    /// Two nodes with this ID.
    DuplicateId(String),
    /// The node with this ID both holds a mine and is hidden.
    MineAndSecret(String),
    /// An edge or a hint names this ID, which no node has.
    UnknownId(String),
}

/// No two nodes share an ID.
pub open spec fn ids_unique(nodes: Seq<NodeRecord>) -> bool {
    forall|i: int, j: int| 0 <= i < j < nodes.len() ==> nodes[i].id@ != nodes[j].id@
}

/// Some node has the ID `id`.
pub open spec fn names_node(nodes: Seq<NodeRecord>, id: Seq<char>) -> bool {
    exists|j: int| 0 <= j < nodes.len() && nodes[j].id@ == id
}

/// Every ID of the list `text` is the ID of a node.
pub open spec fn all_known(nodes: Seq<NodeRecord>, text: Seq<char>) -> bool {
    forall|k: int|
        0 <= k < split_on(text, ',').len() ==> #[trigger] names_node(nodes, split_on(text, ',')[k])
}

/// The nodes that the list `text` names.
pub open spec fn region_of(nodes: Seq<NodeRecord>, text: Seq<char>) -> Set<int> {
    Set::new(|j: int| 0 <= j < nodes.len() && split_on(text, ',').contains(nodes[j].id@))
}

/// The edges of every node and every hint name known nodes.
pub open spec fn references_known(nodes: Seq<NodeRecord>, hints: Seq<String>) -> bool {
    &&& forall|i: int|
        0 <= i < nodes.len() ==> (#[trigger] nodes[i]).edges@.len() == 0 || all_known(
            nodes,
            nodes[i].edges@,
        )
    &&& forall|h: int| 0 <= h < hints.len() ==> all_known(nodes, #[trigger] hints[h]@)
}

/// The records describe a puzzle.
pub open spec fn records_ok(nodes: Seq<NodeRecord>, hints: Seq<String>) -> bool {
    &&& nodes.len() <= CAPACITY
    &&& ids_unique(nodes)
    &&& forall|i: int| 0 <= i < nodes.len() ==> !((#[trigger] nodes[i]).has_mine && nodes[i].secret)
    &&& references_known(nodes, hints)
}

/// `p` is the puzzle that the records describe, cells in node order.
pub open spec fn describes(p: Puzzle, nodes: Seq<NodeRecord>, hints: Seq<String>) -> bool {
    &&& p.wf()
    &&& p.n() == nodes.len()
    &&& p.mines@ == Set::new(|i: int| 0 <= i < nodes.len() && nodes[i].has_mine)
    &&& p.unknowns@ == Set::new(|i: int| 0 <= i < nodes.len() && nodes[i].secret)
    &&& p.revealed@ == Set::new(|i: int| 0 <= i < nodes.len() && nodes[i].revealed)
    &&& forall|i: int|
        0 <= i < nodes.len() ==> (#[trigger] p.neighbors@[i])@ == if nodes[i].edges@.len() == 0 {
            Set::<int>::empty()
        } else {
            region_of(nodes, nodes[i].edges@)
        }
    &&& p.hints.len() == hints.len()
    &&& forall|h: int| 0 <= h < hints.len() ==> (#[trigger] p.hints@[h])@ == region_of(nodes, hints[h]@)
}

/// The index of the node with ID `id`, if any.
fn find_id(nodes: &Vec<NodeRecord>, id: &String) -> (r: Option<usize>)
    ensures
        r matches Some(j) ==> j < nodes.len() && nodes@[j as int].id@ == id@ && forall|k: int|
            0 <= k < j ==> nodes@[k].id@ != id@,
        r is None ==> forall|j: int| 0 <= j < nodes.len() ==> nodes@[j].id@ != id@,
{
    let mut j: usize = 0;
    while j < nodes.len()
        invariant
            j <= nodes.len(),
            forall|k: int| 0 <= k < j ==> nodes@[k].id@ != id@,
        decreases nodes.len() - j,
    {
        if nodes[j].id == *id {
            return Some(j);
        }
        j = j + 1;
    }
    None
}

/// The set of nodes that the list `text` names, or the first ID that names none.
fn region_from(nodes: &Vec<NodeRecord>, text: &str) -> (r: Result<BitSet, String>)
    requires
        nodes.len() <= CAPACITY,
        ids_unique(nodes@),
    ensures
        r is Ok <==> all_known(nodes@, text@),
        r matches Ok(b) ==> b@ == region_of(nodes@, text@),
        r matches Err(id) ==> !names_node(nodes@, id@),
{
    let pieces = split_ids(text);
    let ghost parts = split_on(text@, ',');
    let mut b = BitSet::new();
    let mut k: usize = 0;
    while k < pieces.len()
        invariant
            k <= pieces.len() == parts.len(),
            nodes.len() <= CAPACITY,
            ids_unique(nodes@),
            pieces@.map_values(|x: String| x@) == parts,
            parts == split_on(text@, ','),
            forall|q: int| 0 <= q < k ==> #[trigger] names_node(nodes@, parts[q]),
            b@ == Set::new(|j: int| 0 <= j < nodes.len() && parts.subrange(0, k as int).contains(nodes@[j].id@)),
        decreases pieces.len() - k,
    {
        assert(pieces@.map_values(|x: String| x@)[k as int] == pieces@[k as int]@);
        match find_id(nodes, &pieces[k]) {
            Some(j) => {
                b.set(j, true);
                proof {
                    assert(nodes@[j as int].id@ == parts[k as int]);
                    assert(names_node(nodes@, parts[k as int]));
                    assert(parts.subrange(0, k + 1) =~= parts.subrange(0, k as int).push(parts[k as int]));
                    let ghost next = parts.subrange(0, k + 1);
                    let ghost prior = parts.subrange(0, k as int);
                    assert forall|x: int| b@.contains(x) == (0 <= x < nodes.len() && parts.subrange(0, k + 1).contains(nodes@[x].id@)) by {
                        if 0 <= x < nodes.len() && parts.subrange(0, k + 1).contains(nodes@[x].id@) {
                            let q = choose|q: int| 0 <= q < next.len() && #[trigger] next[q] == nodes@[x].id@;
                            if q < k {
                                assert(parts.subrange(0, k as int)[q] == nodes@[x].id@);
                            } else {
                                if x != j {
                                    if x < j {
                                        assert(nodes@[x].id@ != nodes@[j as int].id@);
                                    } else {
                                        assert(nodes@[j as int].id@ != nodes@[x].id@);
                                    }
                                }
                            }
                        }
                        if x == j {
                            assert(parts.subrange(0, k + 1)[k as int] == nodes@[x].id@);
                        } else if b@.contains(x) {
                            let q = choose|q: int| 0 <= q < prior.len() && #[trigger] prior[q] == nodes@[x].id@;
                            assert(parts.subrange(0, k + 1)[q] == nodes@[x].id@);
                        }
                    }
                    assert(b@ =~= Set::new(|j: int| 0 <= j < nodes.len() && parts.subrange(0, k + 1).contains(nodes@[j].id@)));
                }
            },
            None => {
                proof {
                    assert(!names_node(nodes@, parts[k as int]));
                }
                return Err(pieces[k].clone());
            },
        }
        k = k + 1;
    }
    assert(parts.subrange(0, k as int) =~= parts);
    assert(b@ =~= region_of(nodes@, text@));
    assert forall|q: int| 0 <= q < split_on(text@, ',').len() implies #[trigger] names_node(
        nodes@,
        split_on(text@, ',')[q],
    ) by {
        assert(names_node(nodes@, parts[q]));
    }
    Ok(b)
}

/// Builds the puzzle that the node records and the hint ID lists describe,
/// numbering the cells in node order.
pub fn build_puzzle(nodes: &Vec<NodeRecord>, hints: &Vec<String>) -> (r: Result<Puzzle, ParseError>)
    ensures
        r is Ok <==> records_ok(nodes@, hints@),
        r matches Ok(p) ==> describes(p, nodes@, hints@),
        r matches Err(ParseError::TooManyCells) ==> nodes.len() > CAPACITY,
        r matches Err(ParseError::DuplicateId(id)) ==> exists|i: int, j: int|
            0 <= i < j < nodes.len() && nodes@[i].id@ == id@ && nodes@[j].id@ == id@,
        r matches Err(ParseError::MineAndSecret(id)) ==> exists|i: int|
            0 <= i < nodes.len() && nodes@[i].id@ == id@ && nodes@[i].has_mine && nodes@[i].secret,
        r matches Err(ParseError::UnknownId(id)) ==> !names_node(nodes@, id@),
{
    let n = nodes.len();
    if n > CAPACITY {
        return Err(ParseError::TooManyCells);
    }
    let mut j: usize = 0;
    while j < n
        invariant
            n == nodes.len() <= CAPACITY,
            j <= n,
            forall|a: int, b: int| 0 <= a < b < j ==> nodes@[a].id@ != nodes@[b].id@,
        decreases n - j,
    {
        match find_id(nodes, &nodes[j].id) {
            Some(i) => {
                if i != j {
                    proof {
                        assert(i < j);
                    }
                    return Err(ParseError::DuplicateId(nodes[j].id.clone()));
                }
            },
            None => {},
        }
        j = j + 1;
    }
    let mut mines = BitSet::new();
    let mut unknowns = BitSet::new();
    let mut revealed = BitSet::new();
    let mut i: usize = 0;
    while i < n
        invariant
            n == nodes.len() <= CAPACITY,
            i <= n,
            forall|k: int| 0 <= k < i ==> !((#[trigger] nodes@[k]).has_mine && nodes@[k].secret),
            mines@ == Set::new(|k: int| 0 <= k < i && nodes@[k].has_mine),
            unknowns@ == Set::new(|k: int| 0 <= k < i && nodes@[k].secret),
            revealed@ == Set::new(|k: int| 0 <= k < i && nodes@[k].revealed),
        decreases n - i,
    {
        let node = &nodes[i];
        if node.has_mine && node.secret {
            return Err(ParseError::MineAndSecret(node.id.clone()));
        }
        mines.set(i, node.has_mine);
        unknowns.set(i, node.secret);
        revealed.set(i, node.revealed);
        assert(mines@ =~= Set::new(|k: int| 0 <= k < i + 1 && nodes@[k].has_mine));
        assert(unknowns@ =~= Set::new(|k: int| 0 <= k < i + 1 && nodes@[k].secret));
        assert(revealed@ =~= Set::new(|k: int| 0 <= k < i + 1 && nodes@[k].revealed));
        i = i + 1;
    }
    let mut neighbors: Vec<BitSet> = Vec::new();
    let mut i: usize = 0;
    while i < n
        invariant
            n == nodes.len() <= CAPACITY,
            ids_unique(nodes@),
            i <= n,
            neighbors.len() == i,
            forall|k: int|
                0 <= k < i ==> (#[trigger] nodes@[k]).edges@.len() == 0 || all_known(
                    nodes@,
                    nodes@[k].edges@,
                ),
            forall|k: int|
                0 <= k < i ==> (#[trigger] neighbors@[k])@ == if nodes@[k].edges@.len() == 0 {
                    Set::<int>::empty()
                } else {
                    region_of(nodes@, nodes@[k].edges@)
                },
        decreases n - i,
    {
        let edges = nodes[i].edges.as_str();
        if edges.unicode_len() == 0 {
            neighbors.push(BitSet::new());
        } else {
            match region_from(nodes, edges) {
                Ok(b) => {
                    neighbors.push(b);
                },
                Err(id) => {
                    return Err(ParseError::UnknownId(id));
                },
            }
        }
        i = i + 1;
    }
    let mut regions: Vec<BitSet> = Vec::new();
    let mut h: usize = 0;
    while h < hints.len()
        invariant
            n == nodes.len() <= CAPACITY,
            ids_unique(nodes@),
            h <= hints.len(),
            regions.len() == h,
            forall|k: int| 0 <= k < h ==> all_known(nodes@, #[trigger] hints@[k]@),
            forall|k: int| 0 <= k < h ==> (#[trigger] regions@[k])@ == region_of(nodes@, hints@[k]@),
        decreases hints.len() - h,
    {
        match region_from(nodes, hints[h].as_str()) {
            Ok(b) => {
                regions.push(b);
            },
            Err(id) => {
                return Err(ParseError::UnknownId(id));
            },
        }
        h = h + 1;
    }
    let p = Puzzle { neighbors, mines, unknowns, revealed, hints: regions };
    proof {
        assert forall|k: int| 0 <= k < p.neighbors.len() implies (#[trigger] p.neighbors@[k])@.subset_of(
            cells(p.n()),
        ) by {}
        assert forall|k: int| 0 <= k < p.hints.len() implies (#[trigger] p.hints@[k])@.subset_of(
            cells(p.n()),
        ) by {}
    }
    Ok(p)
}

} // verus!
