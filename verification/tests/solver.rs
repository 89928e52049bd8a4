//! End-to-end tests of the two search strategies.

use patience::cards::{Board, Card, Column};
use patience::cards::Card::{Six, Seven, Eight, Nine, Ten, V, D, K, T};
use patience::moves::Move;
use patience::search::{Entry, Frontier};

fn col(cards: Vec<Card>) -> Column {
    Column::Unsolved { cards, cheat: None }
}

/// The built-in six-by-six starting layout.
fn starting_board() -> Board {
    Board {
        columns: vec![
            col(vec![Eight, Seven, K, V, K, Six]),
            col(vec![Six, Ten, V, Ten, Seven, Eight]),
            col(vec![Six, V, Nine, Nine, K, D]),
            col(vec![Six, Nine, Ten, V, D, T]),
            col(vec![D, Eight, K, T, T, D]),
            col(vec![Seven, Nine, Ten, T, Seven, Eight]),
        ],
    }
}

#[test]
fn best_first_solves_starting_board() {
    let initial = starting_board();
    let (solved, moves) = initial.solve().expect("the starting board is solvable");
    assert!(solved.is_solved());
    assert!(!moves.is_empty());
    // Re-validate every move independently by replaying from the start.
    let mut current = starting_board();
    for m in &moves {
        current = m.apply(&current).expect("every returned move must be legal in sequence");
    }
    assert_eq!(current, solved);
}

#[test]
fn best_first_is_deterministic() {
    let make = || Board {
        columns: vec![
            col(vec![T, K, D, V, Ten, Nine]),
            col(vec![Seven, Six]),
            col(vec![Eight]),
        ],
    };
    let first = make().solve().expect("solvable");
    let second = make().solve().expect("solvable");
    assert_eq!(first.1, second.1);
    assert_eq!(first.0, second.0);
}

#[test]
fn unsolvable_board_exhausts_both_strategies() {
    // Fewer columns than distinct ranks, and the only unsolved column holds
    // nothing but the minimal rank: no card ever has a legal destination.
    let make = || Board {
        columns: vec![
            Column::Solved,
            Column::Solved,
            Column::Solved,
            Column::Solved,
            Column::Solved,
            col(vec![Six, Six, Six]),
        ],
    };
    assert!(make().solve_naive().is_none());
    assert!(make().solve().is_none());
}

#[test]
fn breadth_first_solves_a_small_board() {
    let b = Board {
        columns: vec![
            col(vec![T, K, D, V, Ten, Nine, Eight, Seven]),
            col(vec![Six]),
            col(vec![]),
        ],
    };
    let (solved, moves) = b.solve_naive().expect("solvable in one move");
    assert!(solved.is_solved());
    assert_eq!(moves.len(), 1);
}

#[test]
fn both_strategies_untangle_a_buried_six() {
    // The Nine sits on the Six, which must end up on top: the search has to
    // relocate and rebuild the tail of the run.
    let make = || Board {
        columns: vec![
            col(vec![T, K, D, V, Ten, Six, Nine]),
            col(vec![Eight, Seven]),
        ],
    };
    let (solved, moves) = make().solve().expect("solvable");
    assert!(solved.is_solved());
    let mut current = make();
    for m in &moves {
        current = m.apply(&current).expect("every returned move must be legal in sequence");
    }
    assert_eq!(current, solved);

    // Breadth-first finds a minimum-length solution; four moves suffice
    // (runs onto the Nine, the rebuilt run aside, the Six across, and the
    // whole tail back onto the Ten).
    let (bfs_solved, bfs_moves) = make().solve_naive().expect("solvable");
    assert!(bfs_solved.is_solved());
    assert!(bfs_moves.len() <= 4);
}

#[test]
fn frontier_pops_lowest_score_first() {
    let board = || Board { columns: vec![] };
    let mut f = Frontier::new();
    f.push(Entry { score: 5, board: board(), moves: vec![] });
    f.push(Entry { score: 1, board: board(), moves: vec![] });
    f.push(Entry { score: 3, board: board(), moves: vec![] });
    assert_eq!(f.len(), 3);
    assert_eq!(f.pop().expect("nonempty").score, 1);
    assert_eq!(f.pop().expect("nonempty").score, 3);
    assert_eq!(f.pop().expect("nonempty").score, 5);
    assert!(f.pop().is_none());
}

#[test]
fn frontier_breaks_score_ties_by_fewer_moves() {
    let board = || Board { columns: vec![] };
    let mut f = Frontier::new();
    let long = vec![Move::Cheat { from: 0, to: 1 }, Move::UnCheat { from: 1, to: 0 }];
    f.push(Entry { score: 7, board: board(), moves: long.clone() });
    f.push(Entry { score: 7, board: board(), moves: vec![] });
    assert_eq!(f.pop().expect("nonempty").moves.len(), 0);
    assert_eq!(f.pop().expect("nonempty").moves, long);
}

#[test]
fn already_solved_board_yields_no_solution_entry() {
    // A fully cleared board offers no legal move at all, so both searches
    // report exhaustion: solutions are only ever discovered as children.
    let b = Board { columns: vec![Column::Solved, Column::Solved] };
    assert!(b.solve().is_none());
    let b2 = Board { columns: vec![Column::Solved, Column::Solved] };
    assert!(b2.solve_naive().is_none());
}

#[test]
fn size_guard_accepts_ordinary_boards() {
    let b = starting_board();
    assert!(b.dims_ok());
    assert!(Board { columns: vec![] }.dims_ok());
}
