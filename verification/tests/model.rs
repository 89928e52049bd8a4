//! Tests of the board model: the successor relation, move application with
//! all of its rejection cases, solved-collapsing, scoring, enumeration, and
//! rendering.

use patience::cards::{Board, Card, Column};
use patience::cards::Card::{Six, Seven, Eight, Nine, Ten, V, D, K, T};
use patience::moves::Move;

fn col(cards: Vec<Card>) -> Column {
    Column::Unsolved { cards, cheat: None }
}

fn cheat_col(cards: Vec<Card>, cheat: Card) -> Column {
    Column::Unsolved { cards, cheat: Some(cheat) }
}

/// Counts how often each rank occurs on the board, a solved column counting
/// as one complete run.
fn rank_counts(b: &Board) -> [usize; 9] {
    let mut counts = [0usize; 9];
    for c in &b.columns {
        match c {
            Column::Solved => {
                for slot in counts.iter_mut() {
                    *slot += 1;
                }
            },
            Column::Unsolved { cards, cheat } => {
                for card in cards {
                    counts[card.rank_index() as usize] += 1;
                }
                if let Some(cc) = cheat {
                    counts[cc.rank_index() as usize] += 1;
                }
            },
        }
    }
    counts
}

#[test]
fn goes_on_walks_up_the_ranks() {
    assert_eq!(Six.goes_on(), Some(Seven));
    assert_eq!(Seven.goes_on(), Some(Eight));
    assert_eq!(Eight.goes_on(), Some(Nine));
    assert_eq!(Nine.goes_on(), Some(Ten));
    assert_eq!(Ten.goes_on(), Some(V));
    assert_eq!(V.goes_on(), Some(D));
    assert_eq!(D.goes_on(), Some(K));
    assert_eq!(K.goes_on(), Some(T));
    assert_eq!(T.goes_on(), None);
}

#[test]
fn card_tokens() {
    assert_eq!(Six.to_str(), "6");
    assert_eq!(Seven.to_str(), "7");
    assert_eq!(Eight.to_str(), "8");
    assert_eq!(Nine.to_str(), "9");
    assert_eq!(Ten.to_str(), "X");
    assert_eq!(V.to_str(), "V");
    assert_eq!(D.to_str(), "D");
    assert_eq!(K.to_str(), "K");
    assert_eq!(T.to_str(), "T");
    assert_eq!(Six.to_str_cheat(), "\x1b[30;107m6\x1b[0m");
    assert_eq!(T.to_str_cheat(), "\x1b[30;107mT\x1b[0m");
}

#[test]
fn solved_detection() {
    assert!(Board { columns: vec![] }.is_solved());
    assert!(Board { columns: vec![Column::Solved, col(vec![])] }.is_solved());
    assert!(!Board { columns: vec![col(vec![Six])] }.is_solved());
    assert!(!Board { columns: vec![cheat_col(vec![], K)] }.is_solved());
}

#[test]
fn solved_detection_is_stable() {
    let b = Board { columns: vec![Column::Solved, col(vec![])] };
    assert!(b.is_solved());
    assert!(b.is_solved());
}

#[test]
fn normal_move_relocates_a_run() {
    let b = Board {
        columns: vec![col(vec![Ten, Eight, Seven]), col(vec![K, Nine])],
    };
    // The run [Eight, Seven] goes onto the Nine.
    let m = Move::Normal { from: 0, to: 1, count: 2 };
    let after = m.apply(&b).expect("legal");
    assert_eq!(after.columns[0], col(vec![Ten]));
    assert_eq!(after.columns[1], col(vec![K, Nine, Eight, Seven]));
}

#[test]
fn any_card_may_move_to_an_empty_column() {
    let b = Board { columns: vec![col(vec![Ten, Six]), col(vec![])] };
    let m = Move::Normal { from: 0, to: 1, count: 1 };
    let after = m.apply(&b).expect("legal");
    assert_eq!(after.columns[0], col(vec![Ten]));
    assert_eq!(after.columns[1], col(vec![Six]));
}

#[test]
fn normal_move_rejections() {
    let b = Board {
        columns: vec![
            col(vec![Ten, Eight, Seven]),
            col(vec![K, Nine]),
            Column::Solved,
            cheat_col(vec![D], Six),
        ],
    };
    // Same column twice.
    assert!(Move::Normal { from: 0, to: 0, count: 1 }.apply(&b).is_none());
    // Out-of-range indices.
    assert!(Move::Normal { from: 9, to: 1, count: 1 }.apply(&b).is_none());
    assert!(Move::Normal { from: 0, to: 9, count: 1 }.apply(&b).is_none());
    // A zero count.
    assert!(Move::Normal { from: 0, to: 1, count: 0 }.apply(&b).is_none());
    // More cards than the column holds.
    assert!(Move::Normal { from: 0, to: 1, count: 4 }.apply(&b).is_none());
    // The top three cards are not a run ([Ten, Eight, Seven]).
    assert!(Move::Normal { from: 0, to: 1, count: 3 }.apply(&b).is_none());
    // A legal run whose bottom card does not fit the destination top.
    assert!(Move::Normal { from: 1, to: 0, count: 1 }.apply(&b).is_none());
    // Solved columns take no part in moves.
    assert!(Move::Normal { from: 0, to: 2, count: 1 }.apply(&b).is_none());
    assert!(Move::Normal { from: 2, to: 1, count: 1 }.apply(&b).is_none());
    // Columns with an occupied cheat slot take no part in normal moves.
    assert!(Move::Normal { from: 0, to: 3, count: 1 }.apply(&b).is_none());
    assert!(Move::Normal { from: 3, to: 1, count: 1 }.apply(&b).is_none());
}

#[test]
fn cheat_move_behavior() {
    let b = Board {
        columns: vec![col(vec![Ten, Eight]), col(vec![K]), col(vec![]), col(vec![Nine])],
    };
    // Parking the Eight on the K is a cheat (the Eight does not go on a K).
    let after = Move::Cheat { from: 0, to: 1 }.apply(&b).expect("legal");
    assert_eq!(after.columns[0], col(vec![Ten]));
    assert_eq!(after.columns[1], cheat_col(vec![K], Eight));
    // Cheating onto an empty column is disallowed.
    assert!(Move::Cheat { from: 0, to: 2 }.apply(&b).is_none());
    // Cheating is disallowed where the ordinary placement is legal: the
    // Eight goes on the Nine.
    assert!(Move::Cheat { from: 0, to: 3 }.apply(&b).is_none());
    // Cheating out of an empty column is impossible.
    assert!(Move::Cheat { from: 2, to: 1 }.apply(&b).is_none());
    // The destination's cheat slot must be free.
    let b2 = Board { columns: vec![col(vec![Ten, Eight]), cheat_col(vec![K], Six)] };
    assert!(Move::Cheat { from: 0, to: 1 }.apply(&b2).is_none());
}

#[test]
fn uncheat_move_behavior() {
    let b = Board {
        columns: vec![cheat_col(vec![K], Eight), col(vec![Ten, Nine]), col(vec![Seven])],
    };
    // The cheated Eight goes back onto the Nine.
    let after = Move::UnCheat { from: 0, to: 1 }.apply(&b).expect("legal");
    assert_eq!(after.columns[0], col(vec![K]));
    assert_eq!(after.columns[1], col(vec![Ten, Nine, Eight]));
    // It does not go onto the Seven.
    assert!(Move::UnCheat { from: 0, to: 2 }.apply(&b).is_none());
    // A column without a cheated card offers nothing to uncheat.
    assert!(Move::UnCheat { from: 1, to: 2 }.apply(&b).is_none());
}

#[test]
fn completing_the_full_run_collapses_the_column() {
    let b = Board {
        columns: vec![col(vec![T, K, D, V, Ten, Nine, Eight, Seven]), col(vec![Six])],
    };
    let after = Move::Normal { from: 1, to: 0, count: 1 }.apply(&b).expect("legal");
    assert_eq!(after.columns[0], Column::Solved);
    assert_eq!(after.columns[1], col(vec![]));
    assert!(after.is_solved());
}

#[test]
fn moves_conserve_the_card_multiset() {
    let boards_and_moves = vec![
        (
            Board { columns: vec![col(vec![Ten, Eight, Seven]), col(vec![K, Nine])] },
            Move::Normal { from: 0, to: 1, count: 2 },
        ),
        (
            Board { columns: vec![col(vec![Ten, Eight]), col(vec![K])] },
            Move::Cheat { from: 0, to: 1 },
        ),
        (
            Board { columns: vec![cheat_col(vec![K], Eight), col(vec![Ten, Nine])] },
            Move::UnCheat { from: 0, to: 1 },
        ),
        (
            // A collapsing move: the solved column still accounts for its run.
            Board { columns: vec![col(vec![T, K, D, V, Ten, Nine, Eight, Seven]), col(vec![Six])] },
            Move::Normal { from: 1, to: 0, count: 1 },
        ),
    ];
    for (b, m) in boards_and_moves {
        let before = rank_counts(&b);
        let after = m.apply(&b).expect("legal");
        assert_eq!(rank_counts(&after), before);
    }
}

#[test]
fn every_applicable_move_conserves_cards() {
    let b = Board {
        columns: vec![
            col(vec![Eight, Seven, K, V]),
            col(vec![Six, Ten, V, Ten]),
            cheat_col(vec![Six, V, Nine], Nine),
            col(vec![]),
            Column::Solved,
            col(vec![Seven, Nine, Ten, T]),
        ],
    };
    let before = rank_counts(&b);
    let mut applied = 0;
    for m in Move::all_moves() {
        if let Some(after) = m.apply(&b) {
            assert_eq!(rank_counts(&after), before);
            applied += 1;
        }
    }
    assert!(applied > 0);
}

#[test]
fn narrowed_enumeration_covers_every_applicable_move() {
    let b = Board {
        columns: vec![
            col(vec![Eight, Seven, K, V]),
            col(vec![Six, Ten, V, Ten]),
            cheat_col(vec![Six, V, Nine], Nine),
            col(vec![]),
            Column::Solved,
            col(vec![Seven, Nine, Ten, T]),
        ],
    };
    let narrowed = b.possible_moves();
    for m in Move::all_moves() {
        if m.apply(&b).is_some() {
            assert!(narrowed.contains(&m));
        }
    }
}

#[test]
fn cheat_then_inverse_uncheat_restores_the_board() {
    let b = Board { columns: vec![col(vec![Nine, Eight]), col(vec![K])] };
    let cheated = Move::Cheat { from: 0, to: 1 }.apply(&b).expect("legal");
    let restored = Move::UnCheat { from: 1, to: 0 }.apply(&cheated).expect("legal");
    assert_eq!(restored, b);
}

#[test]
fn score_exact_values() {
    // A solved column is worth the large bonus.
    assert_eq!(Board { columns: vec![Column::Solved] }.score(), -1024);
    // An empty unsolved column contributes nothing.
    assert_eq!(Board { columns: vec![col(vec![])] }.score(), 0);
    // A top run of three: K, D, V.
    assert_eq!(Board { columns: vec![col(vec![K, D, V])] }.score(), -9);
    // The run at the top is only the V: D does not go on Six.
    assert_eq!(Board { columns: vec![col(vec![Six, D, V])] }.score(), -4);
    // A broken top pair counts one.
    assert_eq!(Board { columns: vec![col(vec![K, V])] }.score(), -1);
    // An occupied cheat slot costs the squared stack height plus 256.
    assert_eq!(Board { columns: vec![cheat_col(vec![Ten, Six], K)] }.score(), 260);
    // Contributions sum across columns.
    let b = Board { columns: vec![Column::Solved, col(vec![K, D, V]), cheat_col(vec![Ten, Six], K)] };
    assert_eq!(b.score(), -1024 - 9 + 260);
}

#[test]
fn solving_a_column_outweighs_any_other_contribution() {
    // Replacing the nine-card column by a solved one drops the score by
    // more than 337, the largest contribution a nine-high column can make.
    let tall = col(vec![T, K, D, V, Ten, Nine, Eight, Seven, Six]);
    let b = Board { columns: vec![tall, cheat_col(vec![Ten, Six], K)] };
    let collapsed = Board { columns: vec![Column::Solved, cheat_col(vec![Ten, Six], K)] };
    assert!(collapsed.score() < b.score() - 337);
}

#[test]
fn all_moves_enumerates_every_shape_once() {
    let moves = Move::all_moves();
    // 30 ordered pairs, each with 9 normal counts, one cheat, one uncheat.
    assert_eq!(moves.len(), 330);
    // The emission order is fixed: all normal moves in pair-lexicographic
    // order with ascending counts, then the cheats, then the uncheats.
    assert_eq!(moves[0], Move::Normal { from: 0, to: 1, count: 1 });
    assert_eq!(moves[8], Move::Normal { from: 0, to: 1, count: 9 });
    assert_eq!(moves[9], Move::Normal { from: 0, to: 2, count: 1 });
    assert_eq!(moves[45], Move::Normal { from: 1, to: 0, count: 1 });
    assert_eq!(moves[269], Move::Normal { from: 5, to: 4, count: 9 });
    assert_eq!(moves[270], Move::Cheat { from: 0, to: 1 });
    assert_eq!(moves[299], Move::Cheat { from: 5, to: 4 });
    assert_eq!(moves[300], Move::UnCheat { from: 0, to: 1 });
    assert_eq!(moves[329], Move::UnCheat { from: 5, to: 4 });
    for i in 0..moves.len() {
        for j in (i + 1)..moves.len() {
            assert_ne!(moves[i], moves[j]);
        }
    }
    assert!(moves.contains(&Move::Normal { from: 0, to: 5, count: 9 }));
    assert!(moves.contains(&Move::Cheat { from: 3, to: 2 }));
    assert!(moves.contains(&Move::UnCheat { from: 5, to: 0 }));
    for m in &moves {
        let (from, to) = match m {
            Move::Normal { from, to, count } => {
                assert!((1..=9).contains(count));
                (*from, *to)
            },
            Move::Cheat { from, to } => (*from, *to),
            Move::UnCheat { from, to } => (*from, *to),
        };
        assert!(from < 6 && to < 6 && from != to);
    }
}

#[test]
fn possible_moves_follows_the_column_states() {
    let b = Board {
        columns: vec![col(vec![Ten]), cheat_col(vec![K], Nine), Column::Solved, col(vec![])],
    };
    let moves = b.possible_moves();
    // Clean columns pair with clean columns for cheats and normal moves.
    assert!(moves.contains(&Move::Normal { from: 0, to: 3, count: 1 }));
    assert!(moves.contains(&Move::Cheat { from: 0, to: 3 }));
    // The cheated Nine may return to the Ten, or to the empty column.
    assert!(moves.contains(&Move::UnCheat { from: 1, to: 0 }));
    assert!(moves.contains(&Move::UnCheat { from: 1, to: 3 }));
    // Solved columns never take part.
    assert!(!moves.iter().any(|m| match m {
        Move::Normal { from, to, .. } => *from == 2 || *to == 2,
        Move::Cheat { from, to } => *from == 2 || *to == 2,
        Move::UnCheat { from, to } => *from == 2 || *to == 2,
    }));
    // The occupied column offers no normal moves or cheats.
    assert!(!moves.contains(&Move::Cheat { from: 1, to: 0 }));
    assert!(!moves.contains(&Move::Normal { from: 1, to: 0, count: 1 }));
}

#[test]
fn rendering_matches_the_grid_layout() {
    let b = Board {
        columns: vec![col(vec![Six, Seven]), Column::Solved, cheat_col(vec![Ten], K)],
    };
    let expected = "6 S X \n7   \u{1b}[30;107mK\u{1b}[0m \n";
    assert_eq!(b.to_string(), expected);
}

#[test]
fn rendering_an_empty_board_is_empty() {
    assert_eq!(Board { columns: vec![col(vec![]), col(vec![])] }.to_string(), "");
}
