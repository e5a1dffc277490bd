use four_cubed::search::INFINITY;
use four_cubed::state::State;
use four_cubed::table::Table;

fn board(moves: &[(usize, usize, i32)]) -> State {
    let mut s = State::new();
    for &(x, y, who) in moves {
        assert!(s.add(x, y, who));
    }
    s
}

fn cell(s: &State, i: usize) -> i32 {
    s.get(i % 4, (i / 4) % 4, i / 16)
}

fn changed(before: &State, after: &State) -> Vec<usize> {
    (0..64).filter(|&i| cell(before, i) != cell(after, i)).collect()
}

/// Side 1 threatens to win on column (0, 3).
fn threat() -> State {
    board(&[(0, 0, 1), (1, 1, -1), (0, 1, 1), (2, 2, -1), (0, 2, 1)])
}

fn middle_game() -> State {
    board(&[
        (0, 0, 1),
        (1, 1, -1),
        (0, 1, 1),
        (2, 2, -1),
        (0, 2, 1),
        (0, 3, -1),
        (1, 1, 1),
        (1, 2, -1),
    ])
}

fn all_mine() -> State {
    let mut s = State::new();
    for _ in 0..4 {
        for x in 0..4 {
            for y in 0..4 {
                assert!(s.add(x, y, 1));
            }
        }
    }
    s
}

fn minimax(s: &State, player: i32, depth: i32) -> i32 {
    if depth == 0 || s.win(-player) {
        return player * s.value();
    }
    let mut best = -INFINITY;
    for kid in s.possibilities(player).iter() {
        best = best.max(-minimax(kid, -player, depth - 1));
    }
    best
}

#[test]
fn infinity_is_the_largest_score() {
    assert_eq!(INFINITY, i32::MAX);
}

#[test]
fn depth_zero_gives_the_static_value_as_the_player_sees_it() {
    let s = threat();
    assert_eq!(s.negamax(1, 0, -INFINITY, INFINITY), 5781);
    assert_eq!(s.negamax(-1, 0, -INFINITY, INFINITY), -5781);
    assert_eq!(s.negamax(1, 0, 0, 1), 5781);
    let mut t = Table::new();
    assert_eq!(s.negamax_table(1, 0, -INFINITY, INFINITY, &mut t), 5781);
    assert_eq!(s.negamax_table(-1, 0, -INFINITY, INFINITY, &mut t), -5781);
    assert_eq!(t.len(), 0);
}

#[test]
fn zero_sum_at_depth_zero() {
    for s in [State::new(), threat(), middle_game()] {
        assert_eq!(
            s.negamax(1, 0, -INFINITY, INFINITY),
            -s.negamax(-1, 0, -INFINITY, INFINITY)
        );
    }
}

#[test]
fn search_stops_where_the_other_side_has_won() {
    let s = board(&[(0, 0, 1), (1, 0, 1), (2, 0, 1), (3, 0, 1), (1, 1, -1), (2, 2, -1), (3, 3, -1)]);
    assert_eq!(s.value(), 438981);
    assert_eq!(s.negamax(-1, 3, -INFINITY, INFINITY), -438981);
    assert_eq!(s.negamax(1, 3, -INFINITY, INFINITY), 439136);
    assert_eq!(s.negamax(1, 1, -INFINITY, INFINITY), 439136);
    let mut t = Table::new();
    assert_eq!(s.negamax_table(-1, 5, -INFINITY, INFINITY, &mut t), -438981);
    assert_eq!(t.len(), 0);
}

#[test]
fn negamax_on_the_empty_board() {
    let s = State::new();
    assert_eq!(s.negamax(1, 1, -INFINITY, INFINITY), 7);
    assert_eq!(s.negamax(-1, 1, -INFINITY, INFINITY), 7);
    assert_eq!(s.negamax(1, 2, -INFINITY, INFINITY), 0);
    assert_eq!(s.negamax(1, 3, -INFINITY, INFINITY), 81);
}

#[test]
fn negamax_sees_the_win_and_the_threat() {
    let s = threat();
    assert_eq!(s.negamax(1, 1, -INFINITY, INFINITY), 438987);
    assert_eq!(s.negamax(1, 2, -INFINITY, INFINITY), 438987);
    assert_eq!(s.negamax(1, 3, -INFINITY, INFINITY), 438987);
    assert_eq!(s.negamax(-1, 1, -INFINITY, INFINITY), 1);
    assert_eq!(s.negamax(-1, 2, -INFINITY, INFINITY), -154);
    assert_eq!(s.negamax(-1, 3, -INFINITY, INFINITY), -2);
    assert_eq!(s.negamax(-1, 4, -INFINITY, INFINITY), -228);
}

#[test]
fn negamax_in_the_middle_game() {
    let s = middle_game();
    assert_eq!(s.value(), 3);
    assert_eq!(s.negamax(1, 1, -INFINITY, INFINITY), 230);
    assert_eq!(s.negamax(-1, 1, -INFINITY, INFINITY), 5774);
    assert_eq!(s.negamax(1, 2, -INFINITY, INFINITY), -5548);
    assert_eq!(s.negamax(-1, 2, -INFINITY, INFINITY), -75);
    assert_eq!(s.negamax(1, 3, -INFINITY, INFINITY), 301);
    assert_eq!(s.negamax(-1, 3, -INFINITY, INFINITY), 11323);
    assert_eq!(s.negamax(1, 4, -INFINITY, INFINITY), -5543);
    assert_eq!(s.negamax(-1, 4, -INFINITY, INFINITY), -84);
}

#[test]
fn negamax_with_the_full_window_is_minimax() {
    for s in [State::new(), threat(), middle_game()] {
        for player in [1, -1] {
            for depth in 0..4 {
                assert_eq!(
                    s.negamax(player, depth, -INFINITY, INFINITY),
                    minimax(&s, player, depth)
                );
            }
        }
    }
}

#[test]
fn narrow_window_gives_a_bound_on_the_right_side() {
    let s = threat();
    assert_eq!(s.negamax(-1, 3, -100, 100), -2);
    assert_eq!(s.negamax(-1, 3, 0, 1), 0);
    assert_eq!(s.negamax(-1, 2, -5000, -4000), -154);
    assert_eq!(s.negamax(1, 2, 430000, 440000), 438987);
    let truth = minimax(&s, -1, 3);
    for (alpha, beta) in [(-100, 100), (0, 1), (-50, -10), (-3, -2), (-2, -1), (5, 900)] {
        let v = s.negamax(-1, 3, alpha, beta);
        if v <= alpha {
            assert!(truth <= v);
        } else if v >= beta {
            assert!(truth >= v);
        } else {
            assert_eq!(v, truth);
        }
    }
}

#[test]
fn exchanging_the_sides_and_the_player_gives_the_same_score() {
    for s in [threat(), middle_game()] {
        let mut turned = s;
        turned.swap();
        for depth in 0..4 {
            for player in [1, -1] {
                assert_eq!(
                    turned.negamax(-player, depth, -INFINITY, INFINITY),
                    s.negamax(player, depth, -INFINITY, INFINITY)
                );
            }
        }
    }
}

#[test]
fn mirror_images_get_the_same_score() {
    let s = middle_game();
    for id in 0..8 {
        assert_eq!(s.symmetry(id).negamax(1, 3, -INFINITY, INFINITY), 301);
        assert_eq!(s.symmetry(id).negamax(-1, 2, -INFINITY, INFINITY), -75);
    }
}

#[test]
fn table_does_not_change_the_score() {
    for s in [State::new(), threat(), middle_game()] {
        for player in [1, -1] {
            for depth in 0..5 {
                let mut t = Table::new();
                assert_eq!(
                    s.negamax_table(player, depth, -INFINITY, INFINITY, &mut t),
                    s.negamax(player, depth, -INFINITY, INFINITY)
                );
            }
        }
    }
}

#[test]
fn table_carried_from_search_to_search_does_not_change_the_score() {
    let mut t = Table::new();
    let mut s = State::new();
    let moves = [(0, 0, 1), (1, 1, -1), (0, 1, 1), (2, 2, -1), (0, 2, 1), (0, 3, -1)];
    for &(x, y, who) in moves.iter() {
        for depth in [3, 4] {
            for player in [1, -1] {
                assert_eq!(
                    s.negamax_table(player, depth, -INFINITY, INFINITY, &mut t),
                    s.negamax(player, depth, -INFINITY, INFINITY)
                );
            }
        }
        for id in 0..8 {
            assert_eq!(
                s.symmetry(id).negamax_table(-1, 4, -INFINITY, INFINITY, &mut t),
                s.negamax(-1, 4, -INFINITY, INFINITY)
            );
        }
        assert!(s.add(x, y, who));
    }
    assert!(t.len() > 0);
}

#[test]
fn table_with_a_narrow_window_gives_a_bound_on_the_right_side() {
    let s = middle_game();
    let truth = minimax(&s, 1, 4);
    let mut t = Table::new();
    for (alpha, beta) in [(-100, 100), (-6000, -5000), (-5544, -5542), (0, 1), (-5543, 7000), (-9000, -5543)] {
        let v = s.negamax_table(1, 4, alpha, beta, &mut t);
        if v <= alpha {
            assert!(truth <= v);
        } else if v >= beta {
            assert!(truth >= v);
        } else {
            assert_eq!(v, truth);
        }
    }
    assert_eq!(s.negamax_table(1, 4, -INFINITY, INFINITY, &mut t), -5543);
}

#[test]
fn table_is_left_alone_by_shallow_searches() {
    let s = middle_game();
    let mut t = Table::new();
    assert_eq!(s.negamax_table(1, 1, -INFINITY, INFINITY, &mut t), 230);
    assert_eq!(s.negamax_table(1, 2, -INFINITY, INFINITY, &mut t), -5548);
    assert_eq!(t.len(), 0);
}

#[test]
fn table_learns_from_a_deep_search() {
    let s = middle_game();
    let mut t = Table::new();
    assert_eq!(s.negamax_table(1, 3, -INFINITY, INFINITY, &mut t), 301);
    assert_eq!(t.len(), 8);
    let mut alpha = -INFINITY;
    let mut beta = INFINITY;
    assert_eq!(t.get(&s, 1, 3, &mut alpha, &mut beta), Some(301));
    let mut turned = s.symmetry(3);
    turned.swap();
    assert_eq!(t.get(&turned, -1, 3, &mut alpha, &mut beta), Some(301));
    assert_eq!(s.negamax_table(1, 3, -INFINITY, INFINITY, &mut t), 301);
    assert_eq!(t.len(), 8);
    assert_eq!(s.negamax_table(1, 4, -INFINITY, INFINITY, &mut t), -5543);
    assert!(t.len() > 8);
    assert_eq!(t.len() % 8, 0);
}

#[test]
fn finding_in_the_table_is_believed() {
    let s = middle_game();
    let mut t = Table::new();
    t.insert(s, 1, 3, -INFINITY, INFINITY, 12345);
    assert_eq!(s.negamax_table(1, 3, -INFINITY, INFINITY, &mut t), 12345);
    assert_eq!(s.negamax_table(1, 2, -INFINITY, INFINITY, &mut t), -5548);
}

#[test]
fn position_without_a_move_scores_minus_infinity() {
    let s = all_mine();
    assert!(s.win(1));
    assert!(!s.win(-1));
    assert_eq!(s.possibilities(1).len(), 0);
    assert_eq!(s.negamax(1, 3, -INFINITY, INFINITY), -INFINITY);
    let mut t = Table::new();
    assert_eq!(s.negamax_table(1, 2, -INFINITY, INFINITY, &mut t), -INFINITY);
    assert_eq!(s.negamax_table(1, 3, -INFINITY, INFINITY, &mut t), -INFINITY);
    assert_eq!(s.negamax(-1, 3, -INFINITY, INFINITY), -s.value());
}

#[test]
fn best_move_on_the_empty_board_is_the_first_corner() {
    let mut t = Table::new();
    let next = State::new().best_move(1, 1, &mut t);
    assert_eq!(changed(&State::new(), &next), vec![0]);
    assert_eq!(next.get(0, 0, 0), 1);
    for depth in [2, 3, 4] {
        let next = State::new().best_move(-1, depth, &mut t);
        assert_eq!(changed(&State::new(), &next), vec![0]);
        assert_eq!(next.get(0, 0, 0), -1);
    }
}

#[test]
fn best_move_takes_the_win() {
    let s = threat();
    for depth in [1, 2, 3, 4] {
        let mut t = Table::new();
        let next = s.best_move(1, depth, &mut t);
        assert_eq!(changed(&s, &next), vec![12]);
        assert!(next.win(1));
    }
}

#[test]
fn best_move_stops_the_threat() {
    let s = threat();
    for depth in [2, 3, 4] {
        let mut t = Table::new();
        let next = s.best_move(-1, depth, &mut t);
        assert_eq!(changed(&s, &next), vec![12]);
        assert_eq!(next.get(0, 3, 0), -1);
    }
}

#[test]
fn best_move_in_the_middle_game() {
    let s = middle_game();
    let mut t = Table::new();
    assert_eq!(changed(&s, &s.best_move(1, 3, &mut t)), vec![20]);
    assert_eq!(changed(&s, &s.best_move(-1, 3, &mut t)), vec![14]);
    assert_eq!(changed(&s, &s.best_move(-1, 4, &mut t)), vec![1]);
    let mut fresh = Table::new();
    assert_eq!(changed(&s, &s.best_move(-1, 4, &mut fresh)), vec![1]);
}

#[test]
fn best_move_keeps_the_first_of_equal_replies() {
    let s = State::new();
    let mut t = Table::new();
    let next = s.best_move(1, 1, &mut t);
    let values: Vec<i32> = s.possibilities(1).iter().map(|k| k.value()).collect();
    assert_eq!(values.iter().filter(|&&v| v == 7).count(), 4);
    assert_eq!(next, s.possibilities(1)[0]);
}

#[test]
fn best_move_without_a_move_leaves_the_board() {
    let s = all_mine();
    let mut t = Table::new();
    assert_eq!(s.best_move(-1, 3, &mut t), s);
    assert_eq!(s.best_move(1, 3, &mut t), s);
}

#[test]
fn best_move_cleans_the_table() {
    let s = middle_game();
    let mut t = Table::new();
    let _ = s.best_move(-1, 5, &mut t);
    let after = t.len();
    assert!(after > 0);
    t.clean();
    assert_eq!(t.len(), after);
}

#[test]
fn game_played_by_the_search_ends_with_a_winner_or_a_full_board() {
    let mut s = State::new();
    let mut t = Table::new();
    let mut player = 1;
    let mut moves = 0;
    while !s.win(1) && !s.win(-1) && moves < 64 {
        let next = s.best_move(player, 3, &mut t);
        assert_eq!(changed(&s, &next).len(), 1);
        s = next;
        player = -player;
        moves += 1;
    }
    assert!(s.win(1) || s.win(-1) || moves == 64);
}
