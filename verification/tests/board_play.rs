use four_cubed::state::State;
use std::cmp::Ordering;

const KNOWN_LINES: [[usize; 4]; 76] = [
    [0, 16, 32, 48],
    [4, 20, 36, 52],
    [8, 24, 40, 56],
    [12, 28, 44, 60],
    [1, 17, 33, 49],
    [5, 21, 37, 53],
    [9, 25, 41, 57],
    [13, 29, 45, 61],
    [2, 18, 34, 50],
    [6, 22, 38, 54],
    [10, 26, 42, 58],
    [14, 30, 46, 62],
    [3, 19, 35, 51],
    [7, 23, 39, 55],
    [11, 27, 43, 59],
    [15, 31, 47, 63],
    [0, 4, 8, 12],
    [16, 20, 24, 28],
    [32, 36, 40, 44],
    [48, 52, 56, 60],
    [1, 5, 9, 13],
    [17, 21, 25, 29],
    [33, 37, 41, 45],
    [49, 53, 57, 61],
    [2, 6, 10, 14],
    [18, 22, 26, 30],
    [34, 38, 42, 46],
    [50, 54, 58, 62],
    [3, 7, 11, 15],
    [19, 23, 27, 31],
    [35, 39, 43, 47],
    [51, 55, 59, 63],
    [0, 1, 2, 3],
    [16, 17, 18, 19],
    [32, 33, 34, 35],
    [48, 49, 50, 51],
    [4, 5, 6, 7],
    [20, 21, 22, 23],
    [36, 37, 38, 39],
    [52, 53, 54, 55],
    [8, 9, 10, 11],
    [24, 25, 26, 27],
    [40, 41, 42, 43],
    [56, 57, 58, 59],
    [12, 13, 14, 15],
    [28, 29, 30, 31],
    [44, 45, 46, 47],
    [60, 61, 62, 63],
    [0, 20, 40, 60],
    [1, 21, 41, 61],
    [2, 22, 42, 62],
    [3, 23, 43, 63],
    [0, 17, 34, 51],
    [4, 21, 38, 55],
    [8, 25, 42, 59],
    [12, 29, 46, 63],
    [0, 5, 10, 15],
    [16, 21, 26, 31],
    [32, 37, 42, 47],
    [48, 53, 58, 63],
    [12, 24, 36, 48],
    [13, 25, 37, 49],
    [14, 26, 38, 50],
    [15, 27, 39, 51],
    [12, 9, 6, 3],
    [28, 25, 22, 19],
    [44, 41, 38, 35],
    [60, 57, 54, 51],
    [3, 18, 33, 48],
    [7, 22, 37, 52],
    [11, 26, 41, 56],
    [15, 30, 45, 60],
    [0, 21, 42, 63],
    [3, 22, 41, 60],
    [12, 25, 38, 51],
    [15, 26, 37, 48],
];

fn board(moves: &[(usize, usize, i32)]) -> State {
    let mut s = State::new();
    for &(x, y, who) in moves {
        assert!(s.add(x, y, who));
    }
    s
}

fn cell(s: &State, i: usize) -> i32 {
    s.get(i % 4, (i / 4) % 4, i / 16)
}

fn value_by_lines(s: &State) -> i32 {
    let weight = [0, 1, 76, 76 * 76, 76 * 76 * 76];
    let mut v = 0;
    for line in KNOWN_LINES.iter() {
        let me = line.iter().filter(|&&c| cell(s, c) == 1).count();
        let op = line.iter().filter(|&&c| cell(s, c) == -1).count();
        if op == 0 {
            v += weight[me];
        }
        if me == 0 {
            v -= weight[op];
        }
    }
    v
}

fn grounded(s: &State) -> bool {
    for x in 0..4 {
        for y in 0..4 {
            for z in 0..3 {
                if s.get(x, y, z) == 0 && s.get(x, y, z + 1) != 0 {
                    return false;
                }
            }
        }
    }
    true
}

#[test]
fn empty_board_has_no_stone() {
    let s = State::new();
    for i in 0..64 {
        assert_eq!(cell(&s, i), 0);
    }
    assert_eq!(s.value(), 0);
    assert!(!s.win(1));
    assert!(!s.win(-1));
}

#[test]
fn get_reads_cell_x_plus_4y_plus_16z() {
    let s = board(&[(1, 2, 1), (1, 2, -1), (3, 0, -1)]);
    assert_eq!(s.get(1, 2, 0), 1);
    assert_eq!(s.get(1, 2, 1), -1);
    assert_eq!(s.get(1, 2, 2), 0);
    assert_eq!(s.get(3, 0, 0), -1);
    assert_eq!(s.get(2, 1, 0), 0);
    assert_eq!(s.key(), State::from_key(s.key()).unwrap().key());
}

#[test]
fn stones_stack_from_the_bottom() {
    let mut s = State::new();
    assert!(s.add(2, 3, 1));
    assert!(s.add(2, 3, -1));
    assert!(s.add(2, 3, -1));
    assert!(s.add(2, 3, 1));
    assert_eq!(s.get(2, 3, 0), 1);
    assert_eq!(s.get(2, 3, 1), -1);
    assert_eq!(s.get(2, 3, 2), -1);
    assert_eq!(s.get(2, 3, 3), 1);
}

#[test]
fn full_column_refuses_a_stone_and_stays_as_it_is() {
    let mut s = board(&[(1, 1, 1), (1, 1, -1), (1, 1, 1), (1, 1, -1)]);
    let before = s;
    assert!(!s.add(1, 1, 1));
    assert!(!s.add(1, 1, -1));
    assert_eq!(s, before);
}

#[test]
fn full_column_is_no_longer_a_possibility() {
    let s = board(&[(2, 1, 1), (2, 1, -1), (2, 1, -1), (2, 1, 1)]);
    for who in [1, -1] {
        let kids = s.possibilities(who);
        assert_eq!(kids.len(), 15);
        for kid in kids.iter() {
            for z in 0..4 {
                assert_eq!(kid.get(2, 1, z), s.get(2, 1, z));
            }
        }
    }
}

#[test]
fn empty_board_has_sixteen_possibilities_in_playing_order() {
    let s = State::new();
    let kids = s.possibilities(1);
    assert_eq!(kids.len(), 16);
    for x in 0..4 {
        for y in 0..4 {
            let kid = &kids[4 * x + y];
            for i in 0..64 {
                let expected = if i == x + 4 * y { 1 } else { 0 };
                assert_eq!(cell(kid, i), expected);
            }
        }
    }
}

#[test]
fn first_stone_is_worth_the_number_of_lines_through_its_cell() {
    let s = State::new();
    let kids = s.possibilities(1);
    let values: Vec<i32> = kids.iter().map(|k| k.value()).collect();
    assert_eq!(values, vec![7, 4, 4, 7, 4, 4, 4, 4, 4, 4, 4, 4, 7, 4, 4, 7]);
    for x in 0..4 {
        for y in 0..4 {
            let through = KNOWN_LINES.iter().filter(|l| l.contains(&(x + 4 * y))).count();
            assert_eq!(kids[4 * x + y].value(), through as i32);
        }
    }
    let theirs = s.possibilities(-1);
    assert_eq!(theirs[0].value(), -7);
    assert_eq!(theirs[1].value(), -4);
}

#[test]
fn corner_cell_lies_on_seven_lines() {
    let through = KNOWN_LINES.iter().filter(|l| l.contains(&0)).count();
    assert_eq!(through, 7);
    assert_eq!(board(&[(0, 0, 1)]).value(), 7);
}

#[test]
fn three_in_a_row_is_no_win_but_counts_76_squared() {
    let s = board(&[(0, 0, 1), (1, 0, 1), (2, 0, 1)]);
    assert!(!s.win(1));
    assert!(!s.win(-1));
    assert_eq!(s.get(3, 0, 0), 0);
    assert_eq!(s.value(), 5788);
    assert_eq!(s.value(), value_by_lines(&s));
    let without = s.value() - 76 * 76;
    assert_eq!(without, 12);
}

#[test]
fn four_in_a_row_wins_and_counts_76_cubed() {
    let s = board(&[(0, 0, 1), (1, 0, 1), (2, 0, 1), (3, 0, 1)]);
    assert!(s.win(1));
    assert!(!s.win(-1));
    assert_eq!(s.value(), 438994);
    assert_eq!(s.value(), 76 * 76 * 76 + 18);
}

#[test]
fn line_weights_are_powers_of_76() {
    let one = board(&[(1, 1, 1)]);
    let two = board(&[(1, 1, 1), (1, 1, 1)]);
    let three = board(&[(1, 1, 1), (1, 1, 1), (1, 1, 1)]);
    let four = board(&[(1, 1, 1), (1, 1, 1), (1, 1, 1), (1, 1, 1)]);
    assert_eq!(one.value(), value_by_lines(&one));
    assert_eq!(two.value(), value_by_lines(&two));
    assert_eq!(three.value(), value_by_lines(&three));
    assert_eq!(four.value(), value_by_lines(&four));
    assert_eq!(one.value(), 4);
    assert_eq!(two.value(), 76 + 9);
    assert_eq!(three.value(), 5776 + 15);
    assert_eq!(four.value(), 438976 + 18);
}

#[test]
fn mixed_line_counts_for_nobody() {
    let s = board(&[(0, 0, 1), (0, 0, -1)]);
    assert_eq!(s.value(), value_by_lines(&s));
    assert_eq!(s.value(), 3);
}

#[test]
fn value_matches_the_line_table_on_a_played_game() {
    let moves = [
        (0, 0, 1),
        (1, 1, -1),
        (0, 1, 1),
        (2, 2, -1),
        (0, 2, 1),
        (0, 3, -1),
        (1, 1, 1),
        (1, 1, -1),
        (3, 3, 1),
        (2, 2, -1),
        (2, 2, 1),
        (3, 0, -1),
    ];
    let mut s = State::new();
    for &(x, y, who) in moves.iter() {
        assert!(s.add(x, y, who));
        assert_eq!(s.value(), value_by_lines(&s));
        assert!(grounded(&s));
    }
    assert_eq!(board(&moves[..5]).value(), 5781);
}

#[test]
fn win_is_seen_along_every_kind_of_line() {
    let column = board(&[(2, 2, -1), (2, 2, -1), (2, 2, -1), (2, 2, -1)]);
    assert!(column.win(-1));
    assert!(!column.win(1));
    let along_y = board(&[(1, 0, 1), (1, 1, 1), (1, 2, 1), (1, 3, 1)]);
    assert!(along_y.win(1));
    let flat_diagonal = board(&[(0, 3, -1), (1, 2, -1), (2, 1, -1), (3, 0, -1)]);
    assert!(flat_diagonal.win(-1));
    let rising = board(&[
        (0, 1, 1),
        (1, 1, -1),
        (1, 1, 1),
        (2, 1, -1),
        (2, 1, -1),
        (2, 1, 1),
        (3, 1, -1),
        (3, 1, -1),
        (3, 1, 1),
        (3, 1, 1),
    ]);
    assert!(rising.win(1));
    assert!(!rising.win(-1));
    let space = board(&[
        (0, 0, 1),
        (1, 1, -1),
        (1, 1, 1),
        (2, 2, -1),
        (2, 2, -1),
        (2, 2, 1),
        (3, 3, -1),
        (3, 3, -1),
        (3, 3, -1),
        (3, 3, 1),
    ]);
    assert!(space.win(1));
    assert!(!space.win(-1));
}

#[test]
fn win_agrees_with_the_line_table() {
    let moves = [
        (0, 0, 1),
        (0, 0, -1),
        (1, 0, 1),
        (1, 0, -1),
        (2, 0, 1),
        (2, 0, -1),
        (3, 0, -1),
        (3, 0, -1),
    ];
    let mut s = State::new();
    for &(x, y, who) in moves.iter() {
        assert!(s.add(x, y, who));
        for side in [1, -1] {
            let expected = KNOWN_LINES.iter().any(|l| l.iter().all(|&c| cell(&s, c) == side));
            assert_eq!(s.win(side), expected);
        }
    }
    assert!(s.win(-1));
    assert!(!s.win(1));
}

#[test]
fn swap_twice_gives_the_board_back_and_swap_negates_the_value() {
    let s = board(&[(0, 0, 1), (1, 1, -1), (0, 1, 1), (2, 2, -1), (0, 2, 1)]);
    let mut t = s;
    t.swap();
    assert_ne!(t, s);
    for i in 0..64 {
        assert_eq!(cell(&t, i), -cell(&s, i));
    }
    assert_eq!(t.value(), -s.value());
    assert_eq!(t.value(), -5781);
    t.swap();
    assert_eq!(t, s);
    let mut e = State::new();
    e.swap();
    assert_eq!(e, State::new());
}

#[test]
fn swap_exchanges_the_winner() {
    let mut s = board(&[(0, 0, 1), (1, 0, 1), (2, 0, 1), (3, 0, 1)]);
    s.swap();
    assert!(s.win(-1));
    assert!(!s.win(1));
}

#[test]
fn stones_never_float() {
    let mut s = State::new();
    let mut seed: u32 = 12345;
    let mut who = 1;
    for _ in 0..80 {
        seed = seed.wrapping_mul(1103515245).wrapping_add(12345);
        let x = ((seed >> 16) % 4) as usize;
        let y = ((seed >> 20) % 4) as usize;
        let had_room = s.get(x, y, 3) == 0;
        assert_eq!(s.add(x, y, who), had_room);
        assert!(grounded(&s));
        who = -who;
    }
}

#[test]
fn possibilities_drop_one_stone_each() {
    let s = board(&[(0, 0, 1), (0, 0, -1), (3, 2, 1)]);
    let kids = s.possibilities(-1);
    assert_eq!(kids.len(), 16);
    assert_eq!(kids[0].get(0, 0, 2), -1);
    assert_eq!(kids[4 * 3 + 2].get(3, 2, 1), -1);
    for kid in kids.iter() {
        let changed = (0..64).filter(|&i| cell(kid, i) != cell(&s, i)).count();
        assert_eq!(changed, 1);
        assert!(grounded(kid));
    }
}

#[test]
fn equal_boards_are_equal_and_ordered_cell_by_cell() {
    let a = board(&[(0, 0, 1)]);
    let b = board(&[(0, 0, 1)]);
    let c = board(&[(0, 0, -1)]);
    let d = board(&[(1, 0, 1)]);
    assert_eq!(a, b);
    assert_ne!(a, c);
    assert_eq!(a.partial_cmp(&b), Some(Ordering::Equal));
    assert_eq!(c.partial_cmp(&a), Some(Ordering::Less));
    assert_eq!(a.partial_cmp(&c), Some(Ordering::Greater));
    assert_eq!(a.partial_cmp(&d), Some(Ordering::Greater));
    assert_eq!(d.partial_cmp(&a), Some(Ordering::Less));
    assert!(c < a);
    assert!(d < a);
    assert_eq!(a.cmp(&d), Ordering::Greater);
    assert_eq!(a.cmp(&b), Ordering::Equal);
}

#[test]
fn keys_are_ordered_as_the_boards_are() {
    let boards = [
        State::new(),
        board(&[(0, 0, 1)]),
        board(&[(0, 0, -1)]),
        board(&[(1, 0, 1)]),
        board(&[(3, 3, -1), (3, 3, 1)]),
        board(&[(0, 0, 1), (1, 1, -1), (0, 1, 1), (2, 2, -1), (0, 2, 1)]),
    ];
    for a in boards.iter() {
        for b in boards.iter() {
            assert_eq!(a.key().cmp(&b.key()), a.cmp(b));
            assert_eq!(a.key() == b.key(), a == b);
        }
    }
}

#[test]
fn key_reads_the_cells_in_base_three() {
    assert_eq!(State::new().key(), 1716841910146256242328924544640);
    let s = board(&[(0, 0, 1), (1, 1, -1), (0, 1, 1), (2, 2, -1), (0, 2, 1)]);
    assert_eq!(s.key(), 2870978506936927667043891822229);
    let mut top = 0u128;
    for _ in 0..64 {
        top = 3 * top + 2;
    }
    assert_eq!(top, 3433683820292512484657849089280);
}

#[test]
fn from_key_undoes_key() {
    let s = board(&[(0, 0, 1), (1, 1, -1), (0, 1, 1), (2, 2, -1), (0, 2, 1)]);
    assert_eq!(State::from_key(s.key()), Some(s));
    assert_eq!(State::from_key(State::new().key()), Some(State::new()));
    let all_theirs = State::from_key(0).unwrap();
    let all_mine = State::from_key(3433683820292512484657849089280).unwrap();
    for i in 0..64 {
        assert_eq!(cell(&all_theirs, i), -1);
        assert_eq!(cell(&all_mine, i), 1);
    }
}

#[test]
fn from_key_refuses_a_number_that_is_no_key() {
    assert_eq!(State::from_key(3433683820292512484657849089281), None);
    assert_eq!(State::from_key(u128::MAX), None);
}
