use four_cubed::state::State;
use four_cubed::text::decode_move;

fn board(moves: &[(usize, usize, i32)]) -> State {
    let mut s = State::new();
    for &(x, y, who) in moves {
        assert!(s.add(x, y, who));
    }
    s
}

#[test]
fn empty_board_as_text() {
    assert_eq!(
        State::new().to_text(),
        "1(    |    |    |    )  2(    |    |    |    )  3(    |    |    |    )  4(    |    |    |    )"
    );
    assert_eq!(State::new().to_text().len(), 94);
}

#[test]
fn stones_as_text() {
    let s = board(&[(0, 0, 1), (0, 0, -1), (0, 3, -1), (2, 1, 1), (3, 3, 1), (3, 3, 1), (3, 3, -1), (3, 3, -1)]);
    assert_eq!(
        s.to_text(),
        "1(+-  |    |    |-   )  2(    |    |    |    )  3(    |+   |    |    )  4(    |    |    |++--)"
    );
}

#[test]
fn text_follows_the_cells() {
    let s = board(&[(1, 2, 1), (1, 2, 1), (2, 0, -1)]);
    let text: Vec<char> = s.to_text().chars().collect();
    for x in 0..4 {
        let row = 24 * x;
        assert_eq!(text[row], char::from_digit(x as u32 + 1, 10).unwrap());
        assert_eq!(text[row + 1], '(');
        assert_eq!(text[row + 21], ')');
        for y in 0..4 {
            for z in 0..4 {
                let mark = match s.get(x, y, z) {
                    0 => ' ',
                    1 => '+',
                    _ => '-',
                };
                assert_eq!(text[row + 2 + 5 * y + z], mark);
            }
        }
    }
}

#[test]
fn typed_number_names_row_and_column() {
    assert_eq!(decode_move(11), Some((0, 0)));
    assert_eq!(decode_move(14), Some((0, 3)));
    assert_eq!(decode_move(23), Some((1, 2)));
    assert_eq!(decode_move(41), Some((3, 0)));
    assert_eq!(decode_move(44), Some((3, 3)));
    for number in 0..100 {
        let tens = number / 10;
        let ones = number % 10;
        let expected = if (1..=4).contains(&tens) && (1..=4).contains(&ones) {
            Some(((tens - 1) as usize, (ones - 1) as usize))
        } else {
            None
        };
        assert_eq!(decode_move(number), expected);
    }
}

#[test]
fn typed_number_outside_the_board_names_nothing() {
    for number in [0, 1, 4, 10, 15, 19, 20, 40, 45, 50, 51, 54, 99, 111, 144, -11, -44, i32::MAX, i32::MIN] {
        assert_eq!(decode_move(number), None);
    }
}
