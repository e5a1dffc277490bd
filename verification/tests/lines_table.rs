use four_cubed::lines::{cell_on_line, is_listed, lines, mode_coord};

const KNOWN_LINES: [[usize; 4]; 76] = [
    [0, 16, 32, 48],
    [4, 20, 36, 52],
    [8, 24, 40, 56],
    [12, 28, 44, 60],
    [1, 17, 33, 49],
    [5, 21, 37, 53],
    [9, 25, 41, 57],
    [13, 29, 45, 61],
    [2, 18, 34, 50],
    [6, 22, 38, 54],
    [10, 26, 42, 58],
    [14, 30, 46, 62],
    [3, 19, 35, 51],
    [7, 23, 39, 55],
    [11, 27, 43, 59],
    [15, 31, 47, 63],
    [0, 4, 8, 12],
    [16, 20, 24, 28],
    [32, 36, 40, 44],
    [48, 52, 56, 60],
    [1, 5, 9, 13],
    [17, 21, 25, 29],
    [33, 37, 41, 45],
    [49, 53, 57, 61],
    [2, 6, 10, 14],
    [18, 22, 26, 30],
    [34, 38, 42, 46],
    [50, 54, 58, 62],
    [3, 7, 11, 15],
    [19, 23, 27, 31],
    [35, 39, 43, 47],
    [51, 55, 59, 63],
    [0, 1, 2, 3],
    [16, 17, 18, 19],
    [32, 33, 34, 35],
    [48, 49, 50, 51],
    [4, 5, 6, 7],
    [20, 21, 22, 23],
    [36, 37, 38, 39],
    [52, 53, 54, 55],
    [8, 9, 10, 11],
    [24, 25, 26, 27],
    [40, 41, 42, 43],
    [56, 57, 58, 59],
    [12, 13, 14, 15],
    [28, 29, 30, 31],
    [44, 45, 46, 47],
    [60, 61, 62, 63],
    [0, 20, 40, 60],
    [1, 21, 41, 61],
    [2, 22, 42, 62],
    [3, 23, 43, 63],
    [0, 17, 34, 51],
    [4, 21, 38, 55],
    [8, 25, 42, 59],
    [12, 29, 46, 63],
    [0, 5, 10, 15],
    [16, 21, 26, 31],
    [32, 37, 42, 47],
    [48, 53, 58, 63],
    [12, 24, 36, 48],
    [13, 25, 37, 49],
    [14, 26, 38, 50],
    [15, 27, 39, 51],
    [12, 9, 6, 3],
    [28, 25, 22, 19],
    [44, 41, 38, 35],
    [60, 57, 54, 51],
    [3, 18, 33, 48],
    [7, 22, 37, 52],
    [11, 26, 41, 56],
    [15, 30, 45, 60],
    [0, 21, 42, 63],
    [3, 22, 41, 60],
    [12, 25, 38, 51],
    [15, 26, 37, 48],
];

fn sorted(line: &[usize; 4]) -> [usize; 4] {
    let mut l = *line;
    l.sort();
    l
}

#[test]
fn there_are_76_lines() {
    assert_eq!(lines().len(), 76);
}

#[test]
fn lines_are_the_known_alignments() {
    let mut ours: Vec<[usize; 4]> = lines().iter().map(sorted).collect();
    let mut known: Vec<[usize; 4]> = KNOWN_LINES.iter().map(sorted).collect();
    ours.sort();
    known.sort();
    assert_eq!(ours, known);
}

#[test]
fn no_line_comes_twice() {
    let mut ours: Vec<[usize; 4]> = lines().iter().map(sorted).collect();
    ours.sort();
    ours.dedup();
    assert_eq!(ours.len(), 76);
}

#[test]
fn lines_fall_into_the_three_kinds() {
    let mut straight = 0;
    let mut flat = 0;
    let mut space = 0;
    for line in lines().iter() {
        let moving = [
            line[0] % 4 != line[1] % 4,
            (line[0] / 4) % 4 != (line[1] / 4) % 4,
            line[0] / 16 != line[1] / 16,
        ];
        match moving.iter().filter(|&&m| m).count() {
            1 => straight += 1,
            2 => flat += 1,
            3 => space += 1,
            _ => panic!("a line that does not move"),
        }
    }
    assert_eq!(straight, 48);
    assert_eq!(flat, 24);
    assert_eq!(space, 4);
}

#[test]
fn every_line_takes_equal_steps_inside_the_lattice() {
    for line in lines().iter() {
        let point = |c: usize| [(c % 4) as i32, ((c / 4) % 4) as i32, (c / 16) as i32];
        let p: Vec<[i32; 3]> = line.iter().map(|&c| point(c)).collect();
        for c in line.iter() {
            assert!(*c < 64);
        }
        for axis in 0..3 {
            let step = p[1][axis] - p[0][axis];
            assert!((-1..=1).contains(&step));
            assert_eq!(p[2][axis] - p[1][axis], step);
            assert_eq!(p[3][axis] - p[2][axis], step);
        }
        assert_ne!(p[0], p[1]);
    }
}

#[test]
fn first_and_last_lines_of_the_table() {
    let all = lines();
    assert_eq!(all[0], [0, 1, 2, 3]);
    assert_eq!(all[1], [4, 5, 6, 7]);
    assert_eq!(all[74], [48, 37, 26, 15]);
    assert_eq!(all[75], [60, 41, 22, 3]);
}

#[test]
fn modes_fix_or_walk_a_coordinate() {
    for t in 0..4 {
        for m in 0..4 {
            assert_eq!(mode_coord(m, t), m);
        }
        assert_eq!(mode_coord(4, t), t);
        assert_eq!(mode_coord(5, t), 3 - t);
    }
    assert_eq!(cell_on_line(4, 2, 1, 3), 3 + 4 * 2 + 16);
    assert_eq!(cell_on_line(5, 4, 4, 1), 2 + 4 + 16);
}

#[test]
fn a_line_is_listed_when_its_first_moving_axis_walks_up() {
    let mut count = 0;
    for mz in 0..6 {
        for my in 0..6 {
            for mx in 0..6 {
                if is_listed(mx, my, mz) {
                    count += 1;
                }
            }
        }
    }
    assert_eq!(count, 76);
    assert!(is_listed(4, 5, 5));
    assert!(!is_listed(5, 4, 4));
    assert!(is_listed(2, 4, 5));
    assert!(!is_listed(2, 5, 4));
    assert!(is_listed(1, 3, 4));
    assert!(!is_listed(1, 3, 5));
    assert!(!is_listed(1, 3, 2));
}
