use four_cubed::state::State;
use four_cubed::table::Table;

fn board(moves: &[(usize, usize, i32)]) -> State {
    let mut s = State::new();
    for &(x, y, who) in moves {
        assert!(s.add(x, y, who));
    }
    s
}

/// A position that differs from each of its mirror images.
fn lopsided() -> State {
    board(&[(0, 0, 1), (1, 0, -1), (1, 0, 1), (3, 2, -1)])
}

fn look(t: &Table, s: &State, player: i32, depth: i32, alpha: i32, beta: i32) -> (Option<i32>, i32, i32) {
    let mut a = alpha;
    let mut b = beta;
    let r = t.get(s, player, depth, &mut a, &mut b);
    (r, a, b)
}

#[test]
fn new_table_is_empty() {
    let t = Table::new();
    assert_eq!(t.len(), 0);
    assert_eq!(look(&t, &lopsided(), -1, 3, -100, 100), (None, -100, 100));
    assert_eq!(look(&t, &lopsided(), 1, 3, -100, 100), (None, -100, 100));
}

#[test]
fn lopsided_position_has_eight_different_images() {
    let s = lopsided();
    for i in 0..8 {
        for j in 0..i {
            assert_ne!(s.symmetry(i), s.symmetry(j));
        }
    }
}

#[test]
fn insert_keeps_the_finding_under_all_eight_images() {
    let mut t = Table::new();
    let s = lopsided();
    t.insert(s, -1, 3, -100, 100, 5);
    assert_eq!(t.len(), 8);
    for id in 0..8 {
        assert_eq!(look(&t, &s.symmetry(id), -1, 3, -100, 100), (Some(5), -100, 100));
    }
    let other = board(&[(2, 2, 1)]);
    assert_eq!(look(&t, &other, -1, 3, -100, 100), (None, -100, 100));
}

#[test]
fn position_that_is_its_own_image_gets_the_finding_eight_times() {
    let mut t = Table::new();
    t.insert(State::new(), -1, 4, -100, 100, 0);
    assert_eq!(t.len(), 8);
    assert_eq!(look(&t, &State::new(), -1, 4, -100, 100), (Some(0), -100, 100));
}

#[test]
fn exact_finding_settles_a_search_of_the_same_depth_only() {
    let mut t = Table::new();
    let s = lopsided();
    t.insert(s, -1, 3, -100, 100, 5);
    assert_eq!(look(&t, &s, -1, 3, -1000, 1000), (Some(5), -1000, 1000));
    assert_eq!(look(&t, &s, -1, 3, 50, 60), (Some(5), 50, 60));
    assert_eq!(look(&t, &s, -1, 2, -100, 100), (None, -100, 100));
    assert_eq!(look(&t, &s, -1, 4, -100, 100), (None, -100, 100));
}

#[test]
fn score_at_or_below_alpha_is_an_upper_bound() {
    let mut t = Table::new();
    let s = lopsided();
    t.insert(s, -1, 3, 10, 20, 7);
    assert_eq!(look(&t, &s, -1, 3, -100, 100), (None, -100, 7));
    assert_eq!(look(&t, &s, -1, 3, -100, 5), (None, -100, 5));
    assert_eq!(look(&t, &s, -1, 3, 7, 100), (Some(7), 7, 7));
    assert_eq!(look(&t, &s, -1, 3, 9, 100), (Some(7), 9, 7));
    let mut u = Table::new();
    u.insert(s, -1, 3, 10, 20, 10);
    assert_eq!(look(&u, &s, -1, 3, -100, 100), (None, -100, 10));
}

#[test]
fn score_at_or_above_beta_is_a_lower_bound() {
    let mut t = Table::new();
    let s = lopsided();
    t.insert(s, -1, 3, 10, 20, 25);
    assert_eq!(look(&t, &s, -1, 3, -100, 100), (None, 25, 100));
    assert_eq!(look(&t, &s, -1, 3, 30, 100), (None, 30, 100));
    assert_eq!(look(&t, &s, -1, 3, -100, 25), (Some(25), 25, 25));
    assert_eq!(look(&t, &s, -1, 3, -100, 0), (Some(25), 25, 0));
    let mut u = Table::new();
    u.insert(s, -1, 3, 10, 20, 20);
    assert_eq!(look(&u, &s, -1, 3, -100, 100), (None, 20, 100));
}

#[test]
fn score_inside_the_window_is_exact() {
    let mut t = Table::new();
    let s = lopsided();
    t.insert(s, -1, 3, 10, 20, 11);
    assert_eq!(look(&t, &s, -1, 3, -100, 100), (Some(11), -100, 100));
    let mut u = Table::new();
    u.insert(s, -1, 3, 10, 20, 19);
    assert_eq!(look(&u, &s, -1, 3, -100, 100), (Some(19), -100, 100));
}

#[test]
fn closed_window_makes_the_score_an_upper_bound() {
    let mut t = Table::new();
    let s = lopsided();
    t.insert(s, -1, 1, 5, 5, 5);
    assert_eq!(look(&t, &s, -1, 1, -100, 100), (None, -100, 5));
}

#[test]
fn two_bounds_that_meet_settle_the_search() {
    let mut t = Table::new();
    let s = lopsided();
    t.insert(s, -1, 3, 50, 60, 10);
    t.insert(s, -1, 3, 0, 10, 10);
    assert_eq!(look(&t, &s, -1, 3, -100, 100), (Some(10), 10, 10));
}

#[test]
fn bounds_narrow_the_window_from_both_sides() {
    let mut t = Table::new();
    let s = lopsided();
    t.insert(s, -1, 3, 50, 60, 30);
    t.insert(s, -1, 3, 0, 10, 10);
    t.insert(s, -1, 2, -100, 100, 77);
    t.insert(s, -1, 3, 50, 60, 40);
    t.insert(s, -1, 3, 0, 5, 12);
    assert_eq!(look(&t, &s, -1, 3, -100, 100), (None, 12, 30));
    assert_eq!(look(&t, &s, -1, 3, 15, 100), (None, 15, 30));
    assert_eq!(look(&t, &s, -1, 2, -100, 100), (Some(77), -100, 100));
    assert_eq!(t.len(), 40);
}

#[test]
fn findings_are_kept_as_side_minus_one_sees_the_position() {
    let mut t = Table::new();
    let s = lopsided();
    let mut turned = s;
    turned.swap();
    t.insert(s, 1, 3, -100, 100, 5);
    assert_eq!(look(&t, &s, 1, 3, -100, 100), (Some(5), -100, 100));
    assert_eq!(look(&t, &turned, -1, 3, -100, 100), (Some(5), -100, 100));
    assert_eq!(look(&t, &s, -1, 3, -100, 100), (None, -100, 100));
    assert_eq!(look(&t, &turned, 1, 3, -100, 100), (None, -100, 100));
    t.insert(turned, 1, 3, -100, 100, 9);
    assert_eq!(look(&t, &s, -1, 3, -100, 100), (Some(9), -100, 100));
}

#[test]
fn len_counts_every_finding() {
    let mut t = Table::new();
    t.insert(lopsided(), -1, 3, -100, 100, 5);
    t.insert(lopsided(), -1, 4, -100, 100, 6);
    t.insert(State::new(), 1, 3, -100, 100, 0);
    t.insert(board(&[(0, 0, 1)]), -1, 2, 0, 1, 1);
    assert_eq!(t.len(), 32);
}

#[test]
fn clean_removes_a_finding_that_a_deeper_exact_one_covers() {
    let mut t = Table::new();
    let s = lopsided();
    t.insert(s, -1, 3, -100, 100, 5);
    t.insert(s, -1, 2, 10, 20, 7);
    t.insert(s, -1, 1, 10, 20, 30);
    assert_eq!(t.len(), 24);
    t.clean();
    assert_eq!(t.len(), 8);
    for id in 0..8 {
        assert_eq!(look(&t, &s.symmetry(id), -1, 3, -100, 100), (Some(5), -100, 100));
        assert_eq!(look(&t, &s.symmetry(id), -1, 2, -100, 100), (None, -100, 100));
        assert_eq!(look(&t, &s.symmetry(id), -1, 1, -100, 100), (None, -100, 100));
    }
}

#[test]
fn clean_keeps_one_of_two_equal_findings() {
    let mut t = Table::new();
    let s = lopsided();
    t.insert(s, -1, 3, -100, 100, 5);
    t.insert(s, -1, 3, -100, 100, 5);
    assert_eq!(t.len(), 16);
    t.clean();
    assert_eq!(t.len(), 8);
    assert_eq!(look(&t, &s, -1, 3, -100, 100), (Some(5), -100, 100));
}

#[test]
fn clean_keeps_findings_that_nothing_covers() {
    let mut t = Table::new();
    let s = lopsided();
    t.insert(s, -1, 3, 50, 60, 30);
    t.insert(s, -1, 3, 0, 10, 10);
    t.insert(s, -1, 2, -100, 100, 15);
    t.clean();
    assert_eq!(t.len(), 24);
    assert_eq!(look(&t, &s, -1, 3, -100, 100), (None, 10, 30));
    assert_eq!(look(&t, &s, -1, 2, -100, 100), (Some(15), -100, 100));
}

#[test]
fn clean_keeps_the_deepest_of_the_same_kind() {
    let mut t = Table::new();
    let s = lopsided();
    t.insert(s, -1, 1, 50, 60, 31);
    t.insert(s, -1, 2, 50, 60, 32);
    t.insert(s, -1, 3, 50, 60, 33);
    t.insert(s, -1, 2, 0, 10, 12);
    t.insert(s, -1, 1, 0, 10, 11);
    t.clean();
    assert_eq!(t.len(), 16);
    assert_eq!(look(&t, &s, -1, 3, -100, 100), (None, -100, 33));
    assert_eq!(look(&t, &s, -1, 2, -100, 100), (None, 12, 100));
    assert_eq!(look(&t, &s, -1, 1, -100, 100), (None, -100, 100));
}

#[test]
fn clean_of_an_empty_table_is_empty() {
    let mut t = Table::new();
    t.clean();
    assert_eq!(t.len(), 0);
}

#[test]
fn clean_shrinks_the_list_of_a_position_that_is_its_own_image() {
    let mut t = Table::new();
    t.insert(State::new(), -1, 4, -100, 100, 0);
    t.clean();
    assert_eq!(t.len(), 1);
    assert_eq!(look(&t, &State::new(), -1, 4, -100, 100), (Some(0), -100, 100));
}

#[test]
fn symmetrize_copies_every_list_to_the_seven_images() {
    let mut t = Table::new();
    let s = lopsided();
    t.insert(s, -1, 3, -100, 100, 5);
    t.symmetrize();
    assert_eq!(t.len(), 64);
    for id in 0..8 {
        assert_eq!(look(&t, &s.symmetry(id), -1, 3, -100, 100), (Some(5), -100, 100));
    }
    t.clean();
    assert_eq!(t.len(), 8);
}

#[test]
fn symmetrize_of_a_position_that_is_its_own_image() {
    let mut t = Table::new();
    t.insert(State::new(), -1, 2, -100, 100, 0);
    assert_eq!(t.len(), 8);
    t.symmetrize();
    assert_eq!(t.len(), 64);
    let mut e = Table::new();
    e.symmetrize();
    assert_eq!(e.len(), 0);
}

#[test]
fn clone_is_a_table_of_its_own() {
    let mut t = Table::new();
    let s = lopsided();
    t.insert(s, -1, 3, -100, 100, 5);
    let copy = t.clone();
    t.insert(s, -1, 2, -100, 100, 6);
    assert_eq!(copy.len(), 8);
    assert_eq!(t.len(), 16);
    assert_eq!(look(&copy, &s, -1, 3, -100, 100), (Some(5), -100, 100));
    assert_eq!(look(&copy, &s, -1, 2, -100, 100), (None, -100, 100));
}
