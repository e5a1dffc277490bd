use four_cubed::turns::Turns;

#[test]
fn game_starts_with_the_human() {
    let t = Turns::new();
    assert_eq!(t.to_move(), 1);
    assert!(!t.is_thinking());
    assert!(t.human_may_move());
}

#[test]
fn no_search_starts_while_the_human_is_to_move() {
    let mut t = Turns::new();
    for _ in 0..5 {
        assert!(!t.frame());
        assert!(!t.is_thinking());
        assert_eq!(t.to_move(), 1);
    }
}

#[test]
fn one_search_starts_after_the_human_has_moved() {
    let mut t = Turns::new();
    t.human_done();
    assert_eq!(t.to_move(), -1);
    assert!(!t.human_may_move());
    assert!(!t.is_thinking());
    assert!(t.frame());
    assert!(t.is_thinking());
    for _ in 0..5 {
        assert!(!t.frame());
        assert!(t.is_thinking());
        assert_eq!(t.to_move(), -1);
    }
}

#[test]
fn human_moves_again_once_the_search_is_done() {
    let mut t = Turns::new();
    t.human_done();
    assert!(t.frame());
    t.search_done();
    assert_eq!(t.to_move(), 1);
    assert!(!t.is_thinking());
    assert!(t.human_may_move());
    assert!(!t.frame());
    t.human_done();
    assert!(t.frame());
}
