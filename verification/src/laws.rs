//! What holds of every position: the laws that relate the operations to each other.
use crate::board::{
    board_key, board_value, board_wf, board_win, child, children_upto, dropped, empty_board,
    first_difference, grounded, grounded_column, is_side, key_upto, line_held, line_score,
    listed_score, score_x, score_y, score_z, stones, swapped, symmetric,
};
use crate::lines::{line_cell, listed, modes_ok, moving, turned};
use vstd::prelude::*;

verus! {

/// A line walked backwards passes the same cells: it holds as many stones of either
/// side, and scores the same.
pub proof fn lemma_turned_line(b: Seq<int>, mx: int, my: int, mz: int, who: int)
    requires
        modes_ok(mx, my, mz),
    ensures
        stones(b, turned(mx), turned(my), turned(mz), who) == stones(b, mx, my, mz, who),
        line_held(b, turned(mx), turned(my), turned(mz), who) == line_held(b, mx, my, mz, who),
{
    assert forall|t: int| 0 <= t < 4 implies line_cell(turned(mx), turned(my), turned(mz), t)
        == line_cell(mx, my, mz, 3 - t) by {}
    assert(line_cell(turned(mx), turned(my), turned(mz), 0) == line_cell(mx, my, mz, 3));
    assert(line_cell(turned(mx), turned(my), turned(mz), 1) == line_cell(mx, my, mz, 2));
    assert(line_cell(turned(mx), turned(my), turned(mz), 2) == line_cell(mx, my, mz, 1));
    assert(line_cell(turned(mx), turned(my), turned(mz), 3) == line_cell(mx, my, mz, 0));
}

/// A side has won exactly if it holds a line of the table: it is enough to look at the
/// listed triples.
pub proof fn lemma_win_by_listed(b: Seq<int>, who: int)
    ensures
        board_win(b, who) <==> exists|mx: int, my: int, mz: int|
            listed(mx, my, mz) && #[trigger] line_held(b, mx, my, mz, who),
{
    if board_win(b, who) {
        let (mx, my, mz) = choose|mx: int, my: int, mz: int|
            moving(mx, my, mz) && #[trigger] line_held(b, mx, my, mz, who);
        if !listed(mx, my, mz) {
            lemma_turned_line(b, mx, my, mz, who);
            assert(listed(turned(mx), turned(my), turned(mz)) && line_held(
                b,
                turned(mx),
                turned(my),
                turned(mz),
                who,
            ));
        }
    }
    if exists|mx: int, my: int, mz: int|
        listed(mx, my, mz) && #[trigger] line_held(b, mx, my, mz, who) {
        let (mx, my, mz) = choose|mx: int, my: int, mz: int|
            listed(mx, my, mz) && #[trigger] line_held(b, mx, my, mz, who);
        assert(moving(mx, my, mz) && line_held(b, mx, my, mz, who));
    }
}

/// Exchanging the sides of a position gives a position.
pub proof fn lemma_swapped_wf(b: Seq<int>)
    requires
        board_wf(b),
    ensures
        board_wf(swapped(b)),
{
}

/// A mirror image of a position is a position.
pub proof fn lemma_symmetric_wf(id: int, b: Seq<int>)
    requires
        board_wf(b),
        0 <= id < 8,
    ensures
        board_wf(symmetric(id, b)),
{
}

/// Two positions have the same cells from index `i` up to their first difference, and
/// not the same cell there.
pub proof fn lemma_no_difference(a: Seq<int>, b: Seq<int>, i: int)
    requires
        0 <= i <= 64,
    ensures
        i <= first_difference(a, b, i) <= 64,
        forall|k: int| i <= k < first_difference(a, b, i) ==> a[k] == b[k],
        first_difference(a, b, i) < 64 ==> a[first_difference(a, b, i)] != b[first_difference(
            a,
            b,
            i,
        )],
    decreases 64 - i,
{
    if i < 64 {
        lemma_no_difference(a, b, i + 1);
    }
}

/// The empty position obeys gravity.
pub proof fn lemma_empty_grounded()
    ensures
        board_wf(empty_board()),
        grounded(empty_board()),
{
    assert forall|col: int| 0 <= col < 16 implies #[trigger] grounded_column(
        empty_board(),
        col,
    ) by {}
}

/// Gravity: a stone dropped into a position that obeys gravity leaves one that does.
pub proof fn lemma_drop_keeps_grounded(b: Seq<int>, col: int, who: int)
    requires
        b.len() == 64,
        grounded(b),
        0 <= col < 16,
        who != 0,
    ensures
        grounded(dropped(b, col, who)),
{
    let d = dropped(b, col, who);
    assert(grounded_column(b, col));
    assert forall|c: int| 0 <= c < 16 implies #[trigger] grounded_column(d, c) by {
        assert(grounded_column(b, c));
    }
}

/// A stone of one of the sides dropped into a position leaves a position.
pub proof fn lemma_drop_wf(b: Seq<int>, col: int, who: int)
    requires
        board_wf(b),
        0 <= col < 16,
        is_side(who),
    ensures
        board_wf(dropped(b, col, who)),
{
}

/// Every reply to a position is a position, and obeys gravity if the position does.
pub proof fn lemma_children_wf(b: Seq<int>, who: int, n: int)
    requires
        board_wf(b),
        is_side(who),
        0 <= n <= 16,
    ensures
        forall|k: int|
            0 <= k < children_upto(b, who, n).len() ==> board_wf(
                #[trigger] children_upto(b, who, n)[k],
            ),
        grounded(b) ==> forall|k: int|
            0 <= k < children_upto(b, who, n).len() ==> grounded(
                #[trigger] children_upto(b, who, n)[k],
            ),
    decreases n,
{
    if n > 0 {
        lemma_children_wf(b, who, n - 1);
        let col = (n - 1) / 4 + 4 * ((n - 1) % 4);
        lemma_drop_wf(b, col, who);
        if grounded(b) {
            lemma_drop_keeps_grounded(b, col, who);
        }
        let kids = children_upto(b, who, n);
        let before = children_upto(b, who, n - 1);
        assert forall|k: int| 0 <= k < kids.len() implies board_wf(#[trigger] kids[k]) && (
        grounded(b) ==> grounded(kids[k])) by {
            if k < before.len() {
                assert(kids[k] == before[k]);
            } else {
                assert(kids[k] == child(b, n - 1, who));
            }
        }
    }
}

/// Exchanging the sides twice gives the position back.
pub proof fn lemma_swap_twice(b: Seq<int>)
    ensures
        swapped(swapped(b)) == b,
{
    assert(swapped(swapped(b)) =~= b);
}

/// After the sides are exchanged, a line holds of one side the stones that it held of
/// the other, and its score is negated.
pub proof fn lemma_swap_line(b: Seq<int>, mx: int, my: int, mz: int, who: int)
    requires
        b.len() == 64,
        modes_ok(mx, my, mz),
    ensures
        stones(swapped(b), mx, my, mz, who) == stones(b, mx, my, mz, -who),
        line_score(swapped(b), mx, my, mz) == -line_score(b, mx, my, mz),
        listed_score(swapped(b), mx, my, mz) == -listed_score(b, mx, my, mz),
{
    assert forall|t: int| 0 <= t < 4 implies 0 <= #[trigger] line_cell(mx, my, mz, t) < 64 by {}
    assert(0 <= line_cell(mx, my, mz, 0) < 64);
    assert(0 <= line_cell(mx, my, mz, 1) < 64);
    assert(0 <= line_cell(mx, my, mz, 2) < 64);
    assert(0 <= line_cell(mx, my, mz, 3) < 64);
    assert(stones(swapped(b), mx, my, mz, 1) == stones(b, mx, my, mz, -1));
    assert(stones(swapped(b), mx, my, mz, -1) == stones(b, mx, my, mz, 1));
}

/// The partial sums of the value are negated when the sides are exchanged.
pub proof fn lemma_swap_score_x(b: Seq<int>, my: int, mz: int, n: int)
    requires
        b.len() == 64,
        0 <= my < 6,
        0 <= mz < 6,
        0 <= n <= 6,
    ensures
        score_x(swapped(b), my, mz, n) == -score_x(b, my, mz, n),
    decreases n,
{
    if n > 0 {
        lemma_swap_score_x(b, my, mz, n - 1);
        lemma_swap_line(b, n - 1, my, mz, 1);
    }
}

/// The same, for the partial sums over the y modes.
pub proof fn lemma_swap_score_y(b: Seq<int>, mz: int, n: int)
    requires
        b.len() == 64,
        0 <= mz < 6,
        0 <= n <= 6,
    ensures
        score_y(swapped(b), mz, n) == -score_y(b, mz, n),
    decreases n,
{
    if n > 0 {
        lemma_swap_score_y(b, mz, n - 1);
        lemma_swap_score_x(b, n - 1, mz, 6);
    }
}

/// The same, for the partial sums over the z modes.
pub proof fn lemma_swap_score_z(b: Seq<int>, n: int)
    requires
        b.len() == 64,
        0 <= n <= 6,
    ensures
        score_z(swapped(b), n) == -score_z(b, n),
    decreases n,
{
    if n > 0 {
        lemma_swap_score_z(b, n - 1);
        lemma_swap_score_y(b, n - 1, 6);
    }
}

/// Exchanging the sides negates the value.
pub proof fn lemma_swap_negates_value(b: Seq<int>)
    requires
        b.len() == 64,
    ensures
        board_value(swapped(b)) == -board_value(b),
{
    lemma_swap_score_z(b, 6);
}

/// After the sides are exchanged, a side has won exactly if the other had.
pub proof fn lemma_swap_win(b: Seq<int>, who: int)
    requires
        b.len() == 64,
    ensures
        board_win(swapped(b), who) == board_win(b, -who),
{
    if board_win(swapped(b), who) {
        let (mx, my, mz) = choose|mx: int, my: int, mz: int|
            moving(mx, my, mz) && #[trigger] line_held(swapped(b), mx, my, mz, who);
        lemma_swap_line(b, mx, my, mz, who);
        assert(line_held(b, mx, my, mz, -who));
    }
    if board_win(b, -who) {
        let (mx, my, mz) = choose|mx: int, my: int, mz: int|
            moving(mx, my, mz) && #[trigger] line_held(b, mx, my, mz, -who);
        lemma_swap_line(b, mx, my, mz, who);
        assert(line_held(swapped(b), mx, my, mz, who));
    }
}

/// Two positions with the same first `n` cells have the same first `n` key digits.
pub proof fn lemma_key_same_front(a: Seq<int>, b: Seq<int>, n: int)
    requires
        0 <= n <= 64,
        forall|k: int| 0 <= k < n ==> a[k] == b[k],
    ensures
        key_upto(a, n) == key_upto(b, n),
    decreases n,
{
    if n > 0 {
        lemma_key_same_front(a, b, n - 1);
    }
}

/// Once the first cell that differs is smaller, the key read so far stays smaller
/// whatever cells follow.
pub proof fn lemma_key_smaller_from(a: Seq<int>, b: Seq<int>, i: int, n: int)
    requires
        board_wf(a),
        board_wf(b),
        0 <= i < n <= 64,
        forall|k: int| 0 <= k < i ==> a[k] == b[k],
        a[i] < b[i],
    ensures
        key_upto(a, n) < key_upto(b, n),
    decreases n,
{
    if n == i + 1 {
        lemma_key_same_front(a, b, i);
    } else {
        lemma_key_smaller_from(a, b, i, n - 1);
    }
}

/// The keys order the positions cell by cell: a position has the smaller key exactly
/// if it has the smaller cell where the two first differ.
pub proof fn lemma_key_order(a: Seq<int>, b: Seq<int>)
    requires
        board_wf(a),
        board_wf(b),
    ensures
        board_key(a) < board_key(b) <==> first_difference(a, b, 0) < 64 && a[first_difference(
            a,
            b,
            0,
        )] < b[first_difference(a, b, 0)],
{
    let i = first_difference(a, b, 0);
    lemma_no_difference(a, b, 0);
    if i == 64 {
        lemma_key_same_front(a, b, 64);
    } else if a[i] < b[i] {
        lemma_key_smaller_from(a, b, i, 64);
    } else {
        lemma_no_difference(b, a, 0);
        lemma_first_difference_same(a, b, 0);
        lemma_key_smaller_from(b, a, i, 64);
    }
}

/// Two positions first differ at the same cell whichever is named first.
pub proof fn lemma_first_difference_same(a: Seq<int>, b: Seq<int>, i: int)
    ensures
        first_difference(a, b, i) == first_difference(b, a, i),
    decreases 64 - i,
{
    if 0 <= i < 64 && a[i] == b[i] {
        lemma_first_difference_same(a, b, i + 1);
    }
}

/// A position that obeys gravity still does after the sides are exchanged.
pub proof fn lemma_swap_keeps_grounded(b: Seq<int>)
    requires
        b.len() == 64,
        grounded(b),
    ensures
        grounded(swapped(b)),
{
    assert forall|col: int| 0 <= col < 16 implies #[trigger] grounded_column(swapped(b), col) by {
        assert(grounded_column(b, col));
    }
}

/// On the empty position no line holds a stone, and none scores.
pub proof fn lemma_empty_line(mx: int, my: int, mz: int, who: int)
    requires
        modes_ok(mx, my, mz),
        who != 0,
    ensures
        stones(empty_board(), mx, my, mz, who) == 0,
        line_score(empty_board(), mx, my, mz) == 0,
        listed_score(empty_board(), mx, my, mz) == 0,
{
    assert(0 <= line_cell(mx, my, mz, 0) < 64);
    assert(0 <= line_cell(mx, my, mz, 1) < 64);
    assert(0 <= line_cell(mx, my, mz, 2) < 64);
    assert(0 <= line_cell(mx, my, mz, 3) < 64);
    assert(stones(empty_board(), mx, my, mz, 1) == 0);
    assert(stones(empty_board(), mx, my, mz, -1) == 0);
}

/// The partial sums of the value of the empty position are nothing.
pub proof fn lemma_empty_scores(my: int, mz: int, n: int)
    requires
        0 <= my <= 6,
        0 <= mz <= 6,
        0 <= n <= 6,
    ensures
        my < 6 && mz < 6 ==> score_x(empty_board(), my, mz, n) == 0,
        mz < 6 ==> score_y(empty_board(), mz, my) == 0,
        score_z(empty_board(), mz) == 0,
    decreases mz, my, n,
{
    if n > 0 && my < 6 && mz < 6 {
        lemma_empty_scores(my, mz, n - 1);
        lemma_empty_line(n - 1, my, mz, 1);
    }
    if my > 0 && mz < 6 {
        lemma_empty_scores(my - 1, mz, 6);
    }
    if mz > 0 {
        lemma_empty_scores(6, mz - 1, 6);
    }
}

/// The empty position is worth nothing, and nobody has won in it.
pub proof fn lemma_empty_value()
    ensures
        board_value(empty_board()) == 0,
        !board_win(empty_board(), 1),
        !board_win(empty_board(), -1),
{
    lemma_empty_scores(6, 6, 6);
    assert forall|mx: int, my: int, mz: int, who: int| moving(mx, my, mz) && who != 0 implies !(
    #[trigger] line_held(empty_board(), mx, my, mz, who)) by {
        lemma_empty_line(mx, my, mz, who);
    }
}

} // verus!
