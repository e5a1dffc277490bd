//! The infinities stay out of the game as long as the board has room: in a position
//! that obeys gravity and has as many empty cells as the search looks ahead, every
//! score is a real one.
use crate::board::{
    board_wf, child, empty_board, children, children_upto, column_at, dropped, grounded, grounded_column,
    height, is_side, playable,
};
use crate::laws::{lemma_drop_keeps_grounded, lemma_drop_wf};
use crate::search::{at_leaf, best_choice, INFINITY};
use crate::choice::{lemma_best_choice, well_chosen};
use crate::minimax::{best_reply, lemma_oriented_range, minimax};
use crate::soundness::table_sound;
use crate::table::{Findings, table_wf};
use vstd::prelude::*;

verus! {

/// How many of the first `n` cells are empty.
pub open spec fn empties_upto(b: Seq<int>, n: int) -> int
    decreases n,
{
    if n <= 0 {
        0
    } else {
        empties_upto(b, n - 1) + if b[n - 1] == 0 {
            1int
        } else {
            0
        }
    }
}

/// How many cells of the position are empty.
pub open spec fn empties(b: Seq<int>) -> int {
    empties_upto(b, 64)
}

/// All cells of the empty position are empty.
pub proof fn lemma_empties_of_empty(n: int)
    requires
        0 <= n <= 64,
    ensures
        empties_upto(empty_board(), n) == n,
        n == 64 ==> empties(empty_board()) == 64,
    decreases n,
{
    if n > 0 {
        lemma_empties_of_empty(n - 1);
    }
}

/// A stone put on an empty cell leaves one empty cell less from that cell on.
pub proof fn lemma_empties_after_stone(b: Seq<int>, i: int, who: int, n: int)
    requires
        b.len() == 64,
        0 <= i < 64,
        b[i] == 0,
        who != 0,
        0 <= n <= 64,
    ensures
        empties_upto(b.update(i, who), n) == empties_upto(b, n) - if i < n {
            1int
        } else {
            0
        },
    decreases n,
{
    if n > 0 {
        lemma_empties_after_stone(b, i, who, n - 1);
    }
}

/// A stone dropped into a column with room leaves one empty cell less.
pub proof fn lemma_empties_after_drop(b: Seq<int>, col: int, who: int)
    requires
        b.len() == 64,
        0 <= col < 16,
        height(b, col) < 4,
        who != 0,
    ensures
        empties(dropped(b, col, who)) == empties(b) - 1,
{
    lemma_empties_after_stone(b, col + 16 * height(b, col), who, 64);
}

/// A position without an empty cell among its first `n` has no empty cell there.
pub proof fn lemma_no_empties(b: Seq<int>, n: int)
    requires
        0 <= n <= 64,
        forall|i: int| 0 <= i < n ==> b[i] != 0,
    ensures
        empties_upto(b, n) == 0,
    decreases n,
{
    if n > 0 {
        lemma_no_empties(b, n - 1);
    }
}

/// A position that obeys gravity and has an empty cell has a column that can be played.
pub proof fn lemma_room_to_play(b: Seq<int>) -> (n: int)
    requires
        b.len() == 64,
        grounded(b),
        empties(b) >= 1,
    ensures
        0 <= n < 16,
        playable(b, n),
{
    if forall|c: int| 0 <= c < 16 ==> !playable(b, c) {
        assert forall|i: int| 0 <= i < 64 implies b[i] != 0 by {
            let col = i % 16;
            let c = 4 * (col % 4) + col / 4;
            assert(column_at(c) == col);
            assert(!playable(b, c));
            assert(grounded_column(b, col));
        }
        lemma_no_empties(b, 64);
    }
    choose|c: int| 0 <= c < 16 && playable(b, c)
}

/// The position is what `who` gets by a stone dropped into one of the first `n` columns
/// that can be played.
pub open spec fn is_drop(b: Seq<int>, who: int, n: int, kid: Seq<int>) -> bool {
    exists|c: int| 0 <= c < n && #[trigger] playable(b, c) && kid == child(b, c, who)
}

/// Every reply is the position after a stone dropped into a column that can be played,
/// and a column that can be played gives a reply.
pub proof fn lemma_children_are_drops(b: Seq<int>, who: int, n: int)
    requires
        0 <= n <= 16,
    ensures
        forall|k: int|
            0 <= k < children_upto(b, who, n).len() ==> is_drop(
                b,
                who,
                n,
                #[trigger] children_upto(b, who, n)[k],
            ),
        (exists|c: int| 0 <= c < n && #[trigger] playable(b, c)) ==> children_upto(b, who, n).len()
            >= 1,
    decreases n,
{
    if n > 0 {
        lemma_children_are_drops(b, who, n - 1);
        let kids = children_upto(b, who, n);
        let before = children_upto(b, who, n - 1);
        assert forall|k: int| 0 <= k < kids.len() implies is_drop(
            b,
            who,
            n,
            #[trigger] kids[k],
        ) by {
            if k < before.len() {
                assert(kids[k] == before[k]);
                assert(is_drop(b, who, n - 1, before[k]));
                let c = choose|c: int|
                    0 <= c < n - 1 && #[trigger] playable(b, c) && before[k] == child(b, c, who);
                assert(0 <= c < n && playable(b, c) && kids[k] == child(b, c, who));
            } else {
                assert(playable(b, n - 1) && kids[k] == child(b, n - 1, who));
            }
        }
        if exists|c: int| 0 <= c < n && #[trigger] playable(b, c) {
            let c = choose|c: int| 0 <= c < n && #[trigger] playable(b, c);
            if c < n - 1 {
                assert(playable(b, c));
            }
        }
    }
}

/// The best of at least one reply, none of which is worth an infinity, is worth none.
pub proof fn lemma_best_reply_real(kids: Seq<Seq<int>>, player: int, depth: int, n: int)
    requires
        depth > 0,
        1 <= n <= kids.len(),
        forall|k: int|
            0 <= k < kids.len() ==> -INFINITY < minimax(#[trigger] kids[k], -player, depth - 1)
                < INFINITY,
    ensures
        -INFINITY < best_reply(kids, player, depth, n) < INFINITY,
    decreases n,
{
    if n > 1 {
        lemma_best_reply_real(kids, player, depth, n - 1);
    } else {
        assert(best_reply(kids, player, depth, 0) == -INFINITY);
    }
}

/// In a position that obeys gravity and has at least `depth` empty cells, the minimax
/// score at that depth is no infinity.
pub proof fn lemma_minimax_real(b: Seq<int>, player: int, depth: int)
    requires
        board_wf(b),
        grounded(b),
        is_side(player),
        depth <= empties(b),
    ensures
        -INFINITY < minimax(b, player, depth) < INFINITY,
    decreases depth,
{
    if at_leaf(b, player, depth) {
        lemma_oriented_range(b, player);
    } else {
        let kids = children(b, player);
        let c = lemma_room_to_play(b);
        lemma_children_are_drops(b, player, 16);
        lemma_replies_real(b, player, depth);
        lemma_best_reply_real(kids, player, depth, kids.len() as int);
    }
}

/// In a position that obeys gravity and has at least `depth` empty cells, no reply is
/// worth an infinity to the side that answers, one move less deep.
pub proof fn lemma_replies_real(b: Seq<int>, player: int, depth: int)
    requires
        board_wf(b),
        grounded(b),
        is_side(player),
        0 < depth <= empties(b),
    ensures
        forall|k: int|
            0 <= k < children(b, player).len() ==> -INFINITY < minimax(
                #[trigger] children(b, player)[k],
                -player,
                depth - 1,
            ) < INFINITY,
    decreases depth, 0int,
{
    let kids = children(b, player);
    lemma_children_are_drops(b, player, 16);
    assert forall|k: int| 0 <= k < kids.len() implies -INFINITY < minimax(
        #[trigger] kids[k],
        -player,
        depth - 1,
    ) < INFINITY by {
        assert(is_drop(b, player, 16, kids[k]));
        let c = choose|c: int|
            0 <= c < 16 && #[trigger] playable(b, c) && kids[k] == child(b, c, player);
        let col = column_at(c);
        lemma_drop_wf(b, col, player);
        lemma_drop_keeps_grounded(b, col, player);
        lemma_empties_after_drop(b, col, player);
        lemma_minimax_real(kids[k], -player, depth - 1);
    }
}

/// The move picked while the board has room: in a position that obeys gravity and has
/// at least `depth` empty cells, the position chosen with a table of true findings is
/// the first of the best replies, and the table left holds true findings only.
pub proof fn lemma_best_choice_with_room(
    b: Seq<int>,
    player: int,
    depth: int,
    m: Findings,
)
    requires
        board_wf(b),
        grounded(b),
        is_side(player),
        0 < depth <= i32::MAX,
        depth <= empties(b),
        table_sound(m),
        table_wf(m),
    ensures
        well_chosen(
            best_choice(b, player, depth, m).board,
            b,
            children(b, player),
            player,
            depth,
            children(b, player).len() as int,
        ),
        best_reply(children(b, player), player, depth, children(b, player).len() as int)
            > -INFINITY,
        table_sound(best_choice(b, player, depth, m).table),
{
    lemma_replies_real(b, player, depth);
    lemma_best_choice(b, player, depth, m);
    let c = lemma_room_to_play(b);
    lemma_children_are_drops(b, player, 16);
    lemma_best_reply_real(children(b, player), player, depth, children(b, player).len() as int);
}

} // verus!
