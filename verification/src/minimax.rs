//! What a position is worth: the minimax score, which the plain search gives wherever
//! its window lets it, and a bound on it elsewhere. Exchanging the sides or mirroring
//! the board does not change it.
use crate::board::{
    board_win, child, children, children_upto, column_at, dropped, height, is_side,
    lemma_score_z_bound, playable, source_cell, swapped, symmetric,
};
use crate::laws::{lemma_swap_negates_value, lemma_swap_win};
use crate::search::{alphabeta, alphabeta_from, at_leaf, INFINITY, larger, oriented};
use crate::symmetry::{
    inverse, lemma_source_column, lemma_source_undone, lemma_symmetry_keeps_value,
    lemma_symmetry_keeps_win, lemma_symmetry_undone, source_column,
};
use vstd::prelude::*;

verus! {

/// The minimax score of a position for `player`, who is to move, looking `depth` moves
/// ahead: the static value at a leaf, else the best of the negated scores of the
/// replies, and minus infinity if there is no reply.
pub open spec fn minimax(b: Seq<int>, player: int, depth: int) -> int
    decreases depth, 0int, 0int,
{
    if at_leaf(b, player, depth) {
        oriented(b, player)
    } else {
        best_reply(children(b, player), player, depth, children(b, player).len() as int)
    }
}

/// The best of the negated minimax scores of the first `n` replies.
pub open spec fn best_reply(kids: Seq<Seq<int>>, player: int, depth: int, n: int) -> int
    decreases depth - 1, 1int, n,
{
    if depth <= 0 || n <= 0 || n > kids.len() {
        -INFINITY
    } else {
        larger(
            best_reply(kids, player, depth, n - 1),
            -minimax(kids[n - 1], -player, depth - 1),
        )
    }
}

/// What a score `v` returned for the window `(alpha, beta)` says of the true score
/// `m`: at or below `alpha` it is an upper bound, at or above `beta` a lower bound, and
/// strictly inside the window it is the true score.
pub open spec fn tells(v: int, m: int, alpha: int, beta: int) -> bool {
    &&& v <= alpha ==> m <= v
    &&& v >= beta ==> m >= v
    &&& alpha < v < beta ==> v == m
}

/// The window is one: not empty, and within the two infinities.
pub open spec fn is_window(alpha: int, beta: int) -> bool {
    -INFINITY <= alpha < beta <= INFINITY
}

/// The static value as either side sees it lies strictly between the infinities.
pub proof fn lemma_oriented_range(b: Seq<int>, player: int)
    ensures
        -INFINITY < oriented(b, player) < INFINITY,
{
    lemma_score_z_bound(b, 6);
}

/// The best reply lies within the infinities.
pub proof fn lemma_best_reply_range(kids: Seq<Seq<int>>, player: int, depth: int, n: int)
    ensures
        -INFINITY <= best_reply(kids, player, depth, n) <= INFINITY,
    decreases depth - 1, 1int, n,
{
    if depth <= 0 || n <= 0 || n > kids.len() {
    } else {
        lemma_best_reply_range(kids, player, depth, n - 1);
        lemma_minimax_range(kids[n - 1], -player, depth - 1);
    }
}

/// The minimax score lies within the infinities.
pub proof fn lemma_minimax_range(b: Seq<int>, player: int, depth: int)
    ensures
        -INFINITY <= minimax(b, player, depth) <= INFINITY,
    decreases depth, 0int, 0int,
{
    if at_leaf(b, player, depth) {
        lemma_oriented_range(b, player);
    } else {
        let kids = children(b, player);
        lemma_best_reply_range(kids, player, depth, kids.len() as int);
    }
}

/// The state of the search between two replies: the best score so far is below `beta`,
/// `alpha` is the larger of the first `alpha` and the best score, and the best score
/// tells of the best of the replies seen what a score tells in the first window.
pub open spec fn on_track(best: int, seen: int, first: int, alpha: int, beta: int) -> bool {
    &&& -INFINITY <= best
    &&& alpha == larger(first, best)
    &&& alpha < beta <= INFINITY
    &&& -INFINITY <= first
    &&& best <= first ==> seen <= best
    &&& best > first ==> best == seen
}

/// One reply more: if its score tells of its true score what a score tells in the
/// window left, then either the search is cut off with a score that tells of any larger
/// total what a score tells in the first window, or the search is on track again.
pub proof fn lemma_one_reply(
    best: int,
    seen: int,
    first: int,
    alpha: int,
    beta: int,
    v: int,
    truth: int,
    total: int,
)
    requires
        on_track(best, seen, first, alpha, beta),
        tells(v, truth, alpha, beta),
        -INFINITY <= v,
        total >= larger(seen, truth),
    ensures
        larger(alpha, v) >= beta ==> tells(larger(best, v), total, first, beta),
        larger(alpha, v) < beta ==> on_track(
            larger(best, v),
            larger(seen, truth),
            first,
            larger(alpha, v),
            beta,
        ),
{
}

/// The best of the first replies is no more than the best of all of them.
pub proof fn lemma_best_reply_grows(kids: Seq<Seq<int>>, player: int, depth: int, n: int, k: int)
    requires
        0 <= n <= k <= kids.len(),
    ensures
        best_reply(kids, player, depth, n) <= best_reply(kids, player, depth, k),
    decreases k - n,
{
    if n < k {
        lemma_best_reply_grows(kids, player, depth, n, k - 1);
    }
}

/// The plain search tells of the minimax score what a score tells in its window.
pub proof fn lemma_alphabeta_tells(b: Seq<int>, player: int, depth: int, alpha: int, beta: int)
    requires
        is_window(alpha, beta),
    ensures
        tells(alphabeta(b, player, depth, alpha, beta), minimax(b, player, depth), alpha, beta),
        -INFINITY <= alphabeta(b, player, depth, alpha, beta) <= INFINITY,
    decreases depth, 0int, 0int,
{
    if at_leaf(b, player, depth) {
        lemma_oriented_range(b, player);
    } else {
        lemma_alphabeta_from_tells(
            children(b, player),
            player,
            depth,
            alpha,
            alpha,
            beta,
            -INFINITY,
            0,
        );
    }
}

/// The plain search over the replies from index `i` on, when on track, tells of the
/// best of all replies what a score tells in the first window.
pub proof fn lemma_alphabeta_from_tells(
    kids: Seq<Seq<int>>,
    player: int,
    depth: int,
    first: int,
    alpha: int,
    beta: int,
    best: int,
    i: int,
)
    requires
        depth > 0,
        0 <= i <= kids.len(),
        best <= INFINITY,
        on_track(best, best_reply(kids, player, depth, i), first, alpha, beta),
    ensures
        tells(
            alphabeta_from(kids, player, depth, alpha, beta, best, i),
            best_reply(kids, player, depth, kids.len() as int),
            first,
            beta,
        ),
        -INFINITY <= alphabeta_from(kids, player, depth, alpha, beta, best, i) <= INFINITY,
    decreases depth - 1, 1int, kids.len() - i,
{
    if i < kids.len() {
        lemma_alphabeta_tells(kids[i], -player, depth - 1, -beta, -alpha);
        let v = -alphabeta(kids[i], -player, depth - 1, -beta, -alpha);
        let truth = -minimax(kids[i], -player, depth - 1);
        let total = best_reply(kids, player, depth, kids.len() as int);
        lemma_best_reply_grows(kids, player, depth, i + 1, kids.len() as int);
        lemma_one_reply(
            best,
            best_reply(kids, player, depth, i),
            first,
            alpha,
            beta,
            v,
            truth,
            total,
        );
        if larger(alpha, v) < beta {
            lemma_alphabeta_from_tells(
                kids,
                player,
                depth,
                first,
                larger(alpha, v),
                beta,
                larger(best, v),
                i + 1,
            );
        }
    }
}

/// In the window between the infinities, a score that tells what a score tells is the
/// true score.
pub proof fn lemma_full_window(v: int, m: int)
    requires
        tells(v, m, -INFINITY as int, INFINITY as int),
        -INFINITY <= v <= INFINITY,
        -INFINITY <= m <= INFINITY,
    ensures
        v == m,
{
}

/// With the window between the infinities the plain search gives the minimax score.
pub proof fn lemma_alphabeta_is_minimax(b: Seq<int>, player: int, depth: int)
    ensures
        alphabeta(b, player, depth, -INFINITY as int, INFINITY as int) == minimax(
            b,
            player,
            depth,
        ),
{
    lemma_alphabeta_tells(b, player, depth, -INFINITY as int, INFINITY as int);
    lemma_minimax_range(b, player, depth);
    lemma_full_window(
        alphabeta(b, player, depth, -INFINITY as int, INFINITY as int),
        minimax(b, player, depth),
    );
}

/// The replies of the other side to the position with the sides exchanged are the
/// replies to the position, with the sides exchanged.
pub proof fn lemma_swap_children(b: Seq<int>, player: int, n: int)
    requires
        b.len() == 64,
        0 <= n <= 16,
    ensures
        children_upto(swapped(b), -player, n).len() == children_upto(b, player, n).len(),
        forall|k: int|
            0 <= k < children_upto(b, player, n).len() ==> #[trigger] children_upto(
                swapped(b),
                -player,
                n,
            )[k] == swapped(children_upto(b, player, n)[k]),
    decreases n,
{
    if n > 0 {
        lemma_swap_children(b, player, n - 1);
        let col = column_at(n - 1);
        assert(0 <= col < 16);
        assert(height(swapped(b), col) == height(b, col));
        assert(dropped(swapped(b), col, -player) =~= swapped(dropped(b, col, player)));
        assert(playable(swapped(b), n - 1) == playable(b, n - 1));
    }
}

/// The best of two lists of replies is the same if the replies have the same scores.
pub proof fn lemma_best_reply_same(
    kids: Seq<Seq<int>>,
    player: int,
    others: Seq<Seq<int>>,
    other: int,
    depth: int,
    n: int,
)
    requires
        kids.len() == others.len(),
        forall|k: int|
            0 <= k < kids.len() ==> minimax(#[trigger] kids[k], -player, depth - 1) == minimax(
                others[k],
                -other,
                depth - 1,
            ),
    ensures
        best_reply(kids, player, depth, n) == best_reply(others, other, depth, n),
    decreases n,
{
    if depth <= 0 || n <= 0 || n > kids.len() {
    } else {
        lemma_best_reply_same(kids, player, others, other, depth, n - 1);
    }
}

/// Zero sum: a position is worth to the side to move what the position with the sides
/// exchanged is worth to the other side.
pub proof fn lemma_swap_minimax(b: Seq<int>, player: int, depth: int)
    requires
        b.len() == 64,
        is_side(player),
    ensures
        minimax(swapped(b), -player, depth) == minimax(b, player, depth),
    decreases depth,
{
    lemma_swap_win(b, player);
    lemma_swap_negates_value(b);
    if !at_leaf(b, player, depth) {
        lemma_swap_children(b, player, 16);
        let kids = children(b, player);
        let others = children(swapped(b), -player);
        lemma_children_len(b, player, 16);
        assert forall|k: int| 0 <= k < kids.len() implies minimax(
            #[trigger] others[k],
            player,
            depth - 1,
        ) == minimax(kids[k], -player, depth - 1) by {
            lemma_swap_minimax(kids[k], -player, depth - 1);
        }
        lemma_best_reply_same(others, -player, kids, player, depth, kids.len() as int);
    }
}

/// Every reply to a position of 64 cells has 64 cells.
pub proof fn lemma_children_len(b: Seq<int>, who: int, n: int)
    requires
        b.len() == 64,
        0 <= n <= 16,
    ensures
        forall|k: int|
            0 <= k < children_upto(b, who, n).len() ==> (#[trigger] children_upto(
                b,
                who,
                n,
            )[k]).len() == 64,
    decreases n,
{
    if n > 0 {
        lemma_children_len(b, who, n - 1);
        let kids = children_upto(b, who, n);
        let before = children_upto(b, who, n - 1);
        assert forall|k: int| 0 <= k < kids.len() implies (#[trigger] kids[k]).len() == 64 by {
            if k < before.len() {
                assert(kids[k] == before[k]);
            } else {
                assert(kids[k] == child(b, n - 1, who));
            }
        }
    }
}

/// The negated minimax score of the reply in the `n`-th column in playing order.
pub open spec fn reply_score(b: Seq<int>, n: int, player: int, depth: int) -> int {
    -minimax(child(b, n, player), -player, depth - 1)
}

/// The best of the first replies depends on the first replies only.
pub proof fn lemma_best_reply_prefix(
    kids: Seq<Seq<int>>,
    others: Seq<Seq<int>>,
    player: int,
    depth: int,
    n: int,
)
    requires
        0 <= n <= kids.len(),
        n <= others.len(),
        forall|k: int| 0 <= k < n ==> #[trigger] kids[k] == others[k],
    ensures
        best_reply(kids, player, depth, n) == best_reply(others, player, depth, n),
    decreases n,
{
    if depth > 0 && n > 0 {
        lemma_best_reply_prefix(kids, others, player, depth, n - 1);
    }
}

/// The best reply, told by columns: it is at least the score of the reply in every
/// column that can be played, and it is one of these scores unless it is minus infinity.
pub proof fn lemma_best_reply_columns(b: Seq<int>, player: int, depth: int, n: int)
    requires
        depth > 0,
        0 <= n <= 16,
    ensures
        ({
            let kids = children_upto(b, player, n);
            let m = best_reply(kids, player, depth, kids.len() as int);
            &&& m >= -INFINITY
            &&& forall|c: int|
                0 <= c < n && playable(b, c) ==> #[trigger] reply_score(b, c, player, depth) <= m
            &&& (m == -INFINITY || exists|c: int|
                0 <= c < n && playable(b, c) && m == #[trigger] reply_score(b, c, player, depth))
        }),
    decreases n,
{
    if n > 0 {
        lemma_best_reply_columns(b, player, depth, n - 1);
        let before = children_upto(b, player, n - 1);
        let kids = children_upto(b, player, n);
        let m0 = best_reply(before, player, depth, before.len() as int);
        let m = best_reply(kids, player, depth, kids.len() as int);
        if playable(b, n - 1) {
            assert(kids == before.push(child(b, n - 1, player)));
            lemma_best_reply_prefix(kids, before, player, depth, before.len() as int);
            assert(m == larger(m0, reply_score(b, n - 1, player, depth)));
            if m != -INFINITY {
                if m == reply_score(b, n - 1, player, depth) {
                    assert(playable(b, n - 1) && m == reply_score(b, n - 1, player, depth));
                } else {
                    let c = choose|c: int|
                        0 <= c < n - 1 && playable(b, c) && m0 == #[trigger] reply_score(
                            b,
                            c,
                            player,
                            depth,
                        );
                    assert(playable(b, c) && m == reply_score(b, c, player, depth));
                }
            }
        } else {
            assert(kids == before);
            if m != -INFINITY {
                let c = choose|c: int|
                    0 <= c < n - 1 && playable(b, c) && m0 == #[trigger] reply_score(
                        b,
                        c,
                        player,
                        depth,
                    );
                assert(playable(b, c) && m == reply_score(b, c, player, depth));
            }
        }
    }
}

/// A column of a mirror image is as high as the column it comes from.
pub proof fn lemma_symmetry_height(id: int, b: Seq<int>, n: int)
    requires
        b.len() == 64,
        0 <= id < 8,
        0 <= n < 16,
    ensures
        height(symmetric(id, b), column_at(n)) == height(b, column_at(source_column(id, n))),
        playable(symmetric(id, b), n) == playable(b, source_column(id, n)),
{
    lemma_source_column(id, n, 0);
    lemma_source_column(id, n, 1);
    lemma_source_column(id, n, 2);
    lemma_source_column(id, n, 3);
}

/// A stone put on a cell and the position mirrored, or the position mirrored and the
/// stone put on the cell that is read from that cell: the same.
pub proof fn lemma_symmetry_update(id: int, b: Seq<int>, target: int, who: int)
    requires
        b.len() == 64,
        0 <= id < 8,
        0 <= target < 64,
    ensures
        symmetric(id, b).update(target, who) == symmetric(
            id,
            b.update(source_cell(id, target), who),
        ),
{
    let left = symmetric(id, b).update(target, who);
    let right = symmetric(id, b.update(source_cell(id, target), who));
    lemma_source_undone(id, target);
    assert forall|i: int| 0 <= i < 64 implies left[i] == right[i] by {
        lemma_source_undone(id, i);
    }
    assert(left =~= right);
}

/// A column of a mirror image can be played exactly if the column it comes from can,
/// and the reply in it is the mirror image of the reply there.
pub proof fn lemma_symmetry_child(id: int, b: Seq<int>, n: int, player: int)
    requires
        b.len() == 64,
        0 <= id < 8,
        0 <= n < 16,
    ensures
        0 <= source_column(id, n) < 16,
        playable(symmetric(id, b), n) == playable(b, source_column(id, n)),
        child(symmetric(id, b), n, player) == symmetric(
            id,
            child(b, source_column(id, n), player),
        ),
{
    lemma_symmetry_height(id, b, n);
    let h = height(b, column_at(source_column(id, n)));
    lemma_source_column(id, n, 0);
    if h < 4 {
        lemma_source_column(id, n, h);
        lemma_symmetry_update(id, b, column_at(n) + 16 * h, player);
    }
}

/// The best reply in a mirror image is no better than the best reply in the position,
/// if mirror images are worth what their positions are, one move less deep.
pub proof fn lemma_symmetry_best_reply(id: int, b: Seq<int>, player: int, depth: int)
    requires
        b.len() == 64,
        0 <= id < 8,
        depth > 0,
        forall|c: Seq<int>|
            c.len() == 64 ==> #[trigger] minimax(symmetric(id, c), -player, depth - 1) == minimax(
                c,
                -player,
                depth - 1,
            ),
    ensures
        best_reply(
            children(symmetric(id, b), player),
            player,
            depth,
            children(symmetric(id, b), player).len() as int,
        ) <= best_reply(children(b, player), player, depth, children(b, player).len() as int),
{
    let s = symmetric(id, b);
    let ms = best_reply(children(s, player), player, depth, children(s, player).len() as int);
    let mb = best_reply(children(b, player), player, depth, children(b, player).len() as int);
    lemma_best_reply_columns(s, player, depth, 16);
    lemma_best_reply_columns(b, player, depth, 16);
    if ms != -INFINITY {
        let c = choose|c: int|
            0 <= c < 16 && playable(s, c) && ms == #[trigger] reply_score(s, c, player, depth);
        lemma_symmetry_child(id, b, c, player);
        let from = source_column(id, c);
        let reply = child(b, from, player);
        assert(reply.len() == 64);
        assert(minimax(symmetric(id, reply), -player, depth - 1) == minimax(
            reply,
            -player,
            depth - 1,
        ));
        assert(reply_score(s, c, player, depth) == reply_score(b, from, player, depth));
    }
}

/// A mirror image of a position is worth to the side to move what the position is.
pub proof fn lemma_symmetry_minimax(id: int, b: Seq<int>, player: int, depth: int)
    requires
        b.len() == 64,
        0 <= id < 8,
    ensures
        minimax(symmetric(id, b), player, depth) == minimax(b, player, depth),
    decreases depth,
{
    lemma_symmetry_keeps_win(id, b, -player);
    lemma_symmetry_keeps_value(id, b);
    if !at_leaf(b, player, depth) {
        let back = inverse(id);
        assert forall|c: Seq<int>| c.len() == 64 implies #[trigger] minimax(
            symmetric(id, c),
            -player,
            depth - 1,
        ) == minimax(c, -player, depth - 1) by {
            lemma_symmetry_minimax(id, c, -player, depth - 1);
        }
        assert forall|c: Seq<int>| c.len() == 64 implies #[trigger] minimax(
            symmetric(back, c),
            -player,
            depth - 1,
        ) == minimax(c, -player, depth - 1) by {
            lemma_symmetry_minimax(back, c, -player, depth - 1);
        }
        lemma_symmetry_best_reply(id, b, player, depth);
        lemma_symmetry_undone(id, b);
        lemma_symmetry_best_reply(back, symmetric(id, b), player, depth);
    }
}

/// Zero sum at a leaf: where the search stops for either side, the position is worth
/// to one side the negative of what it is worth to the other.
pub proof fn lemma_zero_sum_at_leaf(b: Seq<int>, player: int, depth: int)
    requires
        is_side(player),
        depth <= 0 || (board_win(b, player) && board_win(b, -player)),
    ensures
        alphabeta(b, player, depth, -INFINITY as int, INFINITY as int) == -alphabeta(
            b,
            -player,
            depth,
            -INFINITY as int,
            INFINITY as int,
        ),
{
}

/// Zero sum: the plain search gives for the side to move what it gives for the other
/// side in the position with the sides exchanged.
pub proof fn lemma_zero_sum(b: Seq<int>, player: int, depth: int)
    requires
        b.len() == 64,
        is_side(player),
    ensures
        alphabeta(swapped(b), -player, depth, -INFINITY as int, INFINITY as int) == alphabeta(
            b,
            player,
            depth,
            -INFINITY as int,
            INFINITY as int,
        ),
{
    lemma_alphabeta_is_minimax(b, player, depth);
    lemma_alphabeta_is_minimax(swapped(b), -player, depth);
    lemma_swap_minimax(b, player, depth);
}

/// If no reply is worth plus infinity, the best of the first replies is below it.
pub proof fn lemma_best_reply_below(kids: Seq<Seq<int>>, player: int, depth: int, n: int)
    requires
        0 <= n <= kids.len(),
        forall|k: int|
            0 <= k < kids.len() ==> -minimax(#[trigger] kids[k], -player, depth - 1) < INFINITY,
    ensures
        best_reply(kids, player, depth, n) < INFINITY,
    decreases n,
{
    if depth > 0 && n > 0 {
        lemma_best_reply_below(kids, player, depth, n - 1);
    }
}

/// No reply among the first `n` scores more than the best of them.
pub proof fn lemma_reply_at_most_best(kids: Seq<Seq<int>>, player: int, depth: int, n: int, j: int)
    requires
        0 < depth,
        0 <= j < n <= kids.len(),
    ensures
        -minimax(kids[j], -player, depth - 1) <= best_reply(kids, player, depth, n),
    decreases n,
{
    if j < n - 1 {
        lemma_reply_at_most_best(kids, player, depth, n - 1, j);
    }
}

} // verus!
