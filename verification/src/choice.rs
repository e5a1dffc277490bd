//! The move picked at the top of the search: the first of the best replies.
use crate::board::{board_wf, children, is_side};
use crate::laws::lemma_children_wf;
use crate::minimax::{
    best_reply, lemma_best_reply_below, lemma_best_reply_range, lemma_minimax_range,
    lemma_reply_at_most_best, minimax,
};
use crate::search::{best_choice, choice_from, INFINITY, larger, search};
use crate::soundness::{lemma_cleaned_sound, lemma_search_tells, table_sound};
use crate::table::{Findings, lemma_cleaned_wf, table_wf};
use vstd::prelude::*;

verus! {

/// The reply at index `i` is the first of the best among the first `n` replies: it
/// scores what the best of them scores, and every reply before it scores less.
pub open spec fn first_of_best(
    kids: Seq<Seq<int>>,
    player: int,
    depth: int,
    n: int,
    i: int,
) -> bool {
    &&& 0 <= i < n
    &&& -minimax(kids[i], -player, depth - 1) == best_reply(kids, player, depth, n)
    &&& forall|j: int|
        0 <= j < i ==> -minimax(#[trigger] kids[j], -player, depth - 1) < best_reply(
            kids,
            player,
            depth,
            n,
        )
}

/// The position chosen is the one the choice started from if the best of the first `n`
/// replies is minus infinity, and else the first of the best among them.
pub open spec fn well_chosen(
    chosen: Seq<int>,
    start: Seq<int>,
    kids: Seq<Seq<int>>,
    player: int,
    depth: int,
    n: int,
) -> bool {
    if best_reply(kids, player, depth, n) == -INFINITY {
        chosen == start
    } else {
        exists|i: int| #[trigger] first_of_best(kids, player, depth, n, i) && chosen == kids[i]
    }
}

/// The choice among the replies from index `i` on, when the best score so far is the
/// best of the replies seen and the position chosen so far is well chosen among them,
/// ends with a position that is well chosen among all replies, and with a table of true
/// findings; this as long as no reply is worth plus infinity.
pub proof fn lemma_choice_from(
    kids: Seq<Seq<int>>,
    player: int,
    depth: int,
    m: Findings,
    best: int,
    chosen: Seq<int>,
    start: Seq<int>,
    i: int,
)
    requires
        0 < depth <= i32::MAX,
        0 <= i <= kids.len(),
        is_side(player),
        forall|k: int| 0 <= k < kids.len() ==> board_wf(#[trigger] kids[k]),
        forall|k: int|
            0 <= k < kids.len() ==> -minimax(#[trigger] kids[k], -player, depth - 1) < INFINITY,
        best == best_reply(kids, player, depth, i),
        well_chosen(chosen, start, kids, player, depth, i),
        table_sound(m),
        table_wf(m),
    ensures
        well_chosen(
            choice_from(kids, player, depth, best, m, best, chosen, i).board,
            start,
            kids,
            player,
            depth,
            kids.len() as int,
        ),
        table_sound(choice_from(kids, player, depth, best, m, best, chosen, i).table),
        table_wf(choice_from(kids, player, depth, best, m, best, chosen, i).table),
    decreases kids.len() - i,
{
    if i < kids.len() {
        lemma_best_reply_range(kids, player, depth, i);
        lemma_best_reply_below(kids, player, depth, i);
        lemma_minimax_range(kids[i], -player, depth - 1);
        let f = search(kids[i], -player, depth - 1, -INFINITY as int, -best, m);
        let v = -f.score;
        let next = if v > best {
            kids[i]
        } else {
            chosen
        };
        lemma_search_tells(kids[i], -player, depth - 1, -INFINITY as int, -best, m);
        assert(larger(best, v) == best_reply(kids, player, depth, i + 1));
        if v > best {
            assert forall|j: int| 0 <= j < i implies -minimax(
                #[trigger] kids[j],
                -player,
                depth - 1,
            ) < v by {
                lemma_reply_at_most_best(kids, player, depth, i, j);
            }
            assert(first_of_best(kids, player, depth, i + 1, i));
        } else if best != -INFINITY {
            let w = choose|w: int| #[trigger]
                first_of_best(kids, player, depth, i, w) && chosen == kids[w];
            assert(first_of_best(kids, player, depth, i + 1, w));
        }
        lemma_choice_from(kids, player, depth, f.table, larger(best, v), next, start, i + 1);
    }
}

/// The move picked: as long as no reply is worth plus infinity, the position chosen
/// with a table of true findings is the first of the best replies, or the position
/// itself if there is no reply worth more than minus infinity; and the table left,
/// cleaned, holds true findings only.
pub proof fn lemma_best_choice(
    b: Seq<int>,
    player: int,
    depth: int,
    m: Findings,
)
    requires
        board_wf(b),
        is_side(player),
        0 < depth <= i32::MAX,
        forall|k: int|
            0 <= k < children(b, player).len() ==> -minimax(
                #[trigger] children(b, player)[k],
                -player,
                depth - 1,
            ) < INFINITY,
        table_sound(m),
        table_wf(m),
    ensures
        well_chosen(
            best_choice(b, player, depth, m).board,
            b,
            children(b, player),
            player,
            depth,
            children(b, player).len() as int,
        ),
        table_sound(best_choice(b, player, depth, m).table),
        table_wf(best_choice(b, player, depth, m).table),
{
    let kids = children(b, player);
    lemma_children_wf(b, player, 16);
    lemma_choice_from(kids, player, depth, m, -INFINITY as int, b, b, 0);
    let c = choice_from(kids, player, depth, -INFINITY as int, m, -INFINITY as int, b, 0);
    lemma_cleaned_sound(c.table);
    lemma_cleaned_wf(c.table);
}

} // verus!
