//! The table is no approximation: as long as it holds true findings only, the search
//! with the table tells of the minimax score what the plain search tells, and leaves a
//! table of true findings.
use crate::board::{
    board_key, board_of, board_wf, children, is_side, lemma_key_bound, lemma_key_injective,
    lemma_key_of_board, lemma_pow3_64, symmetric,
};
use crate::laws::{lemma_children_wf, lemma_swapped_wf, lemma_symmetric_wf};
use crate::minimax::{
    best_reply, is_window, lemma_alphabeta_is_minimax, lemma_alphabeta_tells,
    lemma_best_reply_grows, lemma_full_window, lemma_minimax_range, lemma_one_reply,
    lemma_oriented_range, lemma_swap_minimax, lemma_symmetry_minimax, minimax, on_track, tells,
};
use crate::search::{alphabeta, at_leaf, INFINITY, larger, search, search_from};
use crate::table::{
    cleaned, entries_at, Findings, is_key, lemma_lookup_wf, lemma_pruned_subset, lemma_recorded_wf,
    lookup, noted, noted_all, probe_from, pruned_from, Quality, quality_of, recorded,
    reference_board, table_wf, TableEntry,
};
use vstd::prelude::*;

verus! {

/// The finding is true of position `b`: its score is, as its kind says, the minimax
/// score of `b` for side `-1` at the depth of the finding, or a bound on it.
pub open spec fn entry_true(b: Seq<int>, e: TableEntry) -> bool {
    let m = minimax(b, -1, e.depth as int);
    match e.quality {
        Quality::Exact => e.value == m,
        Quality::Upperbound => m <= e.value,
        Quality::Lowerbound => m >= e.value,
    }
}

/// Every finding of the table is true of the position under whose key it is kept.
pub open spec fn table_sound(m: Findings) -> bool {
    forall|k: u128, i: int|
        m.contains_key(k) && is_key(k as int) && 0 <= i < m[k].len() ==> entry_true(
            board_of(k as int),
            #[trigger] m[k][i],
        )
}

/// The key of a position stands for the position, and for no other.
pub proof fn lemma_board_of_key(b: Seq<int>)
    requires
        board_wf(b),
    ensures
        is_key(board_key(b)),
        board_key(b) <= u128::MAX,
        board_of(board_key(b)) == b,
{
    lemma_key_bound(b, 64);
    lemma_pow3_64();
    lemma_key_of_board(board_key(b));
    lemma_key_injective(board_of(board_key(b)), b);
}

/// A position is worth to the side to move what the position as side `-1` sees it is
/// worth to side `-1`.
pub proof fn lemma_reference_minimax(b: Seq<int>, player: int, depth: int)
    requires
        b.len() == 64,
        is_side(player),
    ensures
        minimax(reference_board(b, player), -1, depth) == minimax(b, player, depth),
{
    if player == 1 {
        lemma_swap_minimax(b, player, depth);
    }
}

/// The table that holds nothing holds only true findings.
pub proof fn lemma_empty_sound()
    ensures
        table_sound(Findings::empty()),
        table_wf(Findings::empty()),
{
}

/// What a window narrowed by true findings says of the true score `m`: it lies within
/// the first window, and where it is narrower the true score is on its inner side.
pub open spec fn narrowed(alpha: int, beta: int, first: int, last: int, m: int) -> bool {
    &&& first <= alpha < beta <= last
    &&& alpha > first ==> alpha <= m
    &&& beta < last ==> m <= beta
}

/// A list of true findings settles a search only with a score that tells of the true
/// score what a score tells in the first window, and else leaves a window narrowed by
/// true findings.
pub proof fn lemma_probe_sound(
    es: Seq<TableEntry>,
    b: Seq<int>,
    depth: int,
    first: int,
    last: int,
    alpha: int,
    beta: int,
    i: int,
)
    requires
        forall|j: int| 0 <= j < es.len() ==> entry_true(b, #[trigger] es[j]),
        narrowed(alpha, beta, first, last, minimax(b, -1, depth)),
        0 <= i,
    ensures
        ({
            let p = probe_from(es, depth, alpha, beta, i);
            match p.hit {
                Some(v) => tells(v, minimax(b, -1, depth), first, last),
                None => narrowed(p.alpha, p.beta, first, last, minimax(b, -1, depth)),
            }
        }),
    decreases es.len() - i,
{
    if i < es.len() {
        assert(entry_true(b, es[i]));
        if es[i].depth != depth {
            lemma_probe_sound(es, b, depth, first, last, alpha, beta, i + 1);
        } else {
            match es[i].quality {
                Quality::Exact => {},
                Quality::Upperbound => {
                    let b2 = if es[i].value < beta {
                        es[i].value as int
                    } else {
                        beta
                    };
                    if alpha < b2 {
                        lemma_probe_sound(es, b, depth, first, last, alpha, b2, i + 1);
                    }
                },
                Quality::Lowerbound => {
                    let a2 = if es[i].value > alpha {
                        es[i].value as int
                    } else {
                        alpha
                    };
                    if a2 < beta {
                        lemma_probe_sound(es, b, depth, first, last, a2, beta, i + 1);
                    }
                },
            }
        }
    }
}

/// A lookup in a table of true findings settles a search only with a score that tells
/// of the minimax score what a score tells in the window, and else leaves a window
/// narrowed by true findings.
pub proof fn lemma_lookup_sound(
    m: Findings,
    b: Seq<int>,
    player: int,
    depth: int,
    alpha: int,
    beta: int,
)
    requires
        table_sound(m),
        board_wf(b),
        is_side(player),
        alpha < beta,
    ensures
        ({
            let p = lookup(m, b, player, depth, alpha, beta);
            match p.hit {
                Some(v) => tells(v, minimax(b, player, depth), alpha, beta),
                None => narrowed(p.alpha, p.beta, alpha, beta, minimax(b, player, depth)),
            }
        }),
{
    let rb = reference_board(b, player);
    lemma_swapped_wf(b);
    lemma_board_of_key(rb);
    lemma_reference_minimax(b, player, depth);
    let k = board_key(rb);
    let es = entries_at(m, k);
    assert forall|j: int| 0 <= j < es.len() implies entry_true(rb, #[trigger] es[j]) by {
        assert(m.contains_key(k as u128));
        assert(entry_true(board_of(k), m[k as u128][j]));
    }
    lemma_probe_sound(es, rb, depth, alpha, beta, alpha, beta, 0);
}

/// A table of true findings stays one when a finding that is true of a position is
/// added under the key of the position.
pub proof fn lemma_noted_sound(m: Findings, b: Seq<int>, e: TableEntry)
    requires
        table_sound(m),
        board_wf(b),
        entry_true(b, e),
    ensures
        table_sound(noted(m, board_key(b), e)),
{
    lemma_board_of_key(b);
    let k = board_key(b);
    let m2 = noted(m, k, e);
    assert forall|j: u128, i: int|
        m2.contains_key(j) && is_key(j as int) && 0 <= i < m2[j].len() implies entry_true(
        board_of(j as int),
        #[trigger] m2[j][i],
    ) by {
        if j == k as u128 {
            if i < entries_at(m, k).len() {
                assert(m.contains_key(j));
                assert(m2[j][i] == m[j][i]);
            } else {
                assert(m2[j][i] == e);
            }
        } else {
            assert(m.contains_key(j));
            assert(m2[j][i] == m[j][i]);
        }
    }
}

/// A table of true findings stays one when a finding that is true of a position is
/// added under the keys of its mirror images.
pub proof fn lemma_noted_all_sound(m: Findings, b: Seq<int>, e: TableEntry, n: int)
    requires
        table_sound(m),
        board_wf(b),
        entry_true(b, e),
        0 <= n <= 8,
    ensures
        table_sound(noted_all(m, b, e, n)),
    decreases n,
{
    if n > 0 {
        lemma_noted_all_sound(m, b, e, n - 1);
        lemma_symmetric_wf(n - 1, b);
        lemma_symmetry_minimax(n - 1, b, -1, e.depth as int);
        lemma_noted_sound(noted_all(m, b, e, n - 1), symmetric(n - 1, b), e);
    }
}

/// A table of true findings stays one when a score is recorded that tells of the
/// minimax score of the position what a score tells in the window.
pub proof fn lemma_recorded_sound(
    m: Findings,
    b: Seq<int>,
    player: int,
    depth: int,
    alpha: int,
    beta: int,
    score: int,
)
    requires
        table_sound(m),
        board_wf(b),
        is_side(player),
        alpha < beta,
        i32::MIN <= depth <= i32::MAX,
        i32::MIN <= score <= i32::MAX,
        tells(score, minimax(b, player, depth), alpha, beta),
    ensures
        table_sound(recorded(m, b, player, depth, alpha, beta, score)),
{
    let rb = reference_board(b, player);
    lemma_swapped_wf(b);
    lemma_reference_minimax(b, player, depth);
    let e = TableEntry {
        value: score as i32,
        depth: depth as i32,
        quality: quality_of(alpha, beta, score),
    };
    lemma_noted_all_sound(m, rb, e, 8);
}

/// A score that tells of the true score what a score tells in a window narrowed by
/// true findings tells it in the first window too.
pub proof fn lemma_widen(v: int, m: int, alpha: int, beta: int, first: int, last: int)
    requires
        narrowed(alpha, beta, first, last, m),
        tells(v, m, alpha, beta),
    ensures
        tells(v, m, first, last),
{
}

/// The search with a table of true findings tells of the minimax score what a score
/// tells in its window, and leaves a table of true findings.
pub proof fn lemma_search_tells(
    b: Seq<int>,
    player: int,
    depth: int,
    alpha: int,
    beta: int,
    m: Findings,
)
    requires
        board_wf(b),
        is_side(player),
        is_window(alpha, beta),
        depth <= i32::MAX,
        table_sound(m),
        table_wf(m),
    ensures
        tells(
            search(b, player, depth, alpha, beta, m).score,
            minimax(b, player, depth),
            alpha,
            beta,
        ),
        -INFINITY <= search(b, player, depth, alpha, beta, m).score <= INFINITY,
        table_sound(search(b, player, depth, alpha, beta, m).table),
        table_wf(search(b, player, depth, alpha, beta, m).table),
    decreases depth, 0int, 0int,
{
    if at_leaf(b, player, depth) {
        lemma_oriented_range(b, player);
    } else if depth <= 2 {
        lemma_alphabeta_tells(b, player, depth, alpha, beta);
    } else {
        let p = lookup(m, b, player, depth, alpha, beta);
        lemma_lookup_sound(m, b, player, depth, alpha, beta);
        lemma_lookup_wf(m, b, player, depth, alpha, beta);
        match p.hit {
            Some(v) => {},
            None => {
                let kids = children(b, player);
                lemma_children_wf(b, player, 16);
                lemma_search_from_tells(
                    kids,
                    player,
                    depth,
                    p.alpha,
                    p.alpha,
                    p.beta,
                    m,
                    -INFINITY,
                    0,
                );
                let f = search_from(kids, player, depth, p.alpha, p.beta, m, -INFINITY, 0);
                lemma_widen(f.score, minimax(b, player, depth), p.alpha, p.beta, alpha, beta);
                lemma_recorded_sound(f.table, b, player, depth, alpha, beta, f.score);
                lemma_recorded_wf(f.table, b, player, depth, alpha, beta, f.score);
            },
        }
    }
}

/// The search with a table of true findings over the replies from index `i` on, when on
/// track, tells of the best of all replies what a score tells in the first window, and
/// leaves a table of true findings.
pub proof fn lemma_search_from_tells(
    kids: Seq<Seq<int>>,
    player: int,
    depth: int,
    first: int,
    alpha: int,
    beta: int,
    m: Findings,
    best: int,
    i: int,
)
    requires
        0 < depth <= i32::MAX,
        0 <= i <= kids.len(),
        is_side(player),
        forall|k: int| 0 <= k < kids.len() ==> board_wf(#[trigger] kids[k]),
        best <= INFINITY,
        on_track(best, best_reply(kids, player, depth, i), first, alpha, beta),
        table_sound(m),
        table_wf(m),
    ensures
        tells(
            search_from(kids, player, depth, alpha, beta, m, best, i).score,
            best_reply(kids, player, depth, kids.len() as int),
            first,
            beta,
        ),
        -INFINITY <= search_from(kids, player, depth, alpha, beta, m, best, i).score <= INFINITY,
        table_sound(search_from(kids, player, depth, alpha, beta, m, best, i).table),
        table_wf(search_from(kids, player, depth, alpha, beta, m, best, i).table),
    decreases depth - 1, 1int, kids.len() - i,
{
    if i < kids.len() {
        lemma_search_tells(kids[i], -player, depth - 1, -beta, -alpha, m);
        let f = search(kids[i], -player, depth - 1, -beta, -alpha, m);
        let v = -f.score;
        let truth = -minimax(kids[i], -player, depth - 1);
        let total = best_reply(kids, player, depth, kids.len() as int);
        lemma_best_reply_grows(kids, player, depth, i + 1, kids.len() as int);
        lemma_one_reply(
            best,
            best_reply(kids, player, depth, i),
            first,
            alpha,
            beta,
            v,
            truth,
            total,
        );
        if larger(alpha, v) < beta {
            lemma_search_from_tells(
                kids,
                player,
                depth,
                first,
                larger(alpha, v),
                beta,
                f.table,
                larger(best, v),
                i + 1,
            );
        }
    }
}

/// The table is no approximation: with the window between the infinities, the search
/// with a table of true findings gives what the plain search gives, the minimax score
/// of the position, and leaves a table of true findings.
pub proof fn lemma_table_search_is_plain(
    b: Seq<int>,
    player: int,
    depth: int,
    m: Findings,
)
    requires
        board_wf(b),
        is_side(player),
        depth <= i32::MAX,
        table_sound(m),
        table_wf(m),
    ensures
        search(b, player, depth, -INFINITY as int, INFINITY as int, m).score == alphabeta(
            b,
            player,
            depth,
            -INFINITY as int,
            INFINITY as int,
        ),
        search(b, player, depth, -INFINITY as int, INFINITY as int, m).score == minimax(
            b,
            player,
            depth,
        ),
        table_sound(search(b, player, depth, -INFINITY as int, INFINITY as int, m).table),
{
    lemma_search_tells(b, player, depth, -INFINITY as int, INFINITY as int, m);
    lemma_minimax_range(b, player, depth);
    lemma_full_window(
        search(b, player, depth, -INFINITY as int, INFINITY as int, m).score,
        minimax(b, player, depth),
    );
    lemma_alphabeta_is_minimax(b, player, depth);
}

/// Cleaning a table of true findings leaves a table of true findings.
pub proof fn lemma_cleaned_sound(m: Findings)
    requires
        table_sound(m),
    ensures
        table_sound(cleaned(m)),
{
    let c = cleaned(m);
    assert forall|k: u128, i: int|
        c.contains_key(k) && is_key(k as int) && 0 <= i < c[k].len() implies entry_true(
        board_of(k as int),
        #[trigger] c[k][i],
    ) by {
        lemma_pruned_subset(m[k], 0);
        let e = pruned_from(m[k], 0)[i];
        assert(m[k].contains(e));
        let j = choose|j: int| 0 <= j < m[k].len() && m[k][j] == e;
        assert(entry_true(board_of(k as int), m[k][j]));
    }
}

} // verus!
