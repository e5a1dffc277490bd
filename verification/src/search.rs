//! The search for the best move: negamax with alpha-beta pruning, alone and helped
//! by the transposition table.
use crate::board::{board_value, board_win, children, grounded, is_side, lemma_score_z_bound};
use crate::endgame::{empties, lemma_best_choice_with_room};
use crate::choice::{lemma_best_choice, well_chosen};
use crate::minimax::{lemma_alphabeta_tells, minimax, tells};
use crate::soundness::{lemma_search_tells, table_sound};
use crate::state::State;
use crate::table::{
    cleaned, Findings, lemma_lookup_wf, lemma_recorded_wf, lookup, recorded, Table, table_wf,
};
use vstd::prelude::*;

verus! {

/// Plus infinity: above every value of a position. A position in which the side to
/// move has no move scores minus infinity.
pub const INFINITY: i32 = 2147483647;

/// A score and the table as the search that gave the score left it.
pub ghost struct Found {
    pub score: int,
    pub table: Findings,
}

/// The static value of a position as `player` sees it.
pub open spec fn oriented(b: Seq<int>, player: int) -> int {
    if player == 1 {
        board_value(b)
    } else {
        -board_value(b)
    }
}

/// The search stops here: no depth is left, or the side that just moved has won.
pub open spec fn at_leaf(b: Seq<int>, player: int, depth: int) -> bool {
    depth <= 0 || board_win(b, -player)
}

/// The larger of two scores.
pub open spec fn larger(a: int, b: int) -> int {
    if a >= b {
        a
    } else {
        b
    }
}

/// What the plain search returns for `player` to move in position `b`: the static
/// value at a leaf, else the best of the replies, as far as the window `(alpha, beta)`
/// lets it look.
pub open spec fn alphabeta(b: Seq<int>, player: int, depth: int, alpha: int, beta: int) -> int
    decreases depth, 0int, 0int,
{
    if at_leaf(b, player, depth) {
        oriented(b, player)
    } else {
        alphabeta_from(children(b, player), player, depth, alpha, beta, -INFINITY, 0)
    }
}

/// The plain search over the replies from index `i` on, with the best score so far and
/// the window as raised so far. Each reply is searched one level less deep, by the other
/// side, in the negated window, and its score negated. The best score is kept and
/// `alpha` raised to it; once `alpha` reaches `beta` the rest is cut off.
pub open spec fn alphabeta_from(
    kids: Seq<Seq<int>>,
    player: int,
    depth: int,
    alpha: int,
    beta: int,
    best: int,
    i: int,
) -> int
    decreases depth - 1, 1int, kids.len() - i,
{
    if depth <= 0 || i < 0 || i >= kids.len() {
        best
    } else {
        let v = -alphabeta(kids[i], -player, depth - 1, -beta, -alpha);
        if larger(alpha, v) >= beta {
            larger(best, v)
        } else {
            alphabeta_from(kids, player, depth, larger(alpha, v), beta, larger(best, v), i + 1)
        }
    }
}

/// What the search with the table returns, and the table it leaves. At a leaf it is
/// the static value. At depth 1 and 2 it is the plain search. Deeper, the table is
/// asked first; a finding that settles the search is returned as it is. Else the
/// replies are searched in the window that the findings left, and the best score is
/// recorded with the window that the search was given.
pub open spec fn search(
    b: Seq<int>,
    player: int,
    depth: int,
    alpha: int,
    beta: int,
    m: Findings,
) -> Found
    decreases depth, 0int, 0int,
{
    if at_leaf(b, player, depth) {
        Found { score: oriented(b, player), table: m }
    } else if depth <= 2 {
        Found { score: alphabeta(b, player, depth, alpha, beta), table: m }
    } else {
        let p = lookup(m, b, player, depth, alpha, beta);
        match p.hit {
            Some(v) => Found { score: v, table: m },
            None => {
                let f = search_from(
                    children(b, player),
                    player,
                    depth,
                    p.alpha,
                    p.beta,
                    m,
                    -INFINITY,
                    0,
                );
                Found {
                    score: f.score,
                    table: recorded(f.table, b, player, depth, alpha, beta, f.score),
                }
            },
        }
    }
}

/// The search with the table over the replies from index `i` on: as the plain one,
/// with the table handed from each reply to the next.
pub open spec fn search_from(
    kids: Seq<Seq<int>>,
    player: int,
    depth: int,
    alpha: int,
    beta: int,
    m: Findings,
    best: int,
    i: int,
) -> Found
    decreases depth - 1, 1int, kids.len() - i,
{
    if depth <= 0 || i < 0 || i >= kids.len() {
        Found { score: best, table: m }
    } else {
        let f = search(kids[i], -player, depth - 1, -beta, -alpha, m);
        let v = -f.score;
        if larger(alpha, v) >= beta {
            Found { score: larger(best, v), table: f.table }
        } else {
            search_from(
                kids,
                player,
                depth,
                larger(alpha, v),
                beta,
                f.table,
                larger(best, v),
                i + 1,
            )
        }
    }
}

/// The position chosen and the table as the choice left it.
pub ghost struct Choice {
    pub board: Seq<int>,
    pub table: Findings,
}

/// The choice among the replies from index `i` on, with the best score and the reply
/// chosen so far. Each reply is searched with the table, one level less deep, by the
/// other side, in the window from minus infinity to minus `alpha`, and its score
/// negated. A reply is chosen if it scores more than the best so far, so of two equal
/// replies the earlier stays; `alpha` follows the best score.
pub open spec fn choice_from(
    kids: Seq<Seq<int>>,
    player: int,
    depth: int,
    alpha: int,
    m: Findings,
    best: int,
    chosen: Seq<int>,
    i: int,
) -> Choice
    decreases kids.len() - i,
{
    if i < 0 || i >= kids.len() {
        Choice { board: chosen, table: m }
    } else {
        let f = search(kids[i], -player, depth - 1, -INFINITY, -alpha, m);
        let v = -f.score;
        choice_from(
            kids,
            player,
            depth,
            larger(alpha, v),
            f.table,
            larger(best, v),
            if v > best {
                kids[i]
            } else {
                chosen
            },
            i + 1,
        )
    }
}

/// The move that the search picks for `player` in position `b`, given as the position
/// after it, and the table after the search, cleaned. Without a reply that scores
/// above minus infinity the position stays as it is.
pub open spec fn best_choice(
    b: Seq<int>,
    player: int,
    depth: int,
    m: Findings,
) -> Choice {
    let c = choice_from(children(b, player), player, depth, -INFINITY, m, -INFINITY, b, 0);
    Choice { board: c.board, table: cleaned(c.table) }
}

impl State {
    /// The static value as `player` sees it.
    fn value_for(&self, player: i32) -> (v: i32)
        ensures
            v == oriented(self@, player as int),
            -INFINITY < v < INFINITY,
    {
        proof {
            lemma_score_z_bound(self@, 6);
        }
        let v = self.value();
        if player == 1 {
            v
        } else {
            -v
        }
    }

    /// Negamax with alpha-beta pruning: the score of the position for `player`, who is
    /// to move, looking `depth` moves ahead within the window `(alpha, beta)`.
    pub fn negamax(&self, player: i32, depth: i32, alpha: i32, beta: i32) -> (r: i32)
        requires
            self.wf(),
            is_side(player as int),
            depth >= 0,
            alpha >= -INFINITY,
            beta >= -INFINITY,
        ensures
            r == alphabeta(self@, player as int, depth as int, alpha as int, beta as int),
            r >= -INFINITY,
            alpha < beta ==> tells(
                r as int,
                minimax(self@, player as int, depth as int),
                alpha as int,
                beta as int,
            ),
        decreases depth,
    {
        proof {
            if alpha < beta {
                lemma_alphabeta_tells(
                    self@,
                    player as int,
                    depth as int,
                    alpha as int,
                    beta as int,
                );
            }
        }
        if depth == 0 || self.win(-player) {
            return self.value_for(player);
        }
        let kids = self.possibilities(player);
        let ghost ks = children(self@, player as int);
        let mut best: i32 = -INFINITY;
        let mut a: i32 = alpha;
        let mut i: usize = 0;
        while i < kids.len()
            invariant
                i <= kids.len(),
                depth > 0,
                is_side(player as int),
                kids.len() == ks.len(),
                forall|k: int| 0 <= k < kids.len() ==> (#[trigger] kids[k])@ == ks[k],
                forall|k: int| 0 <= k < kids.len() ==> (#[trigger] kids[k]).wf(),
                best >= -INFINITY,
                a >= -INFINITY,
                beta >= -INFINITY,
                !at_leaf(self@, player as int, depth as int),
                ks == children(self@, player as int),
                alpha < beta ==> tells(
                    alphabeta(self@, player as int, depth as int, alpha as int, beta as int),
                    minimax(self@, player as int, depth as int),
                    alpha as int,
                    beta as int,
                ),
                alphabeta_from(
                    ks,
                    player as int,
                    depth as int,
                    alpha as int,
                    beta as int,
                    -INFINITY as int,
                    0,
                ) == alphabeta_from(
                    ks,
                    player as int,
                    depth as int,
                    a as int,
                    beta as int,
                    best as int,
                    i as int,
                ),
            decreases kids.len() - i,
        {
            let v = -kids[i].negamax(-player, depth - 1, -beta, -a);
            assert(v == -alphabeta(ks[i as int], -player, depth - 1, -beta, -a));
            if v > best {
                best = v;
            }
            if v > a {
                a = v;
            }
            if a >= beta {
                return best;
            }
            i += 1;
        }
        best
    }

    /// Negamax helped by the table: as [`State::negamax`], but from depth 3 on the table
    /// is asked before the replies are searched, and told the outcome after.
    pub fn negamax_table(
        &self,
        player: i32,
        depth: i32,
        alpha: i32,
        beta: i32,
        table: &mut Table,
    ) -> (r: i32)
        requires
            self.wf(),
            is_side(player as int),
            depth >= 0,
            alpha >= -INFINITY,
            beta >= -INFINITY,
            table_wf(old(table)@),
        ensures
            r == search(
                self@,
                player as int,
                depth as int,
                alpha as int,
                beta as int,
                old(table)@,
            ).score,
            final(table)@ == search(
                self@,
                player as int,
                depth as int,
                alpha as int,
                beta as int,
                old(table)@,
            ).table,
            r >= -INFINITY,
            table_wf(final(table)@),
            alpha < beta && table_sound(old(table)@) ==> table_sound(final(table)@) && tells(
                r as int,
                minimax(self@, player as int, depth as int),
                alpha as int,
                beta as int,
            ),
        decreases depth,
    {
        proof {
            if alpha < beta && table_sound(table@) {
                lemma_search_tells(
                    self@,
                    player as int,
                    depth as int,
                    alpha as int,
                    beta as int,
                    table@,
                );
            }
        }
        if depth == 0 || self.win(-player) {
            return self.value_for(player);
        }
        if depth <= 2 {
            return self.negamax(player, depth, alpha, beta);
        }
        let mut a: i32 = alpha;
        let mut b: i32 = beta;
        proof {
            lemma_lookup_wf(
                table@,
                self@,
                player as int,
                depth as int,
                alpha as int,
                beta as int,
            );
        }
        match table.get(self, player, depth, &mut a, &mut b) {
            Some(v) => {
                return v;
            },
            None => {},
        }
        let kids = self.possibilities(player);
        let ghost ks = children(self@, player as int);
        let ghost a0 = a;
        let mut best: i32 = -INFINITY;
        let mut i: usize = 0;
        while i < kids.len()
            invariant_except_break
                search_from(
                    ks,
                    player as int,
                    depth as int,
                    a0 as int,
                    b as int,
                    old(table)@,
                    -INFINITY as int,
                    0,
                ) == search_from(
                    ks,
                    player as int,
                    depth as int,
                    a as int,
                    b as int,
                    table@,
                    best as int,
                    i as int,
                ),
            invariant
                i <= kids.len(),
                depth > 2,
                is_side(player as int),
                kids.len() == ks.len(),
                forall|k: int| 0 <= k < kids.len() ==> (#[trigger] kids[k])@ == ks[k],
                forall|k: int| 0 <= k < kids.len() ==> (#[trigger] kids[k]).wf(),
                best >= -INFINITY,
                a >= -INFINITY,
                b >= -INFINITY,
                table_wf(table@),
            ensures
                search_from(
                    ks,
                    player as int,
                    depth as int,
                    a0 as int,
                    b as int,
                    old(table)@,
                    -INFINITY as int,
                    0,
                ) == (Found { score: best as int, table: table@ }),
            decreases kids.len() - i,
        {
            let ghost before = table@;
            let v = -kids[i].negamax_table(-player, depth - 1, -b, -a, table);
            assert(v == -search(ks[i as int], -player, depth - 1, -b, -a, before).score);
            if v > best {
                best = v;
            }
            if v > a {
                a = v;
            }
            if a >= b {
                break ;
            }
            i += 1;
        }
        proof {
            lemma_recorded_wf(
                table@,
                self@,
                player as int,
                depth as int,
                alpha as int,
                beta as int,
                best as int,
            );
        }
        table.insert(*self, player, depth, alpha, beta, best);
        best
    }

    /// Picks the move of `player`: every reply is scored by a search with the table,
    /// `depth - 1` moves deep, and the first of the best ones is returned as the
    /// position after the move. The table keeps what the searches found, and is
    /// cleaned at the end.
    pub fn best_move(&self, player: i32, depth: i32, table: &mut Table) -> (next: State)
        requires
            self.wf(),
            is_side(player as int),
            depth >= 1,
            table_wf(old(table)@),
        ensures
            next@ == best_choice(self@, player as int, depth as int, old(table)@).board,
            final(table)@ == best_choice(self@, player as int, depth as int, old(table)@).table,
            next.wf(),
            table_wf(final(table)@),
            table_sound(old(table)@) && (forall|k: int|
                0 <= k < children(self@, player as int).len() ==> -minimax(
                    #[trigger] children(self@, player as int)[k],
                    -player,
                    depth - 1,
                ) < INFINITY) ==> table_sound(final(table)@) && well_chosen(
                next@,
                self@,
                children(self@, player as int),
                player as int,
                depth as int,
                children(self@, player as int).len() as int,
            ),
            table_sound(old(table)@) && grounded(self@) && depth <= empties(self@) ==> table_sound(
                final(table)@,
            ) && well_chosen(
                next@,
                self@,
                children(self@, player as int),
                player as int,
                depth as int,
                children(self@, player as int).len() as int,
            ),
    {
        proof {
            if table_sound(table@) && grounded(self@) && depth <= empties(self@) {
                lemma_best_choice_with_room(self@, player as int, depth as int, table@);
            }
            if table_sound(table@) && (forall|k: int|
                0 <= k < children(self@, player as int).len() ==> -minimax(
                    #[trigger] children(self@, player as int)[k],
                    -player,
                    depth - 1,
                ) < INFINITY) {
                lemma_best_choice(self@, player as int, depth as int, table@);
            }
        }
        let kids = self.possibilities(player);
        let ghost ks = children(self@, player as int);
        let mut next = *self;
        let mut best: i32 = -INFINITY;
        let mut alpha: i32 = -INFINITY;
        let mut i: usize = 0;
        while i < kids.len()
            invariant
                i <= kids.len(),
                depth >= 1,
                is_side(player as int),
                kids.len() == ks.len(),
                forall|k: int| 0 <= k < kids.len() ==> (#[trigger] kids[k])@ == ks[k],
                forall|k: int| 0 <= k < kids.len() ==> (#[trigger] kids[k]).wf(),
                best >= -INFINITY,
                alpha >= -INFINITY,
                next.wf(),
                table_wf(table@),
                choice_from(
                    ks,
                    player as int,
                    depth as int,
                    -INFINITY as int,
                    old(table)@,
                    -INFINITY as int,
                    self@,
                    0,
                ) == choice_from(
                    ks,
                    player as int,
                    depth as int,
                    alpha as int,
                    table@,
                    best as int,
                    next@,
                    i as int,
                ),
            decreases kids.len() - i,
        {
            let ghost before = table@;
            let v = -kids[i].negamax_table(-player, depth - 1, -INFINITY, -alpha, table);
            assert(v == -search(
                ks[i as int],
                -player,
                depth - 1,
                -INFINITY as int,
                -alpha,
                before,
            ).score);
            if v > best {
                best = v;
                next = kids[i];
            }
            if v > alpha {
                alpha = v;
            }
            i += 1;
        }
        table.clean();
        next
    }
}

} // verus!
