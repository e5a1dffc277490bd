//! Copying the findings of a table to the mirror images of their positions keeps the
//! table well formed, and keeps true findings true.
use crate::board::{board_of, lemma_key_of_board, lemma_pow3_64, symmetric};
use crate::laws::lemma_symmetric_wf;
use crate::minimax::lemma_symmetry_minimax;
use crate::soundness::{entry_true, lemma_board_of_key, table_sound};
use crate::table::{
    applied, entries_at, extended, Findings, image_key, is_key, key_order, plan, Plan, plan_for,
    symmetrized, table_wf, TableEntry,
};
use crate::tally::lemma_key_order_lists_keys;
use vstd::prelude::*;

verus! {

/// Every list of the plan is a list of fit findings that are true of the position
/// under whose key they are to be added, if the table holds true findings only.
pub open spec fn plan_fits(m: Findings, todo: Plan) -> bool {
    forall|i: int, j: int|
        0 <= i < todo.len() && 0 <= j < todo[i].1.len() ==> {
            &&& is_key(todo[i].0)
            &&& (#[trigger] todo[i].1[j]).value > i32::MIN
            &&& table_sound(m) ==> entry_true(board_of(todo[i].0), todo[i].1[j])
        }
}

/// What is to be added for one position fits.
pub proof fn lemma_plan_for_fits(m: Findings, k: u128, n: int)
    requires
        table_wf(m),
        m.contains_key(k),
        0 <= n <= 8,
    ensures
        plan_fits(m, plan_for(m, k, n)),
    decreases n,
{
    if n > 1 && is_key(k as int) {
        lemma_plan_for_fits(m, k, n - 1);
        let before = plan_for(m, k, n - 1);
        let todo = plan_for(m, k, n);
        let b = board_of(k as int);
        lemma_key_of_board(k as int);
        lemma_symmetric_wf(n - 1, b);
        lemma_board_of_key(symmetric(n - 1, b));
        assert forall|i: int, j: int| 0 <= i < todo.len() && 0 <= j < todo[i].1.len() implies {
            &&& is_key(todo[i].0)
            &&& (#[trigger] todo[i].1[j]).value > i32::MIN
            &&& table_sound(m) ==> entry_true(board_of(todo[i].0), todo[i].1[j])
        } by {
            if i < before.len() {
                assert(todo[i] == before[i]);
            } else {
                assert(todo[i] == (image_key(n - 1, k as int), m[k]));
                assert(m[k][j].value > i32::MIN);
                if table_sound(m) {
                    assert(entry_true(b, m[k][j]));
                    lemma_symmetry_minimax(n - 1, b, -1, m[k][j].depth as int);
                }
            }
        }
    }
}

/// What is to be added for the first `n` keys fits.
pub proof fn lemma_plan_fits(m: Findings, ks: Seq<u128>, n: int)
    requires
        table_wf(m),
        0 <= n <= ks.len(),
        forall|i: int| 0 <= i < ks.len() ==> m.contains_key(#[trigger] ks[i]),
    ensures
        plan_fits(m, plan(m, ks, n)),
    decreases n,
{
    if n > 0 {
        lemma_plan_fits(m, ks, n - 1);
        lemma_plan_for_fits(m, ks[n - 1], 8);
        let before = plan(m, ks, n - 1);
        let last = plan_for(m, ks[n - 1], 8);
        let todo = plan(m, ks, n);
        assert forall|i: int, j: int| 0 <= i < todo.len() && 0 <= j < todo[i].1.len() implies {
            &&& is_key(todo[i].0)
            &&& (#[trigger] todo[i].1[j]).value > i32::MIN
            &&& table_sound(m) ==> entry_true(board_of(todo[i].0), todo[i].1[j])
        } by {
            if i < before.len() {
                assert(todo[i] == before[i]);
                assert(before[i].1[j].value > i32::MIN);
            } else {
                assert(todo[i] == last[i - before.len()]);
                assert(last[i - before.len()].1[j].value > i32::MIN);
            }
        }
    }
}

/// A list of fit findings added under a key keeps the table well formed, and a table
/// of true findings one if they are true of the position of the key.
pub proof fn lemma_extended_fits(m: Findings, k: int, more: Seq<TableEntry>)
    requires
        table_wf(m),
        is_key(k),
        forall|j: int| 0 <= j < more.len() ==> (#[trigger] more[j]).value > i32::MIN,
    ensures
        table_wf(extended(m, k, more)),
        table_sound(m) && (forall|j: int|
            0 <= j < more.len() ==> entry_true(board_of(k), #[trigger] more[j])) ==> table_sound(
            extended(m, k, more),
        ),
{
    lemma_pow3_64();
    let out = extended(m, k, more);
    let old_list = entries_at(m, k);
    assert forall|q: u128, i: int| out.contains_key(q) && 0 <= i < out[q].len() implies (
    #[trigger] out[q][i]).value > i32::MIN by {
        if q == k as u128 {
            if i < old_list.len() {
                assert(m.contains_key(q));
                assert(out[q][i] == m[q][i]);
            } else {
                assert(out[q][i] == more[i - old_list.len()]);
            }
        } else {
            assert(m.contains_key(q));
            assert(out[q][i] == m[q][i]);
        }
    }
    if table_sound(m) && (forall|j: int|
        0 <= j < more.len() ==> entry_true(board_of(k), #[trigger] more[j])) {
        assert forall|q: u128, i: int|
            out.contains_key(q) && is_key(q as int) && 0 <= i < out[q].len() implies entry_true(
            board_of(q as int),
            #[trigger] out[q][i],
        ) by {
            if q == k as u128 {
                if i < old_list.len() {
                    assert(m.contains_key(q));
                    assert(out[q][i] == m[q][i]);
                } else {
                    assert(out[q][i] == more[i - old_list.len()]);
                }
            } else {
                assert(m.contains_key(q));
                assert(out[q][i] == m[q][i]);
            }
        }
    }
}

/// The first `n` additions of a plan that fits keep the table well formed, and a table
/// of true findings one.
pub proof fn lemma_applied_fits(
    m: Findings,
    start: Findings,
    todo: Plan,
    n: int,
)
    requires
        table_wf(start),
        plan_fits(m, todo),
        table_sound(m) ==> table_sound(start),
        0 <= n <= todo.len(),
    ensures
        table_wf(applied(start, todo, n)),
        table_sound(m) ==> table_sound(applied(start, todo, n)),
    decreases n,
{
    if n > 0 {
        lemma_applied_fits(m, start, todo, n - 1);
        let k = todo[n - 1].0;
        let more = todo[n - 1].1;
        if more.len() == 0 {
            let before = applied(start, todo, n - 1);
            lemma_extended_empty(before, k);
        } else {
            assert(more[0].value > i32::MIN);
            assert forall|j: int| 0 <= j < more.len() implies (#[trigger] more[j]).value
                > i32::MIN by {
                assert(todo[n - 1].1[j].value > i32::MIN);
            }
            if table_sound(m) {
                assert forall|j: int| 0 <= j < more.len() implies entry_true(
                    board_of(k),
                    #[trigger] more[j],
                ) by {
                    assert(todo[n - 1].1[j].value > i32::MIN);
                }
            }
            lemma_extended_fits(applied(start, todo, n - 1), k, more);
        }
    }
}

/// No finding added under a key keeps the table well formed, and a table of true
/// findings one.
pub proof fn lemma_extended_empty(m: Findings, k: int)
    requires
        table_wf(m),
    ensures
        table_wf(extended(m, k, Seq::empty())),
        table_sound(m) ==> table_sound(extended(m, k, Seq::empty())),
{
    let out = extended(m, k, Seq::<TableEntry>::empty());
    let old_list = entries_at(m, k);
    assert(old_list + Seq::<TableEntry>::empty() =~= old_list);
    assert forall|q: u128, i: int| out.contains_key(q) && 0 <= i < out[q].len() implies (
    #[trigger] out[q][i]).value > i32::MIN && (table_sound(m) && is_key(q as int) ==> entry_true(
        board_of(q as int),
        out[q][i],
    )) by {
        if q == k as u128 {
            assert(out[q] == old_list);
            assert(m.contains_key(q));
            assert(out[q][i] == m[q][i]);
        } else {
            assert(m.contains_key(q));
            assert(out[q][i] == m[q][i]);
        }
    }
}

/// Copying every list to the mirror images of its position keeps the table well
/// formed, and keeps a table of true findings one.
pub proof fn lemma_symmetrized_fits(m: Findings)
    requires
        m.dom().finite(),
        table_wf(m),
    ensures
        table_wf(symmetrized(m)),
        table_sound(m) ==> table_sound(symmetrized(m)),
{
    lemma_key_order_lists_keys(m);
    let ks = key_order(m);
    assert forall|i: int| 0 <= i < ks.len() implies m.contains_key(#[trigger] ks[i]) by {
        assert(ks.to_set().contains(ks[i]));
    }
    lemma_plan_fits(m, ks, ks.len() as int);
    let todo = plan(m, ks, ks.len() as int);
    lemma_applied_fits(m, m, todo, todo.len() as int);
}

} // verus!
