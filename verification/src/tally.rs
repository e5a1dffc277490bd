//! Counting the findings of a table: an empty table holds none, one more finding is
//! one more, recording a score is eight more, and cleaning never adds any.
use crate::board::{board_key, board_wf, symmetric};
use crate::laws::{lemma_swapped_wf, lemma_symmetric_wf};
use crate::soundness::lemma_board_of_key;
use crate::table::{
    cleaned, Findings, key_order, lemma_rising_unique, lengths, noted, noted_all, pruned_from,
    recorded, reference_board, rising, swap_removed, TableEntry, total_entries,
};
use vstd::prelude::*;

verus! {

/// Where a key goes in a rising sequence: behind the keys that are smaller.
pub open spec fn place(ks: Seq<u128>, x: u128) -> int
    decreases ks.len(),
{
    if ks.len() == 0 {
        0
    } else if ks.last() < x {
        ks.len() as int
    } else {
        place(ks.drop_last(), x)
    }
}

/// The sequence with the key put in at its place.
pub open spec fn put_in(ks: Seq<u128>, x: u128) -> Seq<u128> {
    ks.take(place(ks, x)).push(x) + ks.skip(place(ks, x))
}

/// The place of a new key in a rising sequence parts the smaller keys from the larger.
pub proof fn lemma_place(ks: Seq<u128>, x: u128)
    requires
        rising(ks),
        !ks.contains(x),
    ensures
        0 <= place(ks, x) <= ks.len(),
        forall|i: int| 0 <= i < place(ks, x) ==> ks[i] < x,
        forall|i: int| place(ks, x) <= i < ks.len() ==> ks[i] > x,
    decreases ks.len(),
{
    if ks.len() > 0 {
        if ks.last() < x {
            assert forall|i: int| 0 <= i < ks.len() implies ks[i] < x by {
                if i < ks.len() - 1 {
                    assert(ks[i] < ks[ks.len() - 1]);
                }
            }
        } else {
            let front = ks.drop_last();
            assert(ks[ks.len() - 1] == ks.last());
            assert(ks.contains(ks.last()));
            assert forall|i: int| 0 <= i < front.len() implies front[i] != x by {
                assert(ks[i] == front[i]);
                assert(ks.contains(ks[i]));
            }
            lemma_place(front, x);
            assert forall|i: int| place(ks, x) <= i < ks.len() implies ks[i] > x by {
                if i < front.len() {
                    assert(front[i] > x);
                }
            }
            assert forall|i: int| 0 <= i < place(ks, x) implies ks[i] < x by {
                assert(front[i] < x);
            }
        }
    }
}

/// A new key put into a rising sequence at its place leaves a rising sequence, of the
/// keys there were and the new one.
pub proof fn lemma_put_in(ks: Seq<u128>, x: u128)
    requires
        rising(ks),
        !ks.contains(x),
    ensures
        rising(put_in(ks, x)),
        put_in(ks, x).to_set() == ks.to_set().insert(x),
{
    lemma_place(ks, x);
    let p = place(ks, x);
    let out = put_in(ks, x);
    assert(out.len() == ks.len() + 1);
    assert forall|i: int| 0 <= i < out.len() implies out[i] == (if i < p {
        ks[i]
    } else if i == p {
        x
    } else {
        ks[i - 1]
    }) by {}
    assert forall|i: int, j: int| 0 <= i < j < out.len() implies out[i] < out[j] by {
        if j < p {
            assert(ks[i] < ks[j]);
        } else if i > p {
            assert(ks[i - 1] < ks[j - 1]);
        } else if i < p && j > p {
            assert(ks[i] < ks[j - 1]);
        }
    }
    assert forall|k: u128| out.to_set().contains(k) <==> ks.to_set().insert(x).contains(k) by {
        if out.contains(k) {
            let i = choose|i: int| 0 <= i < out.len() && out[i] == k;
            if i < p {
                assert(ks[i] == k);
                assert(ks.contains(k));
            } else if i > p {
                assert(ks[i - 1] == k);
                assert(ks.contains(k));
            }
        }
        if ks.contains(k) {
            let i = choose|i: int| 0 <= i < ks.len() && ks[i] == k;
            if i < p {
                assert(out[i] == k);
            } else {
                assert(out[i + 1] == k);
            }
            assert(out.contains(k));
        }
        if k == x {
            assert(out[p] == x);
            assert(out.contains(k));
        }
    }
    assert(out.to_set() =~= ks.to_set().insert(x));
}

/// The keys of a finite set can be listed in rising order.
pub proof fn lemma_rising_exists(s: Set<u128>)
    requires
        s.finite(),
    ensures
        exists|ks: Seq<u128>| rising(ks) && ks.to_set() == s,
    decreases s.len(),
{
    if s.len() == 0 {
        let ks = Seq::<u128>::empty();
        assert(s =~= Set::<u128>::empty());
        assert(ks.to_set() =~= s);
        assert(rising(ks) && ks.to_set() == s);
    } else {
        let x = s.choose();
        let rest = s.remove(x);
        lemma_rising_exists(rest);
        let ks = choose|ks: Seq<u128>| rising(ks) && ks.to_set() == rest;
        assert(!ks.contains(x)) by {
            if ks.contains(x) {
                assert(ks.to_set().contains(x));
            }
        }
        lemma_put_in(ks, x);
        assert(rest.insert(x) =~= s);
        assert(rising(put_in(ks, x)) && put_in(ks, x).to_set() == s);
    }
}

/// The keys of a table with finitely many keys, in rising order, are its keys.
pub proof fn lemma_key_order_lists_keys(m: Findings)
    requires
        m.dom().finite(),
    ensures
        rising(key_order(m)),
        key_order(m).to_set() == m.dom(),
{
    lemma_rising_exists(m.dom());
}

/// Two tables whose lists are as long under each of the keys have the same sum of lengths.
pub proof fn lemma_lengths_same(
    m: Findings,
    other: Findings,
    ks: Seq<u128>,
)
    requires
        forall|i: int| 0 <= i < ks.len() ==> m[#[trigger] ks[i]].len() == other[ks[i]].len(),
    ensures
        lengths(m, ks) == lengths(other, ks),
    decreases ks.len(),
{
    if ks.len() > 0 {
        let front = ks.drop_last();
        assert forall|i: int| 0 <= i < front.len() implies m[#[trigger] front[i]].len()
            == other[front[i]].len() by {
            assert(front[i] == ks[i]);
        }
        lemma_lengths_same(m, other, front);
        assert(ks.last() == ks[ks.len() - 1]);
    }
}

/// The sum of the lengths is the sum without one key and the length under that key.
pub proof fn lemma_lengths_remove(m: Findings, ks: Seq<u128>, i: int)
    requires
        0 <= i < ks.len(),
    ensures
        lengths(m, ks) == lengths(m, ks.remove(i)) + m[ks[i]].len(),
    decreases ks.len(),
{
    if i == ks.len() - 1 {
        assert(ks.remove(i) =~= ks.drop_last());
    } else {
        let front = ks.drop_last();
        lemma_lengths_remove(m, front, i);
        assert(ks.remove(i).drop_last() =~= front.remove(i));
        assert(ks.remove(i).last() == ks.last());
    }
}

/// A table without a key holds no finding.
pub proof fn lemma_total_empty()
    ensures
        total_entries(Findings::empty()) == 0,
{
    let m = Findings::empty();
    lemma_key_order_lists_keys(m);
    let ks = key_order(m);
    if ks.len() > 0 {
        assert(ks.to_set().contains(ks[0]));
    }
}

/// One finding more under a key is one finding more in the table.
pub proof fn lemma_total_noted(m: Findings, k: int, e: TableEntry)
    requires
        m.dom().finite(),
        0 <= k <= u128::MAX,
    ensures
        noted(m, k, e).dom().finite(),
        total_entries(noted(m, k, e)) == total_entries(m) + 1,
{
    let key = k as u128;
    let more = noted(m, k, e);
    assert(more.dom() =~= m.dom().insert(key));
    lemma_key_order_lists_keys(m);
    lemma_key_order_lists_keys(more);
    let ks = key_order(m);
    let ls = key_order(more);
    assert(ls.to_set().contains(key));
    assert(ls.contains(key));
    let i = choose|i: int| 0 <= i < ls.len() && ls[i] == key;
    let rest = ls.remove(i);
    lemma_lengths_remove(more, ls, i);
    lemma_lengths_remove(m, ls, i);
    assert forall|j: int| 0 <= j < rest.len() implies m[#[trigger] rest[j]].len()
        == more[rest[j]].len() by {
        if j < i {
            assert(rest[j] == ls[j]);
        } else {
            assert(rest[j] == ls[j + 1]);
        }
    }
    lemma_lengths_same(m, more, rest);
    if m.contains_key(key) {
        assert(ls.to_set() =~= ks.to_set());
        lemma_rising_unique(ls, ks);
    } else {
        assert forall|a: int, b: int| 0 <= a < b < rest.len() implies rest[a] < rest[b] by {
            let a2 = if a < i {
                a
            } else {
                a + 1
            };
            let b2 = if b < i {
                b
            } else {
                b + 1
            };
            assert(ls[a2] < ls[b2]);
        }
        assert forall|x: u128| rest.to_set().contains(x) <==> m.dom().contains(x) by {
            if rest.contains(x) {
                let j = choose|j: int| 0 <= j < rest.len() && rest[j] == x;
                let j2 = if j < i {
                    j
                } else {
                    j + 1
                };
                assert(ls[j2] == x);
                assert(ls.to_set().contains(x));
            }
            if m.dom().contains(x) {
                assert(ls.to_set().contains(x));
                assert(ls.contains(x));
                let j = choose|j: int| 0 <= j < ls.len() && ls[j] == x;
                if j < i {
                    assert(rest[j] == x);
                } else {
                    assert(rest[j - 1] == x);
                }
                assert(rest.contains(x));
            }
        }
        assert(rest.to_set() =~= ks.to_set());
        lemma_rising_unique(rest, ks);
    }
}

/// A finding added under the first `n` mirror images of a position is `n` findings more.
pub proof fn lemma_total_noted_all(m: Findings, b: Seq<int>, e: TableEntry, n: int)
    requires
        m.dom().finite(),
        board_wf(b),
        0 <= n <= 8,
    ensures
        noted_all(m, b, e, n).dom().finite(),
        total_entries(noted_all(m, b, e, n)) == total_entries(m) + n,
    decreases n,
{
    if n > 0 {
        lemma_total_noted_all(m, b, e, n - 1);
        lemma_symmetric_wf(n - 1, b);
        lemma_board_of_key(symmetric(n - 1, b));
        lemma_total_noted(noted_all(m, b, e, n - 1), board_key(symmetric(n - 1, b)), e);
    }
}

/// A score recorded is eight findings more.
pub proof fn lemma_total_recorded(
    m: Findings,
    b: Seq<int>,
    player: int,
    depth: int,
    alpha: int,
    beta: int,
    score: int,
)
    requires
        m.dom().finite(),
        board_wf(b),
    ensures
        recorded(m, b, player, depth, alpha, beta, score).dom().finite(),
        total_entries(recorded(m, b, player, depth, alpha, beta, score)) == total_entries(m) + 8,
{
    lemma_swapped_wf(b);
    let e = choose|e: TableEntry|
        recorded(m, b, player, depth, alpha, beta, score) == noted_all(
            m,
            reference_board(b, player),
            e,
            8,
        );
    lemma_total_noted_all(m, reference_board(b, player), e, 8);
}

/// Pruning does not make a list longer.
pub proof fn lemma_pruned_shorter(es: Seq<TableEntry>, i: int)
    ensures
        pruned_from(es, i).len() <= es.len(),
    decreases es.len() - i,
{
    if 0 <= i < es.len() {
        lemma_pruned_shorter(swap_removed(es, i), i);
        lemma_pruned_shorter(es, i + 1);
    }
}

/// A table whose lists are no longer than another's under each of the keys has no
/// larger sum of lengths.
pub proof fn lemma_lengths_less(
    m: Findings,
    other: Findings,
    ks: Seq<u128>,
)
    requires
        forall|i: int| 0 <= i < ks.len() ==> m[#[trigger] ks[i]].len() <= other[ks[i]].len(),
    ensures
        lengths(m, ks) <= lengths(other, ks),
    decreases ks.len(),
{
    if ks.len() > 0 {
        let front = ks.drop_last();
        assert forall|i: int| 0 <= i < front.len() implies m[#[trigger] front[i]].len()
            <= other[front[i]].len() by {
            assert(front[i] == ks[i]);
        }
        lemma_lengths_less(m, other, front);
        assert(ks.last() == ks[ks.len() - 1]);
    }
}

/// Cleaning never adds a finding.
pub proof fn lemma_total_cleaned(m: Findings)
    requires
        m.dom().finite(),
    ensures
        cleaned(m).dom().finite(),
        total_entries(cleaned(m)) <= total_entries(m),
{
    let c = cleaned(m);
    assert(c.dom() =~= m.dom());
    lemma_key_order_lists_keys(m);
    let ks = key_order(m);
    assert forall|i: int| 0 <= i < ks.len() implies c[#[trigger] ks[i]].len() <= m[ks[i]].len() by {
        assert(ks.to_set().contains(ks[i]));
        lemma_pruned_shorter(m[ks[i]], 0);
    }
    lemma_lengths_less(c, m, ks);
}

} // verus!
