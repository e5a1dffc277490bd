//! The transposition table: what earlier searches found out about positions, kept
//! under each position seen by side `-1`, and under its seven mirror images as well.
use crate::board::{board_key, board_of, pow3, swapped, symmetric};
use crate::soundness::{lemma_cleaned_sound, lemma_empty_sound, table_sound};
use crate::spread::lemma_symmetrized_fits;
use crate::state::State;
use crate::tally::{lemma_total_cleaned, lemma_total_empty, lemma_total_recorded};
use std::collections::BTreeMap;
use vstd::prelude::*;
use vstd::std_specs::cmp::OrdSpec;
use vstd::std_specs::iter::IteratorSpec;

verus! {

/// What a recorded score says of the true score of the position.
#[derive(Clone, Copy, Debug)]
pub enum Quality {
    /// The true score is at most the recorded one.
    Upperbound,
    /// The true score is at least the recorded one.
    Lowerbound,
    /// The true score is the recorded one.
    Exact,
}

/// One finding about a position: a score, the depth of the search that gave it, and
/// what the score says.
#[derive(Clone, Copy, Debug)]
pub struct TableEntry {
    pub value: i32,
    pub depth: i32,
    pub quality: Quality,
}

/// What a table holds: under the key of a position, the list of the findings about it.
pub type Findings = Map<u128, Seq<TableEntry>>;

/// Lists of findings to be added to a table, each with the key it goes under.
pub type Plan = Seq<(int, Seq<TableEntry>)>;

/// The findings kept so far, a list for each position, under the position's key.
pub struct Table {
    map: BTreeMap<u128, Vec<TableEntry>>,
}

/// The outcome of a lookup: the score that settles the search, if one was found, and
/// the window as the findings narrowed it.
pub ghost struct Probe {
    pub hit: Option<int>,
    pub alpha: int,
    pub beta: int,
}

/// The findings kept under key `k`; none if the key is absent.
pub open spec fn entries_at(m: Findings, k: int) -> Seq<TableEntry> {
    if 0 <= k <= u128::MAX && m.contains_key(k as u128) {
        m[k as u128]
    } else {
        Seq::empty()
    }
}

/// The position as side `-1` sees it: a position in which side `1` is to move has
/// its sides exchanged.
pub open spec fn reference_board(b: Seq<int>, player: int) -> Seq<int> {
    if player == 1 {
        swapped(b)
    } else {
        b
    }
}

/// Reads the findings from index `i` on, for a search of the given depth and window.
/// Findings of another depth are passed over. An exact one settles the search. An
/// upper bound below `beta` lowers `beta`, a lower bound above `alpha` raises
/// `alpha`; once the window is closed, the finding just read settles the search.
pub open spec fn probe_from(es: Seq<TableEntry>, depth: int, alpha: int, beta: int, i: int) -> Probe
    decreases es.len() - i,
{
    if i < 0 || i >= es.len() {
        Probe { hit: None, alpha, beta }
    } else if es[i].depth != depth {
        probe_from(es, depth, alpha, beta, i + 1)
    } else {
        match es[i].quality {
            Quality::Exact => Probe { hit: Some(es[i].value as int), alpha, beta },
            Quality::Upperbound => {
                let b = if es[i].value < beta {
                    es[i].value as int
                } else {
                    beta
                };
                if alpha >= b {
                    Probe { hit: Some(es[i].value as int), alpha, beta: b }
                } else {
                    probe_from(es, depth, alpha, b, i + 1)
                }
            },
            Quality::Lowerbound => {
                let a = if es[i].value > alpha {
                    es[i].value as int
                } else {
                    alpha
                };
                if a >= beta {
                    Probe { hit: Some(es[i].value as int), alpha: a, beta }
                } else {
                    probe_from(es, depth, a, beta, i + 1)
                }
            },
        }
    }
}

/// What a lookup finds for position `b` with `player` to move.
pub open spec fn lookup(
    m: Findings,
    b: Seq<int>,
    player: int,
    depth: int,
    alpha: int,
    beta: int,
) -> Probe {
    probe_from(entries_at(m, board_key(reference_board(b, player))), depth, alpha, beta, 0)
}

/// What a score says when it came out of a search with the window `(alpha, beta)`:
/// at or below `alpha` it is an upper bound, else at or above `beta` a lower bound,
/// else exact.
pub open spec fn quality_of(alpha: int, beta: int, score: int) -> Quality {
    if score <= alpha {
        Quality::Upperbound
    } else if beta <= score {
        Quality::Lowerbound
    } else {
        Quality::Exact
    }
}

/// The table with finding `e` added at the end of the list under key `k`.
pub open spec fn noted(m: Findings, k: int, e: TableEntry) -> Findings {
    m.insert(k as u128, entries_at(m, k).push(e))
}

/// The table with finding `e` added under the first `n` mirror images of position `b`,
/// one after the other.
pub open spec fn noted_all(m: Findings, b: Seq<int>, e: TableEntry, n: int) -> Findings
    decreases n,
{
    if n <= 0 {
        m
    } else {
        noted(noted_all(m, b, e, n - 1), board_key(symmetric(n - 1, b)), e)
    }
}

/// The table after the score of a search is recorded for position `b` with `player`
/// to move: the finding goes under all eight mirror images of the position as side
/// `-1` sees it.
pub open spec fn recorded(
    m: Findings,
    b: Seq<int>,
    player: int,
    depth: int,
    alpha: int,
    beta: int,
    score: int,
) -> Findings {
    noted_all(
        m,
        reference_board(b, player),
        TableEntry {
            value: score as i32,
            depth: depth as i32,
            quality: quality_of(alpha, beta, score),
        },
        8,
    )
}

/// The keys rise along the sequence.
pub open spec fn rising(ks: Seq<u128>) -> bool {
    forall|i: int, j: int| 0 <= i < j < ks.len() ==> ks[i] < ks[j]
}

/// The keys of the table in rising order.
pub open spec fn key_order(m: Findings) -> Seq<u128> {
    choose|ks: Seq<u128>| rising(ks) && ks.to_set() == m.dom()
}

/// The lengths of the lists kept under the given keys, added up.
pub open spec fn lengths(m: Findings, ks: Seq<u128>) -> int
    decreases ks.len(),
{
    if ks.len() == 0 {
        0
    } else {
        lengths(m, ks.drop_last()) + m[ks.last()].len()
    }
}

/// How many findings the table holds, over all positions.
pub open spec fn total_entries(m: Findings) -> int {
    lengths(m, key_order(m))
}

/// The number `k` is the key of a position.
pub open spec fn is_key(k: int) -> bool {
    0 <= k < pow3(64)
}

/// The key of the `id`-th mirror image of the position whose key is `k`.
pub open spec fn image_key(id: int, k: int) -> int {
    board_key(symmetric(id, board_of(k)))
}

/// The table with the findings `more` added at the end of the list under key `k`.
pub open spec fn extended(m: Findings, k: int, more: Seq<TableEntry>) -> Findings {
    m.insert(k as u128, entries_at(m, k) + more)
}

/// What is to be added for the position under key `k`: its list, once for each of its
/// mirror images from the first up to but not including the `n`-th, the position itself
/// left out. Nothing if `k` is not the key of a position.
pub open spec fn plan_for(m: Findings, k: u128, n: int) -> Plan
    decreases n,
{
    if n <= 1 || !is_key(k as int) {
        Seq::empty()
    } else {
        plan_for(m, k, n - 1).push((image_key(n - 1, k as int), m[k]))
    }
}

/// What is to be added for the first `n` of the keys `ks`, one key after the other.
pub open spec fn plan(m: Findings, ks: Seq<u128>, n: int) -> Plan
    decreases n,
{
    if n <= 0 {
        Seq::empty()
    } else {
        plan(m, ks, n - 1) + plan_for(m, ks[n - 1], 8)
    }
}

/// The table after the first `n` additions of a plan are made, in order.
pub open spec fn applied(m: Findings, todo: Plan, n: int) -> Findings
    decreases n,
{
    if n <= 0 {
        m
    } else {
        extended(applied(m, todo, n - 1), todo[n - 1].0, todo[n - 1].1)
    }
}

/// The table after every list is copied to the seven mirror images of its position.
/// The positions are taken in the order of their keys, and each copy is the list as it
/// was before anything was added.
pub open spec fn symmetrized(m: Findings) -> Findings {
    let todo = plan(m, key_order(m), key_order(m).len() as int);
    applied(m, todo, todo.len() as int)
}

/// Only one rising sequence lists a given set of keys.
pub proof fn lemma_rising_unique(a: Seq<u128>, b: Seq<u128>)
    requires
        rising(a),
        rising(b),
        a.to_set() == b.to_set(),
    ensures
        a == b,
    decreases a.len(),
{
    if a.len() == 0 {
        if b.len() > 0 {
            assert(b.to_set().contains(b[0]));
            assert(a.contains(b[0]));
        }
        assert(a =~= b);
    } else if b.len() == 0 {
        assert(a.to_set().contains(a[0]));
        assert(b.contains(a[0]));
    } else {
        let x = a.last();
        let y = b.last();
        assert(a.to_set().contains(x));
        assert(b.contains(x));
        assert(b.to_set().contains(y));
        assert(a.contains(y));
        assert(x == y);
        let a1 = a.drop_last();
        let b1 = b.drop_last();
        assert forall|k: u128| a1.to_set().contains(k) <==> b1.to_set().contains(k) by {
            if a1.contains(k) {
                let i = choose|i: int| 0 <= i < a1.len() && a1[i] == k;
                assert(a[i] == k);
                assert(a.to_set().contains(k));
                assert(b.contains(k));
                let j = choose|j: int| 0 <= j < b.len() && b[j] == k;
                assert(b1[j] == k);
            }
            if b1.contains(k) {
                let i = choose|i: int| 0 <= i < b1.len() && b1[i] == k;
                assert(b[i] == k);
                assert(b.to_set().contains(k));
                assert(a.contains(k));
                let j = choose|j: int| 0 <= j < a.len() && a[j] == k;
                assert(a1[j] == k);
            }
        }
        assert(a1.to_set() =~= b1.to_set());
        lemma_rising_unique(a1, b1);
        assert(a =~= a1.push(x));
        assert(b =~= b1.push(y));
    }
}

/// The lengths over the first keys of a sequence are no more than over all of them.
pub proof fn lemma_lengths_prefix(m: Findings, ks: Seq<u128>, n: int)
    requires
        0 <= n <= ks.len(),
    ensures
        0 <= lengths(m, ks.take(n)) <= lengths(m, ks),
    decreases ks.len() - n,
{
    if n == ks.len() {
        assert(ks.take(n) =~= ks);
        lemma_lengths_nonnegative(m, ks);
    } else {
        lemma_lengths_prefix(m, ks, n + 1);
        lemma_lengths_nonnegative(m, ks.take(n));
        let t = ks.take(n + 1);
        assert(t.drop_last() =~= ks.take(n));
        assert(lengths(m, t) == lengths(m, t.drop_last()) + m[t.last()].len());
    }
}

/// A sum of lengths is not negative.
pub proof fn lemma_lengths_nonnegative(m: Findings, ks: Seq<u128>)
    ensures
        0 <= lengths(m, ks),
    decreases ks.len(),
{
    if ks.len() > 0 {
        lemma_lengths_nonnegative(m, ks.drop_last());
    }
}

/// Finding `a` makes finding `b` useless: it comes from a search at least as deep,
/// and is exact or of the same kind.
pub open spec fn dominates(a: TableEntry, b: TableEntry) -> bool {
    a.depth >= b.depth && (a.quality is Exact || a.quality == b.quality)
}

/// Some other finding of the list makes the one at index `i` useless.
pub open spec fn dominated_at(es: Seq<TableEntry>, i: int) -> bool {
    exists|j: int| 0 <= j < es.len() && j != i && dominates(#[trigger] es[j], es[i])
}

/// The list without the finding at index `i`: the last finding takes its place.
pub open spec fn swap_removed(es: Seq<TableEntry>, i: int) -> Seq<TableEntry> {
    es.update(i, es.last()).drop_last()
}

/// The list pruned from index `i` on: as long as the finding at `i` is useless it is
/// removed, the last one taking its place; a finding that is not stays, and the next
/// index is looked at.
pub open spec fn pruned_from(es: Seq<TableEntry>, i: int) -> Seq<TableEntry>
    decreases es.len() - i,
{
    if i < 0 || i >= es.len() {
        es
    } else if dominated_at(es, i) {
        pruned_from(swap_removed(es, i), i)
    } else {
        pruned_from(es, i + 1)
    }
}

/// The table with every list pruned.
pub open spec fn cleaned(m: Findings) -> Findings {
    m.map_values(|es: Seq<TableEntry>| pruned_from(es, 0))
}

/// No recorded score is the one `i32` that has no negative.
pub open spec fn table_wf(m: Findings) -> bool {
    forall|k: u128, i: int|
        m.contains_key(k) && 0 <= i < m[k].len() ==> (#[trigger] m[k][i]).value > i32::MIN
}

/// Pruning only removes: every finding of the pruned list is one of the list.
pub proof fn lemma_pruned_subset(es: Seq<TableEntry>, i: int)
    ensures
        forall|j: int|
            0 <= j < pruned_from(es, i).len() ==> es.contains(#[trigger] pruned_from(es, i)[j]),
    decreases es.len() - i,
{
    if 0 <= i < es.len() {
        if dominated_at(es, i) {
            let r = swap_removed(es, i);
            lemma_pruned_subset(r, i);
            assert(pruned_from(es, i) == pruned_from(r, i));
            assert forall|j: int| 0 <= j < pruned_from(es, i).len() implies es.contains(
                #[trigger] pruned_from(es, i)[j],
            ) by {
                let e = pruned_from(r, i)[j];
                assert(r.contains(e));
                let k = choose|k: int| 0 <= k < r.len() && r[k] == e;
                if k == i {
                    assert(es[es.len() - 1] == e);
                } else {
                    assert(es[k] == e);
                }
            }
        } else {
            lemma_pruned_subset(es, i + 1);
            assert(pruned_from(es, i) == pruned_from(es, i + 1));
        }
    } else {
        assert(pruned_from(es, i) == es);
        assert forall|j: int| 0 <= j < es.len() implies es.contains(#[trigger] es[j]) by {}
    }
}

/// Cleaning keeps the table well formed.
pub proof fn lemma_cleaned_wf(m: Findings)
    requires
        table_wf(m),
    ensures
        table_wf(cleaned(m)),
{
    let c = cleaned(m);
    assert forall|k: u128, i: int| c.contains_key(k) && 0 <= i < c[k].len() implies (
    #[trigger] c[k][i]).value > i32::MIN by {
        lemma_pruned_subset(m[k], 0);
        let e = pruned_from(m[k], 0)[i];
        assert(m[k].contains(e));
        let j = choose|j: int| 0 <= j < m[k].len() && m[k][j] == e;
        assert(m[k][j].value > i32::MIN);
    }
}

/// Adding a finding whose score has a negative keeps the table well formed.
pub proof fn lemma_noted_all_wf(m: Findings, b: Seq<int>, e: TableEntry, n: int)
    requires
        table_wf(m),
        e.value > i32::MIN,
    ensures
        table_wf(noted_all(m, b, e, n)),
    decreases n,
{
    if n > 0 {
        lemma_noted_all_wf(m, b, e, n - 1);
        let m1 = noted_all(m, b, e, n - 1);
        let k = board_key(symmetric(n - 1, b));
        let m2 = noted(m1, k, e);
        assert forall|j: u128, i: int| m2.contains_key(j) && 0 <= i < m2[j].len() implies (
        #[trigger] m2[j][i]).value > i32::MIN by {
            if j == k as u128 {
                if i < entries_at(m1, k).len() {
                    assert(m2[j][i] == entries_at(m1, k)[i]);
                    assert(m1.contains_key(j));
                    assert(m1[j][i].value > i32::MIN);
                }
            } else {
                assert(m1.contains_key(j));
                assert(m2[j][i] == m1[j][i]);
            }
        }
    }
}

/// Recording a score that has a negative keeps the table well formed.
pub proof fn lemma_recorded_wf(
    m: Findings,
    b: Seq<int>,
    player: int,
    depth: int,
    alpha: int,
    beta: int,
    score: int,
)
    requires
        table_wf(m),
        i32::MIN < score <= i32::MAX,
    ensures
        table_wf(recorded(m, b, player, depth, alpha, beta, score)),
{
    lemma_noted_all_wf(
        m,
        reference_board(b, player),
        TableEntry {
            value: score as i32,
            depth: depth as i32,
            quality: quality_of(alpha, beta, score),
        },
        8,
    );
}

/// What a list of findings gives has a negative, and the window it leaves too.
pub proof fn lemma_probe_wf(es: Seq<TableEntry>, depth: int, alpha: int, beta: int, i: int)
    requires
        forall|j: int| 0 <= j < es.len() ==> (#[trigger] es[j]).value > i32::MIN,
        alpha > i32::MIN,
        beta > i32::MIN,
    ensures
        probe_from(es, depth, alpha, beta, i).alpha > i32::MIN,
        probe_from(es, depth, alpha, beta, i).beta > i32::MIN,
        probe_from(es, depth, alpha, beta, i).hit matches Some(v) ==> i32::MIN < v <= i32::MAX,
    decreases es.len() - i,
{
    if 0 <= i < es.len() {
        if es[i].depth != depth {
            lemma_probe_wf(es, depth, alpha, beta, i + 1);
        } else {
            let b = if es[i].value < beta {
                es[i].value as int
            } else {
                beta
            };
            let a = if es[i].value > alpha {
                es[i].value as int
            } else {
                alpha
            };
            lemma_probe_wf(es, depth, alpha, b, i + 1);
            lemma_probe_wf(es, depth, a, beta, i + 1);
        }
    }
}

/// What a lookup in a well-formed table gives has a negative, and the window it leaves too.
pub proof fn lemma_lookup_wf(
    m: Findings,
    b: Seq<int>,
    player: int,
    depth: int,
    alpha: int,
    beta: int,
)
    requires
        table_wf(m),
        alpha > i32::MIN,
        beta > i32::MIN,
    ensures
        lookup(m, b, player, depth, alpha, beta).alpha > i32::MIN,
        lookup(m, b, player, depth, alpha, beta).beta > i32::MIN,
        lookup(m, b, player, depth, alpha, beta).hit matches Some(v) ==> i32::MIN < v <= i32::MAX,
{
    let k = board_key(reference_board(b, player));
    lemma_probe_wf(entries_at(m, k), depth, alpha, beta, 0);
}

impl View for Table {
    type V = Findings;

    closed spec fn view(&self) -> Findings {
        Map::new(|k: u128| self.map@.contains_key(k), |k: u128| self.map@[k]@)
    }
}

impl Clone for Table {
    /// A table of its own with the same findings.
    fn clone(&self) -> (t: Table)
        ensures
            t@ == self@,
    {
        let t = Table { map: self.map.clone() };
        assert(t@ =~= self@);
        t
    }
}

/// The buffer holds the additions of the plan, in order.
pub open spec fn same_plan(buffer: Seq<(u128, Vec<TableEntry>)>, todo: Plan) -> bool {
    &&& buffer.len() == todo.len()
    &&& forall|i: int|
        0 <= i < buffer.len() ==> (#[trigger] buffer[i]).0 == todo[i].0 && buffer[i].1@ == todo[i].1
}

/// A copy of a list of findings.
fn copy_list(list: &Vec<TableEntry>) -> (r: Vec<TableEntry>)
    ensures
        r@ == list@,
{
    let mut r: Vec<TableEntry> = Vec::new();
    let mut i: usize = 0;
    while i < list.len()
        invariant
            i <= list.len(),
            r@ == list@.take(i as int),
        decreases list.len() - i,
    {
        r.push(list[i]);
        assert(r@ =~= list@.take(i as int + 1));
        i += 1;
    }
    assert(list@.take(list.len() as int) =~= list@);
    r
}

/// Executable form of [`dominates`].
fn entry_dominates(a: &TableEntry, b: &TableEntry) -> (r: bool)
    ensures
        r == dominates(*a, *b),
{
    a.depth >= b.depth && match a.quality {
        Quality::Exact => true,
        Quality::Upperbound => match b.quality {
            Quality::Upperbound => true,
            _ => false,
        },
        Quality::Lowerbound => match b.quality {
            Quality::Lowerbound => true,
            _ => false,
        },
    }
}

/// Whether some other finding of the list makes the one at index `i` useless.
fn is_dominated(list: &Vec<TableEntry>, i: usize) -> (r: bool)
    requires
        i < list.len(),
    ensures
        r == dominated_at(list@, i as int),
{
    let mut j: usize = 0;
    while j < list.len()
        invariant
            i < list.len(),
            j <= list.len(),
            forall|k: int|
                0 <= k < j && k != i ==> !dominates(#[trigger] list@[k], list@[i as int]),
        decreases list.len() - j,
    {
        if i != j && entry_dominates(&list[j], &list[i]) {
            return true;
        }
        j += 1;
    }
    false
}

/// Removes from the list the findings that another one makes useless.
fn prune(list: &mut Vec<TableEntry>)
    ensures
        final(list)@ == pruned_from(old(list)@, 0),
{
    let mut i: usize = 0;
    while i < list.len()
        invariant
            pruned_from(old(list)@, 0) == pruned_from(list@, i as int),
        decreases list.len() - i,
    {
        if is_dominated(list, i) {
            list.swap_remove(i);
        } else {
            i += 1;
        }
    }
}

impl Table {
    /// A table that holds nothing.
    pub fn new() -> (t: Table)
        ensures
            t@ == Findings::empty(),
            total_entries(t@) == 0,
            table_wf(t@),
            table_sound(t@),
    {
        let t = Table { map: BTreeMap::new() };
        assert(t@ =~= Findings::empty());
        proof {
            lemma_total_empty();
            lemma_empty_sound();
        }
        t
    }

    /// A table has findings under finitely many keys.
    pub proof fn lemma_finite(&self)
        ensures
            self@.dom().finite(),
    {
        assert(self@.dom() =~= self.map@.dom());
    }

    /// Looks the position up for a search of the given depth, with `player` to move.
    /// Returns the score that settles the search if the findings hold one, and
    /// narrows `alpha` and `beta` by the bounds it passes.
    pub fn get(
        &self,
        state: &State,
        player: i32,
        depth: i32,
        alpha: &mut i32,
        beta: &mut i32,
    ) -> (r: Option<i32>)
        requires
            state.wf(),
        ensures
            ({
                let p = lookup(
                    self@,
                    state@,
                    player as int,
                    depth as int,
                    *old(alpha) as int,
                    *old(beta) as int,
                );
                &&& match r {
                    Some(v) => p.hit == Some(v as int),
                    None => p.hit is None,
                }
                &&& *final(alpha) == p.alpha
                &&& *final(beta) == p.beta
            }),
    {
        let mut seen = *state;
        if player == 1 {
            seen.swap();
        }
        let key = seen.key();
        let ghost es = entries_at(self@, key as int);
        match self.map.get(&key) {
            Some(vs) => {
                assert(vs@ == es);
                let mut i: usize = 0;
                while i < vs.len()
                    invariant
                        i <= vs.len(),
                        vs@ == es,
                        es == entries_at(
                            self@,
                            board_key(reference_board(state@, player as int)),
                        ),
                        probe_from(es, depth as int, *old(alpha) as int, *old(beta) as int, 0)
                            == probe_from(es, depth as int, *alpha as int, *beta as int, i as int),
                    decreases vs.len() - i,
                {
                    let entry = vs[i];
                    if entry.depth == depth {
                        match entry.quality {
                            Quality::Exact => {
                                return Some(entry.value);
                            },
                            Quality::Upperbound => {
                                if entry.value < *beta {
                                    *beta = entry.value;
                                }
                            },
                            Quality::Lowerbound => {
                                if entry.value > *alpha {
                                    *alpha = entry.value;
                                }
                            },
                        }
                        if *alpha >= *beta {
                            return Some(entry.value);
                        }
                    }
                    i += 1;
                }
                None
            },
            None => {
                assert(es == Seq::<TableEntry>::empty());
                None
            },
        }
    }

    /// The keys under which findings are kept, in rising order.
    fn key_list(&self) -> (ks: Vec<u128>)
        ensures
            rising(ks@),
            ks@.to_set() == self@.dom(),
    {
        let mut ks: Vec<u128> = Vec::new();
        let pairs = self.map.iter();
        let ghost all = pairs.remaining();
        let ghost keys = all.map_values(|kv: (&u128, &Vec<TableEntry>)| *kv.0);
        assert(vstd::std_specs::btree::increasing_seq(keys));
        for kv in it: pairs
            invariant
                it.seq() == all,
                ks@.len() == it.index(),
                ks@ == keys.take(it.index()),
                keys == all.map_values(|kv: (&u128, &Vec<TableEntry>)| *kv.0),
        {
            ks.push(*kv.0);
            assert(ks@ =~= keys.take(it.index() + 1));
        }
        assert(ks@ =~= keys);
        proof {
            vstd::std_specs::btree::axiom_increasing_seq_meaning::<u128>(keys);
            assert forall|i: int, j: int| 0 <= i < j < ks@.len() implies ks@[i] < ks@[j] by {
                assert(keys[i].cmp_spec(&keys[j]) is Less);
            }
            assert forall|k: u128| ks@.to_set().contains(k) <==> self@.dom().contains(k) by {
                if ks@.to_set().contains(k) {
                    let i = choose|i: int| 0 <= i < ks@.len() && ks@[i] == k;
                    assert(self.map@.contains_key(*all[i].0));
                }
                if self@.dom().contains(k) {
                    assert(self.map@.contains_key(k));
                    assert(all.contains((&k, &self.map@[k])));
                    let i = choose|i: int| 0 <= i < all.len() && all[i] == (&k, &self.map@[k]);
                    assert(ks@[i] == k);
                }
            }
            assert(ks@.to_set() =~= self@.dom());
        }
        ks
    }

    /// How many findings the table holds, over all positions.
    pub fn len(&self) -> (n: usize)
        requires
            total_entries(self@) <= usize::MAX,
        ensures
            n == total_entries(self@),
    {
        let keys = self.key_list();
        proof {
            lemma_rising_unique(keys@, key_order(self@));
        }
        let mut n: usize = 0;
        let mut i: usize = 0;
        while i < keys.len()
            invariant
                i <= keys.len(),
                keys@ == key_order(self@),
                keys@.to_set() == self@.dom(),
                n == lengths(self@, keys@.take(i as int)),
                total_entries(self@) <= usize::MAX,
            decreases keys.len() - i,
        {
            proof {
                lemma_lengths_prefix(self@, keys@, i as int + 1);
                assert(keys@.take(i as int + 1).drop_last() =~= keys@.take(i as int));
                assert(keys@.to_set().contains(keys@[i as int]));
            }
            match self.map.get(&keys[i]) {
                Some(list) => {
                    n += list.len();
                },
                None => {},
            }
            i += 1;
        }
        assert(keys@.take(keys.len() as int) =~= keys@);
        n
    }

    /// Copies every list to the seven mirror images of its position, so that each
    /// position knows what is known of its images.
    pub fn symmetrize(&mut self)
        ensures
            final(self)@ == symmetrized(old(self)@),
            table_wf(old(self)@) ==> table_wf(final(self)@),
            table_wf(old(self)@) && table_sound(old(self)@) ==> table_sound(final(self)@),
    {
        proof {
            if table_wf(self@) {
                self.lemma_finite();
                lemma_symmetrized_fits(self@);
            }
        }
        let keys = self.key_list();
        proof {
            lemma_rising_unique(keys@, key_order(self@));
        }
        let mut buffer: Vec<(u128, Vec<TableEntry>)> = Vec::new();
        let mut i: usize = 0;
        while i < keys.len()
            invariant
                i <= keys.len(),
                keys@.to_set() == self@.dom(),
                same_plan(buffer@, plan(self@, keys@, i as int)),
            decreases keys.len() - i,
        {
            let key = keys[i];
            assert(keys@.to_set().contains(keys@[i as int]));
            let ghost done = plan(self@, keys@, i as int);
            match (State::from_key(key), self.map.get(&key)) {
                (Some(state), Some(list)) => {
                    let mut id: usize = 1;
                    while id < 8
                        invariant
                            1 <= id <= 8,
                            state.wf(),
                            state@ == board_of(key as int),
                            is_key(key as int),
                            list@ == self@[key],
                            same_plan(buffer@, done + plan_for(self@, key, id as int)),
                        decreases 8 - id,
                    {
                        let image = state.symmetry(id);
                        buffer.push((image.key(), copy_list(list)));
                        id += 1;
                    }
                },
                _ => {
                    assert(plan_for(self@, key, 8) =~= Seq::empty());
                    assert(done + plan_for(self@, key, 8) =~= done);
                },
            }
            i += 1;
        }
        let ghost todo = plan(old(self)@, keys@, keys.len() as int);
        let mut j: usize = 0;
        while j < buffer.len()
            invariant
                j <= buffer.len(),
                same_plan(buffer@, todo),
                self@ == applied(old(self)@, todo, j as int),
            decreases buffer.len() - j,
        {
            let key = buffer[j].0;
            let more = copy_list(&buffer[j].1);
            self.extend(key, more);
            j += 1;
        }
    }

    /// Adds the findings `more` at the end of the list kept under `key`.
    fn extend(&mut self, key: u128, more: Vec<TableEntry>)
        ensures
            final(self)@ == extended(old(self)@, key as int, more@),
    {
        let ghost added = more@;
        let mut more = more;
        let mut list = match self.map.remove(&key) {
            Some(l) => l,
            None => Vec::new(),
        };
        list.append(&mut more);
        self.map.insert(key, list);
        assert(self@ =~= extended(old(self)@, key as int, added));
    }

    /// Removes the findings that another finding about the same position makes useless:
    /// one from a search at least as deep that is exact or of the same kind.
    pub fn clean(&mut self)
        ensures
            final(self)@ == cleaned(old(self)@),
            total_entries(final(self)@) <= total_entries(old(self)@),
            table_wf(old(self)@) ==> table_wf(final(self)@),
            table_sound(old(self)@) ==> table_sound(final(self)@),
    {
        proof {
            self.lemma_finite();
            lemma_total_cleaned(self@);
            if table_wf(self@) {
                lemma_cleaned_wf(self@);
            }
            if table_sound(self@) {
                lemma_cleaned_sound(self@);
            }
        }
        let keys = self.key_list();
        let mut n: usize = 0;
        while n < keys.len()
            invariant
                n <= keys.len(),
                rising(keys@),
                keys@.to_set() == old(self)@.dom(),
                self@.dom() == old(self)@.dom(),
                forall|i: int|
                    0 <= i < n ==> self@[#[trigger] keys@[i]] == pruned_from(
                        old(self)@[keys@[i]],
                        0,
                    ),
                forall|i: int|
                    n <= i < keys.len() ==> self@[#[trigger] keys@[i]] == old(self)@[keys@[i]],
            decreases keys.len() - n,
        {
            let key = keys[n];
            assert(keys@.to_set().contains(keys@[n as int]));
            let ghost before = self@;
            match self.map.remove(&key) {
                Some(mut list) => {
                    prune(&mut list);
                    self.map.insert(key, list);
                },
                None => {},
            }
            assert(self@ =~= before.insert(key, pruned_from(before[key], 0)));
            n += 1;
        }
        assert forall|k: u128| old(self)@.dom().contains(k) implies self@[k] == pruned_from(
            old(self)@[k],
            0,
        ) by {
            assert(keys@.to_set().contains(k));
            let i = choose|i: int| 0 <= i < keys@.len() && keys@[i] == k;
            assert(self@[keys@[i]] == pruned_from(old(self)@[keys@[i]], 0));
        }
        assert(self@ =~= cleaned(old(self)@));
    }

    /// Adds finding `entry` at the end of the list kept under `key`.
    fn note(&mut self, key: u128, entry: TableEntry)
        ensures
            final(self)@ == noted(old(self)@, key as int, entry),
    {
        let mut list = match self.map.remove(&key) {
            Some(l) => l,
            None => Vec::new(),
        };
        list.push(entry);
        self.map.insert(key, list);
        assert(self@ =~= noted(old(self)@, key as int, entry));
    }

    /// Records the score that a search of the given depth and window gave for the
    /// position with `player` to move. The finding is kept under the position as
    /// side `-1` sees it, and under each of its mirror images.
    pub fn insert(
        &mut self,
        state: State,
        player: i32,
        depth: i32,
        alpha: i32,
        beta: i32,
        score: i32,
    )
        requires
            state.wf(),
        ensures
            final(self)@ == recorded(
                old(self)@,
                state@,
                player as int,
                depth as int,
                alpha as int,
                beta as int,
                score as int,
            ),
            total_entries(final(self)@) == total_entries(old(self)@) + 8,
            table_wf(old(self)@) && score > i32::MIN ==> table_wf(final(self)@),
    {
        proof {
            if table_wf(self@) && score > i32::MIN {
                lemma_recorded_wf(
                    self@,
                    state@,
                    player as int,
                    depth as int,
                    alpha as int,
                    beta as int,
                    score as int,
                );
            }
            self.lemma_finite();
            lemma_total_recorded(
                self@,
                state@,
                player as int,
                depth as int,
                alpha as int,
                beta as int,
                score as int,
            );
        }
        let mut seen = state;
        if player == 1 {
            seen.swap();
        }
        let quality = if score <= alpha {
            Quality::Upperbound
        } else if beta <= score {
            Quality::Lowerbound
        } else {
            Quality::Exact
        };
        let entry = TableEntry { value: score, depth, quality };
        let mut id: usize = 0;
        while id < 8
            invariant
                id <= 8,
                seen.wf(),
                self@ == noted_all(old(self)@, seen@, entry, id as int),
            decreases 8 - id,
        {
            let image = seen.symmetry(id);
            self.note(image.key(), entry);
            id += 1;
        }
    }
}

} // verus!
