//! The mathematical model of a position: a sequence of 64 cells, each `0` (empty),
//! `1` ("me") or `-1` (the opponent), and what the game says of such a sequence.
use crate::lines::{line_cell, listed, moving};
use vstd::prelude::*;

verus! {

/// A position: 64 cells, each empty or held by one of the two sides.
pub open spec fn board_wf(b: Seq<int>) -> bool {
    &&& b.len() == 64
    &&& forall|i: int| 0 <= i < 64 ==> -1 <= #[trigger] b[i] <= 1
}

/// The two sides.
pub open spec fn is_side(who: int) -> bool {
    who == 1 || who == -1
}

/// The position with no stone on it.
pub open spec fn empty_board() -> Seq<int> {
    Seq::new(64, |i: int| 0int)
}

/// `1` if cell `c` is held by `who`, else `0`.
pub open spec fn held(b: Seq<int>, c: int, who: int) -> int {
    if b[c] == who {
        1
    } else {
        0
    }
}

/// How many of the four cells of a line are held by `who`.
pub open spec fn stones(b: Seq<int>, mx: int, my: int, mz: int, who: int) -> int {
    held(b, line_cell(mx, my, mz, 0), who) + held(b, line_cell(mx, my, mz, 1), who) + held(
        b,
        line_cell(mx, my, mz, 2),
        who,
    ) + held(b, line_cell(mx, my, mz, 3), who)
}

/// What `n` stones alone on a line are worth: `76^(n-1)`, and nothing for no stone.
pub open spec fn weight(n: int) -> int {
    if n == 1 {
        1
    } else if n == 2 {
        76
    } else if n == 3 {
        5776
    } else if n == 4 {
        438976
    } else {
        0
    }
}

/// What one line adds to the value: the weight of my stones if the opponent has none
/// on it, less the weight of the opponent's stones if I have none on it.
pub open spec fn line_score(b: Seq<int>, mx: int, my: int, mz: int) -> int {
    let me = stones(b, mx, my, mz, 1);
    let op = stones(b, mx, my, mz, -1);
    (if op == 0 {
        weight(me)
    } else {
        0
    }) - (if me == 0 {
        weight(op)
    } else {
        0
    })
}

/// The score of a triple of modes that is listed, and nothing for any other triple.
pub open spec fn listed_score(b: Seq<int>, mx: int, my: int, mz: int) -> int {
    if listed(mx, my, mz) {
        line_score(b, mx, my, mz)
    } else {
        0
    }
}

/// The listed scores over the x modes below `n`, for fixed y and z modes.
pub open spec fn score_x(b: Seq<int>, my: int, mz: int, n: int) -> int
    decreases n,
{
    if n <= 0 {
        0
    } else {
        score_x(b, my, mz, n - 1) + listed_score(b, n - 1, my, mz)
    }
}

/// The listed scores over all x modes and the y modes below `n`, for a fixed z mode.
pub open spec fn score_y(b: Seq<int>, mz: int, n: int) -> int
    decreases n,
{
    if n <= 0 {
        0
    } else {
        score_y(b, mz, n - 1) + score_x(b, n - 1, mz, 6)
    }
}

/// The listed scores over all x and y modes and the z modes below `n`.
pub open spec fn score_z(b: Seq<int>, n: int) -> int
    decreases n,
{
    if n <= 0 {
        0
    } else {
        score_z(b, n - 1) + score_y(b, n - 1, 6)
    }
}

/// The static value of a position, seen by side `1`: the sum of the scores of the 76 lines.
pub open spec fn board_value(b: Seq<int>) -> int {
    score_z(b, 6)
}

/// All four cells of the line are held by `who`.
pub open spec fn line_held(b: Seq<int>, mx: int, my: int, mz: int, who: int) -> bool {
    stones(b, mx, my, mz, who) == 4
}

/// Some line is held entirely by `who`.
pub open spec fn board_win(b: Seq<int>, who: int) -> bool {
    exists|mx: int, my: int, mz: int|
        moving(mx, my, mz) && #[trigger] line_held(b, mx, my, mz, who)
}

/// The column that stands on cell `col` of the bottom layer (`col = x + 4*y`):
/// its lowest empty height, or `4` when it has none.
pub open spec fn height(b: Seq<int>, col: int) -> int {
    if b[col] == 0 {
        0
    } else if b[col + 16] == 0 {
        1
    } else if b[col + 32] == 0 {
        2
    } else if b[col + 48] == 0 {
        3
    } else {
        4
    }
}

/// The position after `who` drops a stone into column `col`; unchanged if no cell is empty.
pub open spec fn dropped(b: Seq<int>, col: int, who: int) -> Seq<int> {
    if height(b, col) < 4 {
        b.update(col + 16 * height(b, col), who)
    } else {
        b
    }
}

/// Every cell negated: the two sides change places.
pub open spec fn swapped(b: Seq<int>) -> Seq<int> {
    Seq::new(b.len(), |i: int| -b[i])
}

/// In the column that stands on cell `col` of the bottom layer no stone floats:
/// above an empty cell every cell is empty.
pub open spec fn grounded_column(b: Seq<int>, col: int) -> bool {
    &&& b[col] == 0 ==> b[col + 16] == 0
    &&& b[col + 16] == 0 ==> b[col + 32] == 0
    &&& b[col + 32] == 0 ==> b[col + 48] == 0
}

/// Stones obey gravity: in every column the held cells are the lowest ones.
pub open spec fn grounded(b: Seq<int>) -> bool {
    forall|col: int| 0 <= col < 16 ==> #[trigger] grounded_column(b, col)
}

/// The x coordinate that symmetry `id` reads from, for the column it writes at `(x, y)`.
///
/// The eight symmetries of the square, in order: identity, mirror in y, mirror in x,
/// quarter turn, quarter turn the other way, half turn, mirror in the diagonal,
/// mirror in the other diagonal.
pub open spec fn source_x(id: int, x: int, y: int) -> int {
    if id == 0 || id == 1 {
        x
    } else if id == 2 || id == 5 {
        3 - x
    } else if id == 3 || id == 7 {
        3 - y
    } else {
        y
    }
}

/// The y coordinate that symmetry `id` reads from, for the column it writes at `(x, y)`.
pub open spec fn source_y(id: int, x: int, y: int) -> int {
    if id == 0 || id == 2 {
        y
    } else if id == 1 || id == 5 {
        3 - y
    } else if id == 3 || id == 6 {
        x
    } else {
        3 - x
    }
}

/// The cell that symmetry `id` reads from, for the cell it writes at `i`: the same
/// layer, the column moved.
pub open spec fn source_cell(id: int, i: int) -> int {
    let x = i % 4;
    let y = (i / 4) % 4;
    let z = i / 16;
    source_x(id, x, y) + 4 * source_y(id, x, y) + 16 * z
}

/// The position turned or mirrored by symmetry `id`.
pub open spec fn symmetric(id: int, b: Seq<int>) -> Seq<int> {
    Seq::new(64, |i: int| b[source_cell(id, i)])
}

/// The bottom cell of the `n`-th column in playing order: x first, then y.
pub open spec fn column_at(n: int) -> int {
    n / 4 + 4 * (n % 4)
}

/// The `n`-th column in playing order still takes a stone: its top cell is empty.
pub open spec fn playable(b: Seq<int>, n: int) -> bool {
    b[column_at(n) + 48] == 0
}

/// The position after `who` plays the `n`-th column in playing order.
pub open spec fn child(b: Seq<int>, n: int, who: int) -> Seq<int> {
    dropped(b, column_at(n), who)
}

/// The positions that `who` can reach by one move in the first `n` columns, in playing order.
pub open spec fn children_upto(b: Seq<int>, who: int, n: int) -> Seq<Seq<int>>
    decreases n,
{
    if n <= 0 {
        Seq::empty()
    } else if playable(b, n - 1) {
        children_upto(b, who, n - 1).push(child(b, n - 1, who))
    } else {
        children_upto(b, who, n - 1)
    }
}

/// The positions that `who` can reach by one move, in playing order.
pub open spec fn children(b: Seq<int>, who: int) -> Seq<Seq<int>> {
    children_upto(b, who, 16)
}

/// The first `n` cells read as a number in base 3, the first cell leading: an
/// opponent's stone is the digit 0, an empty cell 1, a stone of mine 2.
pub open spec fn key_upto(b: Seq<int>, n: int) -> int
    decreases n,
{
    if n <= 0 {
        0
    } else {
        3 * key_upto(b, n - 1) + (b[n - 1] + 1)
    }
}

/// The number that stands for a position: its 64 cells read in base 3. Positions
/// are ordered by it as they are cell by cell.
pub open spec fn board_key(b: Seq<int>) -> int {
    key_upto(b, 64)
}

/// `3^n`.
pub open spec fn pow3(n: int) -> int
    decreases n,
{
    if n <= 0 {
        1
    } else {
        3 * pow3(n - 1)
    }
}

/// The first `n` cells of a position read in base 3 stay below `3^n`.
pub proof fn lemma_key_bound(b: Seq<int>, n: int)
    requires
        board_wf(b),
        0 <= n <= 64,
    ensures
        0 <= key_upto(b, n) < pow3(n),
    decreases n,
{
    if n > 0 {
        lemma_key_bound(b, n - 1);
    }
}

/// Powers of 3 grow with the exponent.
pub proof fn lemma_pow3_grows(m: int, n: int)
    requires
        0 <= m <= n,
    ensures
        0 < pow3(m) <= pow3(n),
    decreases n,
{
    if m < n {
        lemma_pow3_grows(m, n - 1);
    } else if n > 0 {
        lemma_pow3_grows(m - 1, n - 1);
    }
}

/// `3^64`, which a `u128` holds.
pub proof fn lemma_pow3_64()
    ensures
        pow3(64) == 3433683820292512484657849089281,
{
    assert(pow3(8) == 6561) by {
        reveal_with_fuel(pow3, 10);
    }
    assert(pow3(16) == 43046721) by {
        reveal_with_fuel(pow3, 9);
    }
    assert(pow3(24) == 282429536481) by {
        reveal_with_fuel(pow3, 9);
    }
    assert(pow3(32) == 1853020188851841) by {
        reveal_with_fuel(pow3, 9);
    }
    assert(pow3(40) == 12157665459056928801) by {
        reveal_with_fuel(pow3, 9);
    }
    assert(pow3(48) == 79766443076872509863361) by {
        reveal_with_fuel(pow3, 9);
    }
    assert(pow3(56) == 523347633027360537213511521) by {
        reveal_with_fuel(pow3, 9);
    }
    assert(pow3(64) == 3433683820292512484657849089281) by {
        reveal_with_fuel(pow3, 9);
    }
}

/// The number whose base-3 digits are the first `n` digits of the 64 digits of `k`.
pub open spec fn key_front(k: int, n: int) -> int
    decreases 64 - n,
{
    if n >= 64 {
        k
    } else {
        key_front(k, n + 1) / 3
    }
}

/// The position that the number `k` stands for.
pub open spec fn board_of(k: int) -> Seq<int> {
    Seq::new(64, |i: int| key_front(k, i + 1) % 3 - 1)
}

/// The leading digits of a number below `3^64` stay below the matching power of 3.
pub proof fn lemma_key_front_bound(k: int, n: int)
    requires
        0 <= k < pow3(64),
        0 <= n <= 64,
    ensures
        0 <= key_front(k, n) < pow3(n),
    decreases 64 - n,
{
    if n < 64 {
        lemma_key_front_bound(k, n + 1);
    }
}

/// Reading the first `n` cells of the position of `k` gives the first `n` digits of `k`.
pub proof fn lemma_key_of_board_upto(k: int, n: int)
    requires
        0 <= k < pow3(64),
        0 <= n <= 64,
    ensures
        key_upto(board_of(k), n) == key_front(k, n),
    decreases n,
{
    if n > 0 {
        lemma_key_of_board_upto(k, n - 1);
        lemma_key_front_bound(k, n);
    } else {
        lemma_key_front_bound(k, 0);
    }
}

/// Every number below `3^64` is the key of the position it stands for.
pub proof fn lemma_key_of_board(k: int)
    requires
        0 <= k < pow3(64),
    ensures
        board_wf(board_of(k)),
        board_key(board_of(k)) == k,
{
    lemma_key_of_board_upto(k, 64);
    assert forall|i: int| 0 <= i < 64 implies -1 <= #[trigger] board_of(k)[i] <= 1 by {
        lemma_key_front_bound(k, i + 1);
    }
}

/// Two positions that agree on their first `n` key digits agree on their first `n` cells.
pub proof fn lemma_key_upto_injective(a: Seq<int>, b: Seq<int>, n: int)
    requires
        board_wf(a),
        board_wf(b),
        0 <= n <= 64,
        key_upto(a, n) == key_upto(b, n),
    ensures
        forall|i: int| 0 <= i < n ==> a[i] == b[i],
    decreases n,
{
    if n > 0 {
        lemma_key_bound(a, n - 1);
        lemma_key_bound(b, n - 1);
        assert(a[n - 1] == b[n - 1]);
        lemma_key_upto_injective(a, b, n - 1);
    }
}

/// Two positions with the same key are the same position.
pub proof fn lemma_key_injective(a: Seq<int>, b: Seq<int>)
    requires
        board_wf(a),
        board_wf(b),
        board_key(a) == board_key(b),
    ensures
        a == b,
{
    lemma_key_upto_injective(a, b, 64);
    assert(a =~= b);
}

/// The first index from `i` on at which two positions differ, or 64 if there is none.
pub open spec fn first_difference(a: Seq<int>, b: Seq<int>, i: int) -> int
    decreases 64 - i,
{
    if i < 0 || i >= 64 {
        64
    } else if a[i] != b[i] {
        i
    } else {
        first_difference(a, b, i + 1)
    }
}

/// Any line's score lies within the weight of four stones.
pub proof fn lemma_line_score_bound(b: Seq<int>, mx: int, my: int, mz: int)
    ensures
        -438976 <= line_score(b, mx, my, mz) <= 438976,
        -438976 <= listed_score(b, mx, my, mz) <= 438976,
{
}

/// The partial sums of the value stay within the weight of four stones per triple.
pub proof fn lemma_score_x_bound(b: Seq<int>, my: int, mz: int, n: int)
    requires
        0 <= n,
    ensures
        -438976 * n <= score_x(b, my, mz, n) <= 438976 * n,
    decreases n,
{
    if n > 0 {
        lemma_score_x_bound(b, my, mz, n - 1);
        lemma_line_score_bound(b, n - 1, my, mz);
    }
}

/// The same, for the partial sums over the y modes.
pub proof fn lemma_score_y_bound(b: Seq<int>, mz: int, n: int)
    requires
        0 <= n,
    ensures
        -2633856 * n <= score_y(b, mz, n) <= 2633856 * n,
    decreases n,
{
    if n > 0 {
        lemma_score_y_bound(b, mz, n - 1);
        lemma_score_x_bound(b, n - 1, mz, 6);
    }
}

/// The same, for the partial sums over the z modes: the value is within `6 * 36` times
/// the weight of four stones.
pub proof fn lemma_score_z_bound(b: Seq<int>, n: int)
    requires
        0 <= n,
    ensures
        -15803136 * n <= score_z(b, n) <= 15803136 * n,
    decreases n,
{
    if n > 0 {
        lemma_score_z_bound(b, n - 1);
        lemma_score_y_bound(b, n - 1, 6);
    }
}

} // verus!
