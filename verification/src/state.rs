//! The position as the program holds it, and what can be done with it.
use crate::board::{
    board_key, board_of, board_value, board_wf, board_win, children, children_upto, column_at,
    dropped, empty_board, first_difference, grounded, height, is_side, key_front, key_upto,
    lemma_key_bound, lemma_key_of_board, lemma_line_score_bound, lemma_pow3_64, lemma_pow3_grows,
    lemma_score_x_bound, lemma_score_y_bound, lemma_score_z_bound, line_held, line_score, pow3,
    score_x, score_y, score_z, source_cell, stones, swapped, symmetric, weight,
};
use crate::laws::{
    lemma_children_wf, lemma_drop_keeps_grounded, lemma_empty_grounded, lemma_no_difference,
    lemma_swap_keeps_grounded, lemma_swap_negates_value, lemma_swap_win, lemma_win_by_listed,
};
use crate::lines::{cell_on_line, is_listed, listed};
use crate::symmetry::{
    lemma_symmetry_keeps_grounded, lemma_symmetry_keeps_value, lemma_symmetry_keeps_win,
};
use core::cmp::Ordering;
use vstd::prelude::*;
use vstd::std_specs::cmp::{PartialEqSpecImpl, PartialOrdSpecImpl};

verus! {

/// A snapshot of the 4x4x4 lattice: cell `x + 4*y + 16*z` holds `0` when empty,
/// `1` for the side called "me" and `-1` for the opponent.
#[derive(Clone, Copy, Debug, Eq, Ord)]
pub struct State {
    cells: [i32; 64],
}

impl View for State {
    type V = Seq<int>;

    closed spec fn view(&self) -> Seq<int> {
        Seq::new(64, |i: int| self.cells@[i] as int)
    }
}

impl PartialEq for State {
    /// Two positions are equal when all their cells are.
    fn eq(&self, other: &State) -> (r: bool) {
        let i = self.differs_at(other);
        proof {
            lemma_no_difference(self@, other@, 0);
            if i == 64 {
                assert(self@ =~= other@);
            }
        }
        i == 64
    }
}

impl PartialEqSpecImpl for State {
    open spec fn obeys_eq_spec() -> bool {
        true
    }

    open spec fn eq_spec(&self, other: &State) -> bool {
        self@ == other@
    }
}

impl PartialOrd for State {
    /// Positions are ordered cell by cell: the first cell that differs decides.
    fn partial_cmp(&self, other: &State) -> (r: Option<Ordering>) {
        let i = self.differs_at(other);
        if i == 64 {
            Some(Ordering::Equal)
        } else if self.cell(i) < other.cell(i) {
            Some(Ordering::Less)
        } else {
            Some(Ordering::Greater)
        }
    }
}

impl PartialOrdSpecImpl for State {
    open spec fn obeys_partial_cmp_spec() -> bool {
        true
    }

    open spec fn partial_cmp_spec(&self, other: &State) -> Option<Ordering> {
        let i = first_difference(self@, other@, 0);
        if i >= 64 {
            Some(Ordering::Equal)
        } else if self@[i] < other@[i] {
            Some(Ordering::Less)
        } else {
            Some(Ordering::Greater)
        }
    }
}

/// Executable form of [`weight`].
fn stone_weight(n: i32) -> (w: i32)
    ensures
        w == weight(n as int),
{
    if n == 1 {
        1
    } else if n == 2 {
        76
    } else if n == 3 {
        5776
    } else if n == 4 {
        438976
    } else {
        0
    }
}

/// The cell that symmetry `id` reads from, for the cell it writes at `i`.
fn source_of(id: usize, i: usize) -> (c: usize)
    requires
        id < 8,
        i < 64,
    ensures
        c == source_cell(id as int, i as int),
        c < 64,
{
    let x = i % 4;
    let y = (i / 4) % 4;
    let z = i / 16;
    let sx = if id == 0 || id == 1 {
        x
    } else if id == 2 || id == 5 {
        3 - x
    } else if id == 3 || id == 7 {
        3 - y
    } else {
        y
    };
    let sy = if id == 0 || id == 2 {
        y
    } else if id == 1 || id == 5 {
        3 - y
    } else if id == 3 || id == 6 {
        x
    } else {
        3 - x
    };
    sx + 4 * sy + 16 * z
}

impl State {
    /// The value holds a position: every cell is empty or holds a stone of a side.
    pub open spec fn wf(&self) -> bool {
        board_wf(self@)
    }

    /// The position with no stone on it.
    pub fn new() -> (s: State)
        ensures
            s.wf(),
            s@ == empty_board(),
            s@.len() == 64,
            grounded(s@),
    {
        proof {
            lemma_empty_grounded();
        }
        let s = State { cells: [0i32; 64] };
        assert(s@ =~= empty_board());
        s
    }

    /// The cell in column `(x, y)` at height `z`: `0` if empty, else the side that holds it.
    pub fn get(&self, x: usize, y: usize, z: usize) -> (c: i32)
        requires
            x < 4,
            y < 4,
            z < 4,
        ensures
            c == self@[x + 4 * y + 16 * z],
    {
        self.cells[x + 4 * y + 16 * z]
    }

    /// Drops a stone of `player` into column `(x, y)`: it takes the lowest empty cell.
    /// Returns whether the column had one; a full column leaves the position as it was.
    pub fn add(&mut self, x: usize, y: usize, player: i32) -> (ok: bool)
        requires
            x < 4,
            y < 4,
        ensures
            ok == (height(old(self)@, x + 4 * y) < 4),
            final(self)@ == dropped(old(self)@, x + 4 * y, player as int),
            old(self).wf() && is_side(player as int) ==> final(self).wf(),
            grounded(old(self)@) && player != 0 ==> grounded(final(self)@),
    {
        let mut z: usize = 0;
        while z < 4
            invariant
                x < 4,
                y < 4,
                z <= 4,
                *self == *old(self),
                z <= height(self@, x + 4 * y),
            decreases 4 - z,
        {
            if self.get(x, y, z) == 0 {
                proof {
                    if grounded(self@) && player != 0 {
                        lemma_drop_keeps_grounded(self@, x + 4 * y, player as int);
                    }
                }
                self.set_cell(x + 4 * y + 16 * z, player);
                return true;
            }
            z += 1;
        }
        false
    }

    /// The position turned or mirrored by the `id`-th symmetry of the square, the
    /// same on every layer.
    pub fn symmetry(&self, id: usize) -> (s: State)
        requires
            id < 8,
        ensures
            s@ == symmetric(id as int, self@),
            self.wf() ==> s.wf(),
            grounded(self@) ==> grounded(s@),
            board_value(s@) == board_value(self@),
            forall|who: int| #[trigger] board_win(s@, who) == board_win(self@, who),
    {
        proof {
            if grounded(self@) {
                lemma_symmetry_keeps_grounded(id as int, self@);
            }
            lemma_symmetry_keeps_value(id as int, self@);
            assert forall|who: int| #[trigger]
                board_win(symmetric(id as int, self@), who) == board_win(self@, who) by {
                lemma_symmetry_keeps_win(id as int, self@, who);
            }
        }
        let mut s = State::new();
        let mut i: usize = 0;
        while i < 64
            invariant
                id < 8,
                i <= 64,
                forall|k: int| 0 <= k < i ==> s@[k] == self@[source_cell(id as int, k)],
            decreases 64 - i,
        {
            s.set_cell(i, self.cell(source_of(id, i)));
            i += 1;
        }
        assert(s@ =~= symmetric(id as int, self@));
        s
    }

    /// The eight symmetric images of the position, the identity first.
    pub fn symmetries(&self) -> (r: Vec<State>)
        ensures
            r.len() == 8,
            forall|id: int| 0 <= id < 8 ==> (#[trigger] r[id])@ == symmetric(id, self@),
    {
        let mut r: Vec<State> = Vec::new();
        let mut id: usize = 0;
        while id < 8
            invariant
                id <= 8,
                r.len() == id,
                forall|k: int| 0 <= k < id ==> (#[trigger] r[k])@ == symmetric(k, self@),
            decreases 8 - id,
        {
            r.push(self.symmetry(id));
            id += 1;
        }
        r
    }

    /// Exchanges the two sides: every cell is negated.
    pub fn swap(&mut self)
        requires
            old(self).wf(),
        ensures
            final(self)@ == swapped(old(self)@),
            final(self).wf(),
            grounded(old(self)@) ==> grounded(final(self)@),
            board_value(final(self)@) == -board_value(old(self)@),
            forall|who: int| #[trigger] board_win(final(self)@, who) == board_win(old(self)@, -who),
    {
        proof {
            if grounded(self@) {
                lemma_swap_keeps_grounded(self@);
            }
            lemma_swap_negates_value(self@);
            assert forall|who: int| #[trigger]
                board_win(swapped(self@), who) == board_win(self@, -who) by {
                lemma_swap_win(self@, who);
            }
        }
        let mut i: usize = 0;
        while i < 64
            invariant
                i <= 64,
                old(self).wf(),
                forall|k: int| 0 <= k < i ==> self@[k] == -old(self)@[k],
                forall|k: int| i <= k < 64 ==> self@[k] == old(self)@[k],
            decreases 64 - i,
        {
            assert(-1 <= old(self)@[i as int] <= 1);
            self.set_cell(i, -self.cell(i));
            i += 1;
        }
        assert(self@ =~= swapped(old(self)@));
    }

    /// Whether `player` holds all four cells of some line.
    pub fn win(&self, player: i32) -> (w: bool)
        ensures
            w == board_win(self@, player as int),
    {
        let mut mz: usize = 0;
        while mz < 6
            invariant
                mz <= 6,
                forall|ax: int, ay: int, az: int|
                    0 <= ax < 6 && 0 <= ay < 6 && 0 <= az < mz ==> !(listed(ax, ay, az)
                        && #[trigger] line_held(self@, ax, ay, az, player as int)),
            decreases 6 - mz,
        {
            let mut my: usize = 0;
            while my < 6
                invariant
                    mz < 6,
                    my <= 6,
                    forall|ax: int, ay: int, az: int|
                        0 <= ax < 6 && 0 <= ay < 6 && 0 <= az < mz ==> !(listed(ax, ay, az)
                            && #[trigger] line_held(self@, ax, ay, az, player as int)),
                    forall|ax: int, ay: int|
                        0 <= ax < 6 && 0 <= ay < my ==> !(listed(ax, ay, mz as int)
                            && #[trigger] line_held(self@, ax, ay, mz as int, player as int)),
                decreases 6 - my,
            {
                let mut mx: usize = 0;
                while mx < 6
                    invariant
                        mz < 6,
                        my < 6,
                        mx <= 6,
                        forall|ax: int|
                            0 <= ax < mx ==> !(listed(ax, my as int, mz as int)
                                && #[trigger] line_held(
                                self@,
                                ax,
                                my as int,
                                mz as int,
                                player as int,
                            )),
                    decreases 6 - mx,
                {
                    if is_listed(mx, my, mz) && self.line_stones(mx, my, mz, player) == 4 {
                        assert(line_held(self@, mx as int, my as int, mz as int, player as int));
                        return true;
                    }
                    mx += 1;
                }
                my += 1;
            }
            mz += 1;
        }
        proof {
            lemma_win_by_listed(self@, player as int);
        }
        false
    }

    /// The positions that `player` can reach by one move: one for every column whose
    /// top cell is empty, in playing order (x first, then y).
    pub fn possibilities(&self, player: i32) -> (r: Vec<State>)
        ensures
            r.len() == children(self@, player as int).len(),
            forall|k: int|
                0 <= k < r.len() ==> (#[trigger] r[k])@ == children(self@, player as int)[k],
            self.wf() && is_side(player as int) ==> forall|k: int|
                0 <= k < r.len() ==> (#[trigger] r[k]).wf(),
            self.wf() && is_side(player as int) && grounded(self@) ==> forall|k: int|
                0 <= k < r.len() ==> grounded((#[trigger] r[k])@),
    {
        proof {
            if self.wf() && is_side(player as int) {
                lemma_children_wf(self@, player as int, 16);
            }
        }
        let mut r: Vec<State> = Vec::new();
        let mut x: usize = 0;
        while x < 4
            invariant
                x <= 4,
                r.len() == children_upto(self@, player as int, 4 * x as int).len(),
                forall|k: int|
                    0 <= k < r.len() ==> (#[trigger] r[k])@ == children_upto(
                        self@,
                        player as int,
                        4 * x as int,
                    )[k],
                self.wf() && is_side(player as int) ==> forall|k: int|
                    0 <= k < r.len() ==> (#[trigger] r[k]).wf(),
            decreases 4 - x,
        {
            let mut y: usize = 0;
            while y < 4
                invariant
                    x < 4,
                    y <= 4,
                    r.len() == children_upto(self@, player as int, 4 * x as int + y as int).len(),
                    forall|k: int|
                        0 <= k < r.len() ==> (#[trigger] r[k])@ == children_upto(
                            self@,
                            player as int,
                            4 * x as int + y as int,
                        )[k],
                    self.wf() && is_side(player as int) ==> forall|k: int|
                        0 <= k < r.len() ==> (#[trigger] r[k]).wf(),
                decreases 4 - y,
            {
                assert(column_at(4 * x as int + y as int) == x + 4 * y);
                if self.get(x, y, 3) == 0 {
                    let mut copy = *self;
                    copy.add(x, y, player);
                    r.push(copy);
                }
                y += 1;
            }
            x += 1;
        }
        r
    }

    /// The number that stands for the position in an ordered map: its cells read in
    /// base 3. Two positions have the same key only if they are the same, and the
    /// keys are ordered as the positions are, cell by cell.
    pub fn key(&self) -> (k: u128)
        requires
            self.wf(),
        ensures
            k == board_key(self@),
    {
        let mut k: u128 = 0;
        let mut i: usize = 0;
        while i < 64
            invariant
                i <= 64,
                self.wf(),
                k == key_upto(self@, i as int),
            decreases 64 - i,
        {
            proof {
                lemma_key_bound(self@, i as int);
                lemma_key_bound(self@, i as int + 1);
                lemma_pow3_grows(i as int + 1, 64);
                lemma_pow3_64();
            }
            let c = self.cell(i);
            let digit: u128 = if c == 1 {
                2
            } else if c == 0 {
                1
            } else {
                0
            };
            k = 3 * k + digit;
            i += 1;
        }
        k
    }

    /// The position that the number `k` stands for, if it stands for one: the
    /// reverse of [`State::key`].
    pub fn from_key(k: u128) -> (r: Option<State>)
        ensures
            r is Some == (k < pow3(64)),
            r matches Some(s) ==> s.wf() && s@ == board_of(k as int) && board_key(s@) == k,
    {
        proof {
            lemma_pow3_64();
        }
        if k >= 3433683820292512484657849089281 {
            return None;
        }
        let mut s = State::new();
        let mut q: u128 = k;
        let mut n: usize = 64;
        while n > 0
            invariant
                n <= 64,
                q == key_front(k as int, n as int),
                forall|i: int| n <= i < 64 ==> s@[i] == key_front(k as int, i + 1) % 3 - 1,
                s@.len() == 64,
            decreases n,
        {
            let digit = q % 3;
            let c: i32 = if digit == 2 {
                1
            } else if digit == 1 {
                0
            } else {
                -1
            };
            s.set_cell(n - 1, c);
            q = q / 3;
            n -= 1;
        }
        proof {
            assert(s@ =~= board_of(k as int));
            lemma_key_of_board(k as int);
        }
        Some(s)
    }

    /// The first index at which the two positions differ, or 64 if they are the same.
    fn differs_at(&self, other: &State) -> (i: usize)
        ensures
            i == first_difference(self@, other@, 0),
            i <= 64,
    {
        let mut i: usize = 0;
        while i < 64
            invariant
                i <= 64,
                first_difference(self@, other@, 0) == first_difference(self@, other@, i as int),
            decreases 64 - i,
        {
            if self.cell(i) != other.cell(i) {
                return i;
            }
            i += 1;
        }
        i
    }

    /// The cell at index `i`.
    fn cell(&self, i: usize) -> (c: i32)
        requires
            i < 64,
        ensures
            c == self@[i as int],
    {
        self.cells[i]
    }

    /// Overwrites the cell at index `i`.
    fn set_cell(&mut self, i: usize, v: i32)
        requires
            i < 64,
        ensures
            final(self)@ == old(self)@.update(i as int, v as int),
    {
        self.cells[i] = v;
        assert(self@ =~= old(self)@.update(i as int, v as int));
    }

    /// How many cells of a line hold `who`.
    fn line_stones(&self, mx: usize, my: usize, mz: usize, who: i32) -> (n: i32)
        requires
            mx < 6,
            my < 6,
            mz < 6,
        ensures
            n == stones(self@, mx as int, my as int, mz as int, who as int),
            0 <= n <= 4,
    {
        let mut n: i32 = 0;
        if self.cells[cell_on_line(mx, my, mz, 0)] == who {
            n += 1;
        }
        if self.cells[cell_on_line(mx, my, mz, 1)] == who {
            n += 1;
        }
        if self.cells[cell_on_line(mx, my, mz, 2)] == who {
            n += 1;
        }
        if self.cells[cell_on_line(mx, my, mz, 3)] == who {
            n += 1;
        }
        n
    }

    /// The score of one line.
    fn line_value(&self, mx: usize, my: usize, mz: usize) -> (v: i32)
        requires
            mx < 6,
            my < 6,
            mz < 6,
        ensures
            v == line_score(self@, mx as int, my as int, mz as int),
    {
        let me = self.line_stones(mx, my, mz, 1);
        let op = self.line_stones(mx, my, mz, -1);
        let mut v: i32 = 0;
        if op == 0 {
            v += stone_weight(me);
        }
        if me == 0 {
            v -= stone_weight(op);
        }
        v
    }

    /// The static value of the position, seen by side `1`: every line that holds
    /// stones of one side only counts `76^(n-1)` for that side's `n` stones on it,
    /// added for side `1` and subtracted for side `-1`.
    pub fn value(&self) -> (v: i32)
        ensures
            v == board_value(self@),
    {
        let mut v: i32 = 0;
        let mut mz: usize = 0;
        while mz < 6
            invariant
                mz <= 6,
                v == score_z(self@, mz as int),
            decreases 6 - mz,
        {
            let mut my: usize = 0;
            while my < 6
                invariant
                    mz < 6,
                    my <= 6,
                    v == score_z(self@, mz as int) + score_y(self@, mz as int, my as int),
                decreases 6 - my,
            {
                let mut mx: usize = 0;
                while mx < 6
                    invariant
                        mz < 6,
                        my < 6,
                        mx <= 6,
                        v == score_z(self@, mz as int) + score_y(self@, mz as int, my as int)
                            + score_x(self@, my as int, mz as int, mx as int),
                    decreases 6 - mx,
                {
                    proof {
                        lemma_score_z_bound(self@, mz as int);
                        lemma_score_y_bound(self@, mz as int, my as int);
                        lemma_score_x_bound(self@, my as int, mz as int, mx as int);
                        lemma_line_score_bound(self@, mx as int, my as int, mz as int);
                    }
                    if is_listed(mx, my, mz) {
                        v += self.line_value(mx, my, mz);
                    }
                    mx += 1;
                }
                my += 1;
            }
            mz += 1;
        }
        v
    }
}

} // verus!
