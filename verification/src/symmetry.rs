//! The eight symmetries of the square leave the game as it is: a mirror image of a
//! position has the same value, and the same side has won in it.
use crate::board::{
    board_value, board_win, column_at, grounded, grounded_column, line_held, line_score,
    listed_score, score_x, score_y, score_z, source_cell, source_x, source_y, stones, symmetric,
};
use crate::laws::lemma_turned_line;
use crate::lines::{coord, in_lattice, line_cell, modes_ok, moving, turned};
use vstd::prelude::*;

verus! {

/// The mode of an axis after the axis is mirrored.
pub open spec fn mirrored(m: int) -> int {
    if m < 4 {
        3 - m
    } else if m == 4 {
        5
    } else {
        4
    }
}

/// The x mode of the line that a line of the `id`-th mirror image comes from.
pub open spec fn image_mx(id: int, mx: int, my: int) -> int {
    if id == 0 || id == 1 {
        mx
    } else if id == 2 || id == 5 {
        mirrored(mx)
    } else if id == 3 || id == 7 {
        mirrored(my)
    } else {
        my
    }
}

/// The y mode of the line that a line of the `id`-th mirror image comes from.
pub open spec fn image_my(id: int, mx: int, my: int) -> int {
    if id == 0 || id == 2 {
        my
    } else if id == 1 || id == 5 {
        mirrored(my)
    } else if id == 3 || id == 6 {
        mx
    } else {
        mirrored(mx)
    }
}

/// The symmetry that undoes the `id`-th: the two quarter turns undo each other, every
/// other symmetry undoes itself.
pub open spec fn inverse(id: int) -> int {
    if id == 3 {
        4
    } else if id == 4 {
        3
    } else {
        id
    }
}

/// The score of a triple of modes whatever way it is walked, and nothing for a triple
/// without a moving axis.
pub open spec fn moving_score(b: Seq<int>, mx: int, my: int, mz: int) -> int {
    if moving(mx, my, mz) {
        line_score(b, mx, my, mz)
    } else {
        0
    }
}

/// The sum of `f` over the x modes below `n`, for a fixed y mode.
pub open spec fn row(f: spec_fn(int, int) -> int, y: int, n: int) -> int
    decreases n,
{
    if n <= 0 {
        0
    } else {
        row(f, y, n - 1) + f(n - 1, y)
    }
}

/// The sum of `f` over all x modes and the y modes below `n`.
pub open spec fn grid(f: spec_fn(int, int) -> int, n: int) -> int
    decreases n,
{
    if n <= 0 {
        0
    } else {
        grid(f, n - 1) + row(f, n - 1, 6)
    }
}

/// The sum of `f` over one row of six modes, written out.
pub open spec fn row6(f: spec_fn(int, int) -> int, y: int) -> int {
    f(0, y) + f(1, y) + f(2, y) + f(3, y) + f(4, y) + f(5, y)
}

/// The sum of `f` over all 36 pairs of modes, written out.
pub open spec fn grid36(f: spec_fn(int, int) -> int) -> int {
    row6(f, 0) + row6(f, 1) + row6(f, 2) + row6(f, 3) + row6(f, 4) + row6(f, 5)
}

/// The sum over all pairs of modes is the written-out sum.
pub proof fn lemma_grid36(f: spec_fn(int, int) -> int)
    ensures
        grid(f, 6) == grid36(f),
{
    assert forall|y: int| row(f, y, 6) == #[trigger] row6(f, y) by {
        reveal_with_fuel(row, 7);
    }
    assert(grid(f, 6) == row(f, 0, 6) + row(f, 1, 6) + row(f, 2, 6) + row(f, 3, 6) + row(f, 4, 6)
        + row(f, 5, 6)) by {
        reveal_with_fuel(grid, 7);
    }
}

/// The listed scores of one layer, as a function of the x and y modes.
pub open spec fn listed_layer(b: Seq<int>, mz: int) -> spec_fn(int, int) -> int {
    |mx: int, my: int| listed_score(b, mx, my, mz)
}

/// The scores of one layer whatever way the lines are walked, as a function of the x and
/// y modes.
pub open spec fn moving_layer(b: Seq<int>, mz: int) -> spec_fn(int, int) -> int {
    |mx: int, my: int| moving_score(b, mx, my, mz)
}

/// The listed scores of a row are the sum over its pairs of modes.
pub proof fn lemma_score_x_is_row(b: Seq<int>, my: int, mz: int, n: int)
    ensures
        score_x(b, my, mz, n) == row(listed_layer(b, mz), my, n),
    decreases n,
{
    if n > 0 {
        lemma_score_x_is_row(b, my, mz, n - 1);
    }
}

/// The listed scores of a layer, summed row by row, are the sum over its pairs of modes.
pub proof fn lemma_score_y_is_grid(b: Seq<int>, mz: int, n: int)
    ensures
        score_y(b, mz, n) == grid(listed_layer(b, mz), n),
    decreases n,
{
    if n > 0 {
        lemma_score_y_is_grid(b, mz, n - 1);
        lemma_score_x_is_row(b, n - 1, mz, 6);
    }
}

/// A triple scores, whatever way it is walked, what it scores as listed and what its
/// reverse scores as listed: one of the two is listed if an axis moves, none if not.
pub proof fn lemma_moving_is_listed_twice(b: Seq<int>, mx: int, my: int, mz: int)
    requires
        modes_ok(mx, my, mz),
    ensures
        moving_score(b, mx, my, mz) == listed_score(b, mx, my, mz) + listed_score(
            b,
            turned(mx),
            turned(my),
            turned(mz),
        ),
{
    lemma_turned_line(b, mx, my, mz, 1);
    lemma_turned_line(b, mx, my, mz, -1);
}

/// If `m` is, at every pair of modes, `l` there and `r` at the pair walked the other
/// way, then the sum of `m` is the sum of `l` and the sum of `r`.
pub proof fn lemma_grid_halves(
    m: spec_fn(int, int) -> int,
    l: spec_fn(int, int) -> int,
    r: spec_fn(int, int) -> int,
)
    requires
        forall|x: int, y: int|
            0 <= x < 6 && 0 <= y < 6 ==> #[trigger] m(x, y) == l(x, y) + r(turned(x), turned(y)),
    ensures
        grid(m, 6) == grid(l, 6) + grid(r, 6),
{
    lemma_grid36(m);
    lemma_grid36(l);
    lemma_grid36(r);
    assert(row6(m, 0) == row6(l, 0) + row6(r, 0));
    assert(row6(m, 1) == row6(l, 1) + row6(r, 1));
    assert(row6(m, 2) == row6(l, 2) + row6(r, 2));
    assert(row6(m, 3) == row6(l, 3) + row6(r, 3));
    assert(row6(m, 4) == row6(l, 4) + row6(r, 5));
    assert(row6(m, 5) == row6(l, 5) + row6(r, 4));
}

/// In one layer, the scores of the lines whatever way they are walked add up to the
/// listed scores of the layer and of the layer walked the other way.
pub proof fn lemma_layer_halves(b: Seq<int>, mz: int)
    requires
        0 <= mz < 6,
    ensures
        grid(moving_layer(b, mz), 6) == grid(listed_layer(b, mz), 6) + grid(
            listed_layer(b, turned(mz)),
            6,
        ),
{
    let m = moving_layer(b, mz);
    let l = listed_layer(b, mz);
    let r = listed_layer(b, turned(mz));
    assert forall|x: int, y: int| 0 <= x < 6 && 0 <= y < 6 implies #[trigger] m(x, y) == l(x, y)
        + r(turned(x), turned(y)) by {
        lemma_moving_is_listed_twice(b, x, y, mz);
    }
    lemma_grid_halves(m, l, r);
}

/// Twice the value is the sum, over all layers, of the scores of the lines whatever
/// way they are walked.
pub proof fn lemma_value_twice(b: Seq<int>)
    ensures
        2 * board_value(b) == grid(moving_layer(b, 0), 6) + grid(moving_layer(b, 1), 6) + grid(
            moving_layer(b, 2),
            6,
        ) + grid(moving_layer(b, 3), 6) + grid(moving_layer(b, 4), 6) + grid(
            moving_layer(b, 5),
            6,
        ),
{
    assert(board_value(b) == score_y(b, 0, 6) + score_y(b, 1, 6) + score_y(b, 2, 6) + score_y(
        b,
        3,
        6,
    ) + score_y(b, 4, 6) + score_y(b, 5, 6)) by {
        reveal_with_fuel(score_z, 7);
    }
    lemma_score_y_is_grid(b, 0, 6);
    lemma_score_y_is_grid(b, 1, 6);
    lemma_score_y_is_grid(b, 2, 6);
    lemma_score_y_is_grid(b, 3, 6);
    lemma_score_y_is_grid(b, 4, 6);
    lemma_score_y_is_grid(b, 5, 6);
    lemma_layer_halves(b, 0);
    lemma_layer_halves(b, 1);
    lemma_layer_halves(b, 2);
    lemma_layer_halves(b, 3);
    lemma_layer_halves(b, 4);
    lemma_layer_halves(b, 5);
}

/// The coordinates of a cell give its number back.
pub proof fn lemma_cell_to_point(i: int)
    requires
        0 <= i < 64,
    ensures
        in_lattice(i % 4, (i / 4) % 4, i / 16),
        i == i % 4 + 4 * ((i / 4) % 4) + 16 * (i / 16),
{
}

/// The number of a cell gives its coordinates back.
pub proof fn lemma_point_to_cell(x: int, y: int, z: int)
    requires
        in_lattice(x, y, z),
    ensures
        (x + 4 * y + 16 * z) % 4 == x,
        ((x + 4 * y + 16 * z) / 4) % 4 == y,
        (x + 4 * y + 16 * z) / 16 == z,
{
}

/// Where a symmetry reads from, by coordinates.
pub proof fn lemma_source_of_point(id: int, x: int, y: int, z: int)
    requires
        0 <= id < 8,
        in_lattice(x, y, z),
    ensures
        source_cell(id, x + 4 * y + 16 * z) == source_x(id, x, y) + 4 * source_y(id, x, y) + 16
            * z,
        in_lattice(source_x(id, x, y), source_y(id, x, y), z),
{
    lemma_point_to_cell(x, y, z);
}

/// A line of a mirror image passes the cells that its image line passes in the
/// position: it holds the same stones and scores the same.
pub proof fn lemma_image_line(id: int, b: Seq<int>, mx: int, my: int, mz: int, who: int)
    requires
        b.len() == 64,
        0 <= id < 8,
        modes_ok(mx, my, mz),
    ensures
        modes_ok(image_mx(id, mx, my), image_my(id, mx, my), mz),
        moving(image_mx(id, mx, my), image_my(id, mx, my), mz) == moving(mx, my, mz),
        stones(symmetric(id, b), mx, my, mz, who) == stones(
            b,
            image_mx(id, mx, my),
            image_my(id, mx, my),
            mz,
            who,
        ),
{
    let ix = image_mx(id, mx, my);
    let iy = image_my(id, mx, my);
    lemma_source_of_point(id, coord(mx, 0), coord(my, 0), coord(mz, 0));
    lemma_source_of_point(id, coord(mx, 1), coord(my, 1), coord(mz, 1));
    lemma_source_of_point(id, coord(mx, 2), coord(my, 2), coord(mz, 2));
    lemma_source_of_point(id, coord(mx, 3), coord(my, 3), coord(mz, 3));
    assert(source_cell(id, line_cell(mx, my, mz, 0)) == line_cell(ix, iy, mz, 0));
    assert(source_cell(id, line_cell(mx, my, mz, 1)) == line_cell(ix, iy, mz, 1));
    assert(source_cell(id, line_cell(mx, my, mz, 2)) == line_cell(ix, iy, mz, 2));
    assert(source_cell(id, line_cell(mx, my, mz, 3)) == line_cell(ix, iy, mz, 3));
}

/// In a mirror image a triple scores, whatever way it is walked, what its image scores
/// in the position.
pub proof fn lemma_image_score(id: int, b: Seq<int>, mx: int, my: int, mz: int)
    requires
        b.len() == 64,
        0 <= id < 8,
        modes_ok(mx, my, mz),
    ensures
        moving_score(symmetric(id, b), mx, my, mz) == moving_score(
            b,
            image_mx(id, mx, my),
            image_my(id, mx, my),
            mz,
        ),
{
    lemma_image_line(id, b, mx, my, mz, 1);
    lemma_image_line(id, b, mx, my, mz, -1);
}

/// Two functions that agree on the pairs of modes have the same sum.
pub proof fn lemma_grid_same(f: spec_fn(int, int) -> int, g: spec_fn(int, int) -> int)
    requires
        forall|x: int, y: int| 0 <= x < 6 && 0 <= y < 6 ==> #[trigger] f(x, y) == g(x, y),
    ensures
        grid(f, 6) == grid(g, 6),
{
    lemma_grid36(f);
    lemma_grid36(g);
    assert(row6(f, 0) == row6(g, 0));
    assert(row6(f, 1) == row6(g, 1));
    assert(row6(f, 2) == row6(g, 2));
    assert(row6(f, 3) == row6(g, 3));
    assert(row6(f, 4) == row6(g, 4));
    assert(row6(f, 5) == row6(g, 5));
}

/// `f` with its x axis mirrored.
pub open spec fn mirror_x(f: spec_fn(int, int) -> int) -> spec_fn(int, int) -> int {
    |x: int, y: int| f(mirrored(x), y)
}

/// `f` with its y axis mirrored.
pub open spec fn mirror_y(f: spec_fn(int, int) -> int) -> spec_fn(int, int) -> int {
    |x: int, y: int| f(x, mirrored(y))
}

/// `f` with its axes exchanged.
pub open spec fn exchanged(f: spec_fn(int, int) -> int) -> spec_fn(int, int) -> int {
    |x: int, y: int| f(y, x)
}

/// Mirroring the x axis leaves the sum as it is.
pub proof fn lemma_grid_mirror_x(f: spec_fn(int, int) -> int)
    ensures
        grid(mirror_x(f), 6) == grid(f, 6),
{
    let g = mirror_x(f);
    lemma_grid36(f);
    lemma_grid36(g);
    assert(row6(g, 0) == row6(f, 0));
    assert(row6(g, 1) == row6(f, 1));
    assert(row6(g, 2) == row6(f, 2));
    assert(row6(g, 3) == row6(f, 3));
    assert(row6(g, 4) == row6(f, 4));
    assert(row6(g, 5) == row6(f, 5));
}

/// Mirroring the y axis leaves the sum as it is.
pub proof fn lemma_grid_mirror_y(f: spec_fn(int, int) -> int)
    ensures
        grid(mirror_y(f), 6) == grid(f, 6),
{
    let g = mirror_y(f);
    lemma_grid36(f);
    lemma_grid36(g);
    assert(row6(g, 0) == row6(f, 3));
    assert(row6(g, 1) == row6(f, 2));
    assert(row6(g, 2) == row6(f, 1));
    assert(row6(g, 3) == row6(f, 0));
    assert(row6(g, 4) == row6(f, 5));
    assert(row6(g, 5) == row6(f, 4));
}

/// Exchanging the axes leaves the sum as it is.
pub proof fn lemma_grid_exchanged(f: spec_fn(int, int) -> int)
    ensures
        grid(exchanged(f), 6) == grid(f, 6),
{
    let g = exchanged(f);
    lemma_grid36(f);
    lemma_grid36(g);
    assert(row6(g, 0) == f(0, 0) + f(0, 1) + f(0, 2) + f(0, 3) + f(0, 4) + f(0, 5));
    assert(row6(g, 1) == f(1, 0) + f(1, 1) + f(1, 2) + f(1, 3) + f(1, 4) + f(1, 5));
    assert(row6(g, 2) == f(2, 0) + f(2, 1) + f(2, 2) + f(2, 3) + f(2, 4) + f(2, 5));
    assert(row6(g, 3) == f(3, 0) + f(3, 1) + f(3, 2) + f(3, 3) + f(3, 4) + f(3, 5));
    assert(row6(g, 4) == f(4, 0) + f(4, 1) + f(4, 2) + f(4, 3) + f(4, 4) + f(4, 5));
    assert(row6(g, 5) == f(5, 0) + f(5, 1) + f(5, 2) + f(5, 3) + f(5, 4) + f(5, 5));
}

/// The scores of a layer, read at the image of each pair of modes under symmetry `id`.
pub open spec fn image_layer(id: int, m: spec_fn(int, int) -> int) -> spec_fn(int, int) -> int {
    if id == 0 {
        m
    } else if id == 1 {
        mirror_y(m)
    } else if id == 2 {
        mirror_x(m)
    } else if id == 3 {
        exchanged(mirror_x(m))
    } else if id == 4 {
        exchanged(mirror_y(m))
    } else if id == 5 {
        mirror_x(mirror_y(m))
    } else if id == 6 {
        exchanged(m)
    } else {
        exchanged(mirror_x(mirror_y(m)))
    }
}

/// Reading a layer at the images of the pairs of modes leaves its sum as it is.
pub proof fn lemma_grid_image(id: int, m: spec_fn(int, int) -> int)
    requires
        0 <= id < 8,
    ensures
        grid(image_layer(id, m), 6) == grid(m, 6),
        forall|x: int, y: int|
            0 <= x < 6 && 0 <= y < 6 ==> #[trigger] image_layer(id, m)(x, y) == m(
                image_mx(id, x, y),
                image_my(id, x, y),
            ),
{
    lemma_grid_mirror_x(m);
    lemma_grid_mirror_y(m);
    lemma_grid_exchanged(m);
    lemma_grid_exchanged(mirror_x(m));
    lemma_grid_exchanged(mirror_y(m));
    lemma_grid_mirror_x(mirror_y(m));
    lemma_grid_exchanged(mirror_x(mirror_y(m)));
}

/// A layer of a mirror image scores what the layer scores in the position.
pub proof fn lemma_image_layer(id: int, b: Seq<int>, mz: int)
    requires
        b.len() == 64,
        0 <= id < 8,
        0 <= mz < 6,
    ensures
        grid(moving_layer(symmetric(id, b), mz), 6) == grid(moving_layer(b, mz), 6),
{
    let s = moving_layer(symmetric(id, b), mz);
    let m = moving_layer(b, mz);
    lemma_grid_image(id, m);
    assert forall|x: int, y: int| 0 <= x < 6 && 0 <= y < 6 implies #[trigger] s(x, y)
        == image_layer(id, m)(x, y) by {
        lemma_image_score(id, b, x, y, mz);
    }
    lemma_grid_same(s, image_layer(id, m));
}

/// A mirror image of a position has the value of the position.
pub proof fn lemma_symmetry_keeps_value(id: int, b: Seq<int>)
    requires
        b.len() == 64,
        0 <= id < 8,
    ensures
        board_value(symmetric(id, b)) == board_value(b),
{
    lemma_value_twice(b);
    lemma_value_twice(symmetric(id, b));
    lemma_image_layer(id, b, 0);
    lemma_image_layer(id, b, 1);
    lemma_image_layer(id, b, 2);
    lemma_image_layer(id, b, 3);
    lemma_image_layer(id, b, 4);
    lemma_image_layer(id, b, 5);
}

/// Reading through a symmetry and then through the one that undoes it reads the cell itself.
pub proof fn lemma_source_undone(id: int, i: int)
    requires
        0 <= id < 8,
        0 <= i < 64,
    ensures
        0 <= source_cell(id, i) < 64,
        source_cell(inverse(id), source_cell(id, i)) == i,
{
    lemma_cell_to_point(i);
    let x = i % 4;
    let y = (i / 4) % 4;
    let z = i / 16;
    lemma_source_of_point(id, x, y, z);
    lemma_source_of_point(inverse(id), source_x(id, x, y), source_y(id, x, y), z);
}

/// Undoing a symmetry gives the position back.
pub proof fn lemma_symmetry_undone(id: int, b: Seq<int>)
    requires
        b.len() == 64,
        0 <= id < 8,
    ensures
        symmetric(inverse(id), symmetric(id, b)) == b,
        symmetric(id, symmetric(inverse(id), b)) == b,
{
    assert forall|i: int| 0 <= i < 64 implies source_cell(id, source_cell(inverse(id), i)) == i
        && source_cell(inverse(id), source_cell(id, i)) == i && 0 <= source_cell(id, i) < 64 && 0
        <= source_cell(inverse(id), i) < 64 by {
        lemma_cell_to_point(i);
        let x = i % 4;
        let y = (i / 4) % 4;
        let z = i / 16;
        lemma_source_of_point(id, x, y, z);
        lemma_source_of_point(inverse(id), x, y, z);
        lemma_source_of_point(
            id,
            source_x(inverse(id), x, y),
            source_y(inverse(id), x, y),
            z,
        );
        lemma_source_of_point(inverse(id), source_x(id, x, y), source_y(id, x, y), z);
    }
    assert(symmetric(inverse(id), symmetric(id, b)) =~= b);
    assert(symmetric(id, symmetric(inverse(id), b)) =~= b);
}

/// A side that has won in a mirror image has won in the position.
pub proof fn lemma_win_from_image(id: int, b: Seq<int>, who: int)
    requires
        b.len() == 64,
        0 <= id < 8,
        board_win(symmetric(id, b), who),
    ensures
        board_win(b, who),
{
    let (mx, my, mz) = choose|mx: int, my: int, mz: int|
        moving(mx, my, mz) && #[trigger] line_held(symmetric(id, b), mx, my, mz, who);
    lemma_image_line(id, b, mx, my, mz, who);
    assert(line_held(b, image_mx(id, mx, my), image_my(id, mx, my), mz, who));
}

/// A side has won in a mirror image of a position exactly if it has won in the position.
pub proof fn lemma_symmetry_keeps_win(id: int, b: Seq<int>, who: int)
    requires
        b.len() == 64,
        0 <= id < 8,
    ensures
        board_win(symmetric(id, b), who) == board_win(b, who),
{
    if board_win(symmetric(id, b), who) {
        lemma_win_from_image(id, b, who);
    }
    if board_win(b, who) {
        lemma_symmetry_undone(id, b);
        lemma_win_from_image(inverse(id), symmetric(id, b), who);
    }
}

/// The column, in playing order, that symmetry `id` reads the `n`-th column from.
pub open spec fn source_column(id: int, n: int) -> int {
    4 * source_x(id, n / 4, n % 4) + source_y(id, n / 4, n % 4)
}

/// The cells of a column of a mirror image are read from the cells of the column it
/// comes from, layer by layer.
pub proof fn lemma_source_column(id: int, n: int, z: int)
    requires
        0 <= id < 8,
        0 <= n < 16,
        0 <= z < 4,
    ensures
        0 <= source_column(id, n) < 16,
        0 <= column_at(n) < 16,
        0 <= column_at(source_column(id, n)) < 16,
        source_cell(id, column_at(n) + 16 * z) == column_at(source_column(id, n)) + 16 * z,
{
    let x = n / 4;
    let y = n % 4;
    let sx = source_x(id, x, y);
    let sy = source_y(id, x, y);
    assert(0 <= sx < 4 && 0 <= sy < 4);
    assert((4 * sx + sy) / 4 == sx && (4 * sx + sy) % 4 == sy);
    lemma_source_of_point(id, x, y, z);
}

/// A mirror image of a position that obeys gravity obeys gravity.
pub proof fn lemma_symmetry_keeps_grounded(id: int, b: Seq<int>)
    requires
        b.len() == 64,
        0 <= id < 8,
        grounded(b),
    ensures
        grounded(symmetric(id, b)),
{
    let s = symmetric(id, b);
    assert forall|col: int| 0 <= col < 16 implies #[trigger] grounded_column(s, col) by {
        let n = 4 * (col % 4) + col / 4;
        assert(column_at(n) == col);
        lemma_source_column(id, n, 0);
        lemma_source_column(id, n, 1);
        lemma_source_column(id, n, 2);
        lemma_source_column(id, n, 3);
        assert(grounded_column(b, column_at(source_column(id, n))));
    }
}

} // verus!
