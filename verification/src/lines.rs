//! Geometry of the 4x4x4 lattice: cells, and the straight alignments of four cells.
//!
//! A cell is numbered `x + 4*y + 16*z`. A straight line of four cells is described by
//! one *mode* per axis: modes `0..=3` keep that coordinate fixed at the mode's value,
//! mode `4` walks it upward (`0, 1, 2, 3`) and mode `5` walks it downward (`3, 2, 1, 0`).
//! A triple of modes is a line as soon as one axis moves. Walking a line backwards
//! gives the same four cells, so every line has two triples; the one whose first
//! moving axis (in the order x, y, z) walks upward is the *listed* one. There are
//! 76 listed triples.
use vstd::prelude::*;

verus! {

/// The coordinate reached at step `t` on an axis whose mode is `m`.
pub open spec fn coord(m: int, t: int) -> int {
    if m < 4 {
        m
    } else if m == 4 {
        t
    } else {
        3 - t
    }
}

/// The cell reached at step `t` of the line with modes `(mx, my, mz)`.
pub open spec fn line_cell(mx: int, my: int, mz: int, t: int) -> int {
    coord(mx, t) + 4 * coord(my, t) + 16 * coord(mz, t)
}

/// The three modes are modes at all.
pub open spec fn modes_ok(mx: int, my: int, mz: int) -> bool {
    0 <= mx < 6 && 0 <= my < 6 && 0 <= mz < 6
}

/// At least one axis moves: the triple describes a line of four distinct cells.
pub open spec fn moving(mx: int, my: int, mz: int) -> bool {
    modes_ok(mx, my, mz) && (mx >= 4 || my >= 4 || mz >= 4)
}

/// The triple is the listed orientation of its line: the first moving axis walks upward.
pub open spec fn listed(mx: int, my: int, mz: int) -> bool {
    modes_ok(mx, my, mz) && (mx == 4 || (mx < 4 && (my == 4 || (my < 4 && mz == 4))))
}

/// The four cells of a line, in walking order.
pub open spec fn line_of(mx: int, my: int, mz: int) -> Seq<int> {
    seq![
        line_cell(mx, my, mz, 0),
        line_cell(mx, my, mz, 1),
        line_cell(mx, my, mz, 2),
        line_cell(mx, my, mz, 3),
    ]
}

/// The same line walked backwards: every moving axis turns round.
pub open spec fn turned(m: int) -> int {
    if m == 4 {
        5
    } else if m == 5 {
        4
    } else {
        m
    }
}

/// Executable form of [`coord`].
pub fn mode_coord(m: usize, t: usize) -> (c: usize)
    requires
        m < 6,
        t < 4,
    ensures
        c == coord(m as int, t as int),
        c < 4,
{
    if m < 4 {
        m
    } else if m == 4 {
        t
    } else {
        3 - t
    }
}

/// Executable form of [`line_cell`].
pub fn cell_on_line(mx: usize, my: usize, mz: usize, t: usize) -> (c: usize)
    requires
        mx < 6,
        my < 6,
        mz < 6,
        t < 4,
    ensures
        c == line_cell(mx as int, my as int, mz as int, t as int),
        c < 64,
{
    mode_coord(mx, t) + 4 * mode_coord(my, t) + 16 * mode_coord(mz, t)
}

/// Executable form of [`listed`].
pub fn is_listed(mx: usize, my: usize, mz: usize) -> (r: bool)
    requires
        mx < 6,
        my < 6,
        mz < 6,
    ensures
        r == listed(mx as int, my as int, mz as int),
{
    mx == 4 || (mx < 4 && (my == 4 || (my < 4 && mz == 4)))
}

/// The point lies in the lattice.
pub open spec fn in_lattice(x: int, y: int, z: int) -> bool {
    0 <= x < 4 && 0 <= y < 4 && 0 <= z < 4
}

/// A step from a cell to one of its 26 neighbours.
pub open spec fn is_step(dx: int, dy: int, dz: int) -> bool {
    -1 <= dx <= 1 && -1 <= dy <= 1 && -1 <= dz <= 1 && !(dx == 0 && dy == 0 && dz == 0)
}

/// The four cells met from the point `(x, y, z)` on by three steps `(dx, dy, dz)`.
pub open spec fn run(x: int, y: int, z: int, dx: int, dy: int, dz: int) -> Seq<int> {
    seq![
        x + 4 * y + 16 * z,
        (x + dx) + 4 * (y + dy) + 16 * (z + dz),
        (x + 2 * dx) + 4 * (y + 2 * dy) + 16 * (z + 2 * dz),
        (x + 3 * dx) + 4 * (y + 3 * dy) + 16 * (z + 3 * dz),
    ]
}

/// Four cells in a row: a run of three equal steps that stays in the lattice.
pub open spec fn is_alignment(line: Seq<int>) -> bool {
    exists|x: int, y: int, z: int, dx: int, dy: int, dz: int|
        is_step(dx, dy, dz) && in_lattice(x, y, z) && in_lattice(x + 3 * dx, y + 3 * dy, z + 3 * dz)
            && line == #[trigger] run(x, y, z, dx, dy, dz)
}

/// The place of a listed triple in the table of lines: the number of listed triples
/// before it, the z mode counting first, then the y mode, then the x mode.
pub open spec fn line_number(mx: int, my: int, mz: int) -> int {
    lines_before_layer(mz) + lines_before_row(my, mz) + lines_before_mode(mx, my, mz)
}

/// The number of listed triples whose z mode is below `mz`.
pub open spec fn lines_before_layer(mz: int) -> int {
    10 * mz + if mz > 4 {
        16int
    } else {
        0
    }
}

/// The number of listed triples with z mode `mz` whose y mode is below `my`.
pub open spec fn lines_before_row(my: int, mz: int) -> int {
    my + (if my > 4 {
        4int
    } else {
        0
    }) + (if mz == 4 {
        if my < 4 {
            4 * my
        } else {
            16
        }
    } else {
        0
    })
}

/// The number of listed triples with y mode `my` and z mode `mz` whose x mode is below `mx`.
pub open spec fn lines_before_mode(mx: int, my: int, mz: int) -> int {
    (if mx > 4 {
        1int
    } else {
        0
    }) + (if my == 4 || (my < 4 && mz == 4) {
        if mx < 4 {
            mx
        } else {
            4
        }
    } else {
        0
    })
}

/// The cells of a line of the table, as numbers.
pub open spec fn cells_of(line: [usize; 4]) -> Seq<int> {
    seq![line@[0] as int, line@[1] as int, line@[2] as int, line@[3] as int]
}

/// A cell belongs to a line exactly if it is one of the four.
pub proof fn lemma_line_cells(line: Seq<int>, c: int)
    requires
        line.len() == 4,
    ensures
        line.to_set().contains(c) <==> (c == line[0] || c == line[1] || c == line[2] || c
            == line[3]),
{
    if line.to_set().contains(c) {
        assert(line.contains(c));
        let i = choose|i: int| 0 <= i < line.len() && line[i] == c;
        assert(line[i] == c);
    }
    if c == line[0] || c == line[1] || c == line[2] || c == line[3] {
        let i: int = if c == line[0] {
            0
        } else if c == line[1] {
            1
        } else if c == line[2] {
            2
        } else {
            3
        };
        assert(line[i] == c);
        assert(line.contains(c));
    }
}

/// Every triple with a moving axis gives four cells in a row.
pub proof fn lemma_line_is_alignment(mx: int, my: int, mz: int)
    requires
        moving(mx, my, mz),
    ensures
        is_alignment(line_of(mx, my, mz)),
{
    let dx = coord(mx, 1) - coord(mx, 0);
    let dy = coord(my, 1) - coord(my, 0);
    let dz = coord(mz, 1) - coord(mz, 0);
    let x = coord(mx, 0);
    let y = coord(my, 0);
    let z = coord(mz, 0);
    assert(line_of(mx, my, mz) =~= run(x, y, z, dx, dy, dz));
}

/// A line walked backwards passes the same cells.
pub proof fn lemma_turned_cells(mx: int, my: int, mz: int)
    requires
        modes_ok(mx, my, mz),
    ensures
        line_of(turned(mx), turned(my), turned(mz)).to_set() == line_of(mx, my, mz).to_set(),
{
    let a = line_of(turned(mx), turned(my), turned(mz));
    let b = line_of(mx, my, mz);
    assert(a[0] == b[3] && a[1] == b[2] && a[2] == b[1] && a[3] == b[0]);
    assert forall|c: int| a.to_set().contains(c) <==> b.to_set().contains(c) by {
        lemma_line_cells(a, c);
        lemma_line_cells(b, c);
    }
    assert(a.to_set() =~= b.to_set());
}

/// Four cells in a row are the cells of a listed triple.
pub proof fn lemma_alignment_is_listed(line: Seq<int>) -> (t: (int, int, int))
    requires
        is_alignment(line),
    ensures
        listed(t.0, t.1, t.2),
        line_of(t.0, t.1, t.2).to_set() == line.to_set(),
{
    let (x, y, z, dx, dy, dz) = choose|x: int, y: int, z: int, dx: int, dy: int, dz: int|
        is_step(dx, dy, dz) && in_lattice(x, y, z) && in_lattice(x + 3 * dx, y + 3 * dy, z + 3 * dz)
            && line == #[trigger] run(x, y, z, dx, dy, dz);
    let mx = if dx == 0 {
        x
    } else if dx == 1 {
        4
    } else {
        5
    };
    let my = if dy == 0 {
        y
    } else if dy == 1 {
        4
    } else {
        5
    };
    let mz = if dz == 0 {
        z
    } else if dz == 1 {
        4
    } else {
        5
    };
    assert(line =~= line_of(mx, my, mz));
    if listed(mx, my, mz) {
        (mx, my, mz)
    } else {
        lemma_turned_cells(mx, my, mz);
        (turned(mx), turned(my), turned(mz))
    }
}

/// The coordinates of a cell are read off its number.
pub proof fn lemma_cell_coordinates(x1: int, y1: int, z1: int, x2: int, y2: int, z2: int)
    requires
        in_lattice(x1, y1, z1),
        in_lattice(x2, y2, z2),
        x1 + 4 * y1 + 16 * z1 == x2 + 4 * y2 + 16 * z2,
    ensures
        x1 == x2,
        y1 == y2,
        z1 == z2,
{
}

/// Two different listed triples do not pass the same four cells.
pub proof fn lemma_listed_lines_differ(mx: int, my: int, mz: int, nx: int, ny: int, nz: int)
    requires
        listed(mx, my, mz),
        listed(nx, ny, nz),
        !(mx == nx && my == ny && mz == nz),
    ensures
        line_of(mx, my, mz).to_set() != line_of(nx, ny, nz).to_set(),
{
    let a = line_of(mx, my, mz);
    let b = line_of(nx, ny, nz);
    if a.to_set() == b.to_set() {
        lemma_line_cells(a, a[0]);
        lemma_line_cells(b, a[0]);
        lemma_line_cells(a, a[1]);
        lemma_line_cells(b, a[1]);
        let s: int = if a[0] == b[0] {
            0
        } else if a[0] == b[1] {
            1
        } else if a[0] == b[2] {
            2
        } else {
            3
        };
        let t: int = if a[1] == b[0] {
            0
        } else if a[1] == b[1] {
            1
        } else if a[1] == b[2] {
            2
        } else {
            3
        };
        assert(a[0] == b[s]);
        assert(a[1] == b[t]);
        lemma_cell_coordinates(
            coord(mx, 0),
            coord(my, 0),
            coord(mz, 0),
            coord(nx, s),
            coord(ny, s),
            coord(nz, s),
        );
        lemma_cell_coordinates(
            coord(mx, 1),
            coord(my, 1),
            coord(mz, 1),
            coord(nx, t),
            coord(ny, t),
            coord(nz, t),
        );
        assert(false);
    }
}

/// The table of the 76 lines, each as its four cells in walking order. The line of a
/// listed triple stands at its [`line_number`].
pub fn lines() -> (v: Vec<[usize; 4]>)
    ensures
        v.len() == 76,
        forall|mx: int, my: int, mz: int|
            listed(mx, my, mz) ==> 0 <= #[trigger] line_number(mx, my, mz) < 76 && cells_of(
                v[line_number(mx, my, mz)],
            ) == line_of(mx, my, mz),
        forall|i: int| 0 <= i < 76 ==> is_alignment(cells_of(#[trigger] v[i])),
        forall|i: int, j: int|
            0 <= i < j < 76 ==> cells_of(#[trigger] v[i]).to_set() != cells_of(
                #[trigger] v[j],
            ).to_set(),
        forall|line: Seq<int>|
            is_alignment(line) ==> exists|i: int|
                0 <= i < 76 && cells_of(#[trigger] v[i]).to_set() == line.to_set(),
{
    let mut v: Vec<[usize; 4]> = Vec::new();
    let ghost mut from: Seq<(int, int, int)> = Seq::empty();
    let mut mz: usize = 0;
    while mz < 6
        invariant
            mz <= 6,
            v.len() == lines_before_layer(mz as int),
            table_so_far(v@, from),
            forall|ax: int, ay: int, az: int|
                listed(ax, ay, az) && az < mz ==> #[trigger] line_number(ax, ay, az) < v.len(),
        decreases 6 - mz,
    {
        let mut my: usize = 0;
        while my < 6
            invariant
                mz < 6,
                my <= 6,
                v.len() == lines_before_layer(mz as int) + lines_before_row(my as int, mz as int),
                table_so_far(v@, from),
                forall|ax: int, ay: int, az: int|
                    listed(ax, ay, az) && (az < mz || (az == mz && ay < my)) ==> #[trigger] line_number(
                        ax,
                        ay,
                        az,
                    ) < v.len(),
            decreases 6 - my,
        {
            let mut mx: usize = 0;
            while mx < 6
                invariant
                    mz < 6,
                    my < 6,
                    mx <= 6,
                    v.len() == lines_before_layer(mz as int) + lines_before_row(
                        my as int,
                        mz as int,
                    ) + lines_before_mode(mx as int, my as int, mz as int),
                    table_so_far(v@, from),
                    forall|ax: int, ay: int, az: int|
                        listed(ax, ay, az) && (az < mz || (az == mz && (ay < my || (ay == my && ax
                            < mx)))) ==> #[trigger] line_number(ax, ay, az) < v.len(),
                decreases 6 - mx,
            {
                if is_listed(mx, my, mz) {
                    let line = [
                        cell_on_line(mx, my, mz, 0),
                        cell_on_line(mx, my, mz, 1),
                        cell_on_line(mx, my, mz, 2),
                        cell_on_line(mx, my, mz, 3),
                    ];
                    assert(cells_of(line) =~= line_of(mx as int, my as int, mz as int));
                    v.push(line);
                    proof {
                        from = from.push((mx as int, my as int, mz as int));
                    }
                }
                mx += 1;
            }
            my += 1;
        }
        mz += 1;
    }
    proof {
        assert forall|mx: int, my: int, mz: int| listed(mx, my, mz) implies 0
            <= #[trigger] line_number(mx, my, mz) < 76 && cells_of(v[line_number(mx, my, mz)])
            == line_of(mx, my, mz) by {
            let i = line_number(mx, my, mz);
            assert(line_number(from[i].0, from[i].1, from[i].2) == i);
            lemma_line_number_injective(mx, my, mz, from[i].0, from[i].1, from[i].2);
        }
        assert forall|i: int| 0 <= i < 76 implies is_alignment(cells_of(#[trigger] v[i])) by {
            lemma_line_is_alignment(from[i].0, from[i].1, from[i].2);
        }
        assert forall|i: int, j: int| 0 <= i < j < 76 implies cells_of(#[trigger] v[i]).to_set()
            != cells_of(#[trigger] v[j]).to_set() by {
            lemma_listed_lines_differ(
                from[i].0,
                from[i].1,
                from[i].2,
                from[j].0,
                from[j].1,
                from[j].2,
            );
        }
        assert forall|line: Seq<int>| is_alignment(line) implies exists|i: int|
            0 <= i < 76 && cells_of(#[trigger] v[i]).to_set() == line.to_set() by {
            let t = lemma_alignment_is_listed(line);
            let i = line_number(t.0, t.1, t.2);
            assert(line_number(from[i].0, from[i].1, from[i].2) == i);
            lemma_line_number_injective(t.0, t.1, t.2, from[i].0, from[i].1, from[i].2);
            assert(cells_of(v[i]).to_set() == line.to_set());
        }
    }
    v
}

/// Every line of the table so far is the line of a listed triple, and stands at the
/// number of that triple.
pub open spec fn table_so_far(v: Seq<[usize; 4]>, from: Seq<(int, int, int)>) -> bool {
    &&& from.len() == v.len()
    &&& forall|i: int|
        0 <= i < v.len() ==> listed((#[trigger] from[i]).0, from[i].1, from[i].2) && line_number(
            from[i].0,
            from[i].1,
            from[i].2,
        ) == i && cells_of(v[i]) == line_of(from[i].0, from[i].1, from[i].2)
}

/// Two listed triples with the same number are the same triple.
pub proof fn lemma_line_number_injective(mx: int, my: int, mz: int, nx: int, ny: int, nz: int)
    requires
        listed(mx, my, mz),
        listed(nx, ny, nz),
        line_number(mx, my, mz) == line_number(nx, ny, nz),
    ensures
        mx == nx && my == ny && mz == nz,
{
}

} // verus!
