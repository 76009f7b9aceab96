//! The two-dimensional grid of fields and its neighborhood geometry.
//!
//! The grid is a rectangular vector of rows; a coordinate addresses
//! column `x` of row `y`. Neighborhoods are 8-connected (the Moore
//! neighborhood), clipped at the grid's edges.

use crate::coordinate::Coordinate;
use crate::field::Field;
use vstd::prelude::*;
use vstd::set_lib;

verus! {

/// The mathematical contents of a grid: one sequence of fields per row.
pub open spec fn cells_of(g: Vec<Vec<Field>>) -> Seq<Seq<Field>> {
    g@.map_values(|row: Vec<Field>| row@)
}

/// Every row has the same length as the first.
pub open spec fn rect(c: Seq<Seq<Field>>) -> bool {
    forall|y: int| 0 <= y < c.len() ==> #[trigger] c[y].len() == c[0].len()
}

/// The coordinate (x, y) addresses a field of the grid.
pub open spec fn in_bounds(c: Seq<Seq<Field>>, x: int, y: int) -> bool {
    0 <= y < c.len() && 0 <= x < c[y].len()
}

/// The field the coordinate (x, y) addresses.
pub open spec fn cell(c: Seq<Seq<Field>>, x: int, y: int) -> Field {
    c[y][x]
}

/// Two coordinates are neighbors when they differ by at most one in each
/// component and are not the same coordinate.
pub open spec fn spec_is_neighbor(x1: int, y1: int, x2: int, y2: int) -> bool {
    -1 <= x2 - x1 <= 1 && -1 <= y2 - y1 <= 1 && !(x1 == x2 && y1 == y2)
}

/// All fields of the grid neighboring (x, y) are safe.
pub open spec fn neighborhood_safe(c: Seq<Seq<Field>>, x: int, y: int) -> bool {
    forall|nx: int, ny: int|
        in_bounds(c, nx, ny) && spec_is_neighbor(x, y, nx, ny) ==> (#[trigger] cell(
            c,
            nx,
            ny,
        )).spec_is_safe()
}

/// The (at most eight) coordinates around (x, y), edges not clipped.
spec fn neighbor_candidates(x: int, y: int) -> Set<(int, int)> {
    set![
        (x - 1, y - 1),
        (x, y - 1),
        (x + 1, y - 1),
        (x - 1, y),
        (x + 1, y),
        (x - 1, y + 1),
        (x, y + 1),
        (x + 1, y + 1),
    ]
}

/// The grid neighbors of (x, y) that hold a mine.
pub open spec fn mined_neighbors(c: Seq<Seq<Field>>, x: int, y: int) -> Set<(int, int)> {
    Set::new(
        |p: (int, int)|
            in_bounds(c, p.0, p.1) && spec_is_neighbor(x, y, p.0, p.1) && cell(c, p.0, p.1).mined,
    )
}

/// The mined neighbors of a coordinate are among its eight candidate
/// neighbors, so they form a finite set of at most eight coordinates.
pub proof fn lemma_mined_neighbors_finite(c: Seq<Seq<Field>>, x: int, y: int)
    ensures
        mined_neighbors(c, x, y).finite(),
        mined_neighbors(c, x, y).len() <= 8,
{
    let m = mined_neighbors(c, x, y);
    let n = neighbor_candidates(x, y);
    assert forall|p: (int, int)| m.contains(p) implies n.contains(p) by {
        assert(spec_is_neighbor(x, y, p.0, p.1));
        if p.1 == y - 1 {
            assert(p == (x - 1, y - 1) || p == (x, y - 1) || p == (x + 1, y - 1));
        } else if p.1 == y {
            assert(p == (x - 1, y) || p == (x + 1, y));
        } else {
            assert(p == (x - 1, y + 1) || p == (x, y + 1) || p == (x + 1, y + 1));
        }
    }
    assert(n.finite() && n.len() <= 8) by {
        assert(n =~= Set::empty().insert((x - 1, y - 1)).insert((x, y - 1)).insert(
            (x + 1, y - 1),
        ).insert((x - 1, y)).insert((x + 1, y)).insert((x - 1, y + 1)).insert((x, y + 1)).insert(
            (x + 1, y + 1),
        ));
    }
    set_lib::lemma_len_subset(m, n);
}

/// Two grids have the same dimensions.
pub open spec fn same_dims(a: Seq<Seq<Field>>, b: Seq<Seq<Field>>) -> bool {
    a.len() == b.len() && forall|y: int| 0 <= y < a.len() ==> #[trigger] a[y].len() == b[y].len()
}

/// The mined neighbors of a coordinate depend only on the grid's mine
/// bits.
pub proof fn lemma_mined_neighbors_frame(a: Seq<Seq<Field>>, b: Seq<Seq<Field>>, x: int, y: int)
    requires
        same_dims(a, b),
        forall|xx: int, yy: int|
            in_bounds(a, xx, yy) ==> (#[trigger] cell(b, xx, yy)).mined == cell(a, xx, yy).mined,
    ensures
        mined_neighbors(b, x, y) =~= mined_neighbors(a, x, y),
{
    assert forall|p: (int, int)| #[trigger]
        mined_neighbors(b, x, y).contains(p) == mined_neighbors(a, x, y).contains(p) by {
        if in_bounds(a, p.0, p.1) || in_bounds(b, p.0, p.1) {
            assert(in_bounds(a, p.0, p.1) && in_bounds(b, p.0, p.1));
            assert(cell(b, p.0, p.1).mined == cell(a, p.0, p.1).mined);
        }
    }
}

/// Both grid dimensions are addressable by a machine word.
pub open spec fn bounded_dims(c: Seq<Seq<Field>>) -> bool {
    c.len() <= usize::MAX && forall|y: int| 0 <= y < c.len() ==> #[trigger] c[y].len() <= usize::MAX
}

/// All coordinates of a width x height grid.
pub open spec fn coords(w: int, h: int) -> Set<Coordinate> {
    Set::new(|c: Coordinate| (c.x as int) < w && (c.y as int) < h)
}

/// The coordinates of row y of a grid of width w.
pub open spec fn row_coords(w: int, y: int) -> Set<Coordinate> {
    Set::new(|c: Coordinate| (c.x as int) < w && c.y == y)
}

/// The coordinates of the grid's fields that hold a mine.
pub open spec fn mined_set(c: Seq<Seq<Field>>) -> Set<Coordinate> {
    Set::new(|p: Coordinate| in_bounds(c, p.x as int, p.y as int) && cell(c, p.x as int, p.y as int).mined)
}

/// The coordinates of the grid's fields that are duds.
pub open spec fn dud_set(c: Seq<Seq<Field>>) -> Set<Coordinate> {
    Set::new(|p: Coordinate| in_bounds(c, p.x as int, p.y as int) && cell(c, p.x as int, p.y as int).dud)
}

/// The coordinates of the grid's fields that carry a flag.
pub open spec fn flagged_set(c: Seq<Seq<Field>>) -> Set<Coordinate> {
    Set::new(
        |p: Coordinate| in_bounds(c, p.x as int, p.y as int) && cell(c, p.x as int, p.y as int).flagged,
    )
}

/// The coordinates of the grid's fields that have not been visited.
pub open spec fn unvisited_set(c: Seq<Seq<Field>>) -> Set<Coordinate> {
    Set::new(
        |p: Coordinate| in_bounds(c, p.x as int, p.y as int) && !cell(c, p.x as int, p.y as int).visited,
    )
}

/// One row of a grid of width w holds w coordinates.
proof fn lemma_row_coords_len(w: int, y: int)
    requires
        0 <= w <= usize::MAX,
        0 <= y <= usize::MAX,
    ensures
        row_coords(w, y).finite(),
        row_coords(w, y).len() == w,
    decreases w,
{
    if w == 0 {
        assert(row_coords(0, y) =~= Set::empty());
    } else {
        lemma_row_coords_len(w - 1, y);
        let c = Coordinate { x: (w - 1) as usize, y: y as usize };
        assert(row_coords(w, y) =~= row_coords(w - 1, y).insert(c));
        assert(!row_coords(w - 1, y).contains(c));
    }
}

/// A width x height grid holds width * height coordinates.
pub proof fn lemma_coords_len(w: int, h: int)
    requires
        0 <= w <= usize::MAX,
        0 <= h <= usize::MAX,
    ensures
        coords(w, h).finite(),
        coords(w, h).len() == w * h,
    decreases h,
{
    if h == 0 {
        assert(coords(w, 0) =~= Set::empty());
    } else {
        lemma_coords_len(w, h - 1);
        lemma_row_coords_len(w, h - 1);
        assert(coords(w, h) =~= coords(w, h - 1) + row_coords(w, h - 1));
        assert(coords(w, h - 1).disjoint(row_coords(w, h - 1)));
        set_lib::lemma_set_disjoint_lens(coords(w, h - 1), row_coords(w, h - 1));
        assert(w * h == w * (h - 1) + w) by (nonlinear_arith);
    }
}

/// Create one row of covered fields.
pub fn make_line(width: usize) -> (r: Vec<Field>)
    ensures
        r@.len() == width,
        forall|x: int| 0 <= x < width ==> r@[x] == Field::covered(),
{
    let mut columns: Vec<Field> = Vec::new();
    let mut x: usize = 0;
    while x < width
        invariant
            x <= width,
            columns@.len() == x,
            forall|i: int| 0 <= i < x ==> columns@[i] == Field::covered(),
        decreases width - x,
    {
        columns.push(Field::new());
        x = x + 1;
    }
    columns
}

/// Create a grid of covered fields with the given dimensions.
pub fn gen_fields(width: usize, height: usize) -> (r: Vec<Vec<Field>>)
    ensures
        cells_of(r).len() == height,
        forall|y: int| 0 <= y < height ==> #[trigger] cells_of(r)[y].len() == width,
        forall|x: int, y: int|
            in_bounds(cells_of(r), x, y) ==> cell(cells_of(r), x, y) == Field::covered(),
        rect(cells_of(r)),
{
    let mut lines: Vec<Vec<Field>> = Vec::new();
    let mut y: usize = 0;
    while y < height
        invariant
            y <= height,
            lines@.len() == y,
            forall|i: int| 0 <= i < y ==> #[trigger] lines@[i]@.len() == width,
            forall|i: int, x: int|
                0 <= i < y && 0 <= x < width ==> #[trigger] lines@[i]@[x] == Field::covered(),
        decreases height - y,
    {
        lines.push(make_line(width));
        y = y + 1;
    }
    lines
}

/// Return `true` if the given offset keeps a coordinate within a
/// neighborhood.
pub fn is_adjunct(offset: usize) -> (r: bool)
    ensures
        r == (offset == 0 || offset == 1),
{
    offset == 0 || offset == 1
}

/// Return `true` if the given component distances are those of the same
/// field.
pub fn same_field(dx: usize, dy: usize) -> (r: bool)
    ensures
        r == (dx == 0 && dy == 0),
{
    dx == 0 && dy == 0
}

/// Return `true` if two coordinates with the given component distances
/// are neighbors.
pub fn is_neighbor(dx: usize, dy: usize) -> (r: bool)
    ensures
        r == (dx <= 1 && dy <= 1 && !(dx == 0 && dy == 0)),
{
    is_adjunct(dx) && is_adjunct(dy) && !same_field(dx, dy)
}

/// The column offset of the j-th candidate neighbor.
spec fn nb_dx(j: int) -> int {
    seq![-1int, 0, 1, -1, 1, -1, 0, 1][j]
}

/// The row offset of the j-th candidate neighbor.
spec fn nb_dy(j: int) -> int {
    seq![-1int, -1, -1, 0, 0, 1, 1, 1][j]
}

/// The j-th candidate neighbor of (x, y) lies on a width x height grid.
spec fn nb_ok(width: int, height: int, x: int, y: int, j: int) -> bool {
    0 <= x + nb_dx(j) < width && 0 <= y + nb_dy(j) < height
}

/// The j-th candidate neighbor of (x, y).
spec fn nb_at(x: int, y: int, j: int) -> Coordinate {
    Coordinate { x: (x + nb_dx(j)) as usize, y: (y + nb_dy(j)) as usize }
}

/// Every in-bounds neighbor of an in-bounds coordinate is one of its
/// eight candidate neighbors.
proof fn lemma_nb_complete(width: int, height: int, x: int, y: int, c: Coordinate)
    requires
        0 <= x < width,
        0 <= y < height,
        c.x < width,
        c.y < height,
        spec_is_neighbor(x, y, c.x as int, c.y as int),
    ensures
        exists|j: int| 0 <= j < 8 && nb_ok(width, height, x, y, j) && c == nb_at(x, y, j),
{
    let cx = c.x as int;
    let cy = c.y as int;
    let j: int = if cy == y - 1 {
        if cx == x - 1 {
            0
        } else if cx == x {
            1
        } else {
            2
        }
    } else if cy == y {
        if cx == x - 1 {
            3
        } else {
            4
        }
    } else {
        if cx == x - 1 {
            5
        } else if cx == x {
            6
        } else {
            7
        }
    };
    assert(0 <= j < 8 && nb_ok(width, height, x, y, j) && c == nb_at(x, y, j));
}

/// Collect the grid neighbors of (x, y): the 8-connected neighborhood,
/// clipped at the edges of a width x height grid.
pub fn neighbors(width: usize, height: usize, x: usize, y: usize) -> (r: Vec<Coordinate>)
    requires
        x < width,
        y < height,
    ensures
        forall|c: Coordinate| #[trigger]
            r@.contains(c) <==> (c.x < width && c.y < height && spec_is_neighbor(
                x as int,
                y as int,
                c.x as int,
                c.y as int,
            )),
        r@.no_duplicates(),
        forall|i: int|
            0 <= i < r@.len() ==> (#[trigger] r@[i]).x < width && r@[i].y < height
                && spec_is_neighbor(x as int, y as int, r@[i].x as int, r@[i].y as int),
{
    let mut r: Vec<Coordinate> = Vec::new();
    for j in 0..8usize
        invariant
            x < width,
            y < height,
            forall|c: Coordinate| #[trigger]
                r@.contains(c) <==> exists|k: int|
                    0 <= k < j && nb_ok(width as int, height as int, x as int, y as int, k) && c
                        == nb_at(x as int, y as int, k),
            r@.no_duplicates(),
    {
        let pushed: bool;
        let c: Coordinate;
        match j {
            0 => {
                pushed = x > 0 && y > 0;
                c = Coordinate::new(x.wrapping_sub(1), y.wrapping_sub(1));
            },
            1 => {
                pushed = y > 0;
                c = Coordinate::new(x, y.wrapping_sub(1));
            },
            2 => {
                pushed = x + 1 < width && y > 0;
                c = Coordinate::new(x.wrapping_add(1), y.wrapping_sub(1));
            },
            3 => {
                pushed = x > 0;
                c = Coordinate::new(x.wrapping_sub(1), y);
            },
            4 => {
                pushed = x + 1 < width;
                c = Coordinate::new(x.wrapping_add(1), y);
            },
            5 => {
                pushed = x > 0 && y + 1 < height;
                c = Coordinate::new(x.wrapping_sub(1), y.wrapping_add(1));
            },
            6 => {
                pushed = y + 1 < height;
                c = Coordinate::new(x, y.wrapping_add(1));
            },
            _ => {
                pushed = x + 1 < width && y + 1 < height;
                c = Coordinate::new(x.wrapping_add(1), y.wrapping_add(1));
            },
        }
        proof {
            assert(pushed == nb_ok(width as int, height as int, x as int, y as int, j as int));
            if pushed {
                assert(c == nb_at(x as int, y as int, j as int));
                assert(!r@.contains(c)) by {
                    assert forall|k: int|
                        0 <= k < j && nb_ok(
                            width as int,
                            height as int,
                            x as int,
                            y as int,
                        k) implies nb_at(x as int, y as int, k) != nb_at(
                        x as int,
                        y as int,
                        j as int,
                    ) by {
                        assert(nb_dx(k) != nb_dx(j as int) || nb_dy(k) != nb_dy(j as int));
                    }
                }
            }
        }
        let ghost r0 = r@;
        if pushed {
            r.push(c);
        }
        proof {
            assert forall|cc: Coordinate| #[trigger] r@.contains(cc) implies exists|k: int|
                0 <= k < j + 1 && nb_ok(width as int, height as int, x as int, y as int, k) && cc
                    == nb_at(x as int, y as int, k) by {
                let i = choose|i: int| 0 <= i < r@.len() && r@[i] == cc;
                if pushed && i == r0.len() {
                    let k = j as int;
                    assert(0 <= k < j + 1 && nb_ok(
                        width as int,
                        height as int,
                        x as int,
                        y as int,
                        k,
                    ) && cc == nb_at(x as int, y as int, k));
                } else {
                    assert(r0[i] == cc);
                    assert(r0.contains(cc));
                }
            }
            assert forall|cc: Coordinate|
                (exists|k: int|
                    0 <= k < j + 1 && nb_ok(width as int, height as int, x as int, y as int, k)
                        && cc == nb_at(x as int, y as int, k)) implies #[trigger] r@.contains(
                cc,
            ) by {
                let k = choose|k: int|
                    0 <= k < j + 1 && nb_ok(width as int, height as int, x as int, y as int, k)
                        && cc == nb_at(x as int, y as int, k);
                if k < j {
                    assert(r0.contains(cc));
                    let i = choose|i: int| 0 <= i < r0.len() && r0[i] == cc;
                    assert(r@[i] == cc);
                } else {
                    assert(cc == c && pushed);
                    assert(r@[r0.len() as int] == cc);
                }
            }
        }
    }
    proof {
        assert forall|c: Coordinate| #[trigger]
            r@.contains(c) <==> (c.x < width && c.y < height && spec_is_neighbor(
            x as int,
            y as int,
            c.x as int,
            c.y as int,
        )) by {
            if r@.contains(c) {
                let k = choose|k: int|
                    0 <= k < 8 && nb_ok(width as int, height as int, x as int, y as int, k) && c
                        == nb_at(x as int, y as int, k);
                assert(c.x < width && c.y < height && spec_is_neighbor(
                    x as int,
                    y as int,
                    c.x as int,
                    c.y as int,
                ));
            }
            if c.x < width && c.y < height && spec_is_neighbor(
                x as int,
                y as int,
                c.x as int,
                c.y as int,
            ) {
                lemma_nb_complete(width as int, height as int, x as int, y as int, c);
            }
        }
        assert forall|i: int| 0 <= i < r@.len() implies (#[trigger] r@[i]).x < width && r@[i].y
            < height && spec_is_neighbor(
            x as int,
            y as int,
            r@[i].x as int,
            r@[i].y as int,
        ) by {
            assert(r@.contains(r@[i]));
        }
    }
    r
}

/// Write one field of the grid.
pub(crate) fn set_cell(fields: &mut Vec<Vec<Field>>, x: usize, y: usize, f: Field)
    requires
        y < old(fields)@.len(),
        x < old(fields)@[y as int]@.len(),
    ensures
        cells_of(*final(fields)) =~= cells_of(*old(fields)).update(
            y as int,
            cells_of(*old(fields))[y as int].update(x as int, f),
        ),
        cells_of(*final(fields)).len() == cells_of(*old(fields)).len(),
        forall|i: int|
            0 <= i < cells_of(*final(fields)).len() ==> #[trigger] cells_of(*final(fields))[i].len()
                == cells_of(*old(fields))[i].len(),
        cell(cells_of(*final(fields)), x as int, y as int) == f,
        forall|xx: int, yy: int|
            in_bounds(cells_of(*old(fields)), xx, yy) && !(xx == x && yy == y) ==> cell(
                cells_of(*final(fields)),
                xx,
                yy,
            ) == cell(cells_of(*old(fields)), xx, yy),
{
    fields[y][x] = f;
}

/// Count the mined fields around (x, y).
pub(crate) fn count_adjacent_mines(fields: &Vec<Vec<Field>>, x: usize, y: usize) -> (r: u8)
    requires
        rect(cells_of(*fields)),
        in_bounds(cells_of(*fields), x as int, y as int),
    ensures
        r as int == mined_neighbors(cells_of(*fields), x as int, y as int).len(),
        r <= 8,
{
    let ghost c = cells_of(*fields);
    let height = fields.len();
    let width = fields[0].len();
    let nbrs = neighbors(width, height, x, y);
    proof {
        lemma_mined_neighbors_finite(c, x as int, y as int);
    }
    let mut count: u8 = 0;
    let ghost mut seen: Set<(int, int)> = Set::empty();
    let mut i: usize = 0;
    while i < nbrs.len()
        invariant
            rect(c),
            in_bounds(c, x as int, y as int),
            c == cells_of(*fields),
            height == c.len(),
            width == c[0].len(),
            nbrs@.no_duplicates(),
            forall|k: int|
                0 <= k < nbrs@.len() ==> (#[trigger] nbrs@[k]).x < width && nbrs@[k].y < height
                    && spec_is_neighbor(x as int, y as int, nbrs@[k].x as int, nbrs@[k].y as int),
            i <= nbrs@.len(),
            seen.finite(),
            count as int == seen.len(),
            seen.subset_of(mined_neighbors(c, x as int, y as int)),
            forall|p: (int, int)|
                seen.contains(p) <==> exists|k: int|
                    0 <= k < i && (#[trigger] nbrs@[k]).x == p.0 && nbrs@[k].y == p.1 && cell(
                        c,
                        p.0,
                        p.1,
                    ).mined,
        decreases nbrs@.len() - i,
    {
        let cc = nbrs[i];
        proof {
            assert(in_bounds(c, cc.x as int, cc.y as int));
        }
        if fields[cc.y][cc.x].has_mine() {
            let ghost p = (cc.x as int, cc.y as int);
            proof {
                assert(!seen.contains(p)) by {
                    if seen.contains(p) {
                        let k = choose|k: int|
                            0 <= k < i && (#[trigger] nbrs@[k]).x == p.0 && nbrs@[k].y == p.1
                                && cell(c, p.0, p.1).mined;
                        assert(nbrs@[k] == cc);
                    }
                }
                assert(mined_neighbors(c, x as int, y as int).contains(p));
                lemma_mined_neighbors_finite(c, x as int, y as int);
                set_lib::lemma_len_subset(seen, mined_neighbors(c, x as int, y as int));
                seen = seen.insert(p);
            }
            count = count + 1;
        }
        i = i + 1;
        proof {
            assert forall|p: (int, int)| #[trigger]
                seen.contains(p) implies exists|k: int|
                0 <= k < i && (#[trigger] nbrs@[k]).x == p.0 && nbrs@[k].y == p.1 && cell(
                    c,
                    p.0,
                    p.1,
                ).mined by {
                if p == ((cc.x as int, cc.y as int)) && cell(c, cc.x as int, cc.y as int).mined {
                    assert(nbrs@[i - 1].x == p.0 && nbrs@[i - 1].y == p.1);
                }
            }
        }
    }
    proof {
        assert(seen =~= mined_neighbors(c, x as int, y as int)) by {
            assert forall|p: (int, int)| #[trigger]
                mined_neighbors(c, x as int, y as int).contains(p) implies seen.contains(p) by {
                let pc = Coordinate { x: p.0 as usize, y: p.1 as usize };
                assert(nbrs@.contains(pc));
                let k = choose|k: int| 0 <= k < nbrs@.len() && nbrs@[k] == pc;
                assert(nbrs@[k].x == p.0 && nbrs@[k].y == p.1);
            }
        }
    }
    count
}

/// Collect the coordinates of all fields that have not been visited.
pub(crate) fn collect_unvisited(fields: &Vec<Vec<Field>>) -> (r: Vec<Coordinate>)
    requires
        rect(cells_of(*fields)),
    ensures
        r@.no_duplicates(),
        forall|c: Coordinate| #[trigger]
            r@.contains(c) <==> (in_bounds(cells_of(*fields), c.x as int, c.y as int) && !cell(
                cells_of(*fields),
                c.x as int,
                c.y as int,
            ).visited),
{
    let ghost cs = cells_of(*fields);
    let mut r: Vec<Coordinate> = Vec::new();
    let mut y: usize = 0;
    while y < fields.len()
        invariant
            rect(cs),
            cs == cells_of(*fields),
            y <= cs.len(),
            r@.no_duplicates(),
            forall|c: Coordinate| #[trigger]
                r@.contains(c) <==> (in_bounds(cs, c.x as int, c.y as int) && !cell(
                    cs,
                    c.x as int,
                    c.y as int,
                ).visited && (c.y as int) < y),
        decreases cs.len() - y,
    {
        let mut x: usize = 0;
        while x < fields[y].len()
            invariant
                rect(cs),
                cs == cells_of(*fields),
                y < cs.len(),
                x <= cs[y as int].len(),
                r@.no_duplicates(),
                forall|c: Coordinate| #[trigger]
                    r@.contains(c) <==> (in_bounds(cs, c.x as int, c.y as int) && !cell(
                        cs,
                        c.x as int,
                        c.y as int,
                    ).visited && ((c.y as int) < y || (c.y == y && (c.x as int) < x))),
            decreases cs[y as int].len() - x,
        {
            if !fields[y][x].has_been_visited() {
                let cc = Coordinate::new(x, y);
                let ghost r0 = r@;
                proof {
                    assert(!r0.contains(cc));
                }
                r.push(cc);
                proof {
                    assert forall|c: Coordinate| #[trigger]
                        r@.contains(c) <==> (in_bounds(cs, c.x as int, c.y as int) && !cell(
                        cs,
                        c.x as int,
                        c.y as int,
                    ).visited && ((c.y as int) < y || (c.y == y && (c.x as int) < x + 1))) by {
                        if r@.contains(c) {
                            let i = choose|i: int| 0 <= i < r@.len() && r@[i] == c;
                            if i < r0.len() {
                                assert(r0[i] == c);
                                assert(r0.contains(c));
                            } else {
                                assert(c == cc);
                            }
                        }
                        if in_bounds(cs, c.x as int, c.y as int) && !cell(
                            cs,
                            c.x as int,
                            c.y as int,
                        ).visited && ((c.y as int) < y || (c.y == y && (c.x as int) < x + 1)) {
                            if c == cc {
                                assert(r@[r0.len() as int] == c);
                            } else {
                                assert(r0.contains(c));
                                let i = choose|i: int| 0 <= i < r0.len() && r0[i] == c;
                                assert(r@[i] == c);
                            }
                        }
                    }
                }
            }
            x = x + 1;
        }
        y = y + 1;
    }
    r
}

/// Collect the coordinates of all fields that hold a mine.
pub(crate) fn collect_mined(fields: &Vec<Vec<Field>>) -> (r: Vec<Coordinate>)
    requires
        rect(cells_of(*fields)),
    ensures
        r@.no_duplicates(),
        forall|c: Coordinate| #[trigger]
            r@.contains(c) <==> (in_bounds(cells_of(*fields), c.x as int, c.y as int) && cell(
                cells_of(*fields),
                c.x as int,
                c.y as int,
            ).mined),
{
    let ghost cs = cells_of(*fields);
    let mut r: Vec<Coordinate> = Vec::new();
    let mut y: usize = 0;
    while y < fields.len()
        invariant
            rect(cs),
            cs == cells_of(*fields),
            y <= cs.len(),
            r@.no_duplicates(),
            forall|c: Coordinate| #[trigger]
                r@.contains(c) <==> (in_bounds(cs, c.x as int, c.y as int) && cell(
                    cs,
                    c.x as int,
                    c.y as int,
                ).mined && (c.y as int) < y),
        decreases cs.len() - y,
    {
        let mut x: usize = 0;
        while x < fields[y].len()
            invariant
                rect(cs),
                cs == cells_of(*fields),
                y < cs.len(),
                x <= cs[y as int].len(),
                r@.no_duplicates(),
                forall|c: Coordinate| #[trigger]
                    r@.contains(c) <==> (in_bounds(cs, c.x as int, c.y as int) && cell(
                        cs,
                        c.x as int,
                        c.y as int,
                    ).mined && ((c.y as int) < y || (c.y == y && (c.x as int) < x))),
            decreases cs[y as int].len() - x,
        {
            if fields[y][x].has_mine() {
                let cc = Coordinate::new(x, y);
                let ghost r0 = r@;
                proof {
                    assert(!r0.contains(cc));
                }
                r.push(cc);
                proof {
                    assert forall|c: Coordinate| #[trigger]
                        r@.contains(c) <==> (in_bounds(cs, c.x as int, c.y as int) && cell(
                        cs,
                        c.x as int,
                        c.y as int,
                    ).mined && ((c.y as int) < y || (c.y == y && (c.x as int) < x + 1))) by {
                        if r@.contains(c) {
                            let i = choose|i: int| 0 <= i < r@.len() && r@[i] == c;
                            if i < r0.len() {
                                assert(r0[i] == c);
                                assert(r0.contains(c));
                            } else {
                                assert(c == cc);
                            }
                        }
                        if in_bounds(cs, c.x as int, c.y as int) && cell(
                            cs,
                            c.x as int,
                            c.y as int,
                        ).mined && ((c.y as int) < y || (c.y == y && (c.x as int) < x + 1)) {
                            if c == cc {
                                assert(r@[r0.len() as int] == c);
                            } else {
                                assert(r0.contains(c));
                                let i = choose|i: int| 0 <= i < r0.len() && r0[i] == c;
                                assert(r@[i] == c);
                            }
                        }
                    }
                }
            }
            x = x + 1;
        }
        y = y + 1;
    }
    r
}

} // verus!
