//! A lazy traversal over the coordinates that are safe to uncover.
//!
//! Starting from one seed coordinate, the traversal expands outward
//! through coordinates whose entire neighborhood is safe (free of mines
//! and flags), and yields every discovered coordinate exactly once, the
//! instant it is first discovered. The published contract is the
//! unordered set of yielded coordinates: exactly the coordinates
//! reachable from the seed through expandable coordinates.

use crate::coordinate::Coordinate;
use crate::field::Field;
use crate::grid::cells_of;
use crate::grid::coords;
use crate::grid::in_bounds;
use crate::grid::lemma_coords_len;
use crate::grid::neighborhood_safe;
use crate::grid::neighbors;
use crate::grid::spec_is_neighbor;
use crate::grid::cell;
use crate::grid::rect;
use vstd::prelude::*;
use vstd::set_lib;

verus! {

/// A coordinate is expandable when it lies on the grid and all of its
/// grid neighbors are safe.
pub open spec fn expandable(c: Seq<Seq<Field>>, x: int, y: int) -> bool {
    in_bounds(c, x, y) && neighborhood_safe(c, x, y)
}

/// A walk over the grid: every step moves to a neighbor, and every
/// coordinate but the last is expandable.
pub open spec fn path_ok(c: Seq<Seq<Field>>, p: Seq<(int, int)>) -> bool {
    &&& forall|i: int| 0 <= i < p.len() ==> in_bounds(c, (#[trigger] p[i]).0, p[i].1)
    &&& forall|i: int|
        0 <= i < p.len() - 1 ==> expandable(c, (#[trigger] p[i]).0, p[i].1) && spec_is_neighbor(
            p[i].0,
            p[i].1,
            p[i + 1].0,
            p[i + 1].1,
        )
}

/// The coordinate (tx, ty) can be reached from (sx, sy) by expanding
/// safe neighborhoods.
pub open spec fn reaches(c: Seq<Seq<Field>>, sx: int, sy: int, tx: int, ty: int) -> bool {
    exists|p: Seq<(int, int)>|
        p.len() >= 1 && p[0] == (sx, sy) && p.last() == (tx, ty) && path_ok(c, p)
}

/// Every coordinate reaches itself.
pub proof fn lemma_reaches_self(c: Seq<Seq<Field>>, x: int, y: int)
    requires
        in_bounds(c, x, y),
    ensures
        reaches(c, x, y, x, y),
{
    let p = seq![(x, y)];
    assert(p.len() >= 1 && p[0] == (x, y) && p.last() == (x, y) && path_ok(c, p));
}

/// Reachability extends across one more expandable neighborhood.
pub proof fn lemma_reaches_step(
    c: Seq<Seq<Field>>,
    sx: int,
    sy: int,
    mx: int,
    my: int,
    tx: int,
    ty: int,
)
    requires
        reaches(c, sx, sy, mx, my),
        expandable(c, mx, my),
        spec_is_neighbor(mx, my, tx, ty),
        in_bounds(c, tx, ty),
    ensures
        reaches(c, sx, sy, tx, ty),
{
    let p = choose|p: Seq<(int, int)>|
        p.len() >= 1 && p[0] == (sx, sy) && p.last() == (mx, my) && path_ok(c, p);
    let q = p.push((tx, ty));
    assert(q.len() >= 1 && q[0] == (sx, sy) && q.last() == (tx, ty));
    assert(path_ok(c, q)) by {
        assert(forall|i: int| 0 <= i < p.len() ==> q[i] == p[i]);
        assert(q[q.len() - 2] == (mx, my));
    }
}

/// A set of coordinates is closed under expansion when it holds every
/// in-bounds neighbor of each of its expandable members.
pub open spec fn closed_under_expansion(c: Seq<Seq<Field>>, s: Set<Coordinate>) -> bool {
    forall|cc: Coordinate, n: Coordinate|
        #![trigger s.contains(cc), in_bounds(c, n.x as int, n.y as int)]
        s.contains(cc) && expandable(c, cc.x as int, cc.y as int) && in_bounds(
            c,
            n.x as int,
            n.y as int,
        ) && spec_is_neighbor(cc.x as int, cc.y as int, n.x as int, n.y as int) ==> s.contains(n)
}

/// A set that holds a walk's first coordinate and is closed under
/// expansion holds its last coordinate.
proof fn lemma_path_closed(c: Seq<Seq<Field>>, p: Seq<(int, int)>, s: Set<Coordinate>)
    requires
        crate::grid::bounded_dims(c),
        path_ok(c, p),
        p.len() >= 1,
        s.contains(Coordinate { x: p[0].0 as usize, y: p[0].1 as usize }),
        closed_under_expansion(c, s),
    ensures
        s.contains(Coordinate { x: p.last().0 as usize, y: p.last().1 as usize }),
    decreases p.len(),
{
    if p.len() > 1 {
        let c0 = Coordinate { x: p[0].0 as usize, y: p[0].1 as usize };
        let c1 = Coordinate { x: p[1].0 as usize, y: p[1].1 as usize };
        assert(in_bounds(c, p[0].0, p[0].1) && in_bounds(c, p[1].0, p[1].1));
        assert(c0.x as int == p[0].0 && c0.y as int == p[0].1);
        assert(c1.x as int == p[1].0 && c1.y as int == p[1].1);
        assert(in_bounds(c, c1.x as int, c1.y as int));
        assert(expandable(c, c0.x as int, c0.y as int) && spec_is_neighbor(
            c0.x as int,
            c0.y as int,
            c1.x as int,
            c1.y as int,
        ));
        assert(s.contains(c1));
        let q = p.subrange(1, p.len() as int);
        assert(path_ok(c, q)) by {
            assert(forall|i: int| 0 <= i < q.len() ==> q[i] == p[i + 1]);
        }
        assert(q[0] == p[1] && q.last() == p.last());
        lemma_path_closed(c, q, s);
    }
}

/// Everything reachable from a seed lies in any set that holds the seed
/// and is closed under expansion.
pub proof fn lemma_reaches_in_closed_set(
    c: Seq<Seq<Field>>,
    sx: int,
    sy: int,
    tx: int,
    ty: int,
    s: Set<Coordinate>,
)
    requires
        crate::grid::bounded_dims(c),
        reaches(c, sx, sy, tx, ty),
        0 <= sx <= usize::MAX,
        0 <= sy <= usize::MAX,
        s.contains(Coordinate { x: sx as usize, y: sy as usize }),
        closed_under_expansion(c, s),
    ensures
        s.contains(Coordinate { x: tx as usize, y: ty as usize }),
{
    let p = choose|p: Seq<(int, int)>|
        p.len() >= 1 && p[0] == (sx, sy) && p.last() == (tx, ty) && path_ok(c, p);
    lemma_path_closed(c, p, s);
}

/// Whatever a coordinate reaches, it reaches on any grid with the same
/// dimensions, mine bits and flag bits: reachability never reads the
/// visited bits, the dud bits or the tallies.
pub proof fn lemma_reaches_frame(
    a: Seq<Seq<Field>>,
    b: Seq<Seq<Field>>,
    sx: int,
    sy: int,
    tx: int,
    ty: int,
)
    requires
        crate::grid::same_dims(a, b),
        forall|x: int, y: int|
            in_bounds(a, x, y) ==> (#[trigger] cell(b, x, y)).mined == cell(a, x, y).mined && cell(
                b,
                x,
                y,
            ).flagged == cell(a, x, y).flagged,
        reaches(a, sx, sy, tx, ty),
    ensures
        reaches(b, sx, sy, tx, ty),
{
    let p = choose|p: Seq<(int, int)>|
        p.len() >= 1 && p[0] == (sx, sy) && p.last() == (tx, ty) && path_ok(a, p);
    assert(path_ok(b, p)) by {
        assert forall|i: int| 0 <= i < p.len() implies in_bounds(b, (#[trigger] p[i]).0, p[i].1) by {
            assert(in_bounds(a, p[i].0, p[i].1));
        }
        assert forall|i: int|
            0 <= i < p.len() - 1 implies expandable(b, (#[trigger] p[i]).0, p[i].1)
            && spec_is_neighbor(p[i].0, p[i].1, p[i + 1].0, p[i + 1].1) by {
            assert(expandable(a, p[i].0, p[i].1));
            assert forall|nx: int, ny: int|
                in_bounds(b, nx, ny) && spec_is_neighbor(p[i].0, p[i].1, nx, ny) implies (
            #[trigger] cell(b, nx, ny)).spec_is_safe() by {
                assert(in_bounds(a, nx, ny));
                assert(cell(a, nx, ny).spec_is_safe());
            }
        }
    }
    assert(p.len() >= 1 && p[0] == (sx, sy) && p.last() == (tx, ty) && path_ok(b, p));
}

/// A reached coordinate other than the seed is always safe: it was
/// discovered as the neighbor of a coordinate whose whole neighborhood
/// is safe.
pub proof fn lemma_reached_is_safe(c: Seq<Seq<Field>>, sx: int, sy: int, tx: int, ty: int)
    requires
        reaches(c, sx, sy, tx, ty),
        !(tx == sx && ty == sy),
    ensures
        cell(c, tx, ty).spec_is_safe(),
{
    let p = choose|p: Seq<(int, int)>|
        p.len() >= 1 && p[0] == (sx, sy) && p.last() == (tx, ty) && path_ok(c, p);
    assert(p.len() >= 2);
    let i = p.len() - 2;
    assert(expandable(c, p[i].0, p[i].1));
    assert(spec_is_neighbor(p[i].0, p[i].1, p[i + 1].0, p[i + 1].1));
    assert(in_bounds(c, tx, ty));
}

/// An iterator over neighbors of a coordinate, which are deemed safe to
/// uncover.
///
/// The grid itself is handed to each call of [`SafeNeighbors::next`],
/// so the traversal borrows nothing and can be restarted at will.
#[derive(Clone, Debug, Eq, PartialEq)]
pub struct SafeNeighbors {
    frontier: Vec<Coordinate>,
    discovered: Vec<Vec<bool>>,
}

impl SafeNeighbors {
    /// The coordinates discovered but not yet yielded.
    pub closed spec fn frontier_seq(self) -> Seq<Coordinate> {
        self.frontier@
    }

    /// The coordinate (x, y) has been discovered.
    pub closed spec fn spec_discovered(self, x: int, y: int) -> bool {
        0 <= y < self.discovered@.len() && 0 <= x < self.discovered@[y]@.len()
            && self.discovered@[y]@[x]
    }

    /// The set of discovered coordinates.
    pub open spec fn disc_set(self) -> Set<Coordinate> {
        Set::new(|cc: Coordinate| self.spec_discovered(cc.x as int, cc.y as int))
    }

    /// The set of coordinates discovered but not yet yielded.
    pub open spec fn frontier_set(self) -> Set<Coordinate> {
        self.frontier_seq().to_set()
    }

    /// The in-bounds coordinates not discovered yet.
    pub open spec fn undiscovered_set(self, c: Seq<Seq<Field>>) -> Set<Coordinate> {
        Set::new(
            |cc: Coordinate|
                in_bounds(c, cc.x as int, cc.y as int) && !self.spec_discovered(
                    cc.x as int,
                    cc.y as int,
                ),
        )
    }

    /// How much work is left: yielding shrinks this measure, so the
    /// traversal terminates.
    pub open spec fn metric(self, c: Seq<Seq<Field>>) -> int {
        self.frontier_seq().len() + 2 * self.undiscovered_set(c).len() as int
    }

    /// The traversal's bookkeeping matches the grid.
    pub closed spec fn wf(self, c: Seq<Seq<Field>>) -> bool {
        &&& self.discovered@.len() == c.len()
        &&& forall|y: int|
            0 <= y < c.len() ==> #[trigger] self.discovered@[y]@.len() == c[y].len()
        &&& self.frontier@.no_duplicates()
        &&& forall|i: int|
            0 <= i < self.frontier@.len() ==> in_bounds(
                c,
                (#[trigger] self.frontier@[i]).x as int,
                self.frontier@[i].y as int,
            ) && self.spec_discovered(self.frontier@[i].x as int, self.frontier@[i].y as int)
    }

    /// Create a new [`SafeNeighbors`] traversal over the given fields,
    /// seeded with the given starting coordinate.
    pub fn new(fields: &Vec<Vec<Field>>, start: Coordinate) -> (r: Self)
        requires
            rect(cells_of(*fields)),
            in_bounds(cells_of(*fields), start.x as int, start.y as int),
        ensures
            r.wf(cells_of(*fields)),
            r.frontier_seq() =~= seq![start],
            forall|x: int, y: int| r.spec_discovered(x, y) <==> (x == start.x && y == start.y),
    {
        let ghost c = cells_of(*fields);
        let mut discovered: Vec<Vec<bool>> = Vec::new();
        let mut y: usize = 0;
        while y < fields.len()
            invariant
                c == cells_of(*fields),
                y <= c.len(),
                discovered@.len() == y,
                forall|i: int|
                    0 <= i < y ==> #[trigger] discovered@[i]@.len() == c[i].len(),
                forall|i: int, x: int|
                    0 <= i < y && 0 <= x < discovered@[i]@.len() ==> !(#[trigger] discovered@[i]@[x]),
            decreases c.len() - y,
        {
            let mut row: Vec<bool> = Vec::new();
            let width = fields[y].len();
            let mut x: usize = 0;
            while x < width
                invariant
                    x <= width,
                    row@.len() == x,
                    forall|i: int| 0 <= i < x ==> !(#[trigger] row@[i]),
                decreases width - x,
            {
                row.push(false);
                x = x + 1;
            }
            discovered.push(row);
            y = y + 1;
        }
        let mut r = SafeNeighbors { frontier: Vec::new(), discovered };
        r.discovered[start.y][start.x] = true;
        r.frontier.push(start);
        r
    }

    /// Yield the next safe coordinate, or `None` once the traversal is
    /// exhausted.
    ///
    /// The yielded coordinate is removed from the frontier; if its whole
    /// neighborhood is safe, its undiscovered neighbors are discovered
    /// and join the frontier.
    pub fn next(&mut self, fields: &Vec<Vec<Field>>) -> (r: Option<Coordinate>)
        requires
            rect(cells_of(*fields)),
            old(self).wf(cells_of(*fields)),
        ensures
            final(self).wf(cells_of(*fields)),
            r is None ==> {
                &&& old(self).frontier_seq().len() == 0
                &&& final(self).frontier_seq() == old(self).frontier_seq()
                &&& forall|x: int, y: int|
                    final(self).spec_discovered(x, y) == old(self).spec_discovered(x, y)
            },
            r is Some ==> old(self).frontier_seq().len() > 0,
            r matches Some(cc) ==> {
                let c = cells_of(*fields);
                &&& old(self).frontier_set().contains(cc)
                &&& in_bounds(c, cc.x as int, cc.y as int)
                &&& final(self).metric(c) < old(self).metric(c)
                &&& forall|p: Coordinate|
                    final(self).frontier_set().contains(p) <==> ((old(
                        self,
                    ).frontier_set().contains(p) && p != cc) || (expandable(
                        c,
                        cc.x as int,
                        cc.y as int,
                    ) && in_bounds(c, p.x as int, p.y as int) && spec_is_neighbor(
                        cc.x as int,
                        cc.y as int,
                        p.x as int,
                        p.y as int,
                    ) && !old(self).disc_set().contains(p)))
                &&& forall|p: Coordinate|
                    final(self).disc_set().contains(p) <==> (old(self).disc_set().contains(p) || (
                    expandable(c, cc.x as int, cc.y as int) && in_bounds(
                        c,
                        p.x as int,
                        p.y as int,
                    ) && spec_is_neighbor(cc.x as int, cc.y as int, p.x as int, p.y as int)))
            },
    {
        let ghost c = cells_of(*fields);
        let cc = match self.frontier.pop() {
            None => {
                return None;
            },
            Some(cc) => cc,
        };
        let ghost entry = *self;
        let ghost frontier0 = entry.frontier_seq().push(cc);
        proof {
            assert(frontier0 == old(self).frontier_seq());
            assert(frontier0.last() == cc);
            assert(frontier0.contains(cc));
            assert(in_bounds(c, cc.x as int, cc.y as int));
            // Popping the last element of a duplicate-free sequence
            // removes exactly that element from its set of values.
            assert forall|p: Coordinate| #[trigger]
                entry.frontier_set().contains(p) <==> (old(self).frontier_set().contains(p) && p
                    != cc) by {
                if entry.frontier_set().contains(p) {
                    let i = choose|i: int|
                        0 <= i < entry.frontier_seq().len() && entry.frontier_seq()[i] == p;
                    assert(frontier0[i] == p);
                    assert(frontier0.contains(p));
                    assert(frontier0[frontier0.len() - 1] == cc);
                    assert(p != cc);
                }
                if old(self).frontier_set().contains(p) && p != cc {
                    let i = choose|i: int| 0 <= i < frontier0.len() && frontier0[i] == p;
                    assert(i < frontier0.len() - 1);
                    assert(entry.frontier_seq()[i] == p);
                }
            }
            let f = self.frontier_seq();
            assert(forall|i: int| 0 <= i < f.len() ==> f[i] == frontier0[i]);
            assert(f.no_duplicates()) by {
                assert forall|i1: int, i2: int|
                    0 <= i1 < f.len() && 0 <= i2 < f.len() && i1 != i2 implies f[i1] != f[i2] by {
                    assert(frontier0[i1] != frontier0[i2]);
                }
            }
            assert(self.wf(c));
        }
        let height = fields.len();
        proof {
            assert(c[cc.y as int].len() == c[0].len());
        }
        let width = fields[0].len();
        let nbrs = neighbors(width, height, cc.x, cc.y);
        let mut all_safe = true;
        let mut i: usize = 0;
        while i < nbrs.len()
            invariant
                rect(c),
                c == cells_of(*fields),
                height == c.len(),
                width == c[0].len(),
                i <= nbrs@.len(),
                forall|k: int|
                    0 <= k < nbrs@.len() ==> in_bounds(
                        c,
                        (#[trigger] nbrs@[k]).x as int,
                        nbrs@[k].y as int,
                    ),
                all_safe <==> (forall|k: int|
                    0 <= k < i ==> cell(
                        c,
                        (#[trigger] nbrs@[k]).x as int,
                        nbrs@[k].y as int,
                    ).spec_is_safe()),
            decreases nbrs@.len() - i,
        {
            let n = nbrs[i];
            if !fields[n.y][n.x].is_safe() {
                all_safe = false;
            }
            i = i + 1;
        }
        proof {
            assert(all_safe == neighborhood_safe(c, cc.x as int, cc.y as int)) by {
                if all_safe {
                    assert forall|nx: int, ny: int|
                        in_bounds(c, nx, ny) && spec_is_neighbor(
                            cc.x as int,
                            cc.y as int,
                            nx,
                            ny,
                        ) implies (#[trigger] cell(c, nx, ny)).spec_is_safe() by {
                        let p = Coordinate { x: nx as usize, y: ny as usize };
                        assert(nbrs@.contains(p));
                        let k = choose|k: int| 0 <= k < nbrs@.len() && nbrs@[k] == p;
                        assert(cell(c, nbrs@[k].x as int, nbrs@[k].y as int).spec_is_safe());
                    }
                } else {
                    let k = choose|k: int|
                        0 <= k < nbrs@.len() && !cell(
                            c,
                            (#[trigger] nbrs@[k]).x as int,
                            nbrs@[k].y as int,
                        ).spec_is_safe();
                    assert(nbrs@.contains(nbrs@[k]));
                }
            }
        }
        if all_safe {
            proof {
                lemma_coords_len(width as int, height as int);
                set_lib::lemma_len_subset(entry.undiscovered_set(c), coords(width as int, height as int));
            }
            let mut j: usize = 0;
            while j < nbrs.len()
                invariant
                    rect(c),
                    c == cells_of(*fields),
                    height == c.len(),
                    width == c[0].len(),
                    j <= nbrs@.len(),
                    nbrs@.no_duplicates(),
                    expandable(c, cc.x as int, cc.y as int),
                    forall|k: int|
                        0 <= k < nbrs@.len() ==> in_bounds(
                            c,
                            (#[trigger] nbrs@[k]).x as int,
                            nbrs@[k].y as int,
                        ) && spec_is_neighbor(
                            cc.x as int,
                            cc.y as int,
                            nbrs@[k].x as int,
                            nbrs@[k].y as int,
                        ),
                    self.wf(c),
                    self.metric(c) <= entry.metric(c),
                    forall|p: Coordinate| #[trigger]
                        self.disc_set().contains(p) <==> (entry.disc_set().contains(p) || exists|k: int|
                            0 <= k < j && nbrs@[k] == p),
                    forall|p: Coordinate| #[trigger]
                        self.frontier_set().contains(p) <==> (entry.frontier_set().contains(p) || (
                        exists|k: int| 0 <= k < j && nbrs@[k] == p)
                            && !entry.disc_set().contains(p)),
                decreases nbrs@.len() - j,
            {
                let n = nbrs[j];
                let ghost before = *self;
                let already = self.discovered[n.y][n.x];
                if !already {
                    self.discovered[n.y][n.x] = true;
                    self.frontier.push(n);
                    proof {
                        assert(!before.frontier_seq().contains(n));
                        assert forall|x: int, y: int| #[trigger]
                            self.spec_discovered(x, y) <==> (before.spec_discovered(x, y) || (x
                                == n.x && y == n.y)) by {}
                        assert(self.undiscovered_set(c) =~= before.undiscovered_set(c).remove(n));
                        assert(before.undiscovered_set(c).contains(n));
                        lemma_coords_len(width as int, height as int);
                        set_lib::lemma_len_subset(
                            before.undiscovered_set(c),
                            coords(width as int, height as int),
                        );
                        assert(self.undiscovered_set(c).len() == before.undiscovered_set(c).len()
                            - 1);
                        assert forall|p: Coordinate| #[trigger]
                            self.frontier_set().contains(p) <==> (
                            before.frontier_set().contains(p) || p == n) by {
                            let f0 = before.frontier_seq();
                            let f1 = self.frontier_seq();
                            assert(f1 == f0.push(n));
                            if self.frontier_set().contains(p) {
                                let i2 = choose|i2: int| 0 <= i2 < f1.len() && f1[i2] == p;
                                if i2 < f0.len() {
                                    assert(f0[i2] == p);
                                } else {
                                    assert(p == n);
                                }
                            }
                            if before.frontier_set().contains(p) {
                                let i2 = choose|i2: int| 0 <= i2 < f0.len() && f0[i2] == p;
                                assert(f1[i2] == p);
                            }
                            if p == n {
                                assert(f1[f1.len() - 1] == p);
                            }
                        }
                    }
                }
                j = j + 1;
                proof {
                    if already {
                        assert(*self == before);
                        assert(before.spec_discovered(n.x as int, n.y as int));
                    } else {
                        assert(self.spec_discovered(n.x as int, n.y as int));
                    }
                    assert forall|p: Coordinate| #[trigger]
                        self.disc_set().contains(p) <==> (entry.disc_set().contains(p) || exists|
                        k: int| 0 <= k < j && nbrs@[k] == p) by {
                        if entry.disc_set().contains(p) {
                            assert(before.disc_set().contains(p));
                            assert(self.disc_set().contains(p));
                        }
                        if self.disc_set().contains(p) && !entry.disc_set().contains(p) {
                            if before.disc_set().contains(p) {
                                let k = choose|k: int| 0 <= k < j - 1 && nbrs@[k] == p;
                                assert(0 <= k < j && nbrs@[k] == p);
                            } else {
                                assert(p == n);
                                assert(nbrs@[j - 1] == p);
                            }
                        }
                        if !entry.disc_set().contains(p) && (exists|k: int|
                            0 <= k < j && nbrs@[k] == p) {
                            let k = choose|k: int| 0 <= k < j && nbrs@[k] == p;
                            if k < j - 1 {
                                assert(before.disc_set().contains(p));
                                assert(self.disc_set().contains(p));
                            } else {
                                assert(p == n);
                                if already {
                                    assert(before.disc_set().contains(p));
                                } else {
                                    assert(self.disc_set().contains(p));
                                }
                            }
                        }
                    }
                    assert forall|p: Coordinate| #[trigger]
                        self.frontier_set().contains(p) <==> (entry.frontier_set().contains(p) || (
                        exists|k: int| 0 <= k < j && nbrs@[k] == p)
                            && !entry.disc_set().contains(p)) by {
                        if entry.frontier_set().contains(p) {
                            assert(before.frontier_set().contains(p));
                            assert(self.frontier_set().contains(p));
                        }
                        if self.frontier_set().contains(p) && !entry.frontier_set().contains(p) {
                            if before.frontier_set().contains(p) {
                                let k = choose|k: int|
                                    0 <= k < j - 1 && nbrs@[k] == p && !entry.disc_set().contains(
                                        p,
                                    );
                                assert(0 <= k < j && nbrs@[k] == p);
                            } else {
                                assert(!already && p == n);
                                assert(nbrs@[j - 1] == p);
                                assert(!before.disc_set().contains(p));
                            }
                        }
                        if !entry.frontier_set().contains(p) && (exists|k: int|
                            0 <= k < j && nbrs@[k] == p) && !entry.disc_set().contains(p) {
                            let k = choose|k: int| 0 <= k < j && nbrs@[k] == p;
                            if k < j - 1 {
                                assert(before.frontier_set().contains(p));
                                assert(self.frontier_set().contains(p));
                            } else {
                                assert(p == n);
                                if already {
                                    assert(before.disc_set().contains(p));
                                    assert(before.frontier_set().contains(p));
                                    assert(self.frontier_set().contains(p));
                                } else {
                                    assert(self.frontier_set().contains(p));
                                }
                            }
                        }
                    }
                }
            }
            proof {
                assert forall|p: Coordinate| #[trigger]
                    self.disc_set().contains(p) <==> (entry.disc_set().contains(p) || (in_bounds(
                    c,
                    p.x as int,
                    p.y as int,
                ) && spec_is_neighbor(cc.x as int, cc.y as int, p.x as int, p.y as int))) by {
                    if self.disc_set().contains(p) && !entry.disc_set().contains(p) {
                        let k = choose|k: int| 0 <= k < nbrs@.len() && nbrs@[k] == p;
                    }
                    if in_bounds(c, p.x as int, p.y as int) && spec_is_neighbor(
                        cc.x as int,
                        cc.y as int,
                        p.x as int,
                        p.y as int,
                    ) {
                        assert(nbrs@.contains(p));
                        let k = choose|k: int| 0 <= k < nbrs@.len() && nbrs@[k] == p;
                        assert(exists|k2: int| 0 <= k2 < nbrs@.len() && nbrs@[k2] == p);
                    }
                }
                assert forall|p: Coordinate| #[trigger]
                    self.frontier_set().contains(p) <==> ((entry.frontier_set().contains(p)) || (
                    in_bounds(c, p.x as int, p.y as int) && spec_is_neighbor(
                        cc.x as int,
                        cc.y as int,
                        p.x as int,
                        p.y as int,
                    ) && !entry.disc_set().contains(p))) by {
                    if self.frontier_set().contains(p) && !entry.frontier_set().contains(p) {
                        let k = choose|k: int| 0 <= k < nbrs@.len() && nbrs@[k] == p;
                    }
                    if in_bounds(c, p.x as int, p.y as int) && spec_is_neighbor(
                        cc.x as int,
                        cc.y as int,
                        p.x as int,
                        p.y as int,
                    ) && !entry.disc_set().contains(p) {
                        assert(nbrs@.contains(p));
                        let k = choose|k: int| 0 <= k < nbrs@.len() && nbrs@[k] == p;
                        assert(exists|k2: int| 0 <= k2 < nbrs@.len() && nbrs@[k2] == p);
                    }
                }
            }
        }
        proof {
            assert(old(self).undiscovered_set(c) =~= entry.undiscovered_set(c));
            assert(old(self).metric(c) == entry.metric(c) + 1);
            assert(frontier0[frontier0.len() - 1] == cc);
            assert(old(self).frontier_seq().contains(cc));
            assert(old(self).frontier_set().contains(cc));
        }
        Some(cc)
    }
}

} // verus!
