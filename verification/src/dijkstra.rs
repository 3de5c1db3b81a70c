use vstd::prelude::*;

use crate::cell::Cell;
use crate::error::MazeError;
use crate::grid::{forward_spanning, has_forward_link, lemma_neighbors_of_entries, neighbors_of, Grid};
use crate::xy::{push_char, Xy};

verus! {

broadcast use vstd::set::group_set_axioms;

/// The base-62 glyph for a distance value: the digits, then the lowercase
/// letters, then the uppercase letters, cycling every 62 units of distance.
pub open spec fn glyph(d: nat) -> char {
    let r = d % 62;
    if r < 10 {
        ((48 + r) as u8) as char
    } else if r < 36 {
        ((87 + r) as u8) as char
    } else {
        ((29 + r) as u8) as char
    }
}

/// The three-column token of a path cell before highlighting: the distance
/// glyph between single spaces.
pub open spec fn glyph_token(d: nat) -> Seq<char> {
    seq![' ', glyph(d), ' ']
}

/// What the terminal styling wraps around a token: the escape sequence for
/// black text on a green background before it, the reset sequence after it.
pub open spec fn highlight_of(s: Seq<char>) -> Seq<char> {
    "\u{1b}[42;30m"@ + s + "\u{1b}[0m"@
}

/// Relies on ansi_term: painting a string black-on-green writes the
/// background code (42), then the foreground code (30), then the text, then
/// the reset code - a pure function of the input text.
#[verifier::external_body]
fn highlight(s: String) -> (r: String)
    ensures
        r@ == highlight_of(s@),
{
    ansi_term::Style::new().on(ansi_term::Colour::Green).fg(ansi_term::Colour::Black).paint(
        s,
    ).to_string()
}

fn glyph_char(d: usize) -> (c: char)
    ensures
        c == glyph(d as nat),
{
    let r = d % 62;
    if r < 10 {
        (48 + r as u8) as char
    } else if r < 36 {
        (87 + r as u8) as char
    } else {
        (29 + r as u8) as char
    }
}

/// A distance-annotated cell: its position, the optional distance from the
/// source assigned by the search, and whether it lies on the marked path.
#[derive(Debug, Clone, Copy)]
pub struct DistanceCell {
    x: usize,
    y: usize,
    distance: Option<usize>,
    is_path: bool,
}

impl DistanceCell {
    /// The distance recorded for this cell, if it was reached.
    pub closed spec fn dist(self) -> Option<usize> {
        self.distance
    }

    /// Whether this cell was marked as lying on the shortest path.
    pub closed spec fn on_path(self) -> bool {
        self.is_path
    }

    pub fn distance(&self) -> (r: Option<usize>)
        ensures
            r == self.dist(),
    {
        self.distance
    }

    /// Whether this cell was marked as lying on the shortest path.
    pub fn is_path(&self) -> (r: bool)
        ensures
            r == self.on_path(),
    {
        self.is_path
    }
}

impl Cell for DistanceCell {
    closed spec fn sx(&self) -> usize {
        self.x
    }

    closed spec fn sy(&self) -> usize {
        self.y
    }

    open spec fn token(&self) -> Seq<char> {
        if self.on_path() && self.dist() is Some {
            highlight_of(glyph_token(self.dist()->Some_0 as nat))
        } else {
            "   "@
        }
    }

    open spec fn fresh(&self) -> bool {
        self.dist() is None && !self.on_path()
    }

    fn new(x: usize, y: usize) -> (c: DistanceCell) {
        DistanceCell { x, y, distance: None, is_path: false }
    }

    fn to_string(&self) -> (r: String) {
        match self.distance {
            Some(d) => {
                if self.is_path {
                    let mut t = String::new();
                    push_char(&mut t, ' ');
                    push_char(&mut t, glyph_char(d));
                    push_char(&mut t, ' ');
                    proof {
                        assert(t@ =~= glyph_token(d as nat));
                    }
                    highlight(t)
                } else {
                    "   ".to_owned()
                }
            },
            None => "   ".to_owned(),
        }
    }

    fn x(&self) -> (r: usize) {
        self.x
    }

    fn y(&self) -> (r: usize) {
        self.y
    }
}

/// The distance recorded at (a, b).
pub open spec fn dist_at(d: Grid<DistanceCell>, a: int, b: int) -> Option<usize> {
    d.cell_at(a, b).dist()
}

/// Whether the cell at (a, b) is marked as on the path.
pub open spec fn path_at(d: Grid<DistanceCell>, a: int, b: int) -> bool {
    d.cell_at(a, b).on_path()
}

/// The distance grid shares the source grid's dimensions and its link
/// relation verbatim.
pub open spec fn same_topology<T>(g: Grid<T>, d: Grid<DistanceCell>) -> bool {
    &&& d.dim_x() == g.dim_x()
    &&& d.dim_y() == g.dim_y()
    &&& d.link_seq() == g.link_seq()
}

/// The labels a finished breadth-first search leaves behind, from source
/// (bx, by): the source is the one cell at distance zero; every other
/// reached cell has a linked neighbor one step closer; and every neighbor of
/// a reached cell is reached, at most one step further. Together these pin
/// the labels to the shortest link-path lengths and make the unreached cells
/// exactly those with no link-path from the source.
#[verifier::opaque]
pub open spec fn distances_consistent(d: Grid<DistanceCell>, bx: usize, by: usize) -> bool {
    &&& dist_at(d, bx as int, by as int) == Some(0usize)
    &&& (forall|i: usize, j: usize|
        d.in_bounds(i as int, j as int) && #[trigger] dist_at(d, i as int, j as int) == Some(0usize)
            ==> i == bx && j == by)
    &&& (forall|i: usize, j: usize|
        d.in_bounds(i as int, j as int) && (#[trigger] dist_at(d, i as int, j as int)) is Some
            && dist_at(d, i as int, j as int)->Some_0 > 0 ==> exists|p: usize, q: usize|
            #[trigger] d.linked(i, j, p, q) && dist_at(d, p as int, q as int) == Some(
                (dist_at(d, i as int, j as int)->Some_0 - 1) as usize,
            ))
    &&& (forall|i: usize, j: usize, p: usize, q: usize|
        d.in_bounds(i as int, j as int) && #[trigger] d.linked(i, j, p, q) && dist_at(
            d,
            i as int,
            j as int,
        ) is Some ==> dist_at(d, p as int, q as int) is Some && dist_at(
            d,
            p as int,
            q as int,
        )->Some_0 <= dist_at(d, i as int, j as int)->Some_0 + 1)
}

/// Whether q already carries a distance strictly below cd.
pub open spec fn closer(d: Grid<DistanceCell>, q: (usize, usize), cd: usize) -> bool {
    dist_at(d, q.0 as int, q.1 as int) is Some && dist_at(d, q.0 as int, q.1 as int)->Some_0 < cd
}

/// The neighbor the path walk steps to from a cell at distance cd: the last
/// strictly closer cell in its neighbor list, which itself follows the
/// stored link order - a deterministic function of the grid.
pub open spec fn is_downhill_choice(
    d: Grid<DistanceCell>,
    cx: usize,
    cy: usize,
    cd: usize,
    q: (usize, usize),
) -> bool {
    let ns = neighbors_of(d.link_seq(), cx, cy);
    exists|m: int|
        {
            &&& 0 <= m < ns.len()
            &&& #[trigger] ns[m] == q
            &&& closer(d, q, cd)
            &&& (forall|m2: int| m < m2 < ns.len() ==> !closer(d, ns[m2], cd))
        }
}

/// A marked shortest path: p runs from the target back to the source, each
/// step along a link, each step exactly one unit closer to the source, the
/// step taken is always the last strictly closer stored neighbor (so the
/// walk, and with it the flagged set, is a deterministic function of the
/// grid), and the cells flagged as on the path are exactly the cells of p.
pub open spec fn is_path_chain(
    d: Grid<DistanceCell>,
    bx: usize,
    by: usize,
    ex: usize,
    ey: usize,
    p: Seq<(usize, usize)>,
) -> bool {
    let dd = dist_at(d, ex as int, ey as int)->Some_0;
    &&& p.len() == dd + 1
    &&& p[0] == (ex, ey)
    &&& p[dd as int] == (bx, by)
    &&& (forall|i: int|
        0 <= i < dd ==> d.linked((#[trigger] p[i]).0, p[i].1, p[i + 1].0, p[i + 1].1))
    &&& (forall|i: int|
        0 <= i < dd ==> is_downhill_choice(d, (#[trigger] p[i]).0, p[i].1, (dd - i) as usize, p[i + 1]))
    &&& (forall|i: int|
        0 <= i <= dd ==> d.in_bounds((#[trigger] p[i]).0 as int, p[i].1 as int) && dist_at(
            d,
            p[i].0 as int,
            p[i].1 as int,
        ) == Some((dd - i) as usize))
    &&& (forall|i: usize, j: usize|
        d.in_bounds(i as int, j as int) ==> (#[trigger] path_at(d, i as int, j as int)
            <==> p.contains((i, j))))
}

/// What the path-marking pass guarantees: if the target was reached, the
/// flagged cells form the unique chain from target back to source; if it was
/// not, only the target itself is flagged.
pub open spec fn path_marked(
    d: Grid<DistanceCell>,
    bx: usize,
    by: usize,
    ex: usize,
    ey: usize,
) -> bool {
    if dist_at(d, ex as int, ey as int) is Some {
        exists|p: Seq<(usize, usize)>| is_path_chain(d, bx, by, ex, ey, p)
    } else {
        forall|i: usize, j: usize|
            d.in_bounds(i as int, j as int) ==> (#[trigger] path_at(d, i as int, j as int) <==> (i
                == ex && j == ey))
    }
}

/// The coordinates of the grid rectangle, as a set.
pub open spec fn cell_box(w: int, h: int) -> Set<(int, int)> {
    Set::new(|p: (int, int)| 0 <= p.0 < w && 0 <= p.1 < h)
}

/// The rectangle plus the first m cells of one further column.
spec fn cell_box_grown(w: int, h: int, m: int) -> Set<(int, int)> {
    Set::new(|p: (int, int)| (0 <= p.0 < w && 0 <= p.1 < h) || (p.0 == w && 0 <= p.1 < m))
}

proof fn lemma_cell_box_grown_len(w: int, h: int, m: int)
    requires
        0 <= w,
        0 <= h,
        0 <= m <= h,
        cell_box(w, h).finite(),
        cell_box(w, h).len() == w * h,
    ensures
        cell_box_grown(w, h, m).finite(),
        cell_box_grown(w, h, m).len() == w * h + m,
    decreases m,
{
    if m == 0 {
        assert(cell_box_grown(w, h, 0) =~= cell_box(w, h));
    } else {
        lemma_cell_box_grown_len(w, h, m - 1);
        assert(cell_box_grown(w, h, m) =~= cell_box_grown(w, h, m - 1).insert((w, m - 1)));
        assert(!cell_box_grown(w, h, m - 1).contains((w, m - 1)));
    }
}

/// The grid rectangle is finite and holds exactly w * h coordinates.
pub proof fn lemma_cell_box_len(w: int, h: int)
    requires
        0 <= w,
        0 <= h,
    ensures
        cell_box(w, h).finite(),
        cell_box(w, h).len() == w * h,
    decreases w,
{
    if w == 0 {
        assert(cell_box(0, h) =~= Set::<(int, int)>::empty());
        assert((0int) * h == 0) by (nonlinear_arith);
    } else {
        lemma_cell_box_len(w - 1, h);
        lemma_cell_box_grown_len(w - 1, h, h);
        assert(cell_box_grown(w - 1, h, h) =~= cell_box(w, h));
        assert((w - 1) * h + h == w * h) by (nonlinear_arith);
    }
}

fn set_distance(d: &mut Grid<DistanceCell>, i: usize, j: usize, v: usize)
    requires
        old(d).wf(),
        i < old(d).dim_x(),
        j < old(d).dim_y(),
    ensures
        final(d).wf(),
        final(d).dim_x() == old(d).dim_x(),
        final(d).dim_y() == old(d).dim_y(),
        final(d).link_seq() == old(d).link_seq(),
        dist_at(*final(d), i as int, j as int) == Some(v),
        path_at(*final(d), i as int, j as int) == path_at(*old(d), i as int, j as int),
        forall|a: int, b: int|
            final(d).in_bounds(a, b) && !(a == i && b == j) ==> #[trigger] final(d).cell_at(a, b)
                == old(d).cell_at(a, b),
{
    let mut c = d.cell(i, j);
    c.distance = Some(v);
    d.set_cell(i, j, c);
}

fn set_path(d: &mut Grid<DistanceCell>, i: usize, j: usize)
    requires
        old(d).wf(),
        i < old(d).dim_x(),
        j < old(d).dim_y(),
    ensures
        final(d).wf(),
        final(d).dim_x() == old(d).dim_x(),
        final(d).dim_y() == old(d).dim_y(),
        final(d).link_seq() == old(d).link_seq(),
        path_at(*final(d), i as int, j as int),
        forall|a: int, b: int|
            final(d).in_bounds(a, b) ==> #[trigger] dist_at(*final(d), a, b) == dist_at(
                *old(d),
                a,
                b,
            ),
        forall|a: int, b: int|
            final(d).in_bounds(a, b) && !(a == i && b == j) ==> #[trigger] path_at(*final(d), a, b)
                == path_at(*old(d), a, b),
{
    let mut c = d.cell(i, j);
    c.is_path = true;
    d.set_cell(i, j, c);
    proof {
        assert forall|a: int, b: int| d.in_bounds(a, b) implies #[trigger] dist_at(*d, a, b)
            == dist_at(*old(d), a, b) by {
            if !(a == i && b == j) {
                assert(d.cell_at(a, b) == old(d).cell_at(a, b));
            }
        }
    }
}

/// Carrying the breadth-first labelling across a change that leaves every
/// distance in place.
proof fn lemma_consistent_transfer(
    d1: Grid<DistanceCell>,
    d2: Grid<DistanceCell>,
    bx: usize,
    by: usize,
)
    requires
        d1.wf(),
        distances_consistent(d1, bx, by),
        d2.dim_x() == d1.dim_x(),
        d2.dim_y() == d1.dim_y(),
        d2.link_seq() == d1.link_seq(),
        forall|a: int, b: int|
            d2.in_bounds(a, b) ==> #[trigger] dist_at(d2, a, b) == dist_at(d1, a, b),
        d2.in_bounds(bx as int, by as int),
    ensures
        distances_consistent(d2, bx, by),
{
    reveal(distances_consistent);
    assert(dist_at(d2, bx as int, by as int) == Some(0usize));
    assert forall|i: usize, j: usize|
        d2.in_bounds(i as int, j as int) && #[trigger] dist_at(d2, i as int, j as int) == Some(
            0usize,
        ) implies i == bx && j == by by {
        assert(dist_at(d1, i as int, j as int) == Some(0usize));
    }
    assert forall|i: usize, j: usize|
        d2.in_bounds(i as int, j as int) && (#[trigger] dist_at(d2, i as int, j as int)) is Some
            && dist_at(d2, i as int, j as int)->Some_0 > 0 implies exists|p: usize, q: usize|
        #[trigger] d2.linked(i, j, p, q) && dist_at(d2, p as int, q as int) == Some(
            (dist_at(d2, i as int, j as int)->Some_0 - 1) as usize,
        ) by {
        assert(dist_at(d1, i as int, j as int) == dist_at(d2, i as int, j as int));
        let (p, q) = choose|p: usize, q: usize|
            #[trigger] d1.linked(i, j, p, q) && dist_at(d1, p as int, q as int) == Some(
                (dist_at(d1, i as int, j as int)->Some_0 - 1) as usize,
            );
        assert(d2.linked(i, j, p, q));
        assert(d1.in_bounds(p as int, q as int)) by {
            assert(d1.link_seq().contains((i, j, p, q)));
        }
        assert(dist_at(d2, p as int, q as int) == dist_at(d1, p as int, q as int));
    }
    assert forall|i: usize, j: usize, p: usize, q: usize|
        d2.in_bounds(i as int, j as int) && #[trigger] d2.linked(i, j, p, q) && dist_at(
            d2,
            i as int,
            j as int,
        ) is Some implies dist_at(d2, p as int, q as int) is Some && dist_at(
        d2,
        p as int,
        q as int,
    )->Some_0 <= dist_at(d2, i as int, j as int)->Some_0 + 1 by {
        assert(d1.linked(i, j, p, q));
        assert(d1.in_bounds(p as int, q as int)) by {
            assert(d1.link_seq().contains((i, j, p, q)));
        }
        assert(dist_at(d1, i as int, j as int) == dist_at(d2, i as int, j as int));
        assert(dist_at(d1, p as int, q as int) == dist_at(d2, p as int, q as int));
    }
}

/// Computes, for every cell reachable from `begin` over the link relation,
/// the length of the shortest link-path from `begin`, by layered
/// breadth-first expansion; unreached cells keep no distance. Then marks the
/// unique shortest path from `end` back to `begin` (or `end` alone if it was
/// not reached). The source grid is read-only; the result is a fresh grid of
/// distance cells with the same link relation.
#[verifier::rlimit(100)]
pub fn calculate<T: Cell>(grid: &Grid<T>, begin: Xy, end: Xy) -> (res: Result<
    Grid<DistanceCell>,
    MazeError,
>)
    requires
        grid.wf(),
    ensures
        res is Ok <==> (grid.in_bounds(begin.x as int, begin.y as int) && grid.in_bounds(
            end.x as int,
            end.y as int,
        )),
        res is Err ==> res == Err::<Grid<DistanceCell>, MazeError>(MazeError::OutOfBounds),
        res matches Ok(d) ==> {
            &&& d.wf()
            &&& same_topology(*grid, d)
            &&& distances_consistent(d, begin.x, begin.y)
            &&& path_marked(d, begin.x, begin.y, end.x, end.y)
        },
{
    let dx = grid.x();
    let dy = grid.y();
    let bx = begin.x();
    let by = begin.y();
    let ex = end.x();
    let ey = end.y();
    if !(bx < dx && by < dy && ex < dx && ey < dy) {
        return Err(MazeError::OutOfBounds);
    }
    let mut d: Grid<DistanceCell> = Grid::new(dx, dy);
    let ghost d0 = d;
    d.copy_links_from(grid);
    proof {
        crate::grid::lemma_wf_after_links_copy(d0, *grid, d);
    }
    set_distance(&mut d, bx, by, 0);
    let mut frontier: Vec<(usize, usize)> = Vec::new();
    frontier.push((bx, by));
    let ghost mut k: nat = 0;
    let ghost mut lc: nat = 1;
    let ghost mut unl: Set<(int, int)> = cell_box(dx as int, dy as int).remove(
        (bx as int, by as int),
    );
    proof {
        lemma_cell_box_len(dx as int, dy as int);
        assert(cell_box(dx as int, dy as int).contains((bx as int, by as int)));
        assert forall|i: usize, j: usize|
            d.in_bounds(i as int, j as int) && !(i == bx && j == by) implies (#[trigger] dist_at(
            d,
            i as int,
            j as int,
        )) is None && !path_at(d, i as int, j as int) by {
            assert(d.cell_at(i as int, j as int) == d0.cell_at(i as int, j as int));
            assert(d0.cell_at(i as int, j as int).fresh());
        }
        assert(!path_at(d, bx as int, by as int)) by {
            assert(d0.cell_at(bx as int, by as int).fresh());
        }
        assert forall|i: usize, j: usize| d.in_bounds(i as int, j as int) implies ((
        #[trigger] dist_at(d, i as int, j as int)) is None <==> unl.contains((i as int, j as int)))
            by {
            if !(i == bx && j == by) {
                assert(dist_at(d, i as int, j as int) is None);
            }
        }
        assert forall|i: usize, j: usize| d.in_bounds(i as int, j as int) implies !(
        #[trigger] path_at(d, i as int, j as int)) by {
            if !(i == bx && j == by) {
                assert(d.cell_at(i as int, j as int) == d0.cell_at(i as int, j as int));
                assert(d0.cell_at(i as int, j as int).fresh());
            }
        }
        assert(frontier@[0] == (bx, by));
    }
    while frontier.len() > 0
        invariant
            grid.wf(),
            d.wf(),
            d.dim_x() == dx,
            d.dim_y() == dy,
            dx == grid.dim_x(),
            dy == grid.dim_y(),
            d.link_seq() == grid.link_seq(),
            bx < dx,
            by < dy,
            dist_at(d, bx as int, by as int) == Some(0usize),
            forall|i: usize, j: usize|
                d.in_bounds(i as int, j as int) && #[trigger] dist_at(d, i as int, j as int)
                    == Some(0usize) ==> i == bx && j == by,
            forall|i: usize, j: usize|
                d.in_bounds(i as int, j as int) && (#[trigger] dist_at(d, i as int, j as int))
                    is Some ==> dist_at(d, i as int, j as int)->Some_0 <= k && dist_at(
                    d,
                    i as int,
                    j as int,
                )->Some_0 < lc,
            forall|i: usize, j: usize|
                d.in_bounds(i as int, j as int) ==> !(#[trigger] path_at(d, i as int, j as int)),
            unl.finite(),
            lc + unl.len() == (dx as int) * (dy as int),
            lc >= 1,
            k <= lc,
            frontier@.len() > 0 ==> k < lc,
            forall|i: usize, j: usize|
                d.in_bounds(i as int, j as int) ==> ((#[trigger] dist_at(d, i as int, j as int))
                    is None <==> unl.contains((i as int, j as int))),
            forall|m: int|
                0 <= m < frontier@.len() ==> d.in_bounds(
                    (#[trigger] frontier@[m]).0 as int,
                    frontier@[m].1 as int,
                ) && dist_at(d, frontier@[m].0 as int, frontier@[m].1 as int) == Some(k as usize),
            forall|i: usize, j: usize|
                d.in_bounds(i as int, j as int) && #[trigger] dist_at(d, i as int, j as int)
                    == Some(k as usize) ==> frontier@.contains((i, j)),
            forall|i: usize, j: usize, p: usize, q: usize|
                d.in_bounds(i as int, j as int) && #[trigger] d.linked(i, j, p, q) && dist_at(
                    d,
                    i as int,
                    j as int,
                ) is Some && dist_at(d, i as int, j as int)->Some_0 < k ==> dist_at(
                    d,
                    p as int,
                    q as int,
                ) is Some && dist_at(d, p as int, q as int)->Some_0 <= dist_at(
                    d,
                    i as int,
                    j as int,
                )->Some_0 + 1,
            forall|i: usize, j: usize|
                d.in_bounds(i as int, j as int) && (#[trigger] dist_at(d, i as int, j as int))
                    is Some && dist_at(d, i as int, j as int)->Some_0 > 0 ==> exists|
                    p: usize,
                    q: usize,
                |
                    #[trigger] d.linked(i, j, p, q) && dist_at(d, p as int, q as int) == Some(
                        (dist_at(d, i as int, j as int)->Some_0 - 1) as usize,
                    ),
        decreases unl.len(), frontier@.len(),
    {
        let ghost unl_start = unl;
        let ghost lc_start = lc;
        proof {
            assert(lc <= (dx as int) * (dy as int));
            assert((dx as int) * (dy as int) <= usize::MAX);
            assert forall|i: usize, j: usize|
                d.in_bounds(i as int, j as int) && (#[trigger] dist_at(d, i as int, j as int))
                    is Some implies dist_at(d, i as int, j as int)->Some_0 != (k + 1) as usize by {
                assert(dist_at(d, i as int, j as int)->Some_0 <= k);
            }
        }
        let mut new_frontier: Vec<(usize, usize)> = Vec::new();
        let mut fi: usize = 0;
        while fi < frontier.len()
            invariant
                grid.wf(),
                d.wf(),
                d.dim_x() == dx,
                d.dim_y() == dy,
                dx == grid.dim_x(),
                dy == grid.dim_y(),
                d.link_seq() == grid.link_seq(),
                bx < dx,
                by < dy,
                fi <= frontier@.len(),
                dist_at(d, bx as int, by as int) == Some(0usize),
                forall|i: usize, j: usize|
                    d.in_bounds(i as int, j as int) && #[trigger] dist_at(d, i as int, j as int)
                        == Some(0usize) ==> i == bx && j == by,
                forall|i: usize, j: usize|
                    d.in_bounds(i as int, j as int) && (#[trigger] dist_at(d, i as int, j as int))
                        is Some ==> dist_at(d, i as int, j as int)->Some_0 <= k + 1 && dist_at(
                        d,
                        i as int,
                        j as int,
                    )->Some_0 < lc,
                forall|i: usize, j: usize|
                    d.in_bounds(i as int, j as int) ==> !(#[trigger] path_at(
                        d,
                        i as int,
                        j as int,
                    )),
                unl.finite(),
                lc + unl.len() == (dx as int) * (dy as int),
                lc >= 1,
                k < lc_start,
                lc == lc_start + new_frontier@.len(),
                unl.len() + new_frontier@.len() == unl_start.len(),
                forall|i: usize, j: usize|
                    d.in_bounds(i as int, j as int) ==> ((#[trigger] dist_at(d, i as int, j as int))
                        is None <==> unl.contains((i as int, j as int))),
                forall|m: int|
                    0 <= m < frontier@.len() ==> d.in_bounds(
                        (#[trigger] frontier@[m]).0 as int,
                        frontier@[m].1 as int,
                    ) && dist_at(d, frontier@[m].0 as int, frontier@[m].1 as int) == Some(
                        k as usize,
                    ),
                forall|i: usize, j: usize|
                    d.in_bounds(i as int, j as int) && #[trigger] dist_at(d, i as int, j as int)
                        == Some(k as usize) ==> frontier@.contains((i, j)),
                forall|m: int|
                    0 <= m < new_frontier@.len() ==> d.in_bounds(
                        (#[trigger] new_frontier@[m]).0 as int,
                        new_frontier@[m].1 as int,
                    ) && dist_at(d, new_frontier@[m].0 as int, new_frontier@[m].1 as int) == Some(
                        (k + 1) as usize,
                    ),
                forall|i: usize, j: usize|
                    d.in_bounds(i as int, j as int) && #[trigger] dist_at(d, i as int, j as int)
                        == Some((k + 1) as usize) ==> new_frontier@.contains((i, j)),
                forall|i: usize, j: usize, p: usize, q: usize|
                    d.in_bounds(i as int, j as int) && #[trigger] d.linked(i, j, p, q) && dist_at(
                        d,
                        i as int,
                        j as int,
                    ) is Some && dist_at(d, i as int, j as int)->Some_0 < k ==> dist_at(
                        d,
                        p as int,
                        q as int,
                    ) is Some && dist_at(d, p as int, q as int)->Some_0 <= dist_at(
                        d,
                        i as int,
                        j as int,
                    )->Some_0 + 1,
                forall|m: int, p: usize, q: usize|
                    0 <= m < fi && #[trigger] d.linked(
                        (#[trigger] frontier@[m]).0,
                        frontier@[m].1,
                        p,
                        q,
                    ) ==> dist_at(d, p as int, q as int) is Some && dist_at(
                        d,
                        p as int,
                        q as int,
                    )->Some_0 <= k + 1,
                forall|i: usize, j: usize|
                    d.in_bounds(i as int, j as int) && (#[trigger] dist_at(d, i as int, j as int))
                        is Some && dist_at(d, i as int, j as int)->Some_0 > 0 ==> exists|
                        p: usize,
                        q: usize,
                    |
                        #[trigger] d.linked(i, j, p, q) && dist_at(d, p as int, q as int) == Some(
                            (dist_at(d, i as int, j as int)->Some_0 - 1) as usize,
                        ),
            decreases frontier@.len() - fi,
        {
            let f = frontier[fi];
            let fx = f.0;
            let fy = f.1;
            let fd = d.cell(fx, fy).distance().unwrap();
            assert(fd == k);
            assert(fd < lc);
            assert(lc <= (dx as int) * (dy as int));
            assert((dx as int) * (dy as int) <= usize::MAX);
            let nd = fd + 1;
            let ns = d.neighbors_linked_indices(fx, fy);
            let mut ni: usize = 0;
            while ni < ns.len()
                invariant
                    grid.wf(),
                    d.wf(),
                    d.dim_x() == dx,
                    d.dim_y() == dy,
                    dx == grid.dim_x(),
                    dy == grid.dim_y(),
                    d.link_seq() == grid.link_seq(),
                    bx < dx,
                    by < dy,
                    fi < frontier@.len(),
                    ni <= ns@.len(),
                    frontier@[fi as int] == (fx, fy),
                    d.in_bounds(fx as int, fy as int),
                    dist_at(d, fx as int, fy as int) == Some(k as usize),
                    fd == k,
                    nd == k + 1,
                    nd <= usize::MAX,
                    forall|p: (usize, usize)| #[trigger]
                        ns@.contains(p) <==> d.linked(fx, fy, p.0, p.1),
                    forall|m: int|
                        0 <= m < ns@.len() ==> d.in_bounds(
                            (#[trigger] ns@[m]).0 as int,
                            ns@[m].1 as int,
                        ),
                    dist_at(d, bx as int, by as int) == Some(0usize),
                    forall|i: usize, j: usize|
                        d.in_bounds(i as int, j as int) && #[trigger] dist_at(d, i as int, j as int)
                            == Some(0usize) ==> i == bx && j == by,
                    forall|i: usize, j: usize|
                        d.in_bounds(i as int, j as int) && (#[trigger] dist_at(
                            d,
                            i as int,
                            j as int,
                        )) is Some ==> dist_at(d, i as int, j as int)->Some_0 <= k + 1 && dist_at(
                            d,
                            i as int,
                            j as int,
                        )->Some_0 < lc,
                    forall|i: usize, j: usize|
                        d.in_bounds(i as int, j as int) ==> !(#[trigger] path_at(
                            d,
                            i as int,
                            j as int,
                        )),
                    unl.finite(),
                    lc + unl.len() == (dx as int) * (dy as int),
                    lc >= 1,
                    k < lc_start,
                    lc == lc_start + new_frontier@.len(),
                    unl.len() + new_frontier@.len() == unl_start.len(),
                    forall|i: usize, j: usize|
                        d.in_bounds(i as int, j as int) ==> ((#[trigger] dist_at(
                            d,
                            i as int,
                            j as int,
                        )) is None <==> unl.contains((i as int, j as int))),
                    forall|m: int|
                        0 <= m < frontier@.len() ==> d.in_bounds(
                            (#[trigger] frontier@[m]).0 as int,
                            frontier@[m].1 as int,
                        ) && dist_at(d, frontier@[m].0 as int, frontier@[m].1 as int) == Some(
                            k as usize,
                        ),
                    forall|i: usize, j: usize|
                        d.in_bounds(i as int, j as int) && #[trigger] dist_at(d, i as int, j as int)
                            == Some(k as usize) ==> frontier@.contains((i, j)),
                    forall|m: int|
                        0 <= m < new_frontier@.len() ==> d.in_bounds(
                            (#[trigger] new_frontier@[m]).0 as int,
                            new_frontier@[m].1 as int,
                        ) && dist_at(d, new_frontier@[m].0 as int, new_frontier@[m].1 as int)
                            == Some((k + 1) as usize),
                    forall|i: usize, j: usize|
                        d.in_bounds(i as int, j as int) && #[trigger] dist_at(d, i as int, j as int)
                            == Some((k + 1) as usize) ==> new_frontier@.contains((i, j)),
                    forall|i: usize, j: usize, p: usize, q: usize|
                        d.in_bounds(i as int, j as int) && #[trigger] d.linked(i, j, p, q)
                            && dist_at(d, i as int, j as int) is Some && dist_at(
                            d,
                            i as int,
                            j as int,
                        )->Some_0 < k ==> dist_at(d, p as int, q as int) is Some && dist_at(
                            d,
                            p as int,
                            q as int,
                        )->Some_0 <= dist_at(d, i as int, j as int)->Some_0 + 1,
                    forall|m: int, p: usize, q: usize|
                        0 <= m < fi && #[trigger] d.linked(
                            (#[trigger] frontier@[m]).0,
                            frontier@[m].1,
                            p,
                            q,
                        ) ==> dist_at(d, p as int, q as int) is Some && dist_at(
                            d,
                            p as int,
                            q as int,
                        )->Some_0 <= k + 1,
                    forall|m: int|
                        0 <= m < ni ==> dist_at(d, (#[trigger] ns@[m]).0 as int, ns@[m].1 as int)
                            is Some && dist_at(d, ns@[m].0 as int, ns@[m].1 as int)->Some_0 <= k
                            + 1,
                    forall|i: usize, j: usize|
                        d.in_bounds(i as int, j as int) && (#[trigger] dist_at(
                            d,
                            i as int,
                            j as int,
                        )) is Some && dist_at(d, i as int, j as int)->Some_0 > 0 ==> exists|
                            p: usize,
                            q: usize,
                        |
                            #[trigger] d.linked(i, j, p, q) && dist_at(d, p as int, q as int)
                                == Some((dist_at(d, i as int, j as int)->Some_0 - 1) as usize),
                decreases ns@.len() - ni,
            {
                let n = ns[ni];
                let px = n.0;
                let py = n.1;
                assert(ns@.contains(ns@[ni as int]));
                assert(d.linked(fx, fy, px, py));
                let pc = d.cell(px, py);
                if pc.distance().is_none() {
                    let ghost dprev = d;
                    set_distance(&mut d, px, py, nd);
                    let ghost nf0 = new_frontier@;
                    new_frontier.push((px, py));
                    proof {
                        assert(unl.contains((px as int, py as int)));
                        lc = lc + 1;
                        unl = unl.remove((px as int, py as int));
                        assert forall|i: usize, j: usize|
                            d.in_bounds(i as int, j as int) implies ((#[trigger] dist_at(
                            d,
                            i as int,
                            j as int,
                        )) is None <==> unl.contains((i as int, j as int))) by {
                            if !(i == px && j == py) {
                                assert(d.cell_at(i as int, j as int) == dprev.cell_at(
                                    i as int,
                                    j as int,
                                ));
                                assert(dist_at(d, i as int, j as int) == dist_at(
                                    dprev,
                                    i as int,
                                    j as int,
                                ));
                            }
                        }
                        assert forall|i: usize, j: usize|
                            d.in_bounds(i as int, j as int) && (#[trigger] dist_at(
                                d,
                                i as int,
                                j as int,
                            )) is Some implies dist_at(d, i as int, j as int)->Some_0 <= k + 1
                            && dist_at(d, i as int, j as int)->Some_0 < lc by {
                            if !(i == px && j == py) {
                                assert(d.cell_at(i as int, j as int) == dprev.cell_at(
                                    i as int,
                                    j as int,
                                ));
                                assert(dist_at(d, i as int, j as int) == dist_at(
                                    dprev,
                                    i as int,
                                    j as int,
                                ));
                            }
                        }
                        assert forall|i: usize, j: usize, p: usize, q: usize|
                            d.in_bounds(i as int, j as int) && #[trigger] d.linked(i, j, p, q)
                                && dist_at(d, i as int, j as int) is Some && dist_at(
                                d,
                                i as int,
                                j as int,
                            )->Some_0 < k implies dist_at(d, p as int, q as int) is Some && dist_at(
                            d,
                            p as int,
                            q as int,
                        )->Some_0 <= dist_at(d, i as int, j as int)->Some_0 + 1 by {
                            assert(d.in_bounds(p as int, q as int)) by {
                                assert(d.link_seq().contains((i, j, p, q)));
                            }
                            if !(i == px && j == py) {
                                assert(d.cell_at(i as int, j as int) == dprev.cell_at(
                                    i as int,
                                    j as int,
                                ));
                                assert(dprev.linked(i, j, p, q));
                                if !(p == px && q == py) {
                                    assert(d.cell_at(p as int, q as int) == dprev.cell_at(
                                        p as int,
                                        q as int,
                                    ));
                                }
                            } else {
                                assert(dist_at(dprev, i as int, j as int) is None);
                            }
                        }
                        assert forall|i: usize, j: usize|
                            d.in_bounds(i as int, j as int) && (#[trigger] dist_at(
                                d,
                                i as int,
                                j as int,
                            )) is Some && dist_at(d, i as int, j as int)->Some_0 > 0 implies exists|
                            p: usize,
                            q: usize,
                        |
                            #[trigger] d.linked(i, j, p, q) && dist_at(d, p as int, q as int)
                                == Some((dist_at(d, i as int, j as int)->Some_0 - 1) as usize) by {
                            if i == px && j == py {
                                assert(d.linked(px, py, fx, fy)) by {
                                    assert(d.link_seq().contains((fx, fy, px, py)));
                                }
                                assert(dist_at(d, fx as int, fy as int) == Some(k as usize)) by {
                                    assert(d.cell_at(fx as int, fy as int) == dprev.cell_at(
                                        fx as int,
                                        fy as int,
                                    ));
                                }
                                assert(d.linked(i, j, fx, fy) && dist_at(d, fx as int, fy as int)
                                    == Some((dist_at(d, i as int, j as int)->Some_0 - 1) as usize));
                            } else {
                                assert(d.cell_at(i as int, j as int) == dprev.cell_at(
                                    i as int,
                                    j as int,
                                ));
                                let (p, q) = choose|p: usize, q: usize|
                                    #[trigger] dprev.linked(i, j, p, q) && dist_at(
                                        dprev,
                                        p as int,
                                        q as int,
                                    ) == Some(
                                        (dist_at(dprev, i as int, j as int)->Some_0 - 1) as usize,
                                    );
                                assert(d.in_bounds(p as int, q as int)) by {
                                    assert(d.link_seq().contains((i, j, p, q)));
                                }
                                if !(p == px && q == py) {
                                    assert(d.cell_at(p as int, q as int) == dprev.cell_at(
                                        p as int,
                                        q as int,
                                    ));
                                    assert(d.linked(i, j, p, q) && dist_at(d, p as int, q as int)
                                        == Some(
                                        (dist_at(d, i as int, j as int)->Some_0 - 1) as usize,
                                    ));
                                } else {
                                    assert(dist_at(dprev, p as int, q as int) is None);
                                }
                            }
                        }
                        assert forall|i: usize, j: usize|
                            d.in_bounds(i as int, j as int) && #[trigger] dist_at(
                                d,
                                i as int,
                                j as int,
                            ) == Some(0usize) implies i == bx && j == by by {
                            if !(i == px && j == py) {
                                assert(d.cell_at(i as int, j as int) == dprev.cell_at(
                                    i as int,
                                    j as int,
                                ));
                                assert(dist_at(d, i as int, j as int) == dist_at(
                                    dprev,
                                    i as int,
                                    j as int,
                                ));
                            }
                        }
                        assert forall|i: usize, j: usize|
                            d.in_bounds(i as int, j as int) && #[trigger] dist_at(
                                d,
                                i as int,
                                j as int,
                            ) == Some(k as usize) implies frontier@.contains((i, j)) by {
                            if !(i == px && j == py) {
                                assert(d.cell_at(i as int, j as int) == dprev.cell_at(
                                    i as int,
                                    j as int,
                                ));
                                assert(dist_at(d, i as int, j as int) == dist_at(
                                    dprev,
                                    i as int,
                                    j as int,
                                ));
                            }
                        }
                        assert forall|i: usize, j: usize|
                            d.in_bounds(i as int, j as int) && #[trigger] dist_at(
                                d,
                                i as int,
                                j as int,
                            ) == Some((k + 1) as usize) implies new_frontier@.contains((i, j)) by {
                            if !(i == px && j == py) {
                                assert(d.cell_at(i as int, j as int) == dprev.cell_at(
                                    i as int,
                                    j as int,
                                ));
                                assert(dist_at(d, i as int, j as int) == dist_at(
                                    dprev,
                                    i as int,
                                    j as int,
                                ));
                                assert(nf0.contains((i, j)));
                                let m = choose|m: int| 0 <= m < nf0.len() && nf0[m] == (i, j);
                                assert(new_frontier@[m] == (i, j));
                            } else {
                                assert(new_frontier@[new_frontier@.len() - 1] == (px, py));
                            }
                        }
                        assert forall|i: usize, j: usize|
                            d.in_bounds(i as int, j as int) implies !(#[trigger] path_at(
                            d,
                            i as int,
                            j as int,
                        )) by {
                            if !(i == px && j == py) {
                                assert(d.cell_at(i as int, j as int) == dprev.cell_at(
                                    i as int,
                                    j as int,
                                ));
                                assert(path_at(d, i as int, j as int) == path_at(
                                    dprev,
                                    i as int,
                                    j as int,
                                ));
                            } else {
                                assert(path_at(d, i as int, j as int) == path_at(
                                    dprev,
                                    i as int,
                                    j as int,
                                ));
                            }
                        }
                        assert forall|m: int, p: usize, q: usize|
                            0 <= m < fi && #[trigger] d.linked(
                                (#[trigger] frontier@[m]).0,
                                frontier@[m].1,
                                p,
                                q,
                            ) implies dist_at(d, p as int, q as int) is Some && dist_at(
                            d,
                            p as int,
                            q as int,
                        )->Some_0 <= k + 1 by {
                            assert(dprev.linked(frontier@[m].0, frontier@[m].1, p, q));
                            assert(d.in_bounds(p as int, q as int)) by {
                                assert(d.link_seq().contains((frontier@[m].0, frontier@[m].1, p, q)));
                            }
                            if !(p == px && q == py) {
                                assert(d.cell_at(p as int, q as int) == dprev.cell_at(
                                    p as int,
                                    q as int,
                                ));
                                assert(dist_at(d, p as int, q as int) == dist_at(
                                    dprev,
                                    p as int,
                                    q as int,
                                ));
                            }
                        }
                    }
                }
                ni += 1;
            }
            proof {
                assert forall|p: usize, q: usize| #[trigger] d.linked(fx, fy, p, q) implies dist_at(
                    d,
                    p as int,
                    q as int,
                ) is Some && dist_at(d, p as int, q as int)->Some_0 <= k + 1 by {
                    assert(ns@.contains((p, q)));
                    let m = choose|m: int| 0 <= m < ns@.len() && ns@[m] == (p, q);
                    assert(dist_at(d, ns@[m].0 as int, ns@[m].1 as int) is Some);
                }
                assert forall|m: int, p: usize, q: usize|
                    0 <= m < fi + 1 && #[trigger] d.linked(
                        (#[trigger] frontier@[m]).0,
                        frontier@[m].1,
                        p,
                        q,
                    ) implies dist_at(d, p as int, q as int) is Some && dist_at(
                    d,
                    p as int,
                    q as int,
                )->Some_0 <= k + 1 by {
                    if m == fi {
                        assert(frontier@[m] == (fx, fy));
                        assert(d.linked(fx, fy, p, q));
                    }
                }
            }
            fi += 1;
        }
        proof {
            assert forall|i: usize, j: usize, p: usize, q: usize|
                d.in_bounds(i as int, j as int) && #[trigger] d.linked(i, j, p, q) && dist_at(
                    d,
                    i as int,
                    j as int,
                ) is Some && dist_at(d, i as int, j as int)->Some_0 < k + 1 implies dist_at(
                d,
                p as int,
                q as int,
            ) is Some && dist_at(d, p as int, q as int)->Some_0 <= dist_at(
                d,
                i as int,
                j as int,
            )->Some_0 + 1 by {
                let v = dist_at(d, i as int, j as int)->Some_0;
                if v < k {
                } else {
                    assert(v == k);
                    assert(dist_at(d, i as int, j as int) == Some(k as usize));
                    assert(frontier@.contains((i, j)));
                    let m = choose|m: int| 0 <= m < frontier@.len() && frontier@[m] == (i, j);
                    assert(d.linked(frontier@[m].0, frontier@[m].1, p, q));
                }
            }
            k = k + 1;
        }
        frontier = new_frontier;
    }
    proof {
        reveal(distances_consistent);
        assert forall|i: usize, j: usize|
            d.in_bounds(i as int, j as int) && (#[trigger] dist_at(d, i as int, j as int)) is Some
                && dist_at(d, i as int, j as int)->Some_0 > 0 implies exists|p: usize, q: usize|
            #[trigger] d.linked(i, j, p, q) && dist_at(d, p as int, q as int) == Some(
                (dist_at(d, i as int, j as int)->Some_0 - 1) as usize,
            ) by {
        }
        assert forall|i: usize, j: usize, p: usize, q: usize|
            d.in_bounds(i as int, j as int) && #[trigger] d.linked(i, j, p, q) && dist_at(
                d,
                i as int,
                j as int,
            ) is Some implies dist_at(d, p as int, q as int) is Some && dist_at(
            d,
            p as int,
            q as int,
        )->Some_0 <= dist_at(d, i as int, j as int)->Some_0 + 1 by {
            assert(dist_at(d, i as int, j as int)->Some_0 != k);
            assert(dist_at(d, i as int, j as int)->Some_0 < k);
        }
        assert(distances_consistent(d, bx, by));
    }
    // Path reconstruction: the target is marked and the walk back to the
    // source happens in mark_path.
    mark_path(&mut d, bx, by, ex, ey);
    proof {
        assert(path_marked(d, begin.x, begin.y, end.x, end.y));
    }
    Ok(d)
}

/// Any reached cell passes its label forward: following forward links from
/// it, the bottom-right corner is reached too.
proof fn lemma_reaches_sink(d: Grid<DistanceCell>, bx: usize, by: usize, i: usize, j: usize)
    requires
        d.wf(),
        distances_consistent(d, bx, by),
        forward_spanning(d),
        d.dim_x() >= 1,
        d.dim_y() >= 1,
        d.in_bounds(i as int, j as int),
        dist_at(d, i as int, j as int) is Some,
    ensures
        dist_at(d, d.dim_x() - 1, d.dim_y() - 1) is Some,
    decreases (d.dim_x() - 1 - i) + (d.dim_y() - 1 - j),
{
    reveal(distances_consistent);
    if i == d.dim_x() - 1 && j == d.dim_y() - 1 {
    } else {
        assert(has_forward_link(d, i, j));
        if i + 1 < d.dim_x() && d.linked(i, j, (i + 1) as usize, j) {
            assert(dist_at(d, i + 1, j as int) is Some);
            lemma_reaches_sink(d, bx, by, (i + 1) as usize, j);
        } else {
            assert(d.linked(i, j, i, (j + 1) as usize));
            assert(dist_at(d, i as int, j + 1) is Some);
            lemma_reaches_sink(d, bx, by, i, (j + 1) as usize);
        }
    }
}

/// Once the bottom-right corner is reached, so is every cell: each cell's
/// forward link leads to a reached cell, and labels spread back across links.
proof fn lemma_cell_reached(d: Grid<DistanceCell>, bx: usize, by: usize, i: usize, j: usize)
    requires
        d.wf(),
        distances_consistent(d, bx, by),
        forward_spanning(d),
        d.dim_x() >= 1,
        d.dim_y() >= 1,
        d.in_bounds(i as int, j as int),
        dist_at(d, d.dim_x() - 1, d.dim_y() - 1) is Some,
    ensures
        dist_at(d, i as int, j as int) is Some,
    decreases (d.dim_x() - 1 - i) + (d.dim_y() - 1 - j),
{
    reveal(distances_consistent);
    if i == d.dim_x() - 1 && j == d.dim_y() - 1 {
    } else {
        assert(has_forward_link(d, i, j));
        if i + 1 < d.dim_x() && d.linked(i, j, (i + 1) as usize, j) {
            lemma_cell_reached(d, bx, by, (i + 1) as usize, j);
            assert(d.linked((i + 1) as usize, j, i, j)) by {
                assert(d.link_seq().contains((i, j, (i + 1) as usize, j)));
            }
            assert(dist_at(d, i as int, j as int) is Some);
        } else {
            assert(d.linked(i, j, i, (j + 1) as usize));
            lemma_cell_reached(d, bx, by, i, (j + 1) as usize);
            assert(d.linked(i, (j + 1) as usize, i, j)) by {
                assert(d.link_seq().contains((i, j, i, (j + 1) as usize)));
            }
            assert(dist_at(d, i as int, j as int) is Some);
        }
    }
}

/// The spanning law: on any grid whose generation left every cell (but the
/// bottom-right corner) with a forward link, the distance computation from
/// any source reaches every cell - no cell is left without a distance.
pub proof fn lemma_spanning_all_reached<T: Cell>(
    g: Grid<T>,
    d: Grid<DistanceCell>,
    bx: usize,
    by: usize,
)
    requires
        g.wf(),
        d.wf(),
        forward_spanning(g),
        same_topology(g, d),
        distances_consistent(d, bx, by),
        d.in_bounds(bx as int, by as int),
        g.dim_x() >= 1,
        g.dim_y() >= 1,
    ensures
        forall|i: usize, j: usize|
            d.in_bounds(i as int, j as int) ==> (#[trigger] dist_at(d, i as int, j as int)) is Some,
{
    assert(forward_spanning(d)) by {
        assert forall|a: usize, b: usize|
            d.in_bounds(a as int, b as int) && !(a == d.dim_x() - 1 && b == d.dim_y() - 1)
            implies #[trigger] has_forward_link(d, a, b) by {
            assert(has_forward_link(g, a, b));
            if a + 1 < g.dim_x() && g.linked(a, b, (a + 1) as usize, b) {
                assert(d.linked(a, b, (a + 1) as usize, b));
            } else {
                assert(d.linked(a, b, a, (b + 1) as usize));
            }
        }
    }
    assert(dist_at(d, bx as int, by as int) is Some) by {
        reveal(distances_consistent);
    }
    lemma_reaches_sink(d, bx, by, bx, by);
    assert forall|i: usize, j: usize| d.in_bounds(i as int, j as int) implies (#[trigger] dist_at(
        d,
        i as int,
        j as int,
    )) is Some by {
        lemma_cell_reached(d, bx, by, i, j);
    }
}

/// A link-path: at least one cell, consecutive cells joined by links, from
/// (ax, ay) to (tx, ty).
pub open spec fn is_link_path(
    d: Grid<DistanceCell>,
    p: Seq<(usize, usize)>,
    ax: usize,
    ay: usize,
    tx: usize,
    ty: usize,
) -> bool {
    &&& p.len() >= 1
    &&& p[0] == (ax, ay)
    &&& p[p.len() - 1] == (tx, ty)
    &&& (forall|i: int|
        0 <= i < p.len() - 1 ==> d.linked((#[trigger] p[i]).0, p[i].1, p[i + 1].0, p[i + 1].1))
}

/// Whether (tx, ty) is reachable from (ax, ay) over the link relation.
pub open spec fn connected(d: Grid<DistanceCell>, ax: usize, ay: usize, tx: usize, ty: usize) -> bool {
    exists|p: Seq<(usize, usize)>| is_link_path(d, p, ax, ay, tx, ty)
}

/// Soundness of the labelling: every cell that carries a distance is joined
/// to the source by a link-path. Contrapositively, a cell in a component the
/// link relation leaves disconnected from the source keeps no distance, and
/// a disconnected target is flagged alone by the path marking.
pub proof fn lemma_reached_connected(
    d: Grid<DistanceCell>,
    bx: usize,
    by: usize,
    i: usize,
    j: usize,
)
    requires
        d.wf(),
        distances_consistent(d, bx, by),
        d.in_bounds(i as int, j as int),
        dist_at(d, i as int, j as int) is Some,
    ensures
        connected(d, bx, by, i, j),
    decreases dist_at(d, i as int, j as int)->Some_0,
{
    reveal(distances_consistent);
    let v = dist_at(d, i as int, j as int)->Some_0;
    if v == 0 {
        assert(i == bx && j == by);
        let p = seq![(bx, by)];
        assert(is_link_path(d, p, bx, by, i, j));
    } else {
        let (px, py) = choose|px: usize, py: usize|
            #[trigger] d.linked(i, j, px, py) && dist_at(d, px as int, py as int) == Some(
                (v - 1) as usize,
            );
        assert(d.in_bounds(px as int, py as int)) by {
            assert(d.link_seq().contains((i, j, px, py)));
        }
        lemma_reached_connected(d, bx, by, px, py);
        let pp = choose|pp: Seq<(usize, usize)>| is_link_path(d, pp, bx, by, px, py);
        let p = pp.push((i, j));
        assert(d.linked(px, py, i, j)) by {
            assert(d.link_seq().contains((i, j, px, py)));
        }
        assert(is_link_path(d, p, bx, by, i, j)) by {
            assert(p[0] == pp[0]);
            assert(p[p.len() - 1] == (i, j));
            assert forall|k: int| 0 <= k < p.len() - 1 implies d.linked(
                (#[trigger] p[k]).0,
                p[k].1,
                p[k + 1].0,
                p[k + 1].1,
            ) by {
                if k < pp.len() - 1 {
                    assert(p[k] == pp[k] && p[k + 1] == pp[k + 1]);
                } else {
                    assert(p[k] == (px, py) && p[k + 1] == (i, j));
                }
            }
        }
    }
}

/// A reached cell at a positive distance has a linked neighbor strictly
/// closer to the source.
proof fn lemma_has_smaller_neighbor(
    d: Grid<DistanceCell>,
    bx: usize,
    by: usize,
    cx: usize,
    cy: usize,
    cd: usize,
)
    requires
        d.wf(),
        distances_consistent(d, bx, by),
        d.in_bounds(cx as int, cy as int),
        dist_at(d, cx as int, cy as int) == Some(cd),
        cd > 0,
    ensures
        exists|p: usize, q: usize|
            #[trigger] d.linked(cx, cy, p, q) && dist_at(d, p as int, q as int) is Some && dist_at(
                d,
                p as int,
                q as int,
            )->Some_0 < cd,
{
    reveal(distances_consistent);
    let (p, q) = choose|p: usize, q: usize|
        #[trigger] d.linked(cx, cy, p, q) && dist_at(d, p as int, q as int) == Some(
            (cd - 1) as usize,
        );
    assert(d.linked(cx, cy, p, q) && dist_at(d, p as int, q as int) is Some && dist_at(
        d,
        p as int,
        q as int,
    )->Some_0 < cd);
}

/// The source is the only cell at distance zero.
proof fn lemma_zero_is_begin(d: Grid<DistanceCell>, bx: usize, by: usize, cx: usize, cy: usize)
    requires
        d.wf(),
        distances_consistent(d, bx, by),
        d.in_bounds(cx as int, cy as int),
        dist_at(d, cx as int, cy as int) == Some(0usize),
    ensures
        cx == bx && cy == by,
{
    reveal(distances_consistent);
}

/// The downhill choice depends only on the link store and the distances, so
/// it carries over any change that leaves both in place.
proof fn lemma_choice_transfer(
    d1: Grid<DistanceCell>,
    d2: Grid<DistanceCell>,
    cx: usize,
    cy: usize,
    cd: usize,
    q: (usize, usize),
)
    requires
        d1.wf(),
        d2.dim_x() == d1.dim_x(),
        d2.dim_y() == d1.dim_y(),
        d2.link_seq() == d1.link_seq(),
        forall|a: int, b: int|
            d2.in_bounds(a, b) ==> #[trigger] dist_at(d2, a, b) == dist_at(d1, a, b),
        is_downhill_choice(d1, cx, cy, cd, q),
    ensures
        is_downhill_choice(d2, cx, cy, cd, q),
{
    let ns = neighbors_of(d1.link_seq(), cx, cy);
    lemma_neighbors_of_entries(d1.link_seq(), cx, cy);
    assert forall|i: int| 0 <= i < ns.len() implies d1.in_bounds(
        (#[trigger] ns[i]).0 as int,
        ns[i].1 as int,
    ) by {
        assert(d1.link_seq().contains((cx, cy, ns[i].0, ns[i].1)));
    }
    let m = choose|m: int|
        0 <= m < ns.len() && (#[trigger] ns[m]) == q && closer(d1, q, cd) && (forall|m2: int|
            m < m2 < ns.len() ==> !closer(d1, ns[m2], cd));
    assert forall|i: int| 0 <= i < ns.len() implies closer(d2, #[trigger] ns[i], cd) == closer(
        d1,
        ns[i],
        cd,
    ) by {
        assert(dist_at(d2, ns[i].0 as int, ns[i].1 as int) == dist_at(
            d1,
            ns[i].0 as int,
            ns[i].1 as int,
        ));
    }
    assert(neighbors_of(d2.link_seq(), cx, cy) == ns);
    assert(0 <= m < ns.len() && ns[m] == q && closer(d2, q, cd) && (forall|m2: int|
        m < m2 < ns.len() ==> !closer(d2, ns[m2], cd)));
}

/// One downhill step of the path walk: flagging the strictly closer neighbor
/// (qx, qy) extends the marked chain by exactly that cell, whose distance is
/// exactly one less.
/// The downhill-choice clauses of the chain survive the marking step and
/// extend to the new cell.
proof fn lemma_chain_choice_step(
    dpre: Grid<DistanceCell>,
    d: Grid<DistanceCell>,
    chain0: Seq<(usize, usize)>,
    cx: usize,
    cy: usize,
    qx: usize,
    qy: usize,
    cd: usize,
    dd: usize,
)
    requires
        dpre.wf(),
        d.wf(),
        d.dim_x() == dpre.dim_x(),
        d.dim_y() == dpre.dim_y(),
        d.link_seq() == dpre.link_seq(),
        forall|a: int, b: int|
            d.in_bounds(a, b) ==> #[trigger] dist_at(d, a, b) == dist_at(dpre, a, b),
        0 < cd <= dd,
        chain0.len() == dd - cd + 1,
        chain0[chain0.len() - 1] == (cx, cy),
        forall|i: int|
            0 <= i < chain0.len() - 1 ==> is_downhill_choice(
                dpre,
                (#[trigger] chain0[i]).0,
                chain0[i].1,
                ((dd - i) as usize),
                chain0[i + 1],
            ),
        is_downhill_choice(dpre, cx, cy, cd, (qx, qy)),
    ensures
        forall|i: int|
            0 <= i < chain0.push((qx, qy)).len() - 1 ==> is_downhill_choice(
                d,
                (#[trigger] chain0.push((qx, qy))[i]).0,
                chain0.push((qx, qy))[i].1,
                ((dd - i) as usize),
                chain0.push((qx, qy))[i + 1],
            ),
{
    let chain = chain0.push((qx, qy));
    assert forall|i: int| 0 <= i < chain.len() - 1 implies is_downhill_choice(
        d,
        (#[trigger] chain[i]).0,
        chain[i].1,
        ((dd - i) as usize),
        chain[i + 1],
    ) by {
        if i < chain0.len() - 1 {
            assert(chain[i] == chain0[i] && chain[i + 1] == chain0[i + 1]);
            lemma_choice_transfer(
                dpre,
                d,
                chain0[i].0,
                chain0[i].1,
                ((dd - i) as usize),
                chain0[i + 1],
            );
        } else {
            assert(chain[i] == (cx, cy) && chain[i + 1] == (qx, qy));
            assert((dd - i) as usize == cd);
            lemma_choice_transfer(dpre, d, cx, cy, cd, (qx, qy));
        }
    }
}

/// A strictly closer linked neighbor of a cell at distance cd sits at
/// exactly cd - 1: linked neighbors differ by at most one step.
proof fn lemma_closer_is_one_less(
    d: Grid<DistanceCell>,
    bx: usize,
    by: usize,
    cx: usize,
    cy: usize,
    qx: usize,
    qy: usize,
    cd: usize,
)
    requires
        d.wf(),
        distances_consistent(d, bx, by),
        d.in_bounds(cx as int, cy as int),
        dist_at(d, cx as int, cy as int) == Some(cd),
        d.linked(cx, cy, qx, qy),
        dist_at(d, qx as int, qy as int) is Some,
        dist_at(d, qx as int, qy as int)->Some_0 < cd,
    ensures
        dist_at(d, qx as int, qy as int) == Some((cd - 1) as usize),
        d.in_bounds(qx as int, qy as int),
{
    reveal(distances_consistent);
    assert(d.in_bounds(qx as int, qy as int)) by {
        assert(d.link_seq().contains((cx, cy, qx, qy)));
    }
    assert(d.linked(qx, qy, cx, cy)) by {
        assert(d.link_seq().contains((cx, cy, qx, qy)));
    }
    assert(dist_at(d, qx as int, qy as int)->Some_0 >= cd - 1);
}

#[verifier::rlimit(100)]
proof fn lemma_mark_step(
    dpre: Grid<DistanceCell>,
    d: Grid<DistanceCell>,
    chain0: Seq<(usize, usize)>,
    bx: usize,
    by: usize,
    ex: usize,
    ey: usize,
    cx: usize,
    cy: usize,
    qx: usize,
    qy: usize,
    cd: usize,
    dd: usize,
)
    requires
        dpre.wf(),
        d.wf(),
        d.dim_x() == dpre.dim_x(),
        d.dim_y() == dpre.dim_y(),
        d.link_seq() == dpre.link_seq(),
        dpre.in_bounds(cx as int, cy as int),
        dist_at(dpre, cx as int, cy as int) == Some(cd),
        dpre.in_bounds(qx as int, qy as int),
        dpre.linked(cx, cy, qx, qy),
        dist_at(dpre, qx as int, qy as int) == Some((cd - 1) as usize),
        0 < cd <= dd,
        chain0.len() == dd - cd + 1,
        chain0[0] == (ex, ey),
        chain0[chain0.len() - 1] == (cx, cy),
        forall|i: int|
            0 <= i < chain0.len() ==> dpre.in_bounds(
                (#[trigger] chain0[i]).0 as int,
                chain0[i].1 as int,
            ) && dist_at(dpre, chain0[i].0 as int, chain0[i].1 as int) == Some((dd - i) as usize),
        forall|i: int|
            0 <= i < chain0.len() - 1 ==> dpre.linked(
                (#[trigger] chain0[i]).0,
                chain0[i].1,
                chain0[i + 1].0,
                chain0[i + 1].1,
            ),

        forall|i: usize, j: usize|
            dpre.in_bounds(i as int, j as int) ==> (#[trigger] path_at(dpre, i as int, j as int)
                <==> chain0.contains((i, j))),
        path_at(d, qx as int, qy as int),
        forall|a: int, b: int|
            d.in_bounds(a, b) ==> #[trigger] dist_at(d, a, b) == dist_at(dpre, a, b),
        forall|a: int, b: int|
            d.in_bounds(a, b) && !(a == qx && b == qy) ==> #[trigger] path_at(d, a, b) == path_at(
                dpre,
                a,
                b,
            ),
    ensures
        dist_at(d, qx as int, qy as int) == Some((cd - 1) as usize),
        ({
            let chain = chain0.push((qx, qy));
            &&& chain.len() == dd - (cd - 1) + 1
            &&& chain[0] == (ex, ey)
            &&& chain[chain.len() - 1] == (qx, qy)
            &&& (forall|i: int|
                0 <= i < chain.len() ==> d.in_bounds(
                    (#[trigger] chain[i]).0 as int,
                    chain[i].1 as int,
                ) && dist_at(d, chain[i].0 as int, chain[i].1 as int) == Some((dd - i) as usize))
            &&& (forall|i: int|
                0 <= i < chain.len() - 1 ==> d.linked(
                    (#[trigger] chain[i]).0,
                    chain[i].1,
                    chain[i + 1].0,
                    chain[i + 1].1,
                ))
        }),
        !chain0.contains((qx, qy)),
{
    assert(dist_at(d, qx as int, qy as int) == Some((cd - 1) as usize));
    assert(!chain0.contains((qx, qy))) by {
        if chain0.contains((qx, qy)) {
            let i = choose|i: int| 0 <= i < chain0.len() && chain0[i] == (qx, qy);
            assert(dist_at(dpre, chain0[i].0 as int, chain0[i].1 as int) == Some(
                (dd - i) as usize,
            ));
        }
    }
    let chain = chain0.push((qx, qy));
    assert(chain[chain.len() - 1] == (qx, qy));
    assert forall|i: int| 0 <= i < chain.len() implies d.in_bounds(
        (#[trigger] chain[i]).0 as int,
        chain[i].1 as int,
    ) && dist_at(d, chain[i].0 as int, chain[i].1 as int) == Some((dd - i) as usize) by {
        if i < chain0.len() {
            assert(chain[i] == chain0[i]);
            assert(dist_at(d, chain[i].0 as int, chain[i].1 as int) == dist_at(
                dpre,
                chain[i].0 as int,
                chain[i].1 as int,
            ));
        } else {
            assert(chain[i] == (qx, qy));
        }
    }
    assert forall|i: int| 0 <= i < chain.len() - 1 implies d.linked(
        (#[trigger] chain[i]).0,
        chain[i].1,
        chain[i + 1].0,
        chain[i + 1].1,
    ) by {
        if i < chain0.len() - 1 {
            assert(chain[i] == chain0[i] && chain[i + 1] == chain0[i + 1]);
        } else {
            assert(chain[i] == (cx, cy) && chain[i + 1] == (qx, qy));
        }
    }
}

/// Flagging one fresh cell extends the marked set by exactly that cell.
proof fn lemma_chain_marks(
    dpre: Grid<DistanceCell>,
    d: Grid<DistanceCell>,
    chain0: Seq<(usize, usize)>,
    qx: usize,
    qy: usize,
)
    requires
        d.dim_x() == dpre.dim_x(),
        d.dim_y() == dpre.dim_y(),
        d.in_bounds(qx as int, qy as int),
        !chain0.contains((qx, qy)),
        path_at(d, qx as int, qy as int),
        forall|a: int, b: int|
            d.in_bounds(a, b) && !(a == qx && b == qy) ==> #[trigger] path_at(d, a, b) == path_at(
                dpre,
                a,
                b,
            ),
        forall|i: usize, j: usize|
            dpre.in_bounds(i as int, j as int) ==> (#[trigger] path_at(dpre, i as int, j as int)
                <==> chain0.contains((i, j))),
    ensures
        forall|i: usize, j: usize|
            d.in_bounds(i as int, j as int) ==> (#[trigger] path_at(d, i as int, j as int)
                <==> chain0.push((qx, qy)).contains((i, j))),
{
    let chain = chain0.push((qx, qy));
    assert forall|i: usize, j: usize| d.in_bounds(i as int, j as int) implies (#[trigger] path_at(
        d,
        i as int,
        j as int,
    ) <==> chain.contains((i, j))) by {
        if i == qx && j == qy {
            assert(chain[chain.len() - 1] == (qx, qy));
        } else {
            assert(path_at(d, i as int, j as int) == path_at(dpre, i as int, j as int));
            if chain.contains((i, j)) {
                let m = choose|m: int| 0 <= m < chain.len() && chain[m] == (i, j);
                assert(chain0[m] == (i, j));
            }
            if chain0.contains((i, j)) {
                let m = choose|m: int| 0 <= m < chain0.len() && chain0[m] == (i, j);
                assert(chain[m] == (i, j));
            }
        }
    }
}

/// Marks the shortest path: flags the target cell, then repeatedly steps to
/// the last stored linked neighbor with a strictly smaller distance
/// (necessarily one less, because linked neighbors differ by at most one)
/// until the source is reached - a deterministic walk. If the target carries
/// no distance, only the target is flagged.
#[verifier::rlimit(100)]
fn mark_path(d: &mut Grid<DistanceCell>, bx: usize, by: usize, ex: usize, ey: usize)
    requires
        old(d).wf(),
        old(d).in_bounds(bx as int, by as int),
        old(d).in_bounds(ex as int, ey as int),
        distances_consistent(*old(d), bx, by),
        forall|i: usize, j: usize|
            old(d).in_bounds(i as int, j as int) ==> !(#[trigger] path_at(
                *old(d),
                i as int,
                j as int,
            )),
    ensures
        final(d).wf(),
        final(d).dim_x() == old(d).dim_x(),
        final(d).dim_y() == old(d).dim_y(),
        final(d).link_seq() == old(d).link_seq(),
        distances_consistent(*final(d), bx, by),
        dist_at(*final(d), ex as int, ey as int) == dist_at(*old(d), ex as int, ey as int),
        path_marked(*final(d), bx, by, ex, ey),
{
    let dx = d.x();
    let dy = d.y();

        let edist = d.cell(ex, ey).distance();
    let ghost dpre = *d;
    set_path(d, ex, ey);
    proof {
        lemma_consistent_transfer(dpre, *d, bx, by);
    }
    match edist {
        None => {
            proof {
                assert forall|i: usize, j: usize| d.in_bounds(i as int, j as int) implies (
                #[trigger] path_at(*d, i as int, j as int) <==> (i == ex && j == ey)) by {
                    if !(i == ex && j == ey) {
                        assert(path_at(*d, i as int, j as int) == path_at(
                            dpre,
                            i as int,
                            j as int,
                        ));
                    }
                }
                assert(path_marked(*d, bx, by, ex, ey));
            }
        },
        Some(dd) => {
            let ghost mut chain: Seq<(usize, usize)> = seq![(ex, ey)];
            let mut cx = ex;
            let mut cy = ey;
            let mut cd = dd;
            proof {
                assert forall|i: usize, j: usize| d.in_bounds(i as int, j as int) implies (
                #[trigger] path_at(*d, i as int, j as int) <==> chain.contains((i, j))) by {
                    if path_at(*d, i as int, j as int) {
                        if !(i == ex && j == ey) {
                            assert(path_at(*d, i as int, j as int) == path_at(
                                dpre,
                                i as int,
                                j as int,
                            ));
                        }
                        assert(chain[0] == (i, j));
                    } else {
                        if chain.contains((i, j)) {
                            assert(chain[0] == (ex, ey));
                            assert((i, j) == (ex, ey));
                        }
                    }
                }
            }
            while cd > 0
                invariant
                    d.wf(),
                    d.dim_x() == dx,
                    d.dim_y() == dy,
                    dx == old(d).dim_x(),
                    dy == old(d).dim_y(),
                    d.link_seq() == old(d).link_seq(),
                    bx < dx,
                    by < dy,
                    ex < dx,
                    ey < dy,
                    distances_consistent(*d, bx, by),
                    dist_at(*d, ex as int, ey as int) == Some(dd),
                    d.in_bounds(cx as int, cy as int),
                    dist_at(*d, cx as int, cy as int) == Some(cd),
                    cd <= dd,
                    chain.len() == dd - cd + 1,
                    chain[0] == (ex, ey),
                    chain[chain.len() - 1] == (cx, cy),
                    forall|i: int|
                        0 <= i < chain.len() ==> d.in_bounds(
                            (#[trigger] chain[i]).0 as int,
                            chain[i].1 as int,
                        ) && dist_at(*d, chain[i].0 as int, chain[i].1 as int) == Some(
                            (dd - i) as usize,
                        ),
                    forall|i: int|
                        0 <= i < chain.len() - 1 ==> d.linked(
                            (#[trigger] chain[i]).0,
                            chain[i].1,
                            chain[i + 1].0,
                            chain[i + 1].1,
                        ),
                    forall|i: int|
                        0 <= i < chain.len() - 1 ==> is_downhill_choice(
                            *d,
                            (#[trigger] chain[i]).0,
                            chain[i].1,
                            ((dd - i) as usize),
                            chain[i + 1],
                        ),
                    forall|i: usize, j: usize|
                        d.in_bounds(i as int, j as int) ==> (#[trigger] path_at(
                            *d,
                            i as int,
                            j as int,
                        ) <==> chain.contains((i, j))),
                decreases cd,
            {
                let ns = d.neighbors_linked_indices(cx, cy);
                let mut nxt: Option<(usize, usize)> = None;
                let mut ni: usize = 0;
                while ni < ns.len()
                    invariant
                        d.wf(),
                        ni <= ns@.len(),
                        d.in_bounds(cx as int, cy as int),
                        dist_at(*d, cx as int, cy as int) == Some(cd),
                        ns@ == neighbors_of(d.link_seq(), cx, cy),
                        forall|p: (usize, usize)| #[trigger]
                            ns@.contains(p) <==> d.linked(cx, cy, p.0, p.1),
                        forall|m: int|
                            0 <= m < ns@.len() ==> d.in_bounds(
                                (#[trigger] ns@[m]).0 as int,
                                ns@[m].1 as int,
                            ),
                        nxt matches Some(q) ==> exists|m: int|
                            0 <= m < ni && (#[trigger] ns@[m]) == q && closer(*d, q, cd) && (
                            forall|m2: int| m < m2 < ni ==> !closer(*d, ns@[m2], cd)),
                        nxt is None ==> forall|m: int|
                            0 <= m < ni ==> !closer(*d, #[trigger] ns@[m], cd),
                    decreases ns@.len() - ni,
                {
                    let n = ns[ni];
                    assert(ns@.contains(ns@[ni as int]));
                    let ghost prev_nxt = nxt;
                    let nc = d.cell(n.0, n.1);
                    match nc.distance() {
                        Some(w) => {
                            if w < cd {
                                nxt = Some((n.0, n.1));
                            }
                        },
                        None => {},
                    }
                    proof {
                        assert(ns@[ni as int] == (n.0, n.1));
                        if closer(*d, ns@[ni as int], cd) {
                            assert(nxt == Some((n.0, n.1)));
                            assert(exists|m: int|
                                0 <= m < ni + 1 && (#[trigger] ns@[m]) == (n.0, n.1) && closer(
                                    *d,
                                    (n.0, n.1),
                                    cd,
                                ) && (forall|m2: int| m < m2 < ni + 1 ==> !closer(*d, ns@[m2], cd)))
                                by {
                                assert((ni as int) < ni + 1 && ns@[ni as int] == (n.0, n.1)
                                    && closer(*d, (n.0, n.1), cd) && (forall|m2: int|
                                    ni < m2 < ni + 1 ==> !closer(*d, ns@[m2], cd)));
                            }
                        } else {
                            assert(nxt == prev_nxt);
                            if nxt is Some {
                                let q = nxt->Some_0;
                                let m = choose|m: int|
                                    0 <= m < ni && (#[trigger] ns@[m]) == q && closer(*d, q, cd)
                                        && (forall|m2: int|
                                        m < m2 < ni ==> !closer(*d, ns@[m2], cd));
                                assert(0 <= m < ni + 1 && ns@[m] == q && closer(*d, q, cd) && (
                                forall|m2: int| m < m2 < ni + 1 ==> !closer(*d, ns@[m2], cd)));
                            }
                        }
                    }
                    ni += 1;
                }
                proof {
                    assert(nxt is Some) by {
                        if nxt is None {
                            lemma_has_smaller_neighbor(*d, bx, by, cx, cy, cd);
                            let (p, q) = choose|p: usize, q: usize|
                                #[trigger] d.linked(cx, cy, p, q) && dist_at(*d, p as int, q as int)
                                    is Some && dist_at(*d, p as int, q as int)->Some_0 < cd;
                            assert(ns@.contains((p, q)));
                            let m = choose|m: int| 0 <= m < ns@.len() && ns@[m] == (p, q);
                            assert(closer(*d, ns@[m], cd));
                            assert(!closer(*d, ns@[m], cd));
                        }
                    }
                }
                let (qx, qy) = nxt.unwrap();
                proof {
                    let m = choose|m: int|
                        0 <= m < ns@.len() && (#[trigger] ns@[m]) == (qx, qy) && closer(
                            *d,
                            (qx, qy),
                            cd,
                        ) && (forall|m2: int| m < m2 < ns@.len() ==> !closer(*d, ns@[m2], cd));
                    assert(ns@.contains(ns@[m]));
                    assert(d.linked(cx, cy, qx, qy));
                    assert(d.in_bounds(qx as int, qy as int));
                    assert(is_downhill_choice(*d, cx, cy, cd, (qx, qy)));
                }
                let ghost dpre2 = *d;
                let ghost chain0 = chain;
                set_path(d, qx, qy);
                proof {
                    lemma_closer_is_one_less(dpre2, bx, by, cx, cy, qx, qy, cd);
                    lemma_consistent_transfer(dpre2, *d, bx, by);
                    lemma_chain_choice_step(dpre2, *d, chain0, cx, cy, qx, qy, cd, dd);
                    lemma_mark_step(
                        dpre2,
                        *d,
                        chain0,
                        bx,
                        by,
                        ex,
                        ey,
                        cx,
                        cy,
                        qx,
                        qy,
                        cd,
                        dd,
                    );
                    lemma_chain_marks(dpre2, *d, chain0, qx, qy);
                    chain = chain0.push((qx, qy));
                }
                cx = qx;
                cy = qy;
                cd = cd - 1;
            }
            proof {
                reveal(distances_consistent);
                assert(dist_at(*d, cx as int, cy as int) == Some(0usize));
                assert(cx == bx && cy == by);
                assert(chain[dd as int] == (bx, by));
                assert(is_path_chain(*d, bx, by, ex, ey, chain));
                assert(path_marked(*d, bx, by, ex, ey));
            }
        },
    }
}

} // verus!
