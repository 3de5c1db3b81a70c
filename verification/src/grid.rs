use vstd::prelude::*;

use vstd::string::StringExecFns;

use rand::Rng;

use crate::cell::Cell;

verus! {

/// Relies on rand: thread_rng().gen_range over 0..n returns a uniformly
/// chosen value below n. The call panics only on an empty range, which the
/// precondition rules out; nothing more is assumed of which value comes back.
#[verifier::external_body]
fn random_below(n: usize) -> (r: usize)
    requires
        n >= 1,
    ensures
        r < n,
{
    rand::thread_rng().gen_range(0..n)
}

/// Whether (c, d) is the geometric neighbor one step right of or one step
/// down from (a, b).
pub open spec fn forward_of(a: usize, b: usize, c: usize, d: usize) -> bool {
    (c == a + 1 && d == b) || (c == a && d == b + 1)
}

/// Whether (i, j) is swept before (a, b) in the generation order: column by
/// column, each column top to bottom.
pub open spec fn swept_before(i: usize, j: usize, a: int, b: int) -> bool {
    i < a || (i == a && j < b)
}

/// Whether cell (i, j) is linked to a geometric neighbor one step right or
/// one step down of it.
pub open spec fn has_forward_link<T>(g: Grid<T>, i: usize, j: usize) -> bool {
    (i + 1 < g.dim_x() && g.linked(i, j, (i + 1) as usize, j)) || (j + 1 < g.dim_y() && g.linked(
        i,
        j,
        i,
        (j + 1) as usize,
    ))
}

/// The shape the generation sweep guarantees: every cell but the
/// bottom-right one is linked to a geometric neighbor one step right or one
/// step down, so every cell reaches the bottom-right corner.
pub open spec fn forward_spanning<T>(g: Grid<T>) -> bool {
    forall|a: usize, b: usize|
        g.in_bounds(a as int, b as int) && !(a == g.dim_x() - 1 && b == g.dim_y() - 1)
            ==> #[trigger] has_forward_link(g, a, b)
}

/// The linked neighbors of (x, y) read off a link list: the entries leaving
/// (x, y), kept in storage order.
pub open spec fn neighbors_of(
    links: Seq<(usize, usize, usize, usize)>,
    x: usize,
    y: usize,
) -> Seq<(usize, usize)>
    decreases links.len(),
{
    if links.len() == 0 {
        Seq::<(usize, usize)>::empty()
    } else {
        let e = links.last();
        neighbors_of(links.drop_last(), x, y) + (if e.0 == x && e.1 == y {
            seq![(e.2, e.3)]
        } else {
            Seq::<(usize, usize)>::empty()
        })
    }
}

/// Every neighbor read off a link list comes from one of its entries.
pub proof fn lemma_neighbors_of_entries(
    links: Seq<(usize, usize, usize, usize)>,
    x: usize,
    y: usize,
)
    ensures
        forall|i: int|
            0 <= i < neighbors_of(links, x, y).len() ==> links.contains(
                (x, y, (#[trigger] neighbors_of(links, x, y)[i]).0, neighbors_of(links, x, y)[i].1),
            ),
    decreases links.len(),
{
    if links.len() > 0 {
        let pre = links.drop_last();
        let e = links.last();
        lemma_neighbors_of_entries(pre, x, y);
        let ns = neighbors_of(links, x, y);
        let nsp = neighbors_of(pre, x, y);
        assert forall|i: int| 0 <= i < ns.len() implies links.contains(
            (x, y, (#[trigger] ns[i]).0, ns[i].1),
        ) by {
            if i < nsp.len() {
                assert(ns[i] == nsp[i]);
                assert(pre.contains((x, y, nsp[i].0, nsp[i].1)));
                let j = choose|j: int| 0 <= j < pre.len() && pre[j] == (x, y, nsp[i].0, nsp[i].1);
                assert(links[j] == pre[j]);
            } else {
                assert(e.0 == x && e.1 == y);
                assert(ns[i] == (e.2, e.3));
                assert(links[links.len() - 1] == e);
            }
        }
    }
}

/// A rectangular grid of cells together with the link relation: a symmetric,
/// irreflexive set of coordinate pairs. Two cells are passable between each
/// other exactly when they are linked, regardless of geometric adjacency.
/// Links are stored as ordered quadruples, both directions present, no
/// duplicates, and only between cells that exist in the grid.
pub struct Grid<T> {
    x: usize,
    y: usize,
    cells: Vec<Vec<T>>,
    links: Vec<(usize, usize, usize, usize)>,
}

impl<T> Grid<T> {
    /// The grid width (number of columns).
    pub closed spec fn dim_x(self) -> usize {
        self.x
    }

    /// The grid height (number of rows).
    pub closed spec fn dim_y(self) -> usize {
        self.y
    }

    /// The cell storage, one inner sequence per column.
    pub closed spec fn cell_seq(self) -> Seq<Vec<T>> {
        self.cells@
    }

    /// The stored link entries, both directions of every linked pair.
    pub closed spec fn link_seq(self) -> Seq<(usize, usize, usize, usize)> {
        self.links@
    }

    /// The cell at column a, row b.
    pub open spec fn cell_at(self, a: int, b: int) -> T {
        self.cell_seq()[a]@[b]
    }

    /// Whether (a, b) addresses a cell of the grid.
    pub open spec fn in_bounds(self, a: int, b: int) -> bool {
        0 <= a < self.dim_x() && 0 <= b < self.dim_y()
    }

    /// The link relation itself: whether an opening from (x1, y1) to (x2, y2)
    /// is recorded.
    pub open spec fn linked(self, x1: usize, y1: usize, x2: usize, y2: usize) -> bool {
        self.link_seq().contains((x1, y1, x2, y2))
    }

    /// Well-formedness of the link storage: no duplicate entries, symmetric,
    /// irreflexive, and only between cells of the grid.
    pub open spec fn links_wf(self) -> bool {
        &&& (forall|k: int, m: int|
            0 <= k < m < self.link_seq().len() ==> self.link_seq()[k] != self.link_seq()[m])
        &&& (forall|e: (usize, usize, usize, usize)|
            #[trigger] self.link_seq().contains(e) ==> {
                &&& self.link_seq().contains((e.2, e.3, e.0, e.1))
                &&& !(e.0 == e.2 && e.1 == e.3)
                &&& self.in_bounds(e.0 as int, e.1 as int)
                &&& self.in_bounds(e.2 as int, e.3 as int)
            })
    }
}

impl<T: Cell> Grid<T> {
    /// Well-formedness of the cell storage: a full x-by-y arrangement whose
    /// cells each sit at the position they were constructed with.
    pub open spec fn cells_wf(self) -> bool {
        &&& self.cell_seq().len() == self.dim_x()
        &&& (forall|a: int|
            0 <= a < self.dim_x() ==> (#[trigger] self.cell_seq()[a])@.len() == self.dim_y())
        &&& (forall|a: int, b: int|
            self.in_bounds(a, b) ==> {
                &&& (#[trigger] self.cell_at(a, b)).sx() == a
                &&& self.cell_at(a, b).sy() == b
            })
    }

    pub open spec fn wf(self) -> bool {
        &&& self.dim_x() * self.dim_y() <= usize::MAX
        &&& self.cells_wf()
        &&& self.links_wf()
    }

    /// Constructs a grid with one cell per coordinate in
    /// [0, x) x [0, y) and an empty link relation. A zero dimension yields a
    /// legal, degenerate grid with no cells.
    pub fn new(x: usize, y: usize) -> (g: Grid<T>)
        requires
            x * y <= usize::MAX,
        ensures
            g.wf(),
            g.dim_x() == x,
            g.dim_y() == y,
            g.link_seq().len() == 0,
            forall|a: int, b: int| g.in_bounds(a, b) ==> (#[trigger] g.cell_at(a, b)).fresh(),
    {
        let mut cells: Vec<Vec<T>> = Vec::new();
        let mut i: usize = 0;
        while i < x
            invariant
                i <= x,
                cells@.len() == i,
                forall|a: int| 0 <= a < i ==> (#[trigger] cells@[a])@.len() == y,
                forall|a: int, b: int|
                    0 <= a < i && 0 <= b < y ==> {
                        &&& (#[trigger] cells@[a]@[b]).sx() == a
                        &&& cells@[a]@[b].sy() == b
                        &&& cells@[a]@[b].fresh()
                    },
            decreases x - i,
        {
            let mut row: Vec<T> = Vec::new();
            let mut j: usize = 0;
            while j < y
                invariant
                    j <= y,
                    row@.len() == j,
                    forall|b: int|
                        0 <= b < j ==> {
                            &&& (#[trigger] row@[b]).sx() == i
                            &&& row@[b].sy() == b
                            &&& row@[b].fresh()
                        },
                decreases y - j,
            {
                row.push(T::new(i, j));
                j += 1;
            }
            cells.push(row);
            i += 1;
        }
        Grid { x, y, cells, links: Vec::new() }
    }

    /// The grid width.
    pub fn x(&self) -> (r: usize)
        ensures
            r == self.dim_x(),
    {
        self.x
    }

    /// The grid height.
    pub fn y(&self) -> (r: usize)
        ensures
            r == self.dim_y(),
    {
        self.y
    }

    /// The number of stored link entries; every linked pair is counted once
    /// per direction.
    pub fn link_count(&self) -> (n: usize)
        ensures
            n == self.link_seq().len(),
    {
        self.links.len()
    }

    /// A copy of the cell at (x, y).
    pub fn cell(&self, x: usize, y: usize) -> (c: T)
        requires
            self.wf(),
            x < self.dim_x(),
            y < self.dim_y(),
        ensures
            c == self.cell_at(x as int, y as int),
    {
        self.cells[x][y]
    }

    /// The top border of the text rendering: one wall segment per column.
    pub open spec fn border_spec(self, n: int) -> Seq<char>
        decreases n,
    {
        if n <= 0 {
            Seq::<char>::empty()
        } else {
            self.border_spec(n - 1) + "---+"@
        }
    }

    /// The cell row of the text rendering at row yy, over the first n
    /// columns: a blank cell body, then a wall unless a link opens the way
    /// to the right neighbor.
    pub open spec fn row_top_spec(self, yy: usize, n: int) -> Seq<char>
        decreases n,
    {
        if n <= 0 {
            Seq::<char>::empty()
        } else {
            self.row_top_spec(yy, n - 1) + "   "@ + (if self.linked(
                ((n - 1) as usize),
                yy,
                (n as usize),
                yy,
            ) {
                " "@
            } else {
                "|"@
            })
        }
    }

    /// The wall row under row yy, over the first n columns: a wall segment
    /// unless a link opens the way downward.
    pub open spec fn row_bottom_spec(self, yy: usize, n: int) -> Seq<char>
        decreases n,
    {
        if n <= 0 {
            Seq::<char>::empty()
        } else {
            self.row_bottom_spec(yy, n - 1) + (if self.linked(
                ((n - 1) as usize),
                yy,
                ((n - 1) as usize),
                ((yy + 1) as usize),
            ) {
                "   +"@
            } else {
                "---+"@
            })
        }
    }

    /// The first m rows of the text rendering, each a cell row and a wall
    /// row.
    pub open spec fn rows_spec(self, m: int) -> Seq<char>
        decreases m,
    {
        if m <= 0 {
            Seq::<char>::empty()
        } else {
            self.rows_spec(m - 1) + "|"@ + self.row_top_spec(((m - 1) as usize), self.dim_x() as int)
                + "\n"@ + "+"@ + self.row_bottom_spec(((m - 1) as usize), self.dim_x() as int)
                + "\n"@
        }
    }

    /// The whole text rendering: the top border, then the rows.
    pub open spec fn render_spec(self) -> Seq<char> {
        "+"@ + self.border_spec(self.dim_x() as int) + "\n"@ + self.rows_spec(self.dim_y() as int)
    }

    /// Renders the grid as ASCII art: a wall stands wherever no link opens a
    /// passage to the right or downward neighbor.
    pub fn to_string(&self) -> (r: String)
        ensures
            r@ == self.render_spec(),
    {
        let mut res = String::new();
        res.append("+");
        let mut x: usize = 0;
        while x < self.x
            invariant
                x <= self.dim_x(),
                res@ == "+"@ + self.border_spec(x as int),
            decreases self.dim_x() - x,
        {
            res.append("---+");
            proof {
                assert(res@ =~= "+"@ + self.border_spec(x as int + 1));
            }
            x += 1;
        }
        res.append("\n");
        proof {
            assert(res@ =~= "+"@ + self.border_spec(self.dim_x() as int) + "\n"@ + self.rows_spec(
                0,
            ));
        }
        let mut yy: usize = 0;
        while yy < self.y
            invariant
                yy <= self.dim_y(),
                res@ == "+"@ + self.border_spec(self.dim_x() as int) + "\n"@ + self.rows_spec(
                    yy as int,
                ),
            decreases self.dim_y() - yy,
        {
            let mut top = String::new();
            top.append("|");
            let mut bottom = String::new();
            bottom.append("+");
            let mut cx: usize = 0;
            while cx < self.x
                invariant
                    cx <= self.dim_x(),
                    yy < self.dim_y(),
                    top@ == "|"@ + self.row_top_spec(yy, cx as int),
                    bottom@ == "+"@ + self.row_bottom_spec(yy, cx as int),
                decreases self.dim_x() - cx,
            {
                top.append("   ");
                if self.is_linked_indices(cx, yy, cx + 1, yy) {
                    top.append(" ");
                } else {
                    top.append("|");
                }
                if self.is_linked_indices(cx, yy, cx, yy + 1) {
                    bottom.append("   +");
                } else {
                    bottom.append("---+");
                }
                proof {
                    assert((((cx as int + 1) - 1) as usize) == cx);
                    assert(top@ =~= "|"@ + self.row_top_spec(yy, cx as int + 1));
                    assert(bottom@ =~= "+"@ + self.row_bottom_spec(yy, cx as int + 1));
                }
                cx += 1;
            }
            res.append(top.as_str());
            res.append("\n");
            res.append(bottom.as_str());
            res.append("\n");
            proof {
                assert(res@ =~= "+"@ + self.border_spec(self.dim_x() as int) + "\n"@
                    + self.rows_spec(yy as int + 1));
            }
            yy += 1;
        }
        res
    }

    /// Whether the opening (x1, y1) -> (x2, y2) is recorded. Any pair not
    /// recorded, including out-of-range pairs, is simply not linked.
    pub fn is_linked_indices(&self, x1: usize, y1: usize, x2: usize, y2: usize) -> (r: bool)
        ensures
            r == self.linked(x1, y1, x2, y2),
    {
        let mut k: usize = 0;
        while k < self.links.len()
            invariant
                k <= self.links@.len(),
                forall|m: int| 0 <= m < k ==> self.links@[m] != (x1, y1, x2, y2),
            decreases self.links@.len() - k,
        {
            let e = self.links[k];
            if e.0 == x1 && e.1 == y1 && e.2 == x2 && e.3 == y2 {
                assert(self.links@[k as int] == (x1, y1, x2, y2));
                return true;
            }
            k += 1;
        }
        false
    }

    /// Whether the two cells are linked.
    pub fn is_linked(&self, cell1: &T, cell2: &T) -> (r: bool)
        ensures
            r == self.linked(cell1.sx(), cell1.sy(), cell2.sx(), cell2.sy()),
    {
        self.is_linked_indices(cell1.x(), cell1.y(), cell2.x(), cell2.y())
    }

    /// Records the opening between (x1, y1) and (x2, y2) in both directions.
    /// Linking an already-linked pair, or a cell with itself, leaves the
    /// relation unchanged.
    pub fn link_indices(&mut self, x1: usize, y1: usize, x2: usize, y2: usize)
        requires
            old(self).wf(),
            x1 < old(self).dim_x(),
            y1 < old(self).dim_y(),
            x2 < old(self).dim_x(),
            y2 < old(self).dim_y(),
        ensures
            final(self).wf(),
            final(self).dim_x() == old(self).dim_x(),
            final(self).dim_y() == old(self).dim_y(),
            final(self).cell_seq() == old(self).cell_seq(),
            (x1 == x2 && y1 == y2) || old(self).linked(x1, y1, x2, y2) ==> final(self).link_seq() == old(self).link_seq(),
            !(x1 == x2 && y1 == y2) && !old(self).linked(x1, y1, x2, y2) ==> final(self).link_seq() == old(self).link_seq().push((x1, y1, x2, y2)).push((x2, y2, x1, y1)),
            forall|a: usize, b: usize, c: usize, d: usize|
                #[trigger] final(self).linked(a, b, c, d) <==> (old(self).linked(a, b, c, d) || (!(
                x1 == x2 && y1 == y2) && ((a, b, c, d) == (x1, y1, x2, y2) || (a, b, c, d) == (
                x2,
                y2,
                x1,
                y1,
                )))),
    {
        if x1 == x2 && y1 == y2 {
            return ;
        }
        if self.is_linked_indices(x1, y1, x2, y2) {
            proof {
                let e = (x1, y1, x2, y2);
                assert(self.link_seq().contains((e.2, e.3, e.0, e.1)));
            }
            return ;
        }
        proof {
            assert(!self.link_seq().contains((x2, y2, x1, y1))) by {
                if self.link_seq().contains((x2, y2, x1, y1)) {
                    let e = (x2, y2, x1, y1);
                    assert(self.link_seq().contains((e.2, e.3, e.0, e.1)));
                    assert((e.2, e.3, e.0, e.1) == (x1, y1, x2, y2));
                }
            }
        }
        let ghost s0 = self.links@;
        let ghost e1 = (x1, y1, x2, y2);
        let ghost e2 = (x2, y2, x1, y1);
        self.links.push((x1, y1, x2, y2));
        self.links.push((x2, y2, x1, y1));
        proof {
            let s2 = self.links@;
            assert(s2[s0.len() as int] == e1);
            assert(s2[s0.len() as int + 1] == e2);
            assert(s2.contains(e1));
            assert(s2.contains(e2));
            assert forall|e: (usize, usize, usize, usize)| #[trigger] s2.contains(e) implies (
            s0.contains(e) || e == e1 || e == e2) by {
                let i = choose|i: int| 0 <= i < s2.len() && s2[i] == e;
                if i < s0.len() {
                    assert(s0[i] == e);
                }
            }
            assert forall|e: (usize, usize, usize, usize)| s0.contains(e) implies #[trigger] s2.contains(e) by {
                let i = choose|i: int| 0 <= i < s0.len() && s0[i] == e;
                assert(s2[i] == e);
            }
            assert forall|k: int, m: int| 0 <= k < m < s2.len() implies s2[k] != s2[m] by {
                if m < s0.len() {
                } else if m == s0.len() {
                    assert(s2[k] == s0[k]);
                    if s2[k] == s2[m] {
                        assert(s0.contains(s0[k]));
                    }
                } else {
                    assert(s2[m] == e2);
                    if k < s0.len() {
                        assert(s2[k] == s0[k]);
                        if s2[k] == s2[m] {
                            assert(s0.contains(s0[k]));
                        }
                    } else {
                        assert(s2[k] == e1);
                    }
                }
            }
            assert forall|e: (usize, usize, usize, usize)| #[trigger] s2.contains(e) implies {
                &&& s2.contains((e.2, e.3, e.0, e.1))
                &&& !(e.0 == e.2 && e.1 == e.3)
                &&& self.in_bounds(e.0 as int, e.1 as int)
                &&& self.in_bounds(e.2 as int, e.3 as int)
            } by {
                if s0.contains(e) {
                    assert(old(self).link_seq().contains(e));
                    assert(s0.contains((e.2, e.3, e.0, e.1)));
                } else if e == e1 {
                    assert((e.2, e.3, e.0, e.1) == e2);
                } else {
                    assert(e == e2);
                    assert((e.2, e.3, e.0, e.1) == e1);
                }
            }
            assert forall|a: usize, b: usize, c: usize, d: usize| #[trigger] self.linked(
                a,
                b,
                c,
                d,
            ) == (old(self).linked(a, b, c, d) || (a, b, c, d) == e1 || (a, b, c, d) == e2) by {
                let e = (a, b, c, d);
                assert(e.0 == a && e.1 == b && e.2 == c && e.3 == d);
            }
            lemma_cells_wf_transfer(*old(self), *self);
        }
    }

    /// Records the opening between the two cells in both directions.
    pub fn link(&mut self, cell1: &T, cell2: &T)
        requires
            old(self).wf(),
            cell1.sx() < old(self).dim_x(),
            cell1.sy() < old(self).dim_y(),
            cell2.sx() < old(self).dim_x(),
            cell2.sy() < old(self).dim_y(),
        ensures
            final(self).wf(),
            final(self).dim_x() == old(self).dim_x(),
            final(self).dim_y() == old(self).dim_y(),
            final(self).cell_seq() == old(self).cell_seq(),
            forall|a: usize, b: usize, c: usize, d: usize|
                #[trigger] final(self).linked(a, b, c, d) <==> (old(self).linked(a, b, c, d) || (!(
                cell1.sx() == cell2.sx() && cell1.sy() == cell2.sy()) && ((a, b, c, d) == (
                cell1.sx(),
                cell1.sy(),
                cell2.sx(),
                cell2.sy(),
                ) || (a, b, c, d) == (cell2.sx(), cell2.sy(), cell1.sx(), cell1.sy())))),
    {
        self.link_indices(cell1.x(), cell1.y(), cell2.x(), cell2.y());
    }

    /// Removes the opening between (x1, y1) and (x2, y2), both directions at
    /// once. Unlinking a pair that is not linked is a no-op.
    pub fn unlink_indices(&mut self, x1: usize, y1: usize, x2: usize, y2: usize)
        requires
            old(self).wf(),
        ensures
            final(self).wf(),
            final(self).dim_x() == old(self).dim_x(),
            final(self).dim_y() == old(self).dim_y(),
            final(self).cell_seq() == old(self).cell_seq(),
            forall|a: usize, b: usize, c: usize, d: usize|
                #[trigger] final(self).linked(a, b, c, d) <==> (old(self).linked(a, b, c, d) && (
                a,
                b,
                c,
                d,
                ) != (x1, y1, x2, y2) && (a, b, c, d) != (x2, y2, x1, y1)),
    {
        let ghost s0 = self.links@;
        let mut kept: Vec<(usize, usize, usize, usize)> = Vec::new();
        let mut k: usize = 0;
        while k < self.links.len()
            invariant
                self.links@ == s0,
                s0 == old(self).link_seq(),
                old(self).wf(),
                k <= s0.len(),
                forall|m: int|
                    0 <= m < kept@.len() ==> exists|j: int|
                        0 <= j < k && s0[j] == #[trigger] kept@[m],
                forall|m: int|
                    0 <= m < kept@.len() ==> #[trigger] kept@[m] != (x1, y1, x2, y2) && kept@[m]
                        != (x2, y2, x1, y1),
                forall|j: int|
                    0 <= j < k && #[trigger] s0[j] != (x1, y1, x2, y2) && s0[j] != (
                    x2,
                    y2,
                    x1,
                    y1,
                    ) ==> kept@.contains(s0[j]),
                forall|m: int, n: int| 0 <= m < n < kept@.len() ==> kept@[m] != kept@[n],
            decreases s0.len() - k,
        {
            let e = self.links[k];
            let is_fwd = e.0 == x1 && e.1 == y1 && e.2 == x2 && e.3 == y2;
            let is_rev = e.0 == x2 && e.1 == y2 && e.2 == x1 && e.3 == y1;
            if !is_fwd && !is_rev {
                proof {
                    assert(!kept@.contains(e)) by {
                        if kept@.contains(e) {
                            let m = choose|m: int| 0 <= m < kept@.len() && kept@[m] == e;
                            let j = choose|j: int| 0 <= j < k && s0[j] == kept@[m];
                            assert(s0[j] == s0[k as int]);
                            assert(s0[j] != s0[k as int]);
                        }
                    }
                }
                let ghost kept0 = kept@;
                kept.push(e);
                proof {
                    assert forall|m: int| 0 <= m < kept@.len() implies exists|j: int|
                        0 <= j < k + 1 && s0[j] == #[trigger] kept@[m] by {
                        if m < kept0.len() {
                            assert(kept@[m] == kept0[m]);
                            let j = choose|j: int| 0 <= j < k && s0[j] == kept0[m];
                            assert(0 <= j < k + 1 && s0[j] == kept@[m]);
                        } else {
                            assert(kept@[m] == e);
                            assert(s0[k as int] == e);
                        }
                    }
                    assert forall|j: int|
                        0 <= j < k + 1 && #[trigger] s0[j] != (x1, y1, x2, y2) && s0[j] != (
                        x2,
                        y2,
                        x1,
                        y1,
                        ) implies kept@.contains(s0[j]) by {
                        if j < k {
                            assert(kept0.contains(s0[j]));
                            let m = choose|m: int| 0 <= m < kept0.len() && kept0[m] == s0[j];
                            assert(kept@[m] == s0[j]);
                        } else {
                            assert(kept@[kept0.len() as int] == e);
                        }
                    }
                }
            }
            k += 1;
        }
        self.links = kept;
        proof {
            let sf = self.links@;
            assert forall|a: usize, b: usize, c: usize, d: usize| #[trigger] self.linked(
                a,
                b,
                c,
                d,
            ) implies (s0.contains((a, b, c, d)) && (a, b, c, d) != (x1, y1, x2, y2) && (a, b, c, d)
                != (x2, y2, x1, y1)) by {
                let e = (a, b, c, d);
                let m = choose|m: int| 0 <= m < sf.len() && sf[m] == e;
                let j = choose|j: int| 0 <= j < s0.len() && s0[j] == sf[m];
                assert(s0.contains(s0[j]));
            }
            assert forall|a: usize, b: usize, c: usize, d: usize|
                (s0.contains((a, b, c, d)) && (a, b, c, d) != (x1, y1, x2, y2) && (a, b, c, d) != (
                x2,
                y2,
                x1,
                y1,
                )) implies #[trigger] self.linked(a, b, c, d) by {
                let e = (a, b, c, d);
                let j = choose|j: int| 0 <= j < s0.len() && s0[j] == e;
            }
            assert forall|e: (usize, usize, usize, usize)| #[trigger] sf.contains(e) implies {
                &&& sf.contains((e.2, e.3, e.0, e.1))
                &&& !(e.0 == e.2 && e.1 == e.3)
                &&& self.in_bounds(e.0 as int, e.1 as int)
                &&& self.in_bounds(e.2 as int, e.3 as int)
            } by {
                assert(self.linked(e.0, e.1, e.2, e.3));
                assert(s0.contains(e));
                let f = (e.2, e.3, e.0, e.1);
                assert(s0.contains(f));
                assert(f != (x1, y1, x2, y2) && f != (x2, y2, x1, y1));
                assert(self.linked(f.0, f.1, f.2, f.3));
            }
            lemma_cells_wf_transfer(*old(self), *self);
        }
    }

    /// Removes the opening between the two cells, both directions at once.
    pub fn unlink(&mut self, cell1: &T, cell2: &T)
        requires
            old(self).wf(),
        ensures
            final(self).wf(),
            final(self).dim_x() == old(self).dim_x(),
            final(self).dim_y() == old(self).dim_y(),
            final(self).cell_seq() == old(self).cell_seq(),
            forall|a: usize, b: usize, c: usize, d: usize|
                #[trigger] final(self).linked(a, b, c, d) <==> (old(self).linked(a, b, c, d) && (
                a,
                b,
                c,
                d,
                ) != (cell1.sx(), cell1.sy(), cell2.sx(), cell2.sy()) && (a, b, c, d) != (
                cell2.sx(),
                cell2.sy(),
                cell1.sx(),
                cell1.sy(),
                )),
    {
        self.unlink_indices(cell1.x(), cell1.y(), cell2.x(), cell2.y());
    }

    /// Every cell linked to (x, y), in the deterministic order in which the
    /// links were recorded, without duplicates.
    pub fn neighbors_linked_indices(&self, x: usize, y: usize) -> (r: Vec<(usize, usize)>)
        requires
            self.wf(),
        ensures
            r@ == neighbors_of(self.link_seq(), x, y),
            forall|p: (usize, usize)| #[trigger] r@.contains(p) <==> self.linked(x, y, p.0, p.1),
            forall|m: int, n: int| 0 <= m < n < r@.len() ==> r@[m] != r@[n],
            forall|m: int|
                0 <= m < r@.len() ==> self.in_bounds(#[trigger] r@[m].0 as int, r@[m].1 as int),
    {
        let mut r: Vec<(usize, usize)> = Vec::new();
        let mut k: usize = 0;
        while k < self.links.len()
            invariant
                self.wf(),
                k <= self.link_seq().len(),
                forall|m: int|
                    0 <= m < r@.len() ==> exists|j: int|
                        0 <= j < k && self.link_seq()[j] == (x, y, (#[trigger] r@[m]).0, r@[m].1),
                forall|j: int|
                    0 <= j < k && (#[trigger] self.link_seq()[j]).0 == x && self.link_seq()[j].1
                        == y ==> r@.contains((self.link_seq()[j].2, self.link_seq()[j].3)),
                forall|m: int, n: int| 0 <= m < n < r@.len() ==> r@[m] != r@[n],
                r@ == neighbors_of(self.link_seq().subrange(0, k as int), x, y),
            decreases self.link_seq().len() - k,
        {
            let e = self.links[k];
            if e.0 == x && e.1 == y {
                proof {
                    assert(!r@.contains((e.2, e.3))) by {
                        if r@.contains((e.2, e.3)) {
                            let m = choose|m: int| 0 <= m < r@.len() && r@[m] == (e.2, e.3);
                            let j = choose|j: int|
                                0 <= j < k && self.link_seq()[j] == (x, y, r@[m].0, r@[m].1);
                            assert(self.link_seq()[j] == self.link_seq()[k as int]);
                            assert(self.link_seq()[j] != self.link_seq()[k as int]);
                        }
                    }
                }
                let ghost r0 = r@;
                r.push((e.2, e.3));
                proof {
                    assert forall|m: int| 0 <= m < r@.len() implies exists|j: int|
                        0 <= j < k + 1 && self.link_seq()[j] == (
                        x,
                        y,
                        (#[trigger] r@[m]).0,
                        r@[m].1,
                    ) by {
                        if m < r0.len() {
                            assert(r@[m] == r0[m]);
                            let j = choose|j: int|
                                0 <= j < k && self.link_seq()[j] == (x, y, r0[m].0, r0[m].1);
                            assert(0 <= j < k + 1 && self.link_seq()[j] == (x, y, r@[m].0, r@[m].1));
                        } else {
                            assert(r@[m] == (e.2, e.3));
                            assert(self.link_seq()[k as int] == (x, y, e.2, e.3));
                        }
                    }
                    assert forall|j: int|
                        0 <= j < k + 1 && (#[trigger] self.link_seq()[j]).0 == x
                            && self.link_seq()[j].1 == y implies r@.contains(
                        (self.link_seq()[j].2, self.link_seq()[j].3),
                    ) by {
                        if j < k {
                            assert(r0.contains((self.link_seq()[j].2, self.link_seq()[j].3)));
                            let m = choose|m: int|
                                0 <= m < r0.len() && r0[m] == (
                                    self.link_seq()[j].2,
                                    self.link_seq()[j].3,
                                );
                            assert(r@[m] == r0[m]);
                        } else {
                            assert(r@[r0.len() as int] == (e.2, e.3));
                        }
                    }
                }
            }
            proof {
                let subk = self.link_seq().subrange(0, k as int);
                let subk1 = self.link_seq().subrange(0, k as int + 1);
                assert(subk1.drop_last() =~= subk);
                assert(subk1.last() == self.link_seq()[k as int]);
            }
            k += 1;
        }
        proof {
            assert(self.link_seq().subrange(0, self.link_seq().len() as int) =~= self.link_seq());
            assert forall|p: (usize, usize)| #[trigger] r@.contains(p) implies self.linked(
                x,
                y,
                p.0,
                p.1,
            ) by {
                let m = choose|m: int| 0 <= m < r@.len() && r@[m] == p;
                let j = choose|j: int| 0 <= j < k && self.link_seq()[j] == (x, y, r@[m].0, r@[m].1);
                assert(self.link_seq().contains(self.link_seq()[j]));
            }
            assert forall|p: (usize, usize)| self.linked(x, y, p.0, p.1) implies #[trigger] r@.contains(p) by {
                let e = (x, y, p.0, p.1);
                let j = choose|j: int| 0 <= j < self.link_seq().len() && self.link_seq()[j] == e;
            }
            assert forall|m: int| 0 <= m < r@.len() implies self.in_bounds(
                (#[trigger] r@[m]).0 as int,
                r@[m].1 as int,
            ) by {
                assert(r@.contains(r@[m]));
                assert(self.linked(x, y, r@[m].0, r@[m].1));
                let e = (x, y, r@[m].0, r@[m].1);
                assert(self.link_seq().contains(e));
            }
        }
        r
    }

    /// Copies the link relation of another grid verbatim; the cells and
    /// dimensions of this grid are untouched.
    pub fn copy_links_from<U: Cell>(&mut self, other: &Grid<U>)
        ensures
            final(self).dim_x() == old(self).dim_x(),
            final(self).dim_y() == old(self).dim_y(),
            final(self).cell_seq() == old(self).cell_seq(),
            final(self).link_seq() == other.link_seq(),
    {
        let mut ls: Vec<(usize, usize, usize, usize)> = Vec::new();
        let mut k: usize = 0;
        while k < other.links.len()
            invariant
                ls@ == other.links@.subrange(0, k as int),
                k <= other.links@.len(),
            decreases other.links@.len() - k,
        {
            ls.push(other.links[k]);
            proof {
                assert(ls@ =~= other.links@.subrange(0, k + 1));
            }
            k += 1;
        }
        proof {
            assert(ls@ =~= other.links@);
        }
        self.links = ls;
    }

    /// Replaces the cell at (x, y); the replacement must sit at the same
    /// position. Used by the distance computation to annotate cells.
    pub fn set_cell(&mut self, x: usize, y: usize, c: T)
        requires
            old(self).wf(),
            x < old(self).dim_x(),
            y < old(self).dim_y(),
            c.sx() == x,
            c.sy() == y,
        ensures
            final(self).wf(),
            final(self).dim_x() == old(self).dim_x(),
            final(self).dim_y() == old(self).dim_y(),
            final(self).link_seq() == old(self).link_seq(),
            final(self).cell_at(x as int, y as int) == c,
            forall|a: int, b: int|
                final(self).in_bounds(a, b) && !(a == x && b == y) ==> #[trigger] final(self).cell_at(a, b) == old(self).cell_at(a, b),
    {
        self.cells[x][y] = c;
        proof {
            assert(self.cell_seq()[x as int]@ == old(self).cell_seq()[x as int]@.update(y as int, c));
            assert(self.cell_seq() == old(self).cell_seq().update(x as int, self.cell_seq()[x as int]));
            assert forall|a: int| 0 <= a < self.dim_x() implies (#[trigger] self.cell_seq()[a])@.len()
                == self.dim_y() by {
                assert(old(self).cell_seq()[a]@.len() == old(self).dim_y());
            }
            assert forall|a: int, b: int| self.in_bounds(a, b) implies ((#[trigger] self.cell_at(
                a,
                b,
            )).sx() == a && self.cell_at(a, b).sy() == b) by {
                assert(old(self).cell_at(a, b).sx() == a);
                assert(old(self).cell_at(a, b).sy() == b);
            }
            lemma_links_wf_transfer(*old(self), *self);
        }
    }

    /// Carves the maze: sweeps the cells column by column, top to bottom,
    /// and links each cell to one randomly chosen forward geometric neighbor
    /// (one step right or one step down) when one exists. The result links
    /// every cell but the bottom-right corner forward, which connects all
    /// cells, with exactly dim_x * dim_y - 1 undirected openings (each stored
    /// in both directions).
    pub fn generate(&mut self)
        requires
            old(self).wf(),
            old(self).link_seq().len() == 0,
        ensures
            final(self).wf(),
            final(self).dim_x() == old(self).dim_x(),
            final(self).dim_y() == old(self).dim_y(),
            final(self).cell_seq() == old(self).cell_seq(),
            forward_spanning(*final(self)),
            final(self).link_seq().len() == (if old(self).dim_x() >= 1 && old(self).dim_y() >= 1 {
                2 * (old(self).dim_x() * old(self).dim_y() - 1)
            } else {
                0
            }),
            forall|e: (usize, usize, usize, usize)|
                #[trigger] final(self).link_seq().contains(e) ==> (forward_of(e.0, e.1, e.2, e.3)
                    || forward_of(e.2, e.3, e.0, e.1)),
    {
        let dx = self.x;
        let dy = self.y;
        let mut a: usize = 0;
        while a < dx
            invariant
                a <= dx,
                dx == self.dim_x(),
                dy == self.dim_y(),
                self.wf(),
                self.cell_seq() == old(self).cell_seq(),
                self.link_seq().len() == 2 * (a * dy) - (if a == dx && dx >= 1 && dy >= 1 {
                    2int
                } else {
                    0int
                }),
                forall|i: usize, j: usize|
                    self.in_bounds(i as int, j as int) && swept_before(i, j, a as int, 0) && !(i
                        == dx - 1 && j == dy - 1) ==> #[trigger] has_forward_link(*self, i, j),
                forall|e: (usize, usize, usize, usize)|
                    #[trigger] self.link_seq().contains(e) ==> ((forward_of(e.0, e.1, e.2, e.3)
                        && swept_before(e.0, e.1, a as int, 0)) || (forward_of(e.2, e.3, e.0, e.1)
                        && swept_before(e.2, e.3, a as int, 0))),
            decreases dx - a,
        {
            let mut b: usize = 0;
            while b < dy
                invariant
                    a < dx,
                    b <= dy,
                    dx == self.dim_x(),
                    dy == self.dim_y(),
                    self.wf(),
                    self.cell_seq() == old(self).cell_seq(),
                    self.link_seq().len() == 2 * (a * dy + b) - (if a == dx - 1 && b == dy
                        && dy >= 1 {
                        2int
                    } else {
                        0int
                    }),
                    forall|i: usize, j: usize|
                        self.in_bounds(i as int, j as int) && swept_before(i, j, a as int, b as int)
                            && !(i == dx - 1 && j == dy - 1) ==> #[trigger] has_forward_link(
                            *self,
                            i,
                            j,
                        ),
                    forall|e: (usize, usize, usize, usize)|
                        #[trigger] self.link_seq().contains(e) ==> ((forward_of(e.0, e.1, e.2, e.3)
                            && swept_before(e.0, e.1, a as int, b as int)) || (forward_of(
                            e.2,
                            e.3,
                            e.0,
                            e.1,
                        ) && swept_before(e.2, e.3, a as int, b as int))),
                decreases dy - b,
            {
                let mut cands: Vec<(usize, usize)> = Vec::new();
                if a + 1 < dx {
                    cands.push((a + 1, b));
                }
                if b + 1 < dy {
                    cands.push((a, b + 1));
                }
                assert(forall|m: int|
                    0 <= m < cands@.len() ==> {
                        &&& self.in_bounds((#[trigger] cands@[m]).0 as int, cands@[m].1 as int)
                        &&& forward_of(a, b, cands@[m].0, cands@[m].1)
                    });
                if cands.len() > 0 {
                    let k = random_below(cands.len());
                    let (cx, cy) = cands[k];
                    proof {
                        assert(!self.linked(a, b, cx, cy)) by {
                            if self.link_seq().contains((a, b, cx, cy)) {
                                let e = (a, b, cx, cy);
                                assert(self.link_seq().contains(e));
                                assert((forward_of(e.0, e.1, e.2, e.3) && swept_before(
                                    e.0,
                                    e.1,
                                    a as int,
                                    b as int,
                                )) || (forward_of(e.2, e.3, e.0, e.1) && swept_before(
                                    e.2,
                                    e.3,
                                    a as int,
                                    b as int,
                                )));
                            }
                        }
                    }
                    let ghost prev = *self;
                    self.link_indices(a, b, cx, cy);
                    proof {
                        assert(self.link_seq().len() == prev.link_seq().len() + 2);
                        assert forall|e: (usize, usize, usize, usize)| #[trigger] self.link_seq()
                            .contains(e) implies ((forward_of(e.0, e.1, e.2, e.3) && swept_before(
                            e.0,
                            e.1,
                            a as int,
                            b as int + 1,
                        )) || (forward_of(e.2, e.3, e.0, e.1) && swept_before(
                            e.2,
                            e.3,
                            a as int,
                            b as int + 1,
                        ))) by {
                            assert(self.linked(e.0, e.1, e.2, e.3));
                            if prev.linked(e.0, e.1, e.2, e.3) {
                                assert(prev.link_seq().contains(e));
                            } else {
                                assert(e == (a, b, cx, cy) || e == (cx, cy, a, b));
                            }
                        }
                        assert forall|i: usize, j: usize|
                            self.in_bounds(i as int, j as int) && swept_before(
                                i,
                                j,
                                a as int,
                                b as int + 1,
                            ) && !(i == dx - 1 && j == dy - 1) implies #[trigger] has_forward_link(
                            *self,
                            i,
                            j,
                        ) by {
                            if swept_before(i, j, a as int, b as int) {
                                assert(prev.in_bounds(i as int, j as int));
                                assert(has_forward_link(prev, i, j));
                                if i + 1 < prev.dim_x() && prev.linked(i, j, (i + 1) as usize, j) {
                                    assert(self.linked(i, j, (i + 1) as usize, j));
                                } else {
                                    assert(prev.linked(i, j, i, (j + 1) as usize));
                                    assert(self.linked(i, j, i, (j + 1) as usize));
                                }
                            } else {
                                assert(i == a && j == b);
                                assert(self.linked(a, b, cx, cy));
                                assert((cx == a + 1 && cy == b) || (cx == a && cy == b + 1));
                            }
                        }
                    }
                } else {
                    proof {
                        assert(a == dx - 1 && b == dy - 1);
                        assert forall|i: usize, j: usize|
                            self.in_bounds(i as int, j as int) && swept_before(
                                i,
                                j,
                                a as int,
                                b as int + 1,
                            ) && !(i == dx - 1 && j == dy - 1) implies #[trigger] has_forward_link(
                            *self,
                            i,
                            j,
                        ) by {
                            assert(swept_before(i, j, a as int, b as int));
                        }
                    }
                }
                b += 1;
            }
            proof {
                assert(2 * (a * dy + dy) == 2 * ((a + 1) * dy)) by (nonlinear_arith);
            }
            a += 1;
        }
        proof {
            assert forall|i: usize, j: usize|
                self.in_bounds(i as int, j as int) && !(i == dx - 1 && j == dy - 1)
                implies #[trigger] has_forward_link(*self, i, j) by {
                assert(swept_before(i, j, dx as int, 0));
            }
            if dx >= 1 && dy >= 1 {
                assert(self.link_seq().len() == 2 * (dx * dy) - 2);
                assert(2 * ((dx as int) * (dy as int)) - 2 == 2 * ((dx as int) * (dy as int) - 1))
                    by (nonlinear_arith);
            } else {
                assert((dx as int) * (dy as int) == 0) by (nonlinear_arith)
                    requires dx == 0 || dy == 0,
                ;
                assert(self.link_seq().len() == 0);
            }
            assert(self.link_seq().len() == (if dx >= 1 && dy >= 1 {
                2 * ((dx as int) * (dy as int) - 1)
            } else {
                0int
            }));
        }
    }
}


/// Link-storage well-formedness carries over to any grid with the same
/// links and dimensions.
proof fn lemma_links_wf_transfer<T, U>(g1: Grid<T>, g2: Grid<U>)
    requires
        g1.links_wf(),
        g2.link_seq() == g1.link_seq(),
        g2.dim_x() == g1.dim_x(),
        g2.dim_y() == g1.dim_y(),
    ensures
        g2.links_wf(),
{
    assert forall|e: (usize, usize, usize, usize)| #[trigger] g2.link_seq().contains(e) implies {
        &&& g2.link_seq().contains((e.2, e.3, e.0, e.1))
        &&& !(e.0 == e.2 && e.1 == e.3)
        &&& g2.in_bounds(e.0 as int, e.1 as int)
        &&& g2.in_bounds(e.2 as int, e.3 as int)
    } by {
        assert(g1.link_seq().contains(e));
        assert(g1.link_seq().contains((e.2, e.3, e.0, e.1)));
    }
}

/// Cell-storage well-formedness carries over to any grid with the same
/// cells and dimensions.
proof fn lemma_cells_wf_transfer<T: Cell>(g1: Grid<T>, g2: Grid<T>)
    requires
        g1.cells_wf(),
        g2.cell_seq() == g1.cell_seq(),
        g2.dim_x() == g1.dim_x(),
        g2.dim_y() == g1.dim_y(),
    ensures
        g2.cells_wf(),
{
    assert forall|a: int| 0 <= a < g2.dim_x() implies (#[trigger] g2.cell_seq()[a])@.len()
        == g2.dim_y() by {
        assert(g1.cell_seq()[a]@.len() == g1.dim_y());
    }
    assert forall|a: int, b: int| g2.in_bounds(a, b) implies ((#[trigger] g2.cell_at(a, b)).sx()
        == a && g2.cell_at(a, b).sy() == b) by {
        assert(g1.cell_at(a, b).sx() == a);
        assert(g1.cell_at(a, b).sy() == b);
    }
}

/// A grid stays well-formed when its link storage is replaced by that of
/// another well-formed grid of the same dimensions.
pub proof fn lemma_wf_after_links_copy<T: Cell, U: Cell>(
    before: Grid<T>,
    src: Grid<U>,
    after: Grid<T>,
)
    requires
        before.wf(),
        src.wf(),
        src.dim_x() == before.dim_x(),
        src.dim_y() == before.dim_y(),
        after.dim_x() == before.dim_x(),
        after.dim_y() == before.dim_y(),
        after.cell_seq() == before.cell_seq(),
        after.link_seq() == src.link_seq(),
    ensures
        after.wf(),
{
    lemma_cells_wf_transfer(before, after);
    lemma_links_wf_transfer(src, after);
}

/// The symmetry and irreflexivity of the link relation of any well-formed
/// grid: is_linked(a, b) equals is_linked(b, a), and no cell is linked to
/// itself.
pub proof fn lemma_link_symmetry<T: Cell>(g: Grid<T>, x1: usize, y1: usize, x2: usize, y2: usize)
    requires
        g.wf(),
    ensures
        g.linked(x1, y1, x2, y2) == g.linked(x2, y2, x1, y1),
        !g.linked(x1, y1, x1, y1),
{
    if g.linked(x1, y1, x2, y2) {
        let e = (x1, y1, x2, y2);
        assert(g.link_seq().contains((e.2, e.3, e.0, e.1)));
    }
    if g.linked(x2, y2, x1, y1) {
        let e = (x2, y2, x1, y1);
        assert(g.link_seq().contains((e.2, e.3, e.0, e.1)));
    }
    if g.linked(x1, y1, x1, y1) {
        let e = (x1, y1, x1, y1);
        assert(g.link_seq().contains(e));
    }
}

} // verus!
