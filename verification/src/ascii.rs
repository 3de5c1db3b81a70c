use vstd::prelude::*;

use vstd::string::StringExecFns;

use crate::cell::Cell;
use crate::grid::Grid;

verus! {

/// The top border of the rendering: a wall segment per column, open where a
/// link wraps a column around to its last row.
pub open spec fn fmt_border<T: Cell>(g: Grid<T>, n: int) -> Seq<char>
    decreases n,
{
    if n <= 0 {
        Seq::<char>::empty()
    } else {
        fmt_border(g, n - 1) + (if g.linked(
            ((n - 1) as usize),
            0,
            ((n - 1) as usize),
            ((g.dim_y() - 1) as usize),
        ) {
            "   +"@
        } else {
            "---+"@
        })
    }
}

/// The cell row at yy over the first n columns: each cell's display token,
/// then a wall unless a link opens the way to the right neighbor (wrapping
/// past the last column back to the first).
pub open spec fn fmt_row_cells<T: Cell>(g: Grid<T>, yy: usize, n: int) -> Seq<char>
    decreases n,
{
    if n <= 0 {
        Seq::<char>::empty()
    } else {
        fmt_row_cells(g, yy, n - 1) + g.cell_at(n - 1, yy as int).token() + (if g.linked(
            ((n - 1) as usize),
            yy,
            ((n % (g.dim_x() as int)) as usize),
            yy,
        ) {
            " "@
        } else {
            "|"@
        })
    }
}

/// The wall row under yy over the first n columns: a wall segment unless a
/// link opens the way downward (wrapping past the last row back to the
/// first).
pub open spec fn fmt_row_bottom<T: Cell>(g: Grid<T>, yy: usize, n: int) -> Seq<char>
    decreases n,
{
    if n <= 0 {
        Seq::<char>::empty()
    } else {
        fmt_row_bottom(g, yy, n - 1) + (if g.linked(
            ((n - 1) as usize),
            yy,
            ((n - 1) as usize),
            (((yy + 1) % (g.dim_y() as int)) as usize),
        ) {
            "   +"@
        } else {
            "---+"@
        })
    }
}

/// The first m rows of the rendering: a left wall (open where a link wraps a
/// row around to its last column), the cell tokens, and the wall row below.
pub open spec fn fmt_rows<T: Cell>(g: Grid<T>, m: int) -> Seq<char>
    decreases m,
{
    if m <= 0 {
        Seq::<char>::empty()
    } else {
        fmt_rows(g, m - 1) + (if g.linked(
            0,
            ((m - 1) as usize),
            ((g.dim_x() - 1) as usize),
            ((m - 1) as usize),
        ) {
            " "@
        } else {
            "|"@
        }) + fmt_row_cells(g, ((m - 1) as usize), g.dim_x() as int) + "\n"@ + "+"@
            + fmt_row_bottom(g, ((m - 1) as usize), g.dim_x() as int) + "\n"@
    }
}

/// The whole rendering.
pub open spec fn fmt_spec<T: Cell>(g: Grid<T>) -> Seq<char> {
    "+"@ + fmt_border(g, g.dim_x() as int) + "\n"@ + fmt_rows(g, g.dim_y() as int)
}

/// Renders a grid as ASCII art using each cell's own display token, treating
/// the grid as wrapping: a link from an edge cell to the opposite edge shows
/// as an opening in the outer border.
pub fn format<T: Cell>(grid: &Grid<T>) -> (r: String)
    requires
        grid.wf(),
        grid.dim_x() >= 1,
        grid.dim_y() >= 1,
    ensures
        r@ == fmt_spec(*grid),
{
    let dx = grid.x();
    let dy = grid.y();
    let mut res = String::new();
    res.append("+");
    let mut cx: usize = 0;
    while cx < dx
        invariant
            grid.wf(),
            dx == grid.dim_x(),
            dy == grid.dim_y(),
            dy >= 1,
            cx <= dx,
            res@ == "+"@ + fmt_border(*grid, cx as int),
        decreases dx - cx,
    {
        if grid.is_linked_indices(cx, 0, cx, dy - 1) {
            res.append("   +");
        } else {
            res.append("---+");
        }
        proof {
            assert(res@ =~= "+"@ + fmt_border(*grid, cx as int + 1));
        }
        cx += 1;
    }
    res.append("\n");
    proof {
        assert(res@ =~= "+"@ + fmt_border(*grid, dx as int) + "\n"@ + fmt_rows(*grid, 0));
    }
    let mut yy: usize = 0;
    while yy < dy
        invariant
            grid.wf(),
            dx == grid.dim_x(),
            dy == grid.dim_y(),
            dx >= 1,
            dy >= 1,
            yy <= dy,
            res@ == "+"@ + fmt_border(*grid, dx as int) + "\n"@ + fmt_rows(*grid, yy as int),
        decreases dy - yy,
    {
        let mut top = String::new();
        if grid.is_linked_indices(0, yy, dx - 1, yy) {
            top.append(" ");
        } else {
            top.append("|");
        }
        let ghost left = top@;
        let mut bottom = String::new();
        bottom.append("+");
        let mut cx: usize = 0;
        while cx < dx
            invariant
                grid.wf(),
                dx == grid.dim_x(),
                dy == grid.dim_y(),
                dx >= 1,
                dy >= 1,
                yy < dy,
                cx <= dx,
                top@ == left + fmt_row_cells(*grid, yy, cx as int),
                bottom@ == "+"@ + fmt_row_bottom(*grid, yy, cx as int),
            decreases dx - cx,
        {
            let tok = grid.cell(cx, yy).to_string();
            top.append(tok.as_str());
            let rx = (cx + 1) % dx;
            let ry = (yy + 1) % dy;
            if grid.is_linked_indices(cx, yy, rx, yy) {
                top.append(" ");
            } else {
                top.append("|");
            }
            if grid.is_linked_indices(cx, yy, cx, ry) {
                bottom.append("   +");
            } else {
                bottom.append("---+");
            }
            proof {
                assert((((cx as int + 1) - 1) as usize) == cx);
                assert((((cx as int + 1) % (dx as int)) as usize) == rx);
                assert((((yy + 1) % (dy as int)) as usize) == ry);
                assert(top@ =~= left + fmt_row_cells(*grid, yy, cx as int + 1));
                assert(bottom@ =~= "+"@ + fmt_row_bottom(*grid, yy, cx as int + 1));
            }
            cx += 1;
        }
        res.append(top.as_str());
        res.append("\n");
        res.append(bottom.as_str());
        res.append("\n");
        proof {
            assert(res@ =~= "+"@ + fmt_border(*grid, dx as int) + "\n"@ + fmt_rows(
                *grid,
                yy as int + 1,
            ));
        }
        yy += 1;
    }
    res
}

} // verus!
