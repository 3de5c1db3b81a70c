use maze::cell::{BaseCell, Cell};
use maze::dijkstra::calculate;
use maze::error::MazeError;
use maze::grid::Grid;
use maze::xy::Xy;

/// Builds the 3x3 snake maze: a single corridor visiting every cell.
fn snake_grid() -> Grid<BaseCell> {
    let mut g: Grid<BaseCell> = Grid::new(3, 3);
    g.link_indices(0, 0, 1, 0);
    g.link_indices(1, 0, 2, 0);
    g.link_indices(2, 0, 2, 1);
    g.link_indices(2, 1, 1, 1);
    g.link_indices(1, 1, 0, 1);
    g.link_indices(0, 1, 0, 2);
    g.link_indices(0, 2, 1, 2);
    g.link_indices(1, 2, 2, 2);
    g
}

#[test]
fn generation_spans_every_cell() {
    let mut g: Grid<BaseCell> = Grid::new(4, 3);
    g.generate();
    let d = calculate(&g, Xy::new(0, 0), Xy::new(3, 2)).unwrap();
    for x in 0..4 {
        for y in 0..3 {
            assert!(d.cell(x, y).distance().is_some());
        }
    }
}

#[test]
fn generation_tree_edge_count() {
    let mut g: Grid<BaseCell> = Grid::new(5, 4);
    g.generate();
    // Every undirected opening is stored once per direction.
    assert_eq!(g.link_count(), 2 * (5 * 4 - 1));
}

#[test]
fn generation_degenerate_grids() {
    let mut g1: Grid<BaseCell> = Grid::new(1, 1);
    g1.generate();
    assert_eq!(g1.link_count(), 0);
    let d = calculate(&g1, Xy::new(0, 0), Xy::new(0, 0)).unwrap();
    assert_eq!(d.cell(0, 0).distance(), Some(0));
    assert!(d.cell(0, 0).is_path());

    let mut g2: Grid<BaseCell> = Grid::new(1, 5);
    g2.generate();
    assert_eq!(g2.link_count(), 2 * 4);
}

#[test]
fn link_symmetry_and_irreflexivity() {
    let mut g: Grid<BaseCell> = Grid::new(3, 3);
    g.link_indices(0, 0, 1, 0);
    assert!(g.is_linked_indices(0, 0, 1, 0));
    assert!(g.is_linked_indices(1, 0, 0, 0));
    assert!(!g.is_linked_indices(0, 0, 0, 0));
    // Linking a cell with itself is a no-op.
    g.link_indices(2, 2, 2, 2);
    assert!(!g.is_linked_indices(2, 2, 2, 2));
}

#[test]
fn linking_is_idempotent() {
    let mut g: Grid<BaseCell> = Grid::new(3, 3);
    g.link_indices(0, 0, 0, 1);
    let n = g.link_count();
    g.link_indices(0, 0, 0, 1);
    assert_eq!(g.link_count(), n);
    g.link_indices(0, 1, 0, 0);
    assert_eq!(g.link_count(), n);
}

#[test]
fn unlink_removes_both_directions() {
    let mut g: Grid<BaseCell> = Grid::new(2, 2);
    let a = BaseCell::new(0, 0);
    let b = BaseCell::new(1, 0);
    g.link(&a, &b);
    assert!(g.is_linked(&a, &b));
    g.unlink(&a, &b);
    assert!(!g.is_linked(&a, &b));
    assert!(!g.is_linked(&b, &a));
    assert_eq!(g.link_count(), 0);
}

#[test]
fn bfs_snake_distances() {
    let g = snake_grid();
    let d = calculate(&g, Xy::new(0, 0), Xy::new(2, 2)).unwrap();
    let order = [
        (0, 0, 0),
        (1, 0, 1),
        (2, 0, 2),
        (2, 1, 3),
        (1, 1, 4),
        (0, 1, 5),
        (0, 2, 6),
        (1, 2, 7),
        (2, 2, 8),
    ];
    for (x, y, dist) in order {
        assert_eq!(d.cell(x, y).distance(), Some(dist));
    }
}

#[test]
fn path_is_the_whole_snake() {
    let g = snake_grid();
    let d = calculate(&g, Xy::new(0, 0), Xy::new(2, 2)).unwrap();
    // The shortest path from end to begin has length distance(end) + 1 and,
    // in this corridor maze, covers every cell.
    let mut marked = 0;
    for x in 0..3 {
        for y in 0..3 {
            if d.cell(x, y).is_path() {
                marked += 1;
            }
        }
    }
    assert_eq!(marked, 8 + 1);
    assert!(d.cell(0, 0).is_path());
    assert!(d.cell(2, 2).is_path());
}

#[test]
fn unreachable_cells_keep_no_distance() {
    // Two isolated corridors: the target's component never sees the source.
    let mut g: Grid<BaseCell> = Grid::new(2, 2);
    g.link_indices(0, 0, 0, 1);
    g.link_indices(1, 0, 1, 1);
    let d = calculate(&g, Xy::new(0, 0), Xy::new(1, 1)).unwrap();
    assert_eq!(d.cell(1, 1).distance(), None);
    assert_eq!(d.cell(1, 0).distance(), None);
    assert_eq!(d.cell(0, 1).distance(), Some(1));
    // Only the unreachable target itself is flagged.
    assert!(d.cell(1, 1).is_path());
    assert!(!d.cell(0, 0).is_path());
    assert!(!d.cell(1, 0).is_path());
    assert!(!d.cell(0, 1).is_path());
}

#[test]
fn out_of_bounds_is_rejected() {
    let g: Grid<BaseCell> = Grid::new(2, 2);
    assert!(matches!(
        calculate(&g, Xy::new(2, 0), Xy::new(0, 0)),
        Err(MazeError::OutOfBounds)
    ));
    assert!(matches!(
        calculate(&g, Xy::new(0, 0), Xy::new(0, 5)),
        Err(MazeError::OutOfBounds)
    ));
    assert_eq!(
        MazeError::OutOfBounds.describe(),
        "coordinate out of grid bounds"
    );
}

#[test]
fn cell_display_tokens() {
    let g = snake_grid();
    let d = calculate(&g, Xy::new(0, 0), Xy::new(2, 2)).unwrap();
    // A reached cell off the path, and an unreached cell, render blank.
    let plain = BaseCell::new(0, 0);
    assert_eq!(plain.to_string(), "   ");
    // A path cell renders its distance glyph, highlighted by ansi_term.
    let start = d.cell(0, 0);
    assert!(start.is_path());
    let tok = start.to_string();
    assert_ne!(tok, " 0 ");
    let expected = ansi_term::Style::new()
        .on(ansi_term::Colour::Green)
        .fg(ansi_term::Colour::Black)
        .paint(" 0 ")
        .to_string();
    assert_eq!(tok, expected);
}

#[test]
fn coordinate_accessors() {
    let p = Xy::new(3, 7);
    assert_eq!(p.x(), 3);
    assert_eq!(p.y(), 7);
    assert_eq!(p, Xy::new(3, 7));
    let c = BaseCell::new(2, 5);
    assert_eq!(c.x(), 2);
    assert_eq!(c.y(), 5);
    let g: Grid<BaseCell> = Grid::new(4, 2);
    assert_eq!(g.x(), 4);
    assert_eq!(g.y(), 2);
    assert_eq!(g.cell(3, 1).x(), 3);
    assert_eq!(g.cell(3, 1).y(), 1);
}

#[test]
fn neighbors_follow_links() {
    let g = snake_grid();
    let ns = g.neighbors_linked_indices(1, 1);
    assert_eq!(ns.len(), 2);
    assert!(ns.contains(&(2, 1)));
    assert!(ns.contains(&(0, 1)));
    let none = g.neighbors_linked_indices(0, 0);
    assert_eq!(none, vec![(1, 0)]);
}

#[test]
fn grid_to_string_draws_walls_and_passages() {
    let mut g: Grid<BaseCell> = Grid::new(2, 2);
    g.link_indices(0, 0, 1, 0);
    let expected = "+---+---+\n|       |\n+---+---+\n|   |   |\n+---+---+\n";
    assert_eq!(g.to_string(), expected);
    let single: Grid<BaseCell> = Grid::new(1, 1);
    assert_eq!(single.to_string(), "+---+\n|   |\n+---+\n");
}

#[test]
fn ascii_format_uses_cell_tokens() {
    let single: Grid<BaseCell> = Grid::new(1, 1);
    assert_eq!(maze::ascii::format(&single), "+---+\n|   |\n+---+\n");
    let mut g: Grid<BaseCell> = Grid::new(2, 2);
    g.link_indices(0, 0, 1, 0);
    // The edge-to-edge link also opens the wrapping outer border on row 0.
    let expected = "+---+---+\n         \n+---+---+\n|   |   |\n+---+---+\n";
    assert_eq!(maze::ascii::format(&g), expected);
}

#[test]
fn from_str() {
    let p = Xy::from_str("(1,2)");
    assert_eq!(p.unwrap(), Xy::new(1, 2))
}

#[test]
fn coordinate_text_round_trip() {
    let p = Xy::new(3, 7);
    let text = p.to_text();
    assert_eq!(text, "(3,7)");
    assert_eq!(Xy::from_str(&text).unwrap(), p);
    let q = Xy::new(0, 1234567890);
    assert_eq!(q.to_text(), "(0,1234567890)");
    assert_eq!(Xy::from_str(&q.to_text()).unwrap(), q);
}

#[test]
fn malformed_coordinate_text_names_the_component() {
    assert!(matches!(Xy::from_str(""), Err(MazeError::InvalidCoordinateX)));
    assert!(matches!(
        Xy::from_str("3,7)"),
        Err(MazeError::InvalidCoordinateX)
    ));
    assert!(matches!(
        Xy::from_str("(,7)"),
        Err(MazeError::InvalidCoordinateX)
    ));
    assert!(matches!(
        Xy::from_str("(03,7)"),
        Err(MazeError::InvalidCoordinateX)
    ));
    assert!(matches!(
        Xy::from_str("(3:7)"),
        Err(MazeError::InvalidCoordinateX)
    ));
    assert!(matches!(
        Xy::from_str("(3,)"),
        Err(MazeError::InvalidCoordinateY)
    ));
    assert!(matches!(
        Xy::from_str("(3,07)"),
        Err(MazeError::InvalidCoordinateY)
    ));
    assert!(matches!(
        Xy::from_str("(3,7"),
        Err(MazeError::InvalidCoordinateY)
    ));
    assert!(matches!(
        Xy::from_str("(3,7) "),
        Err(MazeError::InvalidCoordinateY)
    ));
    assert_eq!(
        MazeError::InvalidCoordinateX.describe(),
        "invalid x component of coordinate"
    );
    assert_eq!(
        MazeError::InvalidCoordinateY.describe(),
        "invalid y component of coordinate"
    );
}
