use vstd::prelude::*;

verus! {

/// A positional unit of the grid. Implementors carry their (x, y) position,
/// fixed at construction, and render themselves as a fixed-width text token.
pub trait Cell: Sized + Copy {
    /// The x position the cell was constructed with.
    spec fn sx(&self) -> usize;

    /// The y position the cell was constructed with.
    spec fn sy(&self) -> usize;

    /// The display token of the cell, as a sequence of characters.
    spec fn token(&self) -> Seq<char>;

    /// Whether the cell carries no computed annotations yet.
    spec fn fresh(&self) -> bool;

    fn new(x: usize, y: usize) -> (c: Self)
        ensures
            c.sx() == x,
            c.sy() == y,
            c.fresh(),
    ;

    fn to_string(&self) -> (r: String)
        ensures
            r@ == self.token(),
    ;

    fn x(&self) -> (r: usize)
        ensures
            r == self.sx(),
    ;

    fn y(&self) -> (r: usize)
        ensures
            r == self.sy(),
    ;
}

/// A plain cell: identity only. Its display token is the blank three-column
/// field that the text renderers leave between walls.
#[derive(Debug, Clone, Copy, PartialEq, Eq, Structural)]
pub struct BaseCell {
    x: usize,
    y: usize,
}

impl Cell for BaseCell {
    closed spec fn sx(&self) -> usize {
        self.x
    }

    closed spec fn sy(&self) -> usize {
        self.y
    }

    open spec fn token(&self) -> Seq<char> {
        "   "@
    }

    open spec fn fresh(&self) -> bool {
        true
    }

    fn new(x: usize, y: usize) -> (c: BaseCell) {
        BaseCell { x, y }
    }

    fn to_string(&self) -> (r: String) {
        "   ".to_owned()
    }

    fn x(&self) -> (r: usize) {
        self.x
    }

    fn y(&self) -> (r: usize) {
        self.y
    }
}

} // verus!
