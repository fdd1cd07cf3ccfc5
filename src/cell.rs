use vstd::prelude::*;

verus! {

/// What a cell holds; one variant set serves every puzzle kind.
#[derive(Clone, Copy, PartialEq, Eq, Structural, Debug)]
pub enum CellContent {
    /// Nothing: the default content of a fresh cell.
    Empty,
    /// A hazard: revealing it ends the game.
    Mine,
    /// A number: for mine puzzles, the count of adjacent mines.
    Number(u8),
    Tent,
    Tree,
    Water,
}

/// A cell of a grid: its content and whether the player sees it.
#[derive(Clone, Copy, PartialEq, Eq, Structural, Debug)]
pub struct Cell {
    pub content: CellContent,
    pub revealed: bool,
}

/// Whether revealing this content ends the game.
pub open spec fn is_hazard(c: CellContent) -> bool {
    c is Mine
}

/// The adjacency count that a content shows; zero for all but numbers.
pub open spec fn adjacency_of(c: CellContent) -> nat {
    match c {
        CellContent::Number(n) => n as nat,
        _ => 0,
    }
}

impl Cell {
    /// A hidden cell with the given content.
    pub fn new(content: CellContent) -> (r: Self)
        ensures
            r.content == content,
            !r.revealed,
    {
        Cell { content, revealed: false }
    }

    /// A hidden empty cell.
    pub fn blank() -> (r: Self)
        ensures
            r.content == CellContent::Empty,
            !r.revealed,
    {
        Cell { content: CellContent::Empty, revealed: false }
    }

    pub fn get_variant(&self) -> (r: CellContent)
        ensures
            r == self.content,
    {
        self.content
    }

    pub fn is_revealed(&self) -> (r: bool)
        ensures
            r == self.revealed,
    {
        self.revealed
    }

    pub fn uncover(&mut self)
        ensures
            final(self).revealed,
            final(self).content == old(self).content,
    {
        self.revealed = true;
    }

    pub fn conceal(&mut self)
        ensures
            !final(self).revealed,
            final(self).content == old(self).content,
    {
        self.revealed = false;
    }

    /// Whether the content is a hazard.
    pub fn is_mine(&self) -> (r: bool)
        ensures
            r == is_hazard(self.content),
    {
        match self.content {
            CellContent::Mine => true,
            _ => false,
        }
    }

    /// The adjacency count shown by the cell.
    pub fn adjacency(&self) -> (r: u8)
        ensures
            r as nat == adjacency_of(self.content),
    {
        match self.content {
            CellContent::Number(n) => n,
            _ => 0,
        }
    }
}

} // verus!
