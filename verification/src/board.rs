//! The game board: a dense grid of squares, each owned by a player or free.
//!
//! A board is usually created and mutated through a `Game`, but it is public
//! so applications can inspect and display it.

use vstd::prelude::*;
use vstd::arithmetic::div_mod::{
    lemma_fundamental_div_mod_converse_div, lemma_fundamental_div_mod_converse_mod,
};
use vstd::string::StringExecFns;

verus! {

/// The size of a board in rows and columns.
#[derive(Debug, Copy, Clone, PartialEq, Eq, Hash, Structural)]
pub struct Size {
    /// The number of rows.
    pub rows: i32,
    /// The number of columns.
    pub columns: i32,
}

impl From<(i32, i32)> for Size {
    /// Builds a size from a `(rows, columns)` tuple.
    fn from(value: (i32, i32)) -> (r: Size)
        ensures
            r == (Size { rows: value.0, columns: value.1 }),
    {
        Size { rows: value.0, columns: value.1 }
    }
}

impl vstd::std_specs::convert::FromSpecImpl<(i32, i32)> for Size {
    open spec fn obeys_from_spec() -> bool {
        true
    }

    open spec fn from_spec(value: (i32, i32)) -> Size {
        Size { rows: value.0, columns: value.1 }
    }
}

/// A board position given by zero-based row and column.
///
/// Negative coordinates can be represented; they are never contained in a
/// board, which is convenient for code that walks lines off the edge.
#[derive(Debug, Copy, Clone, PartialEq, Eq, Hash, Structural)]
pub struct Position {
    /// The row of the position.
    pub row: i32,
    /// The column of the position.
    pub column: i32,
}

impl From<(i32, i32)> for Position {
    /// Builds a position from a `(row, column)` tuple.
    fn from(value: (i32, i32)) -> (r: Position)
        ensures
            r == (Position { row: value.0, column: value.1 }),
    {
        Position { row: value.0, column: value.1 }
    }
}

impl vstd::std_specs::convert::FromSpecImpl<(i32, i32)> for Position {
    open spec fn obeys_from_spec() -> bool {
        true
    }

    open spec fn from_spec(value: (i32, i32)) -> Position {
        Position { row: value.0, column: value.1 }
    }
}

/// The owner of a square: one of the players, or nobody.
#[derive(Debug, Copy, Clone, PartialEq, Eq, Hash, Structural)]
pub enum Owner {
    /// Player X owns the square.
    PlayerX,
    /// Player O owns the square.
    PlayerO,
    /// The square is free.
    Nobody,
}

impl Default for Owner {
    /// The default owner is nobody.
    fn default() -> (r: Self)
        ensures
            r == Owner::Nobody,
    {
        Owner::Nobody
    }
}

/// The Tic Tac Toe board: every position inside its size maps to one owner.
#[derive(Debug)]
pub struct Board {
    squares: Vec<Owner>,
    size: Size,
}

impl Board {
    /// The size of the board, as seen by specifications.
    pub closed spec fn spec_size(&self) -> Size {
        self.size
    }

    /// The squares of the board in row-major order, as seen by specifications.
    pub closed spec fn grid(&self) -> Seq<Owner> {
        self.squares@
    }

    /// A board is well formed when it has at least one row and one column and
    /// stores exactly one owner for every position.
    pub open spec fn wf(&self) -> bool {
        &&& 1 <= self.spec_size().rows
        &&& 1 <= self.spec_size().columns
        &&& self.grid().len() == self.spec_size().rows * self.spec_size().columns
    }

    /// Whether a position lies inside the board.
    pub open spec fn spec_contains(&self, position: Position) -> bool {
        &&& 0 <= position.row < self.spec_size().rows
        &&& 0 <= position.column < self.spec_size().columns
    }

    /// The row-major index of a position inside the grid.
    pub open spec fn spec_index_of(&self, position: Position) -> int {
        position.row * self.spec_size().columns + position.column
    }

    /// The owner at a position, or nothing when the position is out of bounds.
    pub open spec fn spec_get(&self, position: Position) -> Option<Owner> {
        if self.spec_contains(position) {
            Some(self.grid()[self.spec_index_of(position)])
        } else {
            None
        }
    }

    /// A contained position indexes inside the grid, and distinct contained
    /// positions index distinct squares.
    pub proof fn lemma_index_of(&self, position: Position)
        requires
            self.wf(),
            self.spec_contains(position),
        ensures
            0 <= self.spec_index_of(position) < self.grid().len(),
            forall|other: Position|
                self.spec_contains(other) && other != position ==> self.spec_index_of(other)
                    != self.spec_index_of(position),
    {
        let rows = self.spec_size().rows as int;
        let columns = self.spec_size().columns as int;
        assert(0 <= position.row * columns + position.column < rows * columns) by (nonlinear_arith)
            requires
                0 <= position.row < rows,
                0 <= position.column < columns,
        ;
        assert forall|other: Position|
            self.spec_contains(other) && other != position implies self.spec_index_of(other)
            != self.spec_index_of(position) by {
            assert(other.row * columns + other.column != position.row * columns + position.column)
                by (nonlinear_arith)
                requires
                    0 <= position.row < rows,
                    0 <= position.column < columns,
                    0 <= other.row < rows,
                    0 <= other.column < columns,
                    other.row != position.row || other.column != position.column,
            ;
        }
    }

    /// Constructs a board of the given size with every square free.
    ///
    /// The smallest board is 1x1; smaller sizes are ruled out by the
    /// precondition, and the number of squares must be storable.
    pub fn new(size: Size) -> (r: Board)
        requires
            1 <= size.rows,
            1 <= size.columns,
            size.rows * size.columns <= usize::MAX,
        ensures
            r.wf(),
            r.spec_size() == size,
            forall|i: int| 0 <= i < r.grid().len() ==> r.grid()[i] == Owner::Nobody,
            forall|p: Position| r.spec_contains(p) ==> r.spec_get(p) == Some(Owner::Nobody),
            forall|p: Position| !r.spec_contains(p) ==> r.spec_get(p) == None::<Owner>,
    {
        let total: usize = (size.rows as usize) * (size.columns as usize);
        let mut squares: Vec<Owner> = Vec::new();
        let mut i: usize = 0;
        while i < total
            invariant
                i <= total,
                squares@.len() == i,
                forall|j: int| 0 <= j < i ==> squares@[j] == Owner::Nobody,
            decreases total - i,
        {
            squares.push(Owner::Nobody);
            i = i + 1;
        }
        let r = Board { squares, size };
        proof {
            assert forall|p: Position| r.spec_contains(p) implies r.spec_get(p) == Some(
                Owner::Nobody,
            ) by {
                r.lemma_index_of(p);
            }
        }
        r
    }

    /// Gets the size of the board.
    pub fn size(&self) -> (r: Size)
        ensures
            r == self.spec_size(),
    {
        self.size
    }

    /// Returns `true` if the board contains the given position.
    ///
    /// Positions are zero based; negative coordinates are never contained.
    pub fn contains(&self, position: Position) -> (r: bool)
        ensures
            r == self.spec_contains(position),
    {
        let size = self.size();
        position.row >= 0 && position.row < size.rows && position.column >= 0 && position.column
            < size.columns
    }

    /// Returns a copy of the owner at the indicated position, or nothing if
    /// the board does not contain the position.
    pub fn get(&self, position: Position) -> (r: Option<Owner>)
        requires
            self.wf(),
        ensures
            r == self.spec_get(position),
    {
        if self.contains(position) {
            let index = self.get_squares_index(position);
            Some(self.squares[index])
        } else {
            None
        }
    }

    /// Changes the owner at the indicated position, returning the previous
    /// owner, or nothing (and leaving the board unchanged) if the board does
    /// not contain the position.
    pub fn get_mut(&mut self, position: Position, owner: Owner) -> (r: Option<Owner>)
        requires
            old(self).wf(),
        ensures
            final(self).wf(),
            final(self).spec_size() == old(self).spec_size(),
            old(self).spec_contains(position) ==> {
                &&& r == old(self).spec_get(position)
                &&& final(self).grid() == old(self).grid().update(
                    old(self).spec_index_of(position),
                    owner,
                )
            },
            !old(self).spec_contains(position) ==> r is None && *final(self) == *old(self),
    {
        if self.contains(position) {
            let index = self.get_squares_index(position);
            let previous = self.squares[index];
            self.squares.set(index, owner);
            Some(previous)
        } else {
            None
        }
    }

    /// The row-major index of a contained position.
    fn get_squares_index(&self, position: Position) -> (r: usize)
        requires
            self.wf(),
            self.spec_contains(position),
        ensures
            r == self.spec_index_of(position),
            r < self.grid().len(),
    {
        let len = self.squares.len();
        proof {
            self.lemma_index_of(position);
        }
        (position.row as usize) * (self.size.columns as usize) + (position.column as usize)
    }

    /// The `(position, owner)` pairs of the whole board in row-major order.
    pub open spec fn spec_entries(&self) -> Seq<(Position, Owner)> {
        Seq::new(
            self.grid().len(),
            |i: int|
                (
                    Position {
                        row: (i / self.spec_size().columns as int) as i32,
                        column: (i % self.spec_size().columns as int) as i32,
                    },
                    self.grid()[i],
                ),
        )
    }

    /// Gets an iterator over all the positions of the board together with
    /// their owners, in row-major order.
    ///
    /// Each call yields a fresh iterator; the board itself is not consumed.
    pub fn iter(&self) -> (r: Iter)
        requires
            self.wf(),
        ensures
            r.wf(),
            r.remaining() == self.spec_entries(),
    {
        let rows = self.size.rows;
        let columns = self.size.columns;
        let mut items: Vec<(Position, Owner)> = Vec::new();
        let mut row: i32 = 0;
        while row < rows
            invariant
                self.wf(),
                rows == self.spec_size().rows,
                columns == self.spec_size().columns,
                0 <= row <= rows,
                items@.len() == row * columns,
                forall|k: int| 0 <= k < items@.len() ==> items@[k] == self.spec_entries()[k],
            decreases rows - row,
        {
            let mut column: i32 = 0;
            while column < columns
                invariant
                    self.wf(),
                    rows == self.spec_size().rows,
                    columns == self.spec_size().columns,
                    0 <= row < rows,
                    0 <= column <= columns,
                    items@.len() == row * columns + column,
                    forall|k: int| 0 <= k < items@.len() ==> items@[k] == self.spec_entries()[k],
                decreases columns - column,
            {
                let position = Position { row, column };
                proof {
                    self.lemma_index_of(position);
                    lemma_fundamental_div_mod_converse_div(
                        row * columns + column,
                        columns as int,
                        row as int,
                        column as int,
                    );
                    lemma_fundamental_div_mod_converse_mod(
                        row * columns + column,
                        columns as int,
                        row as int,
                        column as int,
                    );
                }
                let index = self.get_squares_index(position);
                items.push((position, self.squares[index]));
                column = column + 1;
            }
            proof {
                assert((row + 1) * columns == row * columns + columns) by (nonlinear_arith);
            }
            row = row + 1;
        }
        Iter { items, index: 0 }
    }

    /// The marked cells of one row's content line: one `spec_cell_mark` per
    /// column, for the first `columns` columns.
    pub open spec fn spec_row_cells(&self, row: int, columns: int) -> Seq<char>
        decreases columns,
    {
        if columns <= 0 {
            Seq::empty()
        } else {
            self.spec_row_cells(row, columns - 1) + spec_cell_mark(
                self.grid()[row * self.spec_size().columns + (columns - 1)],
            )
        }
    }

    /// The content line of one row: each square's mark, closed by a bar.
    pub open spec fn spec_row_line(&self, row: int) -> Seq<char> {
        self.spec_row_cells(row, self.spec_size().columns as int) + "|\n"@
    }

    /// The rendered text of the first `rows` rows: for each row a separator
    /// line followed by the row's content line.
    pub open spec fn spec_render_rows(&self, rows: int) -> Seq<char>
        decreases rows,
    {
        if rows <= 0 {
            Seq::empty()
        } else {
            self.spec_render_rows(rows - 1) + spec_separator_line(
                self.spec_size().columns as int,
            ) + self.spec_row_line(rows - 1)
        }
    }

    /// The full rendered text of the board: every row between separator
    /// lines, with each square drawn as its owner's mark.
    pub open spec fn spec_render(&self) -> Seq<char> {
        self.spec_render_rows(self.spec_size().rows as int) + spec_separator_line(
            self.spec_size().columns as int,
        )
    }

    /// Appends one `+---+`-style separator line to the output.
    fn write_row_separator(&self, out: &mut String)
        requires
            self.wf(),
        ensures
            final(out)@ == old(out)@ + spec_separator_line(self.spec_size().columns as int),
    {
        let ghost base = out@;
        let mut column: i32 = 0;
        while column < self.size.columns
            invariant
                0 <= column <= self.spec_size().columns,
                out@ == base + spec_separator_cells(column as int),
            decreases self.spec_size().columns - column,
        {
            out.append("+---");
            proof {
                assert(out@ =~= base + spec_separator_cells(column + 1));
            }
            column = column + 1;
        }
        out.append("+\n");
        proof {
            assert(out@ =~= base + spec_separator_line(self.spec_size().columns as int));
        }
    }

    /// Appends the content of one row, one cell per column, to the output.
    fn write_row_content(&self, out: &mut String, row: i32)
        requires
            self.wf(),
            0 <= row < self.spec_size().rows,
        ensures
            final(out)@ == old(out)@ + self.spec_row_line(row as int),
    {
        let ghost base = out@;
        let mut column: i32 = 0;
        while column < self.size.columns
            invariant
                self.wf(),
                0 <= row < self.spec_size().rows,
                0 <= column <= self.spec_size().columns,
                out@ == base + self.spec_row_cells(row as int, column as int),
            decreases self.spec_size().columns - column,
        {
            match self.get(Position { row, column }) {
                Some(Owner::PlayerX) => out.append("| X "),
                Some(Owner::PlayerO) => out.append("| O "),
                _ => out.append("|   "),
            }
            proof {
                assert(out@ =~= base + self.spec_row_cells(row as int, column + 1));
            }
            column = column + 1;
        }
        out.append("|\n");
        proof {
            assert(out@ =~= base + self.spec_row_line(row as int));
        }
    }

    /// Renders the board as a text grid with `X` and `O` marks, suitable for
    /// consoles and debugging.
    ///
    /// The text is exactly `spec_render()`: each row of squares between
    /// `+---+`-style separator lines, every square drawn as its owner's
    /// mark.
    pub fn render(&self) -> (r: String)
        requires
            self.wf(),
        ensures
            r@ == self.spec_render(),
            r@.len() > 0,
    {
        let mut out = String::new();
        let mut row: i32 = 0;
        while row < self.size.rows
            invariant
                self.wf(),
                0 <= row <= self.spec_size().rows,
                out@ == self.spec_render_rows(row as int),
            decreases self.spec_size().rows - row,
        {
            self.write_row_separator(&mut out);
            self.write_row_content(&mut out, row);
            proof {
                assert(out@ =~= self.spec_render_rows(row + 1));
            }
            row = row + 1;
        }
        self.write_row_separator(&mut out);
        proof {
            assert(out@ =~= self.spec_render());
            reveal_strlit("+\n");
        }
        out
    }
}

/// The `+---` segments of a separator line, for the first `columns` columns.
pub open spec fn spec_separator_cells(columns: int) -> Seq<char>
    decreases columns,
{
    if columns <= 0 {
        Seq::empty()
    } else {
        spec_separator_cells(columns - 1) + "+---"@
    }
}

/// One separator line of the rendered board: a `+---` segment per column,
/// closed by a corner and a line break.
pub open spec fn spec_separator_line(columns: int) -> Seq<char> {
    spec_separator_cells(columns) + "+\n"@
}

/// The four characters a square is drawn as: its opening bar and its
/// owner's mark, or a blank for a free square.
pub open spec fn spec_cell_mark(owner: Owner) -> Seq<char> {
    match owner {
        Owner::PlayerX => "| X "@,
        Owner::PlayerO => "| O "@,
        Owner::Nobody => "|   "@,
    }
}

impl Clone for Board {
    /// Deep-copies the board, including every square.
    fn clone(&self) -> (r: Self)
        ensures
            r.spec_size() == self.spec_size(),
            r.grid() == self.grid(),
    {
        let mut squares: Vec<Owner> = Vec::new();
        let mut i: usize = 0;
        while i < self.squares.len()
            invariant
                i <= self.squares@.len(),
                squares@.len() == i,
                forall|j: int| 0 <= j < i ==> squares@[j] == self.squares@[j],
            decreases self.squares@.len() - i,
        {
            squares.push(self.squares[i]);
            i = i + 1;
        }
        proof {
            assert(squares@ =~= self.squares@);
        }
        Board { squares, size: self.size }
    }
}

/// An iterator over the squares of a `Board`, yielding each position and its
/// owner in row-major order.
pub struct Iter {
    items: Vec<(Position, Owner)>,
    index: usize,
}

impl Iter {
    /// The entries not yet yielded.
    pub closed spec fn remaining(&self) -> Seq<(Position, Owner)> {
        self.items@.skip(self.index as int)
    }

    /// The iterator never points past its entries.
    pub closed spec fn wf(&self) -> bool {
        self.index <= self.items@.len()
    }

    /// Yields the next `(position, owner)` pair, or nothing when the board
    /// has been exhausted.
    pub fn next(&mut self) -> (r: Option<(Position, Owner)>)
        requires
            old(self).wf(),
        ensures
            final(self).wf(),
            old(self).remaining().len() == 0 ==> r is None && final(self).remaining()
                == old(self).remaining(),
            old(self).remaining().len() > 0 ==> r == Some(old(self).remaining()[0])
                && final(self).remaining() == old(self).remaining().skip(1),
    {
        if self.index < self.items.len() {
            let entry = self.items[self.index];
            self.index = self.index + 1;
            Some(entry)
        } else {
            None
        }
    }
}

} // verus!
