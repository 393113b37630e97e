use vstd::prelude::*;

use crate::RulesError;
use crate::location::Location;
use crate::position::Player;

verus! {

/// The state of one grid cell: empty, or occupied by a piece of one side.
#[derive(Clone, Copy, PartialEq, Eq, Structural, Debug)]
pub enum BoardValue {
    Empty,
    Filled(Player),
}

impl BoardValue {
    /// True exactly when this cell holds a piece of `player`.
    pub open spec fn spec_is_color(self, player: Player) -> bool {
        self == BoardValue::Filled(player)
    }

    pub fn is_color(&self, player: &Player) -> (r: bool)
        ensures
            r == self.spec_is_color(*player),
    {
        match self {
            BoardValue::Empty => false,
            BoardValue::Filled(i) => i == player,
        }
    }
}

impl Default for BoardValue {
    fn default() -> (r: Self)
        ensures
            r == BoardValue::Empty,
    {
        BoardValue::Empty
    }
}

/// Fixed-size rectangular storage of cell state. `board[x][y]` holds the
/// cell at column `x`, row `y`; the visible region is `size_x` by `size_y`
/// and every access to it is bounds-checked.
#[derive(Debug)]
pub struct Board {
    pub board: Vec<Vec<BoardValue>>,
    pub size_x: usize,
    pub size_y: usize,
}

impl Board {
    /// Well-formed: the visible `size_x` by `size_y` region is backed by
    /// storage, and the dimensions leave room on `isize` for the small
    /// relative offsets the adjacency algorithms add to in-bounds
    /// coordinates.
    pub open spec fn wf(self) -> bool {
        &&& self.size_x <= self.board@.len()
        &&& forall|i: int|
            0 <= i < self.size_x ==> (#[trigger] self.board@[i])@.len() == self.size_y
        &&& self.size_x + 2 <= isize::MAX
        &&& self.size_y + 2 <= isize::MAX
    }

    /// True exactly when `l` indexes a cell of the visible region.
    pub open spec fn spec_in_bounds(self, l: Location) -> bool {
        0 <= l.x < self.size_x && 0 <= l.y < self.size_y
    }

    /// The cell at integer coordinates `(x, y)`; meaningful only in bounds.
    pub open spec fn spec_cell_xy(self, x: int, y: int) -> BoardValue {
        self.board@[x]@[y]
    }

    /// The cell at `l`; meaningful only when `l` is in bounds.
    pub open spec fn spec_cell(self, l: Location) -> BoardValue {
        self.spec_cell_xy(l.x as int, l.y as int)
    }

    /// True exactly when `(x, y)` is in bounds and holds a piece of `p`.
    /// Out-of-bounds coordinates count as not colored, so the adjacency
    /// algorithms need not special-case the board edge.
    pub open spec fn spec_is_color_xy(self, x: int, y: int, p: Player) -> bool {
        &&& 0 <= x < self.size_x
        &&& 0 <= y < self.size_y
        &&& self.spec_cell_xy(x, y) == BoardValue::Filled(p)
    }

    /// Builds a board from prepared storage: `board.len()` columns, each of
    /// the same height. The dimension caps are what the leap-offset
    /// arithmetic on `isize` coordinates needs.
    pub fn new(board: Vec<Vec<BoardValue>>) -> (r: Board)
        requires
            forall|i: int|
                0 <= i < board@.len() ==> (#[trigger] board@[i])@.len() == board@[0]@.len(),
            board@.len() + 2 <= isize::MAX,
            board@.len() > 0 ==> board@[0]@.len() + 2 <= isize::MAX,
        ensures
            r.wf(),
            r.board == board,
            r.size_x == board@.len(),
            r.size_y == if board@.len() == 0 { 0int } else { board@[0]@.len() as int },
    {
        let size_x = board.len();
        let size_y = match board.get(0) {
            Some(i) => i.len(),
            None => 0,
        };
        Board { size_x, size_y, board }
    }

    /// Pushes one more column onto the backing storage. Columns beyond
    /// `size_x` are invisible to every bounds-checked access.
    pub fn append(&mut self, data: Vec<BoardValue>)
        requires
            old(self).wf(),
        ensures
            final(self).wf(),
            final(self).board@ == old(self).board@.push(data),
            final(self).size_x == old(self).size_x,
            final(self).size_y == old(self).size_y,
    {
        self.board.push(data);
    }

    /// Bounds test for the visible region.
    pub fn in_bounds(&self, location: &Location) -> (r: bool)
        ensures
            r == self.spec_in_bounds(*location),
    {
        location.x >= 0 && location.y >= 0 && (location.x as usize) < self.size_x && (
        location.y as usize) < self.size_y
    }

    /// Empties one cell; reports `InvalidCoordinate` out of bounds.
    pub fn clear_at(&mut self, location: &Location) -> (r: Result<(), RulesError>)
        requires
            old(self).wf(),
        ensures
            final(self).wf(),
            final(self).size_x == old(self).size_x,
            final(self).size_y == old(self).size_y,
            match r {
                Ok(_) => old(self).spec_in_bounds(*location) && final(self).spec_cell(*location)
                    == BoardValue::Empty,
                Err(e) => e == RulesError::InvalidCoordinate && !old(self).spec_in_bounds(
                    *location,
                ) && *final(self) == *old(self),
            },
            forall|x: int, y: int|
                0 <= x < old(self).size_x && 0 <= y < old(self).size_y && !(x == location.x && y
                    == location.y) ==> final(self).spec_cell_xy(x, y) == old(self).spec_cell_xy(
                    x,
                    y,
                ),
    {
        if self.in_bounds(location) {
            self.board[location.x as usize][location.y as usize] = BoardValue::Empty;
            Ok(())
        } else {
            Err(RulesError::InvalidCoordinate)
        }
    }

    /// Occupies one cell with a piece of `color`; reports
    /// `InvalidCoordinate` out of bounds. No legality check happens here:
    /// that is the rules engine's responsibility.
    pub fn insert_piece(&mut self, color: &Player, location: &Location) -> (r: Result<
        (),
        RulesError,
    >)
        requires
            old(self).wf(),
        ensures
            final(self).wf(),
            final(self).size_x == old(self).size_x,
            final(self).size_y == old(self).size_y,
            match r {
                Ok(_) => old(self).spec_in_bounds(*location) && final(self).spec_cell(*location)
                    == BoardValue::Filled(*color),
                Err(e) => e == RulesError::InvalidCoordinate && !old(self).spec_in_bounds(
                    *location,
                ) && *final(self) == *old(self),
            },
            forall|x: int, y: int|
                0 <= x < old(self).size_x && 0 <= y < old(self).size_y && !(x == location.x && y
                    == location.y) ==> final(self).spec_cell_xy(x, y) == old(self).spec_cell_xy(
                    x,
                    y,
                ),
    {
        if self.in_bounds(location) {
            self.board[location.x as usize][location.y as usize] = BoardValue::Filled(*color);
            Ok(())
        } else {
            Err(RulesError::InvalidCoordinate)
        }
    }

    /// Bounds-checked read of one cell.
    pub fn get_at(&self, location: &Location) -> (r: Result<BoardValue, RulesError>)
        requires
            self.wf(),
        ensures
            r == if self.spec_in_bounds(*location) {
                Ok::<BoardValue, RulesError>(self.spec_cell(*location))
            } else {
                Err::<BoardValue, RulesError>(RulesError::InvalidCoordinate)
            },
    {
        if !self.in_bounds(location) {
            Err(RulesError::InvalidCoordinate)
        } else {
            Ok(self.board[location.x as usize][location.y as usize])
        }
    }

    /// True exactly when `location` is in bounds and holds a piece of
    /// `player`; false, never an error, otherwise.
    pub fn is_color_at(&self, location: &Location, player: &Player) -> (r: bool)
        requires
            self.wf(),
        ensures
            r == self.spec_is_color_xy(location.x as int, location.y as int, *player),
    {
        match self.get_at(location) {
            Ok(i) => i.is_color(player),
            Err(_) => false,
        }
    }

    /// A relative view of this board centered on `location`.
    pub fn proxy<'b>(&'b self, location: &Location) -> (r: BoardProxy<'b>)
        ensures
            r.board == self,
            r.center == *location,
    {
        BoardProxy::new(self, location)
    }
}

/// A view of a board centered on one coordinate: it answers the same
/// queries as the board, but for coordinates expressed as offsets from the
/// center. This lets every adjacency algorithm be written once, in
/// relative-offset terms, wherever on the board the piece sits.
pub struct BoardProxy<'b> {
    pub center: Location,
    pub board: &'b Board,
}

impl<'b> BoardProxy<'b> {
    pub fn new(board: &'b Board, center: &Location) -> (r: BoardProxy<'b>)
        ensures
            r.board == board,
            r.center == *center,
    {
        BoardProxy { center: *center, board }
    }

    /// Converts an offset from the center back to an absolute coordinate.
    pub fn get_absolute(&self, location: &Location) -> (r: Location)
        requires
            isize::MIN <= self.center.x + location.x <= isize::MAX,
            isize::MIN <= self.center.y + location.y <= isize::MAX,
        ensures
            r.x == self.center.x + location.x,
            r.y == self.center.y + location.y,
    {
        location.plus(&self.center)
    }

    /// Bounds-checked read of the cell at the given offset from the center.
    pub fn get_at(&self, location: &Location) -> (r: Result<BoardValue, RulesError>)
        requires
            self.board.wf(),
            isize::MIN <= self.center.x + location.x <= isize::MAX,
            isize::MIN <= self.center.y + location.y <= isize::MAX,
        ensures
            r == if self.board.spec_in_bounds(
                Location { x: (self.center.x + location.x) as isize, y: (self.center.y + location.y) as isize },
            ) {
                Ok::<BoardValue, RulesError>(
                    self.board.spec_cell_xy(self.center.x + location.x, self.center.y + location.y),
                )
            } else {
                Err::<BoardValue, RulesError>(RulesError::InvalidCoordinate)
            },
    {
        let x = self.center.x + location.x;
        let y = self.center.y + location.y;
        self.board.get_at(&Location::new(x, y))
    }

    /// True exactly when the cell at the given offset from the center is in
    /// bounds and holds a piece of `player`.
    pub fn is_color_at(&self, location: &Location, player: &Player) -> (r: bool)
        requires
            self.board.wf(),
            isize::MIN <= self.center.x + location.x <= isize::MAX,
            isize::MIN <= self.center.y + location.y <= isize::MAX,
        ensures
            r == self.board.spec_is_color_xy(
                self.center.x + location.x,
                self.center.y + location.y,
                *player,
            ),
    {
        let x = self.center.x + location.x;
        let y = self.center.y + location.y;
        self.board.is_color_at(&Location::new(x, y), player)
    }
}

impl Default for Board {
    /// The default playing field: a 13 by 13 grid of empty cells.
    fn default() -> (r: Self)
        ensures
            r.wf(),
            r.size_x == 13,
            r.size_y == 13,
            forall|x: int, y: int|
                0 <= x < 13 && 0 <= y < 13 ==> r.spec_cell_xy(x, y) == BoardValue::Empty,
    {
        let size_x: usize = 13;
        let size_y: usize = 13;
        let mut board: Vec<Vec<BoardValue>> = Vec::new();
        let mut x: usize = 0;
        while x < size_x
            invariant
                x <= size_x,
                size_x == 13,
                size_y == 13,
                board@.len() == x,
                forall|i: int| 0 <= i < x ==> (#[trigger] board@[i])@.len() == size_y,
                forall|i: int, j: int|
                    0 <= i < x && 0 <= j < size_y ==> board@[i]@[j] == BoardValue::Empty,
            decreases size_x - x,
        {
            let column = vec![BoardValue::Empty; size_y];
            board.push(column);
            x = x + 1;
        }
        Board { size_x, size_y, board }
    }
}

} // verus!
