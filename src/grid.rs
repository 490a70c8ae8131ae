//! Board geometry: cells, walls, open steps between cells and walks to a
//! goal edge.
use crate::player::{Color, Direction};
use vstd::prelude::*;

verus! {

/// Number of rows (and of columns) of the board.
pub const BOARD_SIZE: isize = 5;

/// Number of cells of the board.
pub const CELL_COUNT: usize = 25;

/// A board position: (row, column), both counted from zero. Row 0 is the
/// top edge, column 0 the left edge.
#[derive(PartialEq, Eq, Structural, Clone, Copy, Debug, Hash)]
pub struct Point(pub isize, pub isize);

/// Which way a wall runs.
#[derive(PartialEq, Eq, Structural, Clone, Copy, Debug, Hash)]
pub enum Orientation {
    /// Lies between two rows and stops vertical steps.
    Horizontal,
    /// Lies between two columns and stops horizontal steps.
    Vertical,
}

/// A wall two cells long, centred on a wall slot. Slot (r, c) is the corner
/// shared by cells (r, c), (r, c + 1), (r + 1, c) and (r + 1, c + 1); slots
/// form a (BOARD_SIZE - 1) x (BOARD_SIZE - 1) lattice.
///
/// A horizontal wall on slot (r, c) cuts the steps (r, c)-(r + 1, c) and
/// (r, c + 1)-(r + 1, c + 1); a vertical one cuts (r, c)-(r, c + 1) and
/// (r + 1, c)-(r + 1, c + 1).
#[derive(PartialEq, Eq, Structural, Clone, Copy, Debug, Hash)]
pub struct Wall {
    pub slot: Point,
    pub orientation: Orientation,
}

/// The cell lies on the board.
pub open spec fn in_bounds(p: Point) -> bool {
    0 <= p.0 < BOARD_SIZE && 0 <= p.1 < BOARD_SIZE
}

/// Position of a cell in the row-major cell table.
pub open spec fn cell_index(p: Point) -> int {
    p.0 * BOARD_SIZE + p.1
}

/// The cell `dr` rows down and `dc` columns right of `p`.
pub open spec fn offset(p: Point, dr: int, dc: int) -> Point {
    Point((p.0 + dr) as isize, (p.1 + dc) as isize)
}

/// Both cells are on the board and share a side.
pub open spec fn adjacent(a: Point, b: Point) -> bool {
    &&& in_bounds(a)
    &&& in_bounds(b)
    &&& {
        ||| a.0 == b.0 && (a.1 - b.1 == 1 || b.1 - a.1 == 1)
        ||| a.1 == b.1 && (a.0 - b.0 == 1 || b.0 - a.0 == 1)
    }
}

/// The slot of the wall lies in the slot lattice.
pub open spec fn wall_in_lattice(w: Wall) -> bool {
    0 <= w.slot.0 < BOARD_SIZE - 1 && 0 <= w.slot.1 < BOARD_SIZE - 1
}

/// The wall cuts the step from `a` to `b`, where `a` is above or left of `b`.
pub open spec fn cuts(w: Wall, a: Point, b: Point) -> bool {
    match w.orientation {
        Orientation::Horizontal => {
            &&& a.1 == b.1
            &&& a.0 == w.slot.0
            &&& b.0 == w.slot.0 + 1
            &&& (a.1 == w.slot.1 || a.1 == w.slot.1 + 1)
        },
        Orientation::Vertical => {
            &&& a.0 == b.0
            &&& a.1 == w.slot.1
            &&& b.1 == w.slot.1 + 1
            &&& (a.0 == w.slot.0 || a.0 == w.slot.0 + 1)
        },
    }
}

/// The wall cuts the step between `a` and `b`, in either direction.
pub open spec fn severs(w: Wall, a: Point, b: Point) -> bool {
    cuts(w, a, b) || cuts(w, b, a)
}

/// Two walls may not both stand: they share their slot (they overlap or
/// cross), or they lie on one line with overlapping halves.
pub open spec fn walls_clash(v: Wall, w: Wall) -> bool {
    ||| v.slot == w.slot
    ||| v.orientation == w.orientation && match v.orientation {
        Orientation::Horizontal => v.slot.0 == w.slot.0 && (v.slot.1 - w.slot.1 == 1
            || w.slot.1 - v.slot.1 == 1),
        Orientation::Vertical => v.slot.1 == w.slot.1 && (v.slot.0 - w.slot.0 == 1
            || w.slot.0 - v.slot.0 == 1),
    }
}

/// A pawn may step between `a` and `b`: they are adjacent and no wall cuts
/// the step.
pub open spec fn open_edge(walls: Seq<Wall>, a: Point, b: Point) -> bool {
    &&& adjacent(a, b)
    &&& forall|i: int| 0 <= i < walls.len() ==> !severs(#[trigger] walls[i], a, b)
}

/// Every wall lies in the lattice.
pub open spec fn walls_in_lattice(walls: Seq<Wall>) -> bool {
    forall|i: int| 0 <= i < walls.len() ==> wall_in_lattice(#[trigger] walls[i])
}

/// No two walls clash.
pub open spec fn walls_exclusive(walls: Seq<Wall>) -> bool {
    forall|i: int, j: int|
        0 <= i < j < walls.len() ==> !walls_clash(#[trigger] walls[i], #[trigger] walls[j])
}

/// The cells form a walk in which each step is open.
pub open spec fn is_path(walls: Seq<Wall>, path: Seq<Point>) -> bool {
    &&& path.len() > 0
    &&& forall|i: int| 0 <= i < path.len() - 1 ==> open_edge(walls, #[trigger] path[i], path[i + 1])
}

/// The edge of the board that a pawn of the colour races to.
pub open spec fn goal_reached(c: Color, p: Point) -> bool {
    match c {
        Color::Red => p.0 == BOARD_SIZE - 1,
        Color::Blue => p.0 == 0,
        Color::Green => p.1 == BOARD_SIZE - 1,
        Color::Yellow => p.1 == 0,
    }
}

/// Some open walk leads from `start` to the goal edge of colour `c`.
pub open spec fn path_to_goal(walls: Seq<Wall>, start: Point, c: Color) -> bool {
    exists|path: Seq<Point>|
        is_path(walls, path) && path[0] == start && goal_reached(c, #[trigger] path.last())
}

/// Rows moved by a step in the direction (down is positive).
pub open spec fn row_step(d: Direction) -> int {
    match d {
        Direction::N | Direction::NE | Direction::NW => -1,
        Direction::S | Direction::SE | Direction::SW => 1,
        _ => 0,
    }
}

/// Columns moved by a step in the direction (right is positive).
pub open spec fn col_step(d: Direction) -> int {
    match d {
        Direction::E | Direction::NE | Direction::SE => 1,
        Direction::W | Direction::NW | Direction::SW => -1,
        _ => 0,
    }
}

/// The direction is one of the four diagonals.
pub open spec fn is_diagonal(d: Direction) -> bool {
    row_step(d) != 0 && col_step(d) != 0
}

/// The pawn start of each colour.
pub open spec fn start_of(c: Color) -> Point {
    match c {
        Color::Red => Point(0, 2),
        Color::Blue => Point(4, 2),
        Color::Green => Point(2, 0),
        Color::Yellow => Point(2, 4),
    }
}

/// Rows and columns moved by one step in the direction.
pub(crate) fn step_of(d: Direction) -> (r: (isize, isize))
    ensures
        r.0 == row_step(d),
        r.1 == col_step(d),
{
    match d {
        Direction::N => (-1, 0),
        Direction::E => (0, 1),
        Direction::S => (1, 0),
        Direction::W => (0, -1),
        Direction::NE => (-1, 1),
        Direction::NW => (-1, -1),
        Direction::SE => (1, 1),
        Direction::SW => (1, -1),
    }
}

/// Whether the cell lies on the board.
pub(crate) fn on_board(p: Point) -> (r: bool)
    ensures
        r == in_bounds(p),
{
    0 <= p.0 && p.0 < BOARD_SIZE && 0 <= p.1 && p.1 < BOARD_SIZE
}

/// The cell `dr` rows down and `dc` columns right of `p`.
pub(crate) fn shift(p: Point, dr: isize, dc: isize) -> (r: Point)
    requires
        -8 <= p.0 <= 8,
        -8 <= p.1 <= 8,
        -2 <= dr <= 2,
        -2 <= dc <= 2,
    ensures
        r == offset(p, dr as int, dc as int),
{
    Point(p.0 + dr, p.1 + dc)
}

/// Open steps can be taken both ways.
pub(crate) proof fn lemma_open_edge_symmetric(walls: Seq<Wall>, a: Point, b: Point)
    requires
        open_edge(walls, a, b),
    ensures
        open_edge(walls, b, a),
{
    assert forall|i: int| 0 <= i < walls.len() implies !severs(#[trigger] walls[i], b, a) by {
        assert(!severs(walls[i], a, b));
    }
}

/// A cell with an open step to a cell that reaches a goal edge reaches it too.
pub(crate) proof fn lemma_path_prepend(walls: Seq<Wall>, q: Point, start: Point, c: Color)
    requires
        path_to_goal(walls, start, c),
        open_edge(walls, q, start),
    ensures
        path_to_goal(walls, q, c),
{
    let path = choose|path: Seq<Point>|
        is_path(walls, path) && path[0] == start && goal_reached(c, #[trigger] path.last());
    let v = seq![q] + path;
    assert forall|i: int| 0 <= i < v.len() - 1 implies open_edge(walls, #[trigger] v[i], v[i + 1]) by {
        if i > 0 {
            assert(v[i] == path[i - 1] && v[i + 1] == path[i]);
        }
    }
    assert(v.last() == path.last());
    assert(is_path(walls, v) && v[0] == q);
}

/// Whether a pawn of the colour stands on its goal edge.
pub(crate) fn at_goal(c: Color, p: Point) -> (r: bool)
    ensures
        r == goal_reached(c, p),
{
    match c {
        Color::Red => p.0 == BOARD_SIZE - 1,
        Color::Blue => p.0 == 0,
        Color::Green => p.1 == BOARD_SIZE - 1,
        Color::Yellow => p.1 == 0,
    }
}

/// Position of an on-board cell in the cell table.
pub(crate) fn index_of_cell(p: Point) -> (r: usize)
    requires
        in_bounds(p),
    ensures
        r as int == cell_index(p),
        r < CELL_COUNT,
{
    (p.0 * BOARD_SIZE + p.1) as usize
}

/// Whether the wall cuts the step between two on-board cells.
pub(crate) fn wall_severs(w: &Wall, a: Point, b: Point) -> (r: bool)
    requires
        wall_in_lattice(*w),
        in_bounds(a),
        in_bounds(b),
    ensures
        r == severs(*w, a, b),
{
    let (r0, c0) = (w.slot.0, w.slot.1);
    match w.orientation {
        Orientation::Horizontal => {
            (a.1 == b.1 && a.0 == r0 && b.0 == r0 + 1 && (a.1 == c0 || a.1 == c0 + 1)) || (b.1
                == a.1 && b.0 == r0 && a.0 == r0 + 1 && (b.1 == c0 || b.1 == c0 + 1))
        },
        Orientation::Vertical => {
            (a.0 == b.0 && a.1 == c0 && b.1 == c0 + 1 && (a.0 == r0 || a.0 == r0 + 1)) || (b.0
                == a.0 && b.1 == c0 && a.1 == c0 + 1 && (b.0 == r0 || b.0 == r0 + 1))
        },
    }
}

/// Whether a pawn may step between two on-board cells under the given walls.
pub(crate) fn edge_open(walls: &Vec<Wall>, a: Point, b: Point) -> (r: bool)
    requires
        walls_in_lattice(walls@),
        in_bounds(a),
        in_bounds(b),
    ensures
        r == open_edge(walls@, a, b),
{
    let near = (a.0 == b.0 && (a.1 - b.1 == 1 || b.1 - a.1 == 1)) || (a.1 == b.1 && (a.0 - b.0
        == 1 || b.0 - a.0 == 1));
    if !near {
        return false;
    }
    let mut i: usize = 0;
    while i < walls.len()
        invariant
            walls_in_lattice(walls@),
            in_bounds(a),
            in_bounds(b),
            i <= walls.len(),
            forall|k: int| 0 <= k < i ==> !severs(#[trigger] walls@[k], a, b),
        decreases walls.len() - i,
    {
        if wall_severs(&walls[i], a, b) {
            return false;
        }
        i += 1;
    }
    true
}

/// Whether two walls in the lattice clash.
pub(crate) fn clash(v: &Wall, w: &Wall) -> (r: bool)
    requires
        wall_in_lattice(*v),
        wall_in_lattice(*w),
    ensures
        r == walls_clash(*v, *w),
{
    if v.slot == w.slot {
        return true;
    }
    if v.orientation != w.orientation {
        return false;
    }
    match v.orientation {
        Orientation::Horizontal => v.slot.0 == w.slot.0 && (v.slot.1 - w.slot.1 == 1 || w.slot.1
            - v.slot.1 == 1),
        Orientation::Vertical => v.slot.1 == w.slot.1 && (v.slot.0 - w.slot.0 == 1 || w.slot.0
            - v.slot.0 == 1),
    }
}

} // verus!
