//! The board: cell table, wall ledger, path search, move rules and the
//! turn/win state machine.
use crate::grid::{
    BOARD_SIZE,
    CELL_COUNT,
    Point,
    Wall,
    adjacent,
    at_goal,
    cell_index,
    clash,
    col_step,
    edge_open,
    goal_reached,
    in_bounds,
    index_of_cell,
    is_diagonal,
    is_path,
    lemma_open_edge_symmetric,
    lemma_path_prepend,
    offset,
    on_board,
    open_edge,
    path_to_goal,
    row_step,
    shift,
    start_of,
    step_of,
    wall_in_lattice,
    walls_clash,
    walls_exclusive,
    walls_in_lattice,
};
use crate::player::{Color, Direction, Player, WALL_COUNT_2_PLAYERS, WALL_COUNT_4_PLAYERS};
use vstd::prelude::*;

verus! {

/// One cell of the grid: its pawn, if any, and the cells that share a side
/// with it.
pub struct BoardNode {
    contents: Option<Color>,
    neighbors: Vec<Point>,
}

impl BoardNode {
    /// The colour of the pawn on the cell, if any.
    pub closed spec fn held(&self) -> Option<Color> {
        self.contents
    }

    /// The cells that share a side with this one.
    pub closed spec fn neighbor_cells(&self) -> Seq<Point> {
        self.neighbors@
    }

    /// The cell at (row, col) holding `contents`, with its neighbours worked
    /// out from the board's bounds.
    pub fn new(row: isize, col: isize, contents: Option<Color>) -> (r: Self)
        requires
            in_bounds(Point(row, col)),
        ensures
            r.held() == contents,
            forall|q: Point| r.neighbor_cells().contains(q) <==> adjacent(Point(row, col), q),
            r.neighbor_cells().no_duplicates(),
    {
        let ghost p = Point(row, col);
        let mut neighbors: Vec<Point> = Vec::new();
        let upper_bound = BOARD_SIZE - 1;
        if row < upper_bound {
            neighbors.push(Point(row + 1, col));
            assert(neighbors@[neighbors.len() - 1] == offset(p, 1, 0));
        }
        let ghost s1 = neighbors@;
        if row > 0 {
            neighbors.push(Point(row - 1, col));
            assert(neighbors@[neighbors.len() - 1] == offset(p, -1, 0));
        }
        let ghost s2 = neighbors@;
        if col < upper_bound {
            neighbors.push(Point(row, col + 1));
            assert(neighbors@[neighbors.len() - 1] == offset(p, 0, 1));
        }
        let ghost s3 = neighbors@;
        if col > 0 {
            neighbors.push(Point(row, col - 1));
            assert(neighbors@[neighbors.len() - 1] == offset(p, 0, -1));
        }
        proof {
            assert(s1.is_prefix_of(neighbors@));
            assert(s2.is_prefix_of(neighbors@));
            assert(s3.is_prefix_of(neighbors@));
            assert forall|q: Point| neighbors@.contains(q) <==> adjacent(p, q) by {
                if adjacent(p, q) {
                    if q.0 == row + 1 {
                        assert(s1.contains(q));
                        assert(neighbors@[s1.index_of(q)] == q);
                    } else if q.0 == row - 1 {
                        assert(s2.contains(q));
                        assert(neighbors@[s2.index_of(q)] == q);
                    } else if q.1 == col + 1 {
                        assert(s3.contains(q));
                        assert(neighbors@[s3.index_of(q)] == q);
                    } else {
                        assert(neighbors@[neighbors.len() - 1] == q);
                    }
                }
            }
        }
        BoardNode { contents, neighbors }
    }
}

/// Number of `false` entries of a sequence.
spec fn count_false(s: Seq<bool>) -> nat
    decreases s.len(),
{
    if s.len() == 0 {
        0
    } else {
        count_false(s.drop_last()) + if s.last() {
            0nat
        } else {
            1nat
        }
    }
}

/// Setting one `false` entry to `true` lowers the count by one.
proof fn lemma_count_false_set(s: Seq<bool>, i: int)
    requires
        0 <= i < s.len(),
        !s[i],
    ensures
        count_false(s) >= 1,
        count_false(s.update(i, true)) == count_false(s) - 1,
    decreases s.len(),
{
    let t = s.update(i, true);
    if i == s.len() - 1 {
        assert(t.drop_last() =~= s.drop_last());
    } else {
        assert(t.drop_last() =~= s.drop_last().update(i, true));
        lemma_count_false_set(s.drop_last(), i);
    }
}

/// What a sequence holds after a push.
proof fn lemma_push_contains<A>(s: Seq<A>, v: A, x: A)
    ensures
        s.push(v).contains(x) <==> (s.contains(x) || x == v),
{
    if s.contains(x) {
        let i = choose|i: int| 0 <= i < s.len() && s[i] == x;
        assert(s.push(v)[i] == x);
    }
    if x == v {
        assert(s.push(v)[s.len() as int] == x);
    }
    if s.push(v).contains(x) {
        let i = choose|i: int| 0 <= i < s.len() + 1 && s.push(v)[i] == x;
        if i < s.len() {
            assert(s[i] == x);
        }
    }
}

/// An open walk followed by one more open step is an open walk.
proof fn lemma_path_extend(walls: Seq<Wall>, w: Seq<Point>, q: Point)
    requires
        is_path(walls, w),
        open_edge(walls, w.last(), q),
    ensures
        is_path(walls, w.push(q)),
        w.push(q)[0] == w[0],
        w.push(q).last() == q,
{
    let v = w.push(q);
    assert forall|i: int| 0 <= i < v.len() - 1 implies open_edge(walls, #[trigger] v[i], v[i + 1]) by {
        if i < w.len() - 1 {
            assert(v[i] == w[i] && v[i + 1] == w[i + 1]);
        } else {
            assert(v[i] == w.last());
        }
    }
}

/// A walk that starts in a region closed under open steps stays in it.
proof fn lemma_closed_region(walls: Seq<Wall>, region: Seq<Point>, path: Seq<Point>, k: int)
    requires
        is_path(walls, path),
        region.contains(path[0]),
        0 <= k < path.len(),
        forall|p: Point, q: Point|
            #![trigger region.contains(p), open_edge(walls, p, q)]
            region.contains(p) && open_edge(walls, p, q) ==> region.contains(q),
    ensures
        region.contains(path[k]),
    decreases k,
{
    if k > 0 {
        lemma_closed_region(walls, region, path, k - 1);
        assert(open_edge(walls, path[k - 1], path[k]));
    }
}

/// Why a pawn move was refused. A refused move changes nothing.
#[derive(PartialEq, Eq, Structural, Clone, Copy, Debug)]
pub enum MoveError {
    /// The game is already over.
    GameAlreadyWon,
    /// The cell one step in the requested direction is off the board.
    OutOfBounds,
    /// The move is not among the legal moves of the active pawn.
    IllegalMove,
}

/// Why a wall placement was refused. A refused placement changes nothing.
#[derive(PartialEq, Eq, Structural, Clone, Copy, Debug)]
pub enum WallError {
    /// The game is already over.
    GameAlreadyWon,
    /// The active player has no walls left.
    WallExhausted,
    /// The wall's slot lies outside the slot lattice.
    OutOfBounds,
    /// The wall clashes with a wall already placed.
    WallOverlap,
    /// The wall would leave some pawn with no way to its goal edge.
    WallBlocksAllPaths,
}

/// The colours in turn order: Blue and Red in a two-player game; Blue,
/// Green, Red and Yellow, round the board, in a four-player game.
pub open spec fn seat_colors(four: bool) -> Seq<Color> {
    if four {
        seq![Color::Blue, Color::Green, Color::Red, Color::Yellow]
    } else {
        seq![Color::Blue, Color::Red]
    }
}

/// The pawn standing on the cell when a game starts.
spec fn initial_contents(p: Point, four: bool) -> Option<Color> {
    if p == start_of(Color::Red) {
        Some(Color::Red)
    } else if p == start_of(Color::Blue) {
        Some(Color::Blue)
    } else if four && p == start_of(Color::Green) {
        Some(Color::Green)
    } else if four && p == start_of(Color::Yellow) {
        Some(Color::Yellow)
    } else {
        None
    }
}

/// Every move target lies one step, or for a straight jump two steps, away
/// in the move's direction.
proof fn lemma_target_shape(b: &Board, from: Point, d: Direction)
    requires
        in_bounds(from),
        b.move_target(from, d).is_some(),
    ensures
        b.move_target(from, d) == Some(offset(from, row_step(d), col_step(d))) || (!is_diagonal(d)
            && b.move_target(from, d) == Some(offset(from, 2 * row_step(d), 2 * col_step(d)))),
{
}

/// Different directions lead to different cells.
proof fn lemma_targets_distinct(b: &Board, from: Point, d: Direction, e: Direction)
    requires
        in_bounds(from),
        d != e,
        b.move_target(from, d).is_some(),
        b.move_target(from, e).is_some(),
    ensures
        b.move_target(from, d) != b.move_target(from, e),
{
    lemma_target_shape(b, from, d);
    lemma_target_shape(b, from, e);
}

/// A legal move lands on a free cell of the board from which the mover's
/// old cell, and so every goal edge that cell reaches, can be reached.
proof fn lemma_target_facts(b: &Board, from: Point, d: Direction)
    requires
        in_bounds(from),
        b.move_target(from, d).is_some(),
    ensures
        in_bounds(b.move_target(from, d).unwrap()),
        !b.occupied(b.move_target(from, d).unwrap()),
        forall|c: Color|
            path_to_goal(b.walls(), from, c) ==> #[trigger] path_to_goal(
                b.walls(),
                b.move_target(from, d).unwrap(),
                c,
            ),
{
    let walls = b.walls();
    let t = b.move_target(from, d).unwrap();
    let dr = row_step(d);
    let dc = col_step(d);
    assert forall|c: Color| path_to_goal(walls, from, c) implies #[trigger] path_to_goal(walls, t, c) by {
        if !is_diagonal(d) {
            let n = offset(from, dr, dc);
            lemma_open_edge_symmetric(walls, from, n);
            lemma_path_prepend(walls, n, from, c);
            if t != n {
                lemma_open_edge_symmetric(walls, n, t);
                lemma_path_prepend(walls, t, n, c);
            }
        } else {
            let n = if b.side_step_via(from, dr, 0, t) {
                offset(from, dr, 0)
            } else {
                offset(from, 0, dc)
            };
            lemma_open_edge_symmetric(walls, from, n);
            lemma_path_prepend(walls, n, from, c);
            lemma_open_edge_symmetric(walls, n, t);
            lemma_path_prepend(walls, t, n, c);
        }
    }
}

/// The board state: the grid with its pawns, the walls placed so far, the
/// players in turn order and the outcome.
pub struct Board {
    // One node per cell, row-major; each knows its pawn and its neighbours.
    spaces: Vec<BoardNode>,
    // Walls placed so far, oldest first.
    wall_spaces: Vec<Wall>,
    // Pawn position of each player, in the order of `player_order`.
    player_tbl: Vec<Point>,
    // Round-robin player list.
    player_order: Vec<Player>,
    // Index in `player_order` of the player whose turn it is.
    turn_cntr: usize,
    // The colour that has won, once the game is over.
    winner: Option<Color>,
}

impl Board {
    /// The walls placed so far, oldest first.
    pub closed spec fn walls(&self) -> Seq<Wall> {
        self.wall_spaces@
    }

    /// The pawn position of each player, in turn order.
    pub closed spec fn pawns(&self) -> Seq<Point> {
        self.player_tbl@
    }

    /// The players in turn order.
    pub closed spec fn players(&self) -> Seq<Player> {
        self.player_order@
    }

    /// Index of the player whose turn it is.
    pub closed spec fn turn(&self) -> int {
        self.turn_cntr as int
    }

    /// The colour that has won, if the game is over.
    pub closed spec fn won_by(&self) -> Option<Color> {
        self.winner
    }

    /// The cell table holds one node per cell, each with exactly its
    /// on-board neighbours.
    closed spec fn grid_wf(&self) -> bool {
        &&& self.spaces.len() == CELL_COUNT
        &&& forall|p: Point|
            in_bounds(p) ==> {
                &&& forall|q: Point|
                    #[trigger] self.spaces@[cell_index(p)].neighbors@.contains(q) <==> adjacent(
                        p,
                        q,
                    )
                &&& self.spaces@[cell_index(p)].neighbors@.no_duplicates()
            }
    }

    /// Some pawn stands on the cell.
    pub open spec fn occupied(&self, p: Point) -> bool {
        exists|i: int| 0 <= i < self.pawns().len() && self.pawns()[i] == p
    }

    /// A player of the colour takes part in the game.
    pub open spec fn plays(&self, c: Color) -> bool {
        exists|i: int| 0 <= i < self.players().len() && self.players()[i].color() == c
    }

    /// The colour of the player whose turn it is.
    pub open spec fn current_color(&self) -> Color {
        self.players()[self.turn()].color()
    }

    /// The pawn position of the player whose turn it is.
    pub open spec fn current_pawn(&self) -> Point {
        self.pawns()[self.turn()]
    }

    /// The straight jump from `n` along (dr, dc) lands on a free cell
    /// through an open step.
    pub open spec fn jump_open(&self, n: Point, dr: int, dc: int) -> bool {
        let j = offset(n, dr, dc);
        in_bounds(j) && !self.occupied(j) && open_edge(self.walls(), n, j)
    }

    /// From `from`, the neighbour `n` along (dr, dc) is open and occupied,
    /// the straight jump over it is not available, and `t` is an open step
    /// from `n`: the pawn may go round `n` to `t`.
    pub open spec fn side_step_via(&self, from: Point, dr: int, dc: int, t: Point) -> bool {
        let n = offset(from, dr, dc);
        &&& open_edge(self.walls(), from, n)
        &&& self.occupied(n)
        &&& !self.jump_open(n, dr, dc)
        &&& open_edge(self.walls(), n, t)
    }

    /// Where a pawn on `from` ends up when it moves in direction `d`, if
    /// that move is legal. A straight direction steps to a free open
    /// neighbour, or jumps the pawn standing there when the cell beyond is
    /// free and open. A diagonal direction goes round a neighbouring pawn
    /// whose straight jump is not available, to a free cell that is an open
    /// step from that pawn.
    pub open spec fn move_target(&self, from: Point, d: Direction) -> Option<Point> {
        let dr = row_step(d);
        let dc = col_step(d);
        if !is_diagonal(d) {
            let n = offset(from, dr, dc);
            if !open_edge(self.walls(), from, n) {
                None
            } else if !self.occupied(n) {
                Some(n)
            } else if self.jump_open(n, dr, dc) {
                Some(offset(n, dr, dc))
            } else {
                None
            }
        } else {
            let t = offset(from, dr, dc);
            if !self.occupied(t) && (self.side_step_via(from, dr, 0, t) || self.side_step_via(
                from,
                0,
                dc,
                t,
            )) {
                Some(t)
            } else {
                None
            }
        }
    }

    /// The cells a pawn on `from` may move to.
    pub open spec fn destinations_from(&self, from: Point) -> Set<Point> {
        Set::new(|t: Point| exists|d: Direction| self.move_target(from, d) == Some(t))
    }

    /// The pawn position of the player of colour `c`, when it plays.
    pub open spec fn pawn_of(&self, c: Color) -> Point {
        self.pawns()[choose|i: int| 0 <= i < self.players().len() && self.players()[i].color() == c]
    }

    /// The cells the pawn of colour `c` may move to; empty when no player
    /// of that colour plays.
    pub open spec fn legal_destination_set(&self, c: Color) -> Set<Point> {
        if self.plays(c) {
            self.destinations_from(self.pawn_of(c))
        } else {
            Set::empty()
        }
    }

    /// The colour of the pawn recorded in the cell table for an on-board
    /// cell.
    pub closed spec fn cell_record(&self, p: Point) -> Option<Color> {
        self.spaces@[cell_index(p)].contents
    }

    /// The wall fits among the placed walls: its slot is in the lattice and
    /// it clashes with none of them.
    pub open spec fn wall_fits(&self, w: Wall) -> bool {
        &&& wall_in_lattice(w)
        &&& forall|i: int| 0 <= i < self.walls().len() ==> !walls_clash(#[trigger] self.walls()[i], w)
    }

    /// With the wall added, every pawn still has a way to its goal edge.
    pub open spec fn wall_keeps_paths(&self, w: Wall) -> bool {
        forall|i: int|
            0 <= i < self.pawns().len() ==> path_to_goal(
                self.walls().push(w),
                #[trigger] self.pawns()[i],
                self.players()[i].color(),
            )
    }

    /// The board is consistent: the grid is intact, colours and pawn cells
    /// are distinct, the cell table and the pawn table agree both ways, the
    /// walls are in the lattice and never clash, every pawn has a way to
    /// its goal edge, and the win counters match the outcome.
    pub closed spec fn wf(&self) -> bool {
        let n = self.player_order.len();
        &&& self.grid_wf()
        &&& n >= 2
        &&& self.player_tbl.len() == n
        &&& self.turn_cntr < n
        &&& forall|i: int, j: int|
            0 <= i < j < n ==> #[trigger] self.player_order@[i].color()
                != #[trigger] self.player_order@[j].color()
        &&& forall|i: int, j: int|
            0 <= i < j < n ==> #[trigger] self.player_tbl@[i] != #[trigger] self.player_tbl@[j]
        &&& forall|i: int| 0 <= i < n ==> in_bounds(#[trigger] self.player_tbl@[i])
        &&& forall|i: int|
            0 <= i < n ==> self.spaces@[cell_index(#[trigger] self.player_tbl@[i])].contents
                == Some(self.player_order@[i].color())
        &&& forall|p: Point|
            in_bounds(p) && (#[trigger] self.spaces@[cell_index(p)]).contents.is_some()
                ==> self.occupied(p)
        &&& walls_in_lattice(self.wall_spaces@)
        &&& walls_exclusive(self.wall_spaces@)
        &&& forall|i: int|
            0 <= i < n ==> path_to_goal(
                self.wall_spaces@,
                #[trigger] self.player_tbl@[i],
                self.player_order@[i].color(),
            )
        &&& forall|i: int| 0 <= i < n ==> (#[trigger] self.player_order@[i]).walls_left() >= 0
        &&& forall|i: int|
            0 <= i < n ==> (#[trigger] self.player_order@[i]).win_total() == if self.winner
                == Some(self.player_order@[i].color()) {
                1nat
            } else {
                0nat
            }
    }

    /// Whether some pawn stands on the on-board cell.
    fn cell_occupied(&self, p: Point) -> (r: bool)
        requires
            self.wf(),
            in_bounds(p),
        ensures
            r == self.occupied(p),
    {
        let r = self.spaces[index_of_cell(p)].contents.is_some();
        proof {
            if self.occupied(p) {
                let i = choose|i: int| 0 <= i < self.pawns().len() && self.pawns()[i] == p;
                assert(self.spaces@[cell_index(self.player_tbl@[i])].contents.is_some());
            }
        }
        r
    }

    /// Whether the straight jump from the on-board cell `n` along (dr, dc)
    /// is available.
    fn jump_free(&self, n: Point, dr: isize, dc: isize) -> (r: bool)
        requires
            self.wf(),
            in_bounds(n),
            -1 <= dr <= 1,
            -1 <= dc <= 1,
        ensures
            r == self.jump_open(n, dr as int, dc as int),
    {
        let j = shift(n, dr, dc);
        on_board(j) && !self.cell_occupied(j) && edge_open(&self.wall_spaces, n, j)
    }

    /// Whether a pawn on `from` may go round the pawn along (dr, dc) to `t`.
    fn side_step(&self, from: Point, dr: isize, dc: isize, t: Point) -> (r: bool)
        requires
            self.wf(),
            in_bounds(from),
            -1 <= dr <= 1,
            -1 <= dc <= 1,
        ensures
            r == self.side_step_via(from, dr as int, dc as int, t),
    {
        let n = shift(from, dr, dc);
        if !on_board(n) || !on_board(t) {
            return false;
        }
        edge_open(&self.wall_spaces, from, n) && self.cell_occupied(n) && !self.jump_free(n, dr, dc)
            && edge_open(&self.wall_spaces, n, t)
    }

    /// Where a pawn on `from` ends up when it moves in direction `d`.
    fn target_of(&self, from: Point, d: Direction) -> (r: Option<Point>)
        requires
            self.wf(),
            in_bounds(from),
        ensures
            r == self.move_target(from, d),
    {
        let (dr, dc) = step_of(d);
        if dr == 0 || dc == 0 {
            let n = shift(from, dr, dc);
            if !on_board(n) || !edge_open(&self.wall_spaces, from, n) {
                None
            } else if !self.cell_occupied(n) {
                Some(n)
            } else if self.jump_free(n, dr, dc) {
                Some(shift(n, dr, dc))
            } else {
                None
            }
        } else {
            let t = shift(from, dr, dc);
            if on_board(t) && !self.cell_occupied(t) && (self.side_step(from, dr, 0, t)
                || self.side_step(from, 0, dc, t)) {
                Some(t)
            } else {
                None
            }
        }
    }

    /// Appends `d` to `out` when a pawn on `from` may move that way.
    fn offer_direction(&self, from: Point, d: Direction, out: &mut Vec<Direction>)
        requires
            self.wf(),
            in_bounds(from),
            !old(out)@.contains(d),
            old(out)@.no_duplicates(),
        ensures
            final(out)@.no_duplicates(),
            forall|e: Direction|
                #[trigger] final(out)@.contains(e) <==> (old(out)@.contains(e) || (e == d
                    && self.move_target(from, d).is_some())),
    {
        if self.target_of(from, d).is_some() {
            let ghost prev = out@;
            out.push(d);
            proof {
                assert forall|e: Direction| out@.contains(e) <==> (prev.contains(e) || e == d) by {
                    lemma_push_contains(prev, d, e);
                }
                assert forall|i: int, j: int| 0 <= i < j < out.len() implies out@[i] != out@[j] by {
                    if j == out.len() - 1 {
                        assert(prev.contains(out@[i]));
                    } else {
                        assert(prev[i] == out@[i] && prev[j] == out@[j]);
                    }
                }
            }
        }
    }

    /// The directions in which a pawn on `from` may move, each once.
    fn directions_from(&self, from: Point) -> (r: Vec<Direction>)
        requires
            self.wf(),
            in_bounds(from),
        ensures
            r@.no_duplicates(),
            forall|d: Direction| #[trigger] r@.contains(d) <==> self.move_target(from, d).is_some(),
    {
        let mut out: Vec<Direction> = Vec::new();
        self.offer_direction(from, Direction::N, &mut out);
        self.offer_direction(from, Direction::NE, &mut out);
        self.offer_direction(from, Direction::E, &mut out);
        self.offer_direction(from, Direction::SE, &mut out);
        self.offer_direction(from, Direction::S, &mut out);
        self.offer_direction(from, Direction::SW, &mut out);
        self.offer_direction(from, Direction::W, &mut out);
        self.offer_direction(from, Direction::NW, &mut out);
        proof {
            assert forall|d: Direction| #[trigger] out@.contains(d) <==> self.move_target(
                from,
                d,
            ).is_some() by {
            }
        }
        out
    }

    /// The cells a pawn on `from` may move to, each once.
    fn destinations_of(&self, from: Point) -> (r: Vec<Point>)
        requires
            self.wf(),
            in_bounds(from),
        ensures
            r@.no_duplicates(),
            r@.to_set() == self.destinations_from(from),
    {
        let dirs = self.directions_from(from);
        let mut out: Vec<Point> = Vec::new();
        let mut i: usize = 0;
        while i < dirs.len()
            invariant
                self.wf(),
                in_bounds(from),
                dirs@.no_duplicates(),
                forall|d: Direction| #[trigger] dirs@.contains(d) <==> self.move_target(from, d).is_some(),
                i <= dirs.len(),
                out@.no_duplicates(),
                forall|t: Point|
                    #[trigger] out@.contains(t) <==> exists|j: int|
                        0 <= j < i && self.move_target(from, #[trigger] dirs@[j]) == Some(t),
            decreases dirs.len() - i,
        {
            let d = dirs[i];
            assert(dirs@.contains(d));
            let t = self.target_of(from, d).unwrap();
            let ghost prev = out@;
            proof {
                if prev.contains(t) {
                    let j = choose|j: int| 0 <= j < i && self.move_target(from, #[trigger] dirs@[j]) == Some(t);
                    assert(dirs@.contains(dirs@[j]));
                    lemma_targets_distinct(self, from, dirs@[j], d);
                }
            }
            out.push(t);
            proof {
                assert forall|x: Point| #[trigger] out@.contains(x) <==> exists|j: int|
                    0 <= j < i + 1 && self.move_target(from, #[trigger] dirs@[j]) == Some(x) by {
                    lemma_push_contains(prev, t, x);
                    if x == t {
                        assert(self.move_target(from, dirs@[i as int]) == Some(x));
                    }
                    if exists|j: int| 0 <= j < i + 1 && self.move_target(from, #[trigger] dirs@[j]) == Some(x) {
                        let j = choose|j: int| 0 <= j < i + 1 && self.move_target(from, #[trigger] dirs@[j]) == Some(x);
                        if j < i {
                            assert(prev.contains(x));
                        }
                    }
                }
                assert forall|a: int, b: int| 0 <= a < b < out.len() implies out@[a] != out@[b] by {
                    if b == out.len() - 1 {
                        assert(prev.contains(out@[a]));
                    } else {
                        assert(prev[a] == out@[a] && prev[b] == out@[b]);
                    }
                }
            }
            i += 1;
        }
        proof {
            assert forall|t: Point| #[trigger] out@.to_set().contains(t) <==> self.destinations_from(from).contains(t) by {
                if self.destinations_from(from).contains(t) {
                    let d = choose|d: Direction| self.move_target(from, d) == Some(t);
                    assert(dirs@.contains(d));
                    let j = choose|j: int| 0 <= j < dirs.len() && dirs@[j] == d;
                    assert(out@.contains(t));
                }
                if out@.contains(t) {
                    let j = choose|j: int| 0 <= j < i && self.move_target(from, #[trigger] dirs@[j]) == Some(t);
                }
            }
            assert(out@.to_set() =~= self.destinations_from(from));
        }
        out
    }

    /// A fresh two-player game on an empty board: Blue starts on (4, 2) and
    /// races to row 0, Red starts on (0, 2) and races to the last row. Blue
    /// moves first; each player has the two-player wall allowance.
    pub fn new() -> (r: Self)
        ensures
            r.wf(),
            r.walls() == Seq::<Wall>::empty(),
            r.players().len() == 2,
            r.players()[0].color() == Color::Blue,
            r.players()[1].color() == Color::Red,
            forall|i: int| 0 <= i < 2 ==> r.pawns()[i] == start_of(#[trigger] r.players()[i].color()),
            forall|i: int| 0 <= i < 2 ==> (#[trigger] r.players()[i]).walls_left() == WALL_COUNT_2_PLAYERS,
            forall|i: int| 0 <= i < 2 ==> (#[trigger] r.players()[i]).win_total() == 0,
            r.turn() == 0,
            r.won_by().is_none(),
    {
        Self::setup(false)
    }

    /// A fresh four-player game on an empty board. Blue starts on (4, 2)
    /// and races to row 0, Green on (2, 0) to the last column, Red on
    /// (0, 2) to the last row, Yellow on (2, 4) to column 0. They play in
    /// that order; each has the four-player wall allowance.
    pub fn new_four_players() -> (r: Self)
        ensures
            r.wf(),
            r.walls() == Seq::<Wall>::empty(),
            r.players().len() == 4,
            forall|i: int| 0 <= i < 4 ==> (#[trigger] r.players()[i]).color() == seat_colors(true)[i],
            forall|i: int| 0 <= i < 4 ==> r.pawns()[i] == start_of(#[trigger] r.players()[i].color()),
            forall|i: int| 0 <= i < 4 ==> (#[trigger] r.players()[i]).walls_left() == WALL_COUNT_4_PLAYERS,
            forall|i: int| 0 <= i < 4 ==> (#[trigger] r.players()[i]).win_total() == 0,
            r.turn() == 0,
            r.won_by().is_none(),
    {
        Self::setup(true)
    }

    /// The cell table of a fresh game: every cell with its on-board
    /// neighbours and its starting pawn.
    fn build_cells(four: bool) -> (spaces: Vec<BoardNode>)
        ensures
            spaces.len() == CELL_COUNT,
            forall|p: Point|
                in_bounds(p) ==> {
                    &&& forall|q: Point|
                        #[trigger] spaces@[cell_index(p)].neighbors@.contains(q) <==> adjacent(p, q)
                    &&& spaces@[cell_index(p)].neighbors@.no_duplicates()
                    &&& spaces@[cell_index(p)].contents == initial_contents(p, four)
                },
    {
        let mut spaces: Vec<BoardNode> = Vec::new();
        let mut row: isize = 0;
        while row < BOARD_SIZE
            invariant
                0 <= row <= BOARD_SIZE,
                spaces.len() == row * BOARD_SIZE,
                forall|p: Point|
                    in_bounds(p) && cell_index(p) < spaces.len() ==> {
                        &&& forall|q: Point|
                            #[trigger] spaces@[cell_index(p)].neighbors@.contains(q) <==> adjacent(
                                p,
                                q,
                            )
                        &&& spaces@[cell_index(p)].neighbors@.no_duplicates()
                        &&& spaces@[cell_index(p)].contents == initial_contents(p, four)
                    },
            decreases BOARD_SIZE - row,
        {
            let mut col: isize = 0;
            while col < BOARD_SIZE
                invariant
                    0 <= row < BOARD_SIZE,
                    0 <= col <= BOARD_SIZE,
                    spaces.len() == row * BOARD_SIZE + col,
                    forall|p: Point|
                        in_bounds(p) && cell_index(p) < spaces.len() ==> {
                            &&& forall|q: Point|
                                #[trigger] spaces@[cell_index(p)].neighbors@.contains(q)
                                    <==> adjacent(p, q)
                            &&& spaces@[cell_index(p)].neighbors@.no_duplicates()
                            &&& spaces@[cell_index(p)].contents == initial_contents(p, four)
                        },
                decreases BOARD_SIZE - col,
            {
                let contents = if row == 0 && col == 2 {
                    Some(Color::Red)
                } else if row == 4 && col == 2 {
                    Some(Color::Blue)
                } else if four && row == 2 && col == 0 {
                    Some(Color::Green)
                } else if four && row == 2 && col == 4 {
                    Some(Color::Yellow)
                } else {
                    None
                };
                let ghost prev = spaces@;
                spaces.push(BoardNode::new(row, col, contents));
                proof {
                    assert forall|p: Point| in_bounds(p) && cell_index(p) < spaces.len() implies
                        spaces@[cell_index(p)] == if cell_index(p) < prev.len() {
                            prev[cell_index(p)]
                        } else {
                            spaces@[prev.len() as int]
                        } by {}
                    assert forall|p: Point| in_bounds(p) && cell_index(p) == prev.len() implies p
                        == Point(row, col) by {}
                }
                col += 1;
            }
            row += 1;
        }
        spaces
    }

    /// A fresh game for two players, or for four.
    fn setup(four: bool) -> (r: Self)
        ensures
            r.wf(),
            r.walls() == Seq::<Wall>::empty(),
            r.players().len() == seat_colors(four).len(),
            forall|i: int|
                0 <= i < seat_colors(four).len() ==> (#[trigger] r.players()[i]).color() == seat_colors(four)[i],
            forall|i: int|
                0 <= i < seat_colors(four).len() ==> r.pawns()[i] == start_of(#[trigger] r.players()[i].color()),
            forall|i: int|
                0 <= i < seat_colors(four).len() ==> (#[trigger] r.players()[i]).walls_left() == if four {
                    WALL_COUNT_4_PLAYERS
                } else {
                    WALL_COUNT_2_PLAYERS
                },
            forall|i: int| 0 <= i < seat_colors(four).len() ==> (#[trigger] r.players()[i]).win_total() == 0,
            r.turn() == 0,
            r.won_by().is_none(),
    {
        let spaces = Self::build_cells(four);
        let (player_tbl, player_order) = if four {
            (
                vec![Point(4, 2), Point(2, 0), Point(0, 2), Point(2, 4)],
                vec![
                    Player::with_walls(Color::Blue, WALL_COUNT_4_PLAYERS),
                    Player::with_walls(Color::Green, WALL_COUNT_4_PLAYERS),
                    Player::with_walls(Color::Red, WALL_COUNT_4_PLAYERS),
                    Player::with_walls(Color::Yellow, WALL_COUNT_4_PLAYERS),
                ],
            )
        } else {
            (vec![Point(4, 2), Point(0, 2)], vec![Player::new(Color::Blue), Player::new(Color::Red)])
        };
        let board = Board { spaces, wall_spaces: Vec::new(), player_tbl, player_order, turn_cntr: 0, winner: None };
        proof {
            let walls = board.wall_spaces@;
            let n = board.player_tbl.len();
            assert(n == seat_colors(four).len());
            assert forall|i: int| 0 <= i < n implies (#[trigger] board.player_order@[i]).color() == seat_colors(four)[i]
                && board.player_tbl@[i] == start_of(seat_colors(four)[i]) by {}
            let down = Seq::new(5, |i: int| Point(i as isize, 2));
            let up = Seq::new(5, |i: int| Point((4 - i) as isize, 2));
            let right = Seq::new(5, |i: int| Point(2, i as isize));
            let left = Seq::new(5, |i: int| Point(2, (4 - i) as isize));
            assert(is_path(walls, down) && down.last() == Point(4, 2));
            assert(is_path(walls, up) && up.last() == Point(0, 2));
            assert(is_path(walls, right) && right.last() == Point(2, 4));
            assert(is_path(walls, left) && left.last() == Point(2, 0));
            assert(path_to_goal(walls, start_of(Color::Red), Color::Red));
            assert(path_to_goal(walls, start_of(Color::Blue), Color::Blue));
            assert(path_to_goal(walls, start_of(Color::Green), Color::Green));
            assert(path_to_goal(walls, start_of(Color::Yellow), Color::Yellow));
            assert forall|p: Point|
                in_bounds(p) && (#[trigger] board.spaces@[cell_index(p)]).contents.is_some() implies board.occupied(p) by {
                if p == Point(4, 2) {
                    assert(board.pawns()[0] == p);
                } else if !four {
                    assert(board.pawns()[1] == p);
                } else if p == Point(2, 0) {
                    assert(board.pawns()[1] == p);
                } else if p == Point(0, 2) {
                    assert(board.pawns()[2] == p);
                } else {
                    assert(board.pawns()[3] == p);
                }
            }
        }
        board
    }

    /// The player whose turn it is.
    fn get_cur_player(&self) -> (r: &Player)
        requires
            self.wf(),
        ensures
            *r == self.players()[self.turn()],
    {
        &self.player_order[self.turn_cntr]
    }

    /// Passes the turn to the next player in the rotation.
    fn next_turn(&mut self)
        requires
            old(self).wf(),
        ensures
            final(self).wf(),
            final(self).turn() == (old(self).turn() + 1) % (old(self).players().len() as int),
            final(self).spaces == old(self).spaces,
            final(self).wall_spaces == old(self).wall_spaces,
            final(self).player_tbl == old(self).player_tbl,
            final(self).player_order == old(self).player_order,
            final(self).winner == old(self).winner,
    {
        let ghost prev = *self;
        self.turn_cntr = (self.turn_cntr + 1) % self.player_order.len();
        proof {
            assert forall|p: Point|
                in_bounds(p) && (#[trigger] self.spaces@[cell_index(p)]).contents.is_some() implies self.occupied(p) by {
                assert(prev.occupied(p));
                let i = choose|i: int| 0 <= i < prev.pawns().len() && prev.pawns()[i] == p;
                assert(self.pawns()[i] == p);
            }
        }
    }

    /// The colour of the player whose turn it is.
    pub fn current_player(&self) -> (r: Color)
        requires
            self.wf(),
        ensures
            r == self.current_color(),
    {
        self.get_cur_player().get_id()
    }

    /// The seat in the turn order of the player of colour `c`, if it plays.
    fn seat_of(&self, c: Color) -> (r: Option<usize>)
        requires
            self.wf(),
        ensures
            r.is_some() == self.plays(c),
            r.is_some() ==> r.unwrap() < self.players().len() && self.players()[r.unwrap() as int].color() == c,
    {
        let mut i: usize = 0;
        while i < self.player_order.len()
            invariant
                i <= self.player_order.len(),
                forall|k: int| 0 <= k < i ==> (#[trigger] self.player_order@[k]).color() != c,
            decreases self.player_order.len() - i,
        {
            if self.player_order[i].get_id() == c {
                return Some(i);
            }
            i += 1;
        }
        None
    }

    /// The walls the player of colour `c` may still place, if it plays.
    pub fn wall_allowance(&self, c: Color) -> (r: Option<isize>)
        requires
            self.wf(),
        ensures
            r.is_some() == self.plays(c),
            forall|i: int|
                0 <= i < self.players().len() && (#[trigger] self.players()[i]).color() == c
                    ==> r.is_some() && r.unwrap() as int == self.players()[i].walls_left(),
    {
        match self.seat_of(c) {
            Some(i) => Some(self.player_order[i].get_wall_count()),
            None => None,
        }
    }

    /// How many games the player of colour `c` has won, if it plays.
    pub fn win_count(&self, c: Color) -> (r: Option<usize>)
        requires
            self.wf(),
        ensures
            r.is_some() == self.plays(c),
            forall|i: int|
                0 <= i < self.players().len() && (#[trigger] self.players()[i]).color() == c
                    ==> r.is_some() && r.unwrap() as nat == self.players()[i].win_total(),
    {
        match self.seat_of(c) {
            Some(i) => Some(self.player_order[i].get_win_count()),
            None => None,
        }
    }

    /// The colour that has won, if the game is over.
    pub fn winner(&self) -> (r: Option<Color>)
        ensures
            r == self.won_by(),
    {
        self.winner
    }

    /// The colour of the pawn on the cell, if any.
    pub fn occupant(&self, cell: Point) -> (r: Option<Color>)
        requires
            self.wf(),
        ensures
            r.is_some() == self.occupied(cell),
            forall|i: int|
                0 <= i < self.pawns().len() && #[trigger] self.pawns()[i] == cell ==> r == Some(
                    self.players()[i].color(),
                ),
    {
        if !on_board(cell) {
            return None;
        }
        let r = self.spaces[index_of_cell(cell)].contents;
        proof {
            if self.occupied(cell) {
                let i = choose|i: int| 0 <= i < self.pawns().len() && self.pawns()[i] == cell;
                assert(self.spaces@[cell_index(self.player_tbl@[i])].contents.is_some());
            }
        }
        r
    }

    /// The walls placed so far, oldest first.
    pub fn placed_walls(&self) -> (r: &Vec<Wall>)
        ensures
            r@ == self.walls(),
    {
        &self.wall_spaces
    }

    /// The directions in which the active pawn may move, each once.
    pub fn get_available_pawn_directions(&self) -> (r: Vec<Direction>)
        requires
            self.wf(),
        ensures
            r@.no_duplicates(),
            forall|d: Direction|
                #[trigger] r@.contains(d) <==> self.move_target(self.current_pawn(), d).is_some(),
    {
        self.directions_from(self.player_tbl[self.turn_cntr])
    }

    /// The cells the pawn of colour `c` may move to, each once; none when no
    /// player of that colour plays.
    pub fn legal_destinations(&self, c: Color) -> (r: Vec<Point>)
        requires
            self.wf(),
        ensures
            r@.no_duplicates(),
            r@.to_set() == self.legal_destination_set(c),
    {
        match self.seat_of(c) {
            Some(i) => {
                proof {
                    let j = choose|j: int| 0 <= j < self.players().len() && self.players()[j].color() == c;
                    assert(j == i);
                }
                self.destinations_of(self.player_tbl[i])
            },
            None => {
                let r = Vec::new();
                assert(r@.to_set() =~= Set::<Point>::empty());
                r
            },
        }
    }

    /// Whether some open walk under the placed walls leads from the
    /// on-board cell `start` to the goal edge of `color`.
    pub fn has_path_to_goal(&self, start: Point, color: Color) -> (r: bool)
        requires
            self.wf(),
            in_bounds(start),
        ensures
            r == path_to_goal(self.walls(), start, color),
    {
        self.has_path(&self.wall_spaces, start, color)
    }

    /// Whether the wall's slot is in the lattice and the wall clashes with
    /// no placed wall.
    fn fits(&self, w: &Wall) -> (r: bool)
        requires
            self.wf(),
        ensures
            r == self.wall_fits(*w),
    {
        if !(0 <= w.slot.0 && w.slot.0 < BOARD_SIZE - 1 && 0 <= w.slot.1 && w.slot.1 < BOARD_SIZE
            - 1) {
            return false;
        }
        let mut i: usize = 0;
        while i < self.wall_spaces.len()
            invariant
                self.wf(),
                wall_in_lattice(*w),
                i <= self.wall_spaces.len(),
                forall|k: int| 0 <= k < i ==> !walls_clash(#[trigger] self.wall_spaces@[k], *w),
            decreases self.wall_spaces.len() - i,
        {
            if clash(&self.wall_spaces[i], w) {
                assert(walls_clash(self.walls()[i as int], *w));
                return false;
            }
            i += 1;
        }
        true
    }

    /// Whether every pawn keeps a way to its goal edge once the wall, which
    /// lies in the lattice, is added.
    fn keeps_paths(&self, w: Wall) -> (r: bool)
        requires
            self.wf(),
            wall_in_lattice(w),
        ensures
            r == self.wall_keeps_paths(w),
    {
        let mut trial: Vec<Wall> = Vec::new();
        let mut i: usize = 0;
        while i < self.wall_spaces.len()
            invariant
                i <= self.wall_spaces.len(),
                trial@ == self.wall_spaces@.subrange(0, i as int),
            decreases self.wall_spaces.len() - i,
        {
            trial.push(self.wall_spaces[i]);
            i += 1;
            assert(trial@ =~= self.wall_spaces@.subrange(0, i as int));
        }
        assert(self.wall_spaces@.subrange(0, i as int) =~= self.wall_spaces@);
        trial.push(w);
        assert(walls_in_lattice(trial@));
        let mut k: usize = 0;
        while k < self.player_tbl.len()
            invariant
                self.wf(),
                trial@ == self.walls().push(w),
                walls_in_lattice(trial@),
                k <= self.player_tbl.len(),
                forall|j: int|
                    0 <= j < k ==> path_to_goal(
                        trial@,
                        #[trigger] self.pawns()[j],
                        self.players()[j].color(),
                    ),
            decreases self.player_tbl.len() - k,
        {
            if !self.has_path(&trial, self.player_tbl[k], self.player_order[k].get_id()) {
                return false;
            }
            k += 1;
        }
        true
    }

    /// Whether the wall may be placed now: its slot is in the lattice, it
    /// clashes with no placed wall, and every pawn keeps a way to its goal
    /// edge once it stands.
    pub fn can_place_wall(&self, wall: Wall) -> (r: bool)
        requires
            self.wf(),
        ensures
            r == (self.wall_fits(wall) && self.wall_keeps_paths(wall)),
    {
        self.fits(&wall) && self.keeps_paths(wall)
    }

    /// The active player places a wall, then the turn passes. Refused, with
    /// nothing changed, when the game is over, when the player has no walls
    /// left, when the slot is off the lattice, when the wall clashes with a
    /// placed one, or when it would cut some pawn off from its goal edge;
    /// the first of these that applies is reported.
    pub fn place_wall(&mut self, wall: Wall) -> (r: Result<(), WallError>)
        requires
            old(self).wf(),
        ensures
            final(self).wf(),
            old(self).won_by().is_some() ==> r == Err::<(), WallError>(WallError::GameAlreadyWon),
            old(self).won_by().is_none() && old(self).players()[old(self).turn()].walls_left() <= 0
                ==> r == Err::<(), WallError>(WallError::WallExhausted),
            old(self).won_by().is_none() && old(self).players()[old(self).turn()].walls_left() > 0
                && !wall_in_lattice(wall) ==> r == Err::<(), WallError>(WallError::OutOfBounds),
            old(self).won_by().is_none() && old(self).players()[old(self).turn()].walls_left() > 0
                && wall_in_lattice(wall) && !old(self).wall_fits(wall) ==> r == Err::<(), WallError>(
                WallError::WallOverlap,
            ),
            old(self).won_by().is_none() && old(self).players()[old(self).turn()].walls_left() > 0
                && old(self).wall_fits(wall) && !old(self).wall_keeps_paths(wall) ==> r == Err::<
                (),
                WallError,
            >(WallError::WallBlocksAllPaths),
            r.is_err() ==> *final(self) == *old(self),
            r.is_ok() && old(self).players().len() == 2 ==> final(self).current_color() != old(
                self,
            ).current_color(),
            r.is_ok() <==> {
                &&& old(self).won_by().is_none()
                &&& old(self).players()[old(self).turn()].walls_left() > 0
                &&& old(self).wall_fits(wall)
                &&& old(self).wall_keeps_paths(wall)
            },
            r.is_ok() ==> {
                &&& final(self).walls() == old(self).walls().push(wall)
                &&& final(self).pawns() == old(self).pawns()
                &&& final(self).turn() == (old(self).turn() + 1) % (old(self).players().len() as int)
                &&& final(self).won_by() == old(self).won_by()
                &&& final(self).players().len() == old(self).players().len()
                &&& forall|i: int|
                    0 <= i < old(self).players().len() ==> {
                        &&& (#[trigger] final(self).players()[i]).color() == old(self).players()[i].color()
                        &&& final(self).players()[i].win_total() == old(self).players()[i].win_total()
                        &&& final(self).players()[i].walls_left() == old(self).players()[i].walls_left()
                            - if i == old(self).turn() {
                            1int
                        } else {
                            0int
                        }
                    }
            },
    {
        if self.winner.is_some() {
            return Err(WallError::GameAlreadyWon);
        }
        let cur = self.turn_cntr;
        if self.player_order[cur].get_wall_count() <= 0 {
            return Err(WallError::WallExhausted);
        }
        if !(0 <= wall.slot.0 && wall.slot.0 < BOARD_SIZE - 1 && 0 <= wall.slot.1 && wall.slot.1
            < BOARD_SIZE - 1) {
            return Err(WallError::OutOfBounds);
        }
        if !self.fits(&wall) {
            return Err(WallError::WallOverlap);
        }
        if !self.keeps_paths(wall) {
            return Err(WallError::WallBlocksAllPaths);
        }
        let ghost prev = *self;
        self.player_order[cur].use_wall();
        self.wall_spaces.push(wall);
        proof {
            assert(self.pawns() == prev.pawns());
            assert forall|p: Point|
                in_bounds(p) && (#[trigger] self.spaces@[cell_index(p)]).contents.is_some() implies self.occupied(p) by {
                assert(prev.occupied(p));
                let i = choose|i: int| 0 <= i < prev.pawns().len() && prev.pawns()[i] == p;
                assert(self.pawns()[i] == p);
            }
            assert forall|i: int, j: int|
                0 <= i < j < self.wall_spaces@.len() implies !walls_clash(
                #[trigger] self.wall_spaces@[i],
                #[trigger] self.wall_spaces@[j],
            ) by {
                if j < prev.wall_spaces@.len() {
                    assert(prev.wall_spaces@[i] == self.wall_spaces@[i]);
                    assert(prev.wall_spaces@[j] == self.wall_spaces@[j]);
                } else {
                    assert(prev.walls()[i] == self.wall_spaces@[i]);
                    assert(self.wall_spaces@[j] == wall);
                    assert(!walls_clash(prev.walls()[i], wall));
                }
            }
            assert forall|i: int| 0 <= i < self.player_tbl.len() implies path_to_goal(
                self.wall_spaces@,
                #[trigger] self.player_tbl@[i],
                self.player_order@[i].color(),
            ) by {
                assert(self.wall_spaces@ == prev.walls().push(wall));
                assert(prev.pawns()[i] == self.player_tbl@[i]);
            }
            assert forall|i: int| 0 <= i < self.player_order.len() implies #[trigger] self.player_order@[i]
                == if i == cur {
                self.player_order@[i]
            } else {
                prev.player_order@[i]
            } by {}
        }
        self.next_turn();
        proof {
            if prev.players().len() == 2 {
                lemma_two_player_rotation(&prev, self);
            }
        }
        Ok(())
    }

    /// The active pawn moves in the given direction, then the turn passes;
    /// a pawn that reaches its goal edge wins the game. Refused, with
    /// nothing changed, when the game is over, when the cell one step that
    /// way is off the board, or when the move is not legal; the first of
    /// these that applies is reported.
    pub fn move_pawn(&mut self, direction: Direction) -> (r: Result<(), MoveError>)
        requires
            old(self).wf(),
        ensures
            final(self).wf(),
            old(self).won_by().is_some() ==> r == Err::<(), MoveError>(MoveError::GameAlreadyWon),
            old(self).won_by().is_none() && !in_bounds(
                offset(old(self).current_pawn(), row_step(direction), col_step(direction)),
            ) ==> r == Err::<(), MoveError>(MoveError::OutOfBounds),
            old(self).won_by().is_none() && in_bounds(
                offset(old(self).current_pawn(), row_step(direction), col_step(direction)),
            ) && old(self).move_target(old(self).current_pawn(), direction).is_none() ==> r == Err::<
                (),
                MoveError,
            >(MoveError::IllegalMove),
            r.is_err() ==> *final(self) == *old(self),
            r.is_ok() && old(self).players().len() == 2 ==> final(self).current_color() != old(
                self,
            ).current_color(),
            r.is_ok() <==> old(self).won_by().is_none() && old(self).move_target(
                old(self).current_pawn(),
                direction,
            ).is_some(),
            r.is_ok() ==> {
                let t = old(self).move_target(old(self).current_pawn(), direction).unwrap();
                let c = old(self).current_color();
                &&& final(self).pawns() == old(self).pawns().update(old(self).turn(), t)
                &&& final(self).walls() == old(self).walls()
                &&& final(self).turn() == (old(self).turn() + 1) % (old(self).players().len() as int)
                &&& final(self).won_by() == if goal_reached(c, t) {
                    Some(c)
                } else {
                    None
                }
                &&& final(self).players().len() == old(self).players().len()
                &&& forall|i: int|
                    0 <= i < old(self).players().len() ==> {
                        &&& (#[trigger] final(self).players()[i]).color() == old(self).players()[i].color()
                        &&& final(self).players()[i].walls_left() == old(self).players()[i].walls_left()
                        &&& final(self).players()[i].win_total() == old(self).players()[i].win_total()
                            + if i == old(self).turn() && goal_reached(c, t) {
                            1int
                        } else {
                            0int
                        }
                    }
            },
    {
        if self.winner.is_some() {
            return Err(MoveError::GameAlreadyWon);
        }
        let cur = self.turn_cntr;
        let from = self.player_tbl[cur];
        let (dr, dc) = step_of(direction);
        if !on_board(shift(from, dr, dc)) {
            return Err(MoveError::OutOfBounds);
        }
        let target = match self.target_of(from, direction) {
            Some(t) => t,
            None => {
                return Err(MoveError::IllegalMove);
            },
        };
        let color = self.player_order[cur].get_id();
        let ghost prev = *self;
        proof {
            lemma_target_facts(self, from, direction);
        }
        self.spaces[index_of_cell(from)].contents = None;
        self.spaces[index_of_cell(target)].contents = Some(color);
        self.player_tbl.set(cur, target);
        if at_goal(color, target) {
            self.winner = Some(color);
            self.player_order[cur].player_won();
        }
        proof {
            assert(self.pawns() == prev.pawns().update(cur as int, target));
            assert forall|p: Point| in_bounds(p) implies (#[trigger] self.spaces@[cell_index(p)]).neighbors
                == prev.spaces@[cell_index(p)].neighbors by {}
            assert forall|i: int| 0 <= i < self.player_tbl.len() && i != cur implies #[trigger] self.player_tbl@[i]
                != target && self.player_tbl@[i] != from by {
                assert(prev.pawns()[i] == self.player_tbl@[i]);
            }
            assert forall|p: Point|
                in_bounds(p) && (#[trigger] self.spaces@[cell_index(p)]).contents.is_some() implies self.occupied(p) by {
                if p == target {
                    assert(self.pawns()[cur as int] == p);
                } else {
                    assert(p != from);
                    assert(prev.occupied(p));
                    let i = choose|i: int| 0 <= i < prev.pawns().len() && prev.pawns()[i] == p;
                    assert(self.pawns()[i] == p);
                }
            }
            assert forall|i: int| 0 <= i < self.player_tbl.len() implies path_to_goal(
                self.wall_spaces@,
                #[trigger] self.player_tbl@[i],
                self.player_order@[i].color(),
            ) by {
                assert(path_to_goal(prev.wall_spaces@, prev.player_tbl@[i], prev.player_order@[i].color()));
            }
            assert forall|i: int| 0 <= i < self.player_order.len() && i != cur implies #[trigger] self.player_order@[i]
                == prev.player_order@[i] by {}
        }
        self.next_turn();
        proof {
            if prev.players().len() == 2 {
                lemma_two_player_rotation(&prev, self);
            }
        }
        Ok(())
    }

    /// Breadth-first search over the open steps from `start`: whether some
    /// walk reaches the goal edge of `color`.
    #[verifier::rlimit(40)]
    fn has_path(&self, walls: &Vec<Wall>, start: Point, color: Color) -> (r: bool)
        requires
            self.grid_wf(),
            walls_in_lattice(walls@),
            in_bounds(start),
        ensures
            r == path_to_goal(walls@, start, color),
    {
        let mut visited: Vec<bool> = Vec::new();
        while visited.len() < CELL_COUNT
            invariant
                visited.len() <= CELL_COUNT,
                count_false(visited@) == visited.len(),
                forall|k: int| 0 <= k < visited.len() ==> !visited@[k],
            decreases CELL_COUNT - visited.len(),
        {
            let ghost prev = visited@;
            visited.push(false);
            assert(visited@.drop_last() =~= prev);
        }
        let start_idx = index_of_cell(start);
        proof {
            lemma_count_false_set(visited@, start_idx as int);
        }
        visited.set(start_idx, true);
        let mut queue: Vec<Point> = Vec::new();
        queue.push(start);
        let ghost mut paths: Seq<Seq<Point>> = seq![seq![start]];
        proof {
            assert forall|p: Point| in_bounds(p) implies (visited@[cell_index(p)]
                <==> queue@.contains(p)) by {
                lemma_push_contains(Seq::<Point>::empty(), start, p);
            }
        }
        let mut head: usize = 0;
        while head < queue.len()
            invariant
                self.grid_wf(),
                walls_in_lattice(walls@),
                in_bounds(start),
                visited.len() == CELL_COUNT,
                queue.len() + count_false(visited@) == CELL_COUNT,
                head <= queue.len(),
                queue.len() >= 1,
                queue@[0] == start,
                forall|i: int| 0 <= i < queue.len() ==> in_bounds(#[trigger] queue@[i]),
                forall|p: Point|
                    #![trigger visited@[cell_index(p)]]
                    #![trigger queue@.contains(p)]
                    in_bounds(p) ==> (visited@[cell_index(p)] <==> queue@.contains(p)),
                paths.len() == queue.len(),
                forall|i: int|
                    0 <= i < queue.len() ==> {
                        &&& is_path(walls@, #[trigger] paths[i])
                        &&& paths[i][0] == start
                        &&& paths[i].last() == queue@[i]
                    },
                forall|i: int| 0 <= i < head ==> !goal_reached(color, #[trigger] queue@[i]),
                forall|i: int, q: Point|
                    0 <= i < head && #[trigger] open_edge(walls@, queue@[i], q)
                        ==> queue@.contains(q),
            decreases CELL_COUNT - head,
        {
            let p = queue[head];
            if at_goal(color, p) {
                proof {
                    let w = paths[head as int];
                    assert(is_path(walls@, w) && w[0] == start && goal_reached(color, w.last()));
                }
                return true;
            }
            let nbrs = &self.spaces[index_of_cell(p)].neighbors;
            let mut k: usize = 0;
            while k < nbrs.len()
                invariant
                    self.grid_wf(),
                    walls_in_lattice(walls@),
                    in_bounds(start),
                    in_bounds(p),
                    nbrs@ == self.spaces@[cell_index(p)].neighbors@,
                    k <= nbrs.len(),
                    visited.len() == CELL_COUNT,
                    queue.len() + count_false(visited@) == CELL_COUNT,
                    head < queue.len(),
                    queue@[head as int] == p,
                    queue@[0] == start,
                    forall|i: int| 0 <= i < queue.len() ==> in_bounds(#[trigger] queue@[i]),
                    forall|p: Point|
                        #![trigger visited@[cell_index(p)]]
                        #![trigger queue@.contains(p)]
                        in_bounds(p) ==> (visited@[cell_index(p)] <==> queue@.contains(p)),
                    paths.len() == queue.len(),
                    forall|i: int|
                        0 <= i < queue.len() ==> {
                            &&& is_path(walls@, #[trigger] paths[i])
                            &&& paths[i][0] == start
                            &&& paths[i].last() == queue@[i]
                        },
                    forall|i: int| 0 <= i < head ==> !goal_reached(color, #[trigger] queue@[i]),
                    forall|i: int, q: Point|
                        0 <= i < head && #[trigger] open_edge(walls@, queue@[i], q)
                            ==> queue@.contains(q),
                    forall|j: int|
                        0 <= j < k && open_edge(walls@, p, #[trigger] nbrs@[j])
                            ==> queue@.contains(nbrs@[j]),
                decreases nbrs.len() - k,
            {
                let q = nbrs[k];
                assert(nbrs@.contains(q));
                let qi = index_of_cell(q);
                if !visited[qi] && edge_open(walls, p, q) {
                    proof {
                        lemma_count_false_set(visited@, qi as int);
                    }
                    visited.set(qi, true);
                    let ghost prev = queue@;
                    queue.push(q);
                    proof {
                        lemma_path_extend(walls@, paths[head as int], q);
                        paths = paths.push(paths[head as int].push(q));
                        assert forall|x: Point| queue@.contains(x) <==> (prev.contains(x) || x == q) by {
                            lemma_push_contains(prev, q, x);
                        }
                        assert forall|i: int| 0 <= i < prev.len() implies queue@[i] == prev[i] by {}
                    }
                }
                k += 1;
            }
            proof {
                assert forall|q: Point| #[trigger] open_edge(walls@, p, q) implies queue@.contains(q) by {
                    assert(nbrs@.contains(q));
                    let j = choose|j: int| 0 <= j < nbrs.len() && nbrs@[j] == q;
                }
            }
            head += 1;
        }
        proof {
            assert forall|x: Point, y: Point|
                #![trigger queue@.contains(x), open_edge(walls@, x, y)]
                queue@.contains(x) && open_edge(walls@, x, y) implies queue@.contains(y) by {
                let i = choose|i: int| 0 <= i < queue.len() && queue@[i] == x;
                assert(open_edge(walls@, queue@[i], y));
            }
            if path_to_goal(walls@, start, color) {
                let path = choose|path: Seq<Point>|
                    is_path(walls@, path) && path[0] == start && goal_reached(color, #[trigger] path.last());
                assert(queue@.contains(queue@[0]));
                lemma_closed_region(walls@, queue@, path, path.len() - 1);
                let i = choose|i: int| 0 <= i < queue.len() && queue@[i] == path.last();
                assert(!goal_reached(color, queue@[i]));
            }
        }
        false
    }
}

/// In every consistent board (every board that `Board::new` creates and
/// `move_pawn` and `place_wall` keep), each pawn has an open walk to its
/// goal edge.
pub proof fn lemma_every_pawn_can_reach_goal(b: &Board)
    requires
        b.wf(),
    ensures
        forall|i: int|
            0 <= i < b.pawns().len() ==> path_to_goal(
                b.walls(),
                #[trigger] b.pawns()[i],
                b.players()[i].color(),
            ),
        b.pawns().len() == b.players().len(),
{
}

/// In every consistent board, there is one pawn per player, all on the
/// board and on distinct cells, and the cell table agrees with the pawn
/// table both ways.
pub proof fn lemma_occupancy_consistent(b: &Board)
    requires
        b.wf(),
    ensures
        b.pawns().len() == b.players().len(),
        forall|i: int| 0 <= i < b.pawns().len() ==> in_bounds(#[trigger] b.pawns()[i]),
        forall|i: int, j: int|
            0 <= i < j < b.pawns().len() ==> #[trigger] b.pawns()[i] != #[trigger] b.pawns()[j],
        forall|i: int|
            0 <= i < b.pawns().len() ==> b.cell_record(#[trigger] b.pawns()[i]) == Some(
                b.players()[i].color(),
            ),
        forall|p: Point|
            in_bounds(p) ==> (#[trigger] b.cell_record(p)).is_some() == b.occupied(p),
{
    assert forall|p: Point| in_bounds(p) implies (#[trigger] b.cell_record(p)).is_some() == b.occupied(p) by {
        if b.occupied(p) {
            let i = choose|i: int| 0 <= i < b.pawns().len() && b.pawns()[i] == p;
            assert(b.spaces@[cell_index(b.player_tbl@[i])].contents.is_some());
        }
    }
}

/// In every consistent board, the placed walls lie in the lattice and no
/// two of them share a slot, cross or overlap.
pub proof fn lemma_walls_never_clash(b: &Board)
    requires
        b.wf(),
    ensures
        walls_in_lattice(b.walls()),
        walls_exclusive(b.walls()),
{
}

/// Asking twice for the legal destinations of a colour, with no change to
/// the board between, gives the same set.
pub proof fn lemma_destinations_idempotent(b: &Board, c: Color, first: Seq<Point>, second: Seq<Point>)
    requires
        first.to_set() == b.legal_destination_set(c),
        second.to_set() == b.legal_destination_set(c),
    ensures
        first.to_set() == second.to_set(),
{
}

/// In a two-player game, passing the turn on gives it to the other player,
/// and passing it on twice gives it back.
pub proof fn lemma_two_player_rotation(before: &Board, after: &Board)
    requires
        before.wf(),
        after.wf(),
        before.players().len() == 2,
        after.players().len() == 2,
        forall|i: int|
            0 <= i < 2 ==> (#[trigger] after.players()[i]).color() == before.players()[i].color(),
        after.turn() == (before.turn() + 1) % 2,
    ensures
        after.current_color() != before.current_color(),
        (after.turn() + 1) % 2 == before.turn(),
{
    assert(before.player_order@[0].color() != before.player_order@[1].color());
}

} // verus!
