use quoridor::board::{Board, MoveError, WallError};
use quoridor::grid::{Orientation, Point, Wall};
use quoridor::player::{Color, Direction};
use std::collections::HashSet;

fn h(row: isize, col: isize) -> Wall {
    Wall { slot: Point(row, col), orientation: Orientation::Horizontal }
}

fn v(row: isize, col: isize) -> Wall {
    Wall { slot: Point(row, col), orientation: Orientation::Vertical }
}

fn set_of(points: &[(isize, isize)]) -> HashSet<Point> {
    points.iter().map(|&(r, c)| Point(r, c)).collect()
}

fn destinations(board: &Board, color: Color) -> HashSet<Point> {
    board.legal_destinations(color).into_iter().collect()
}

fn go(board: &mut Board, d: Direction) {
    assert_eq!(board.move_pawn(d), Ok(()));
}

fn wall(board: &mut Board, w: Wall) {
    assert_eq!(board.place_wall(w), Ok(()));
}

#[test]
fn fresh_board_red_destinations() {
    let board = Board::new();
    assert_eq!(board.occupant(Point(0, 2)), Some(Color::Red));
    assert_eq!(board.occupant(Point(4, 2)), Some(Color::Blue));
    assert_eq!(destinations(&board, Color::Red), set_of(&[(1, 2), (0, 1), (0, 3)]));
    assert_eq!(destinations(&board, Color::Blue), set_of(&[(3, 2), (4, 1), (4, 3)]));
    assert_eq!(board.legal_destinations(Color::Red).len(), 3);
}

#[test]
fn fresh_board_state() {
    let board = Board::new();
    assert_eq!(board.current_player(), Color::Blue);
    assert_eq!(board.winner(), None);
    assert_eq!(board.wall_allowance(Color::Red), Some(10));
    assert_eq!(board.wall_allowance(Color::Blue), Some(10));
    assert_eq!(board.wall_allowance(Color::Green), None);
    assert_eq!(board.win_count(Color::Red), Some(0));
    assert_eq!(board.win_count(Color::Yellow), None);
    assert!(board.placed_walls().is_empty());
    assert!(board.legal_destinations(Color::Green).is_empty());
    let dirs: HashSet<Direction> = board.get_available_pawn_directions().into_iter().collect();
    let expected: HashSet<Direction> = [Direction::N, Direction::E, Direction::W].into_iter().collect();
    assert_eq!(dirs, expected);
}

#[test]
fn wall_allowed_with_detour_and_refused_when_boxing_in() {
    let mut board = Board::new();
    // Cuts Red's straight way down; the detour round it remains.
    assert!(board.can_place_wall(h(0, 1)));
    wall(&mut board, h(0, 1));
    go(&mut board, Direction::E);
    assert!(board.can_place_wall(h(0, 3)));
    wall(&mut board, h(0, 3));
    go(&mut board, Direction::W);
    // The last gap at the left would shut Red in the top row.
    assert!(!board.can_place_wall(v(0, 0)));
    assert_eq!(board.place_wall(v(0, 0)), Err(WallError::WallBlocksAllPaths));
    assert_eq!(board.placed_walls().len(), 2);
    assert_eq!(board.current_player(), Color::Blue);
    assert_eq!(board.wall_allowance(Color::Blue), Some(8));
}

#[test]
fn straight_jump_over_adjacent_pawn() {
    let mut board = Board::new();
    go(&mut board, Direction::N); // Blue to (3,2)
    go(&mut board, Direction::S); // Red to (1,2)
    go(&mut board, Direction::E); // Blue to (3,3)
    go(&mut board, Direction::S); // Red to (2,2)
    go(&mut board, Direction::W); // Blue to (3,2)
    assert_eq!(board.current_player(), Color::Red);
    assert_eq!(destinations(&board, Color::Red), set_of(&[(4, 2), (2, 1), (2, 3), (1, 2)]));
    go(&mut board, Direction::S);
    assert_eq!(board.occupant(Point(4, 2)), Some(Color::Red));
    assert_eq!(board.occupant(Point(2, 2)), None);
    assert_eq!(board.winner(), Some(Color::Red));
}

#[test]
fn blocked_jump_offers_diagonals() {
    let mut board = Board::new();
    go(&mut board, Direction::N); // Blue to (3,2)
    go(&mut board, Direction::S); // Red to (1,2)
    wall(&mut board, h(3, 2)); // cuts (3,2)-(4,2)
    go(&mut board, Direction::S); // Red to (2,2)
    wall(&mut board, h(0, 0));
    let dest = destinations(&board, Color::Red);
    assert!(dest.contains(&Point(3, 1)));
    assert!(dest.contains(&Point(3, 3)));
    assert!(!dest.contains(&Point(4, 2)));
    assert_eq!(dest, set_of(&[(1, 2), (2, 1), (2, 3), (3, 1), (3, 3)]));
    assert_eq!(board.move_pawn(Direction::S), Err(MoveError::IllegalMove));
    go(&mut board, Direction::SW);
    assert_eq!(board.occupant(Point(3, 1)), Some(Color::Red));
}

#[test]
fn jump_off_board_offers_diagonals() {
    let mut board = Board::new();
    go(&mut board, Direction::N); // Blue to (3,2)
    go(&mut board, Direction::W); // Red to (0,1)
    go(&mut board, Direction::N); // Blue to (2,2)
    go(&mut board, Direction::E); // Red to (0,2)
    go(&mut board, Direction::N); // Blue to (1,2)
    wall(&mut board, h(3, 0));
    assert_eq!(destinations(&board, Color::Blue), set_of(&[(0, 1), (0, 3), (1, 1), (1, 3), (2, 2)]));
    assert_eq!(board.move_pawn(Direction::N), Err(MoveError::IllegalMove));
    go(&mut board, Direction::NE);
    assert_eq!(board.winner(), Some(Color::Blue));
    assert_eq!(board.win_count(Color::Blue), Some(1));
}

#[test]
fn wall_allowance_runs_out() {
    let mut board = Board::new();
    let walls = [h(0, 0), h(0, 2), h(1, 0), h(1, 2), h(2, 0), h(2, 2), h(3, 0), h(3, 2), v(0, 1), v(2, 1)];
    for (k, w) in walls.iter().enumerate() {
        wall(&mut board, *w);
        assert_eq!(board.wall_allowance(Color::Blue), Some(9 - k as isize));
        go(&mut board, if k % 2 == 0 { Direction::E } else { Direction::W });
    }
    assert_eq!(board.wall_allowance(Color::Blue), Some(0));
    assert_eq!(board.current_player(), Color::Blue);
    assert_eq!(board.place_wall(v(3, 3)), Err(WallError::WallExhausted));
    assert_eq!(board.placed_walls().len(), 10);
    assert_eq!(board.current_player(), Color::Blue);
}

#[test]
fn reaching_goal_ends_game() {
    let mut board = Board::new();
    go(&mut board, Direction::E); // Blue to (4,3)
    go(&mut board, Direction::S); // Red to (1,2)
    go(&mut board, Direction::E); // Blue to (4,4)
    go(&mut board, Direction::S); // Red to (2,2)
    go(&mut board, Direction::W); // Blue to (4,3)
    go(&mut board, Direction::S); // Red to (3,2)
    go(&mut board, Direction::E); // Blue to (4,4)
    assert_eq!(board.winner(), None);
    go(&mut board, Direction::S); // Red to (4,2)
    assert_eq!(board.winner(), Some(Color::Red));
    assert_eq!(board.win_count(Color::Red), Some(1));
    assert_eq!(board.win_count(Color::Blue), Some(0));
    assert_eq!(board.move_pawn(Direction::N), Err(MoveError::GameAlreadyWon));
    assert_eq!(board.place_wall(h(0, 0)), Err(WallError::GameAlreadyWon));
    assert!(board.placed_walls().is_empty());
}

#[test]
fn destinations_query_is_idempotent() {
    let mut board = Board::new();
    wall(&mut board, h(0, 1));
    let first = destinations(&board, Color::Red);
    let second = destinations(&board, Color::Red);
    assert_eq!(first, second);
    assert_eq!(first, set_of(&[(0, 1), (0, 3)]));
}

#[test]
fn turns_alternate_and_refusals_keep_turn() {
    let mut board = Board::new();
    assert_eq!(board.current_player(), Color::Blue);
    assert_eq!(board.move_pawn(Direction::S), Err(MoveError::OutOfBounds));
    assert_eq!(board.current_player(), Color::Blue);
    go(&mut board, Direction::N);
    assert_eq!(board.current_player(), Color::Red);
    assert_eq!(board.place_wall(h(7, 0)), Err(WallError::OutOfBounds));
    assert_eq!(board.current_player(), Color::Red);
    wall(&mut board, h(2, 2));
    assert_eq!(board.current_player(), Color::Blue);
    assert_eq!(board.wall_allowance(Color::Red), Some(9));
    go(&mut board, Direction::W);
    assert_eq!(board.current_player(), Color::Red);
}

#[test]
fn move_errors() {
    let mut board = Board::new();
    assert_eq!(board.move_pawn(Direction::S), Err(MoveError::OutOfBounds));
    assert_eq!(board.move_pawn(Direction::SE), Err(MoveError::OutOfBounds));
    // A diagonal with no pawn to go round is not a move.
    assert_eq!(board.move_pawn(Direction::NE), Err(MoveError::IllegalMove));
    wall(&mut board, h(3, 1)); // Blue cuts its own step north
    wall(&mut board, h(0, 0));
    assert_eq!(board.move_pawn(Direction::N), Err(MoveError::IllegalMove));
    assert_eq!(board.occupant(Point(4, 2)), Some(Color::Blue));
}

#[test]
fn wall_clashes_are_refused() {
    let mut board = Board::new();
    wall(&mut board, h(1, 1));
    // Same slot, same way.
    assert_eq!(board.place_wall(h(1, 1)), Err(WallError::WallOverlap));
    // Same slot, crossing.
    assert_eq!(board.place_wall(v(1, 1)), Err(WallError::WallOverlap));
    // Overlapping halves.
    assert_eq!(board.place_wall(h(1, 0)), Err(WallError::WallOverlap));
    assert_eq!(board.place_wall(h(1, 2)), Err(WallError::WallOverlap));
    assert!(!board.can_place_wall(h(1, 2)));
    // Off the lattice.
    assert_eq!(board.place_wall(v(0, 4)), Err(WallError::OutOfBounds));
    assert_eq!(board.place_wall(v(-1, 0)), Err(WallError::OutOfBounds));
    assert!(!board.can_place_wall(v(4, 0)));
    // End to end on one line, and parallel neighbours, are fine.
    wall(&mut board, h(1, 3));
    wall(&mut board, v(2, 0));
    wall(&mut board, v(2, 1));
    assert_eq!(board.placed_walls().len(), 4);
    assert_eq!(board.placed_walls()[0], h(1, 1));
}

#[test]
fn occupancy_tracks_moves() {
    let mut board = Board::new();
    go(&mut board, Direction::W);
    assert_eq!(board.occupant(Point(4, 2)), None);
    assert_eq!(board.occupant(Point(4, 1)), Some(Color::Blue));
    assert_eq!(board.occupant(Point(9, 9)), None);
    assert_eq!(board.occupant(Point(-1, 0)), None);
    let mut seen = 0;
    for r in 0..5 {
        for c in 0..5 {
            if board.occupant(Point(r, c)).is_some() {
                seen += 1;
            }
        }
    }
    assert_eq!(seen, 2);
}

#[test]
fn four_player_game_setup_and_rotation() {
    let mut board = Board::new_four_players();
    assert_eq!(board.occupant(Point(4, 2)), Some(Color::Blue));
    assert_eq!(board.occupant(Point(2, 0)), Some(Color::Green));
    assert_eq!(board.occupant(Point(0, 2)), Some(Color::Red));
    assert_eq!(board.occupant(Point(2, 4)), Some(Color::Yellow));
    for c in [Color::Blue, Color::Green, Color::Red, Color::Yellow] {
        assert_eq!(board.wall_allowance(c), Some(5));
        assert_eq!(board.win_count(c), Some(0));
    }
    assert_eq!(destinations(&board, Color::Green), set_of(&[(1, 0), (3, 0), (2, 1)]));
    assert_eq!(board.current_player(), Color::Blue);
    go(&mut board, Direction::N);
    assert_eq!(board.current_player(), Color::Green);
    go(&mut board, Direction::E);
    assert_eq!(board.current_player(), Color::Red);
    wall(&mut board, v(0, 0));
    assert_eq!(board.wall_allowance(Color::Red), Some(4));
    assert_eq!(board.current_player(), Color::Yellow);
    go(&mut board, Direction::W);
    assert_eq!(board.current_player(), Color::Blue);
}

#[test]
fn four_player_side_goal() {
    let mut board = Board::new_four_players();
    go(&mut board, Direction::E); // Blue to (4,3)
    go(&mut board, Direction::S); // Green to (3,0)
    go(&mut board, Direction::E); // Red to (0,3)
    go(&mut board, Direction::W); // Yellow to (2,3)
    go(&mut board, Direction::E); // Blue to (4,4)
    go(&mut board, Direction::E); // Green to (3,1)
    go(&mut board, Direction::W); // Red to (0,2)
    go(&mut board, Direction::W); // Yellow to (2,2)
    go(&mut board, Direction::N); // Blue to (3,4)
    go(&mut board, Direction::E); // Green to (3,2)
    go(&mut board, Direction::E); // Red to (0,3)
    go(&mut board, Direction::W); // Yellow to (2,1)
    go(&mut board, Direction::W); // Blue to (3,3)
    assert_eq!(board.winner(), None);
    // Green jumps Blue on (3,3) and lands on the last column.
    assert!(destinations(&board, Color::Green).contains(&Point(3, 4)));
    go(&mut board, Direction::E);
    assert_eq!(board.winner(), Some(Color::Green));
    assert_eq!(board.win_count(Color::Green), Some(1));
    assert_eq!(board.move_pawn(Direction::N), Err(MoveError::GameAlreadyWon));
}

fn every_pawn_reaches_goal(board: &Board) -> bool {
    let mut ok = true;
    for r in 0..5 {
        for c in 0..5 {
            if let Some(color) = board.occupant(Point(r, c)) {
                ok = ok && board.has_path_to_goal(Point(r, c), color);
            }
        }
    }
    ok
}

#[test]
fn pawns_keep_a_way_to_goal() {
    let mut board = Board::new();
    assert!(every_pawn_reaches_goal(&board));
    let attempts = [h(0, 1), h(0, 3), v(0, 0), h(1, 0), v(1, 2), h(3, 1), h(3, 3), v(3, 0)];
    for w in attempts.iter() {
        let before = board.placed_walls().len();
        match board.place_wall(*w) {
            Ok(()) => assert_eq!(board.placed_walls().len(), before + 1),
            Err(_) => assert_eq!(board.placed_walls().len(), before),
        }
        assert!(every_pawn_reaches_goal(&board));
    }
    // The top row leads down only through column 0, so that gap stays open.
    assert_eq!(board.place_wall(v(0, 0)), Err(WallError::WallBlocksAllPaths));
    assert!(board.has_path_to_goal(Point(0, 2), Color::Red));
}

#[test]
fn path_query_sees_walls() {
    let mut board = Board::new();
    assert!(board.has_path_to_goal(Point(0, 0), Color::Red));
    wall(&mut board, h(0, 1));
    wall(&mut board, h(0, 3));
    // (0,1)..(0,4) now only lead down through (0,0).
    assert!(board.has_path_to_goal(Point(0, 4), Color::Red));
    assert!(!board.can_place_wall(v(0, 0)));
    assert!(board.has_path_to_goal(Point(0, 0), Color::Blue));
    assert!(board.has_path_to_goal(Point(3, 3), Color::Yellow));
}
