use quoridor::player::{Color, Player, WALL_COUNT_2_PLAYERS};

#[test]
fn validate_get_id() {
    let cases = [
        (Player::new(Color::Red), Color::Red),
        (Player::new(Color::Blue), Color::Blue),
        (Player::new(Color::Green), Color::Green),
        (Player::new(Color::Yellow), Color::Yellow),
    ];
    for (player, expected) in cases.iter() {
        assert_eq!(player.get_id(), *expected);
    }
}

#[test]
fn validate_win_tracking() {
    for expected in [0usize, 6, 5, 42, 343] {
        let mut player = Player::new(Color::Blue);
        for _ in 0..expected {
            player.player_won();
        }
        assert_eq!(player.get_win_count(), expected);
    }
}

#[test]
fn validate_wall_usage() {
    for (walls_used, expected) in [(0isize, 10isize), (6, 4), (5, 5), (10, 0), (11, 0)] {
        let mut player = Player::new(Color::Blue);
        for _ in 0..walls_used {
            player.use_wall();
        }
        assert_eq!(player.get_wall_count(), expected);
    }
}

#[test]
fn new_player_starts_with_two_player_allowance() {
    let player = Player::new(Color::Green);
    assert_eq!(player.get_wall_count(), WALL_COUNT_2_PLAYERS);
    assert_eq!(player.get_wall_count(), 10);
    assert_eq!(player.get_win_count(), 0);
}

#[test]
fn player_with_custom_allowance_stops_at_zero() {
    let mut player = Player::with_walls(Color::Yellow, 5);
    assert_eq!(player.get_wall_count(), 5);
    for _ in 0..7 {
        player.use_wall();
    }
    assert_eq!(player.get_wall_count(), 0);
    assert_eq!(player.get_id(), Color::Yellow);
}
