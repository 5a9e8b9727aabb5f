use snake_game::config::{Config, ConfigError};
use snake_game::input::{classify_key, Debouncer, Key, KeyCommand};
use snake_game::snake::Direction;

#[test]
fn debounce_suppresses_repeats() {
    let mut d = Debouncer::new();
    assert!(d.observe(Key::Up), "first event is forwarded");
    assert!(!d.observe(Key::Up), "immediate repeat is suppressed");
    assert!(!d.observe(Key::Up), "further repeats stay suppressed");
    assert!(d.observe(Key::Down), "a differing event is forwarded");
    assert!(d.observe(Key::Up), "the old key counts as new again");
}

#[test]
fn debounce_resets_on_death_signal() {
    let mut d = Debouncer::new();
    assert!(d.observe(Key::Char('w')));
    assert!(!d.observe(Key::Char('w')));
    d.note_death();
    assert!(d.observe(Key::Char('w')), "same key forwards again after the round ended");
}

#[test]
fn classify_covers_arrows_letters_and_escape() {
    assert_eq!(classify_key(Key::Up), KeyCommand::Move(Direction::Up));
    assert_eq!(classify_key(Key::Down), KeyCommand::Move(Direction::Down));
    assert_eq!(classify_key(Key::Left), KeyCommand::Move(Direction::Left));
    assert_eq!(classify_key(Key::Right), KeyCommand::Move(Direction::Right));
    assert_eq!(classify_key(Key::Char('w')), KeyCommand::Move(Direction::Up));
    assert_eq!(classify_key(Key::Char('s')), KeyCommand::Move(Direction::Down));
    assert_eq!(classify_key(Key::Char('a')), KeyCommand::Move(Direction::Left));
    assert_eq!(classify_key(Key::Char('d')), KeyCommand::Move(Direction::Right));
    assert_eq!(classify_key(Key::Char('x')), KeyCommand::Ignore);
    assert_eq!(classify_key(Key::Esc), KeyCommand::Quit);
    assert_eq!(classify_key(Key::Other), KeyCommand::Ignore);
}

#[test]
fn config_accepts_reasonable_boards() {
    let c = Config::new(20, 10, 500, 30).expect("valid configuration");
    assert_eq!(c.board_width, 20);
    assert_eq!(c.board_height, 10);
    assert_eq!(c.speed, 500);
    assert_eq!(c.num_food, 30);
}

#[test]
fn config_rejects_zero_dimensions() {
    assert_eq!(Config::new(0, 10, 0, 0), Err(ConfigError::ZeroWidth));
    assert_eq!(Config::new(10, 0, 0, 0), Err(ConfigError::ZeroHeight));
}

#[test]
fn config_rejects_too_much_food() {
    // 4 x 4 board: at most 8 food cells are allowed
    assert_eq!(Config::new(4, 4, 0, 9), Err(ConfigError::TooMuchFood));
    assert!(Config::new(4, 4, 0, 8).is_ok());
}

#[test]
fn config_rejects_unaddressable_boards() {
    assert_eq!(Config::new(usize::MAX, 2, 0, 0), Err(ConfigError::BoardTooLarge));
}

#[test]
fn tick_length_shrinks_with_speed() {
    let slow = Config::new(5, 5, 0, 1).unwrap();
    assert_eq!(slow.tick_ms(), 1000);
    let fast = Config::new(5, 5, 999, 1).unwrap();
    assert_eq!(fast.tick_ms(), 1);
    let mid = Config::new(5, 5, 400, 1).unwrap();
    assert_eq!(mid.tick_ms(), 600);
    let over = Config::new(5, 5, 5000, 1).unwrap();
    assert_eq!(over.tick_ms(), 1, "speed counts for at most 999");
}

#[test]
fn terminal_size_check() {
    let c = Config::new(10, 10, 0, 1).unwrap();
    // (10 + 1) * 2 = 22 columns and 10 + 3 = 13 rows are needed
    assert!(c.fits_terminal(22, 13));
    assert!(!c.fits_terminal(21, 13));
    assert!(!c.fits_terminal(22, 12));
}
