use rusthello::menu::{Menu, Player, Settings};

fn sizes_menu() -> Menu<usize> {
    Menu { prompt: String::from("board size:"), default: 2, options: vec![9, 13, 19] }
}

#[test]
fn empty_input_selects_the_default() {
    let menu = sizes_menu();
    assert_eq!(menu.select_option(None), Some(2));
}

#[test]
fn numbered_input_selects_that_option() {
    let menu = sizes_menu();
    assert_eq!(menu.select_option(Some(0)), Some(0));
    assert_eq!(menu.select_option(Some(1)), Some(1));
    assert_eq!(menu.select_option(Some(2)), Some(2));
}

#[test]
fn out_of_range_input_selects_nothing() {
    let menu = sizes_menu();
    assert_eq!(menu.select_option(Some(3)), None);
    assert_eq!(menu.select_option(Some(1000)), None);
}

#[test]
fn default_settings() {
    let s = Settings::default();
    assert_eq!(s.black, Player::Human);
    assert_eq!(s.white, Player::Human);
    assert_eq!(s.board_size, 19);
    assert_eq!(s.handicap, 0);
    assert!(!s.is_gtp_mode);
}

#[test]
fn gtp_mode_keeps_the_default_settings() {
    let s = Settings::request_new(true, Player::Computer, Player::Computer, 9, 5);
    assert!(s.is_gtp_mode);
    assert_eq!(s.black, Player::Human);
    assert_eq!(s.white, Player::Human);
    assert_eq!(s.board_size, 19);
    assert_eq!(s.handicap, 0);
}

#[test]
fn interactive_mode_takes_the_selections() {
    let s = Settings::request_new(false, Player::Human, Player::Computer, 13, 3);
    assert!(!s.is_gtp_mode);
    assert_eq!(s.black, Player::Human);
    assert_eq!(s.white, Player::Computer);
    assert_eq!(s.board_size, 13);
    assert_eq!(s.handicap, 3);
}

#[test]
fn players_for_each_colour() {
    let s = Settings::request_new(false, Player::Human, Player::Computer, 19, 0);
    assert_eq!(s.get_player_settings(true), Player::Human);
    assert_eq!(s.get_player_settings(false), Player::Computer);
}

#[test]
fn player_names() {
    assert_eq!(Player::Human.name(), "human");
    assert_eq!(Player::Computer.name(), "computer");
}
