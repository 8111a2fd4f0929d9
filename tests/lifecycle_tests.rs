use netcore::lifecycle::{after_connect_click, after_load_check, loading_complete, status_text, GameState};

#[test]
fn loading_needs_floor_walls_and_player() {
    assert!(loading_complete(1, 4, 1, 0));
    assert!(loading_complete(1, 5, 0, 1));
    assert!(!loading_complete(0, 4, 1, 1));
    assert!(!loading_complete(1, 3, 1, 1));
    assert!(!loading_complete(1, 4, 0, 0));
}

#[test]
fn screen_flow() {
    let s = after_connect_click(GameState::MainMenu);
    assert_eq!(s, GameState::ConnectingRemote);
    assert_eq!(after_load_check(GameState::Loading, true), GameState::Playing);
    assert_eq!(after_load_check(GameState::Loading, false), GameState::Loading);
    assert_eq!(after_load_check(GameState::MainMenu, true), GameState::MainMenu);
    assert_eq!(status_text(GameState::ConnectingRemote), Some("Connecting".to_string()));
    assert_eq!(status_text(GameState::Loading), Some("Loading game...".to_string()));
    assert_eq!(status_text(GameState::Playing), None);
}

use netcore::lifecycle::{after_auto_connect, after_connected, after_connection_check, after_disconnected};

#[test]
fn connection_transitions() {
    assert_eq!(after_connected(GameState::ConnectingRemote), GameState::Loading);
    assert_eq!(after_connected(GameState::Playing), GameState::Playing);
    assert_eq!(after_disconnected(GameState::Playing), GameState::MainMenu);
    assert_eq!(after_disconnected(GameState::MainMenu), GameState::MainMenu);
    assert_eq!(after_connection_check(GameState::Playing, false, true), GameState::MainMenu);
    assert_eq!(after_connection_check(GameState::Loading, false, false), GameState::Loading);
    assert_eq!(after_connection_check(GameState::ConnectingRemote, false, true), GameState::ConnectingRemote);
    assert_eq!(after_connection_check(GameState::Playing, true, true), GameState::Playing);
    assert_eq!(after_auto_connect(GameState::MainMenu, true), GameState::ConnectingRemote);
    assert_eq!(after_auto_connect(GameState::MainMenu, false), GameState::MainMenu);
}
