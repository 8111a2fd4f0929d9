//! The client's screens around the networking core: main menu, connecting,
//! loading until the replicated scene and the player's own predicted entity
//! are present, then playing.
use vstd::prelude::*;

verus! {

#[derive(Clone, Copy, Debug, PartialEq, Eq, Hash, Structural)]
pub enum GameState {
    MainMenu,
    ConnectingRemote,
    Loading,
    Playing,
}

/// Marker of the plugin that drives `GameState`.
pub struct GameLifecyclePlugin;

/// Marker of the plugin that shows the main menu.
pub struct MainMenuPlugin;

/// Marker of the camera that renders the menu.
pub struct MenuCamera;

/// Marker of the menu's root node.
pub struct MainMenu;

/// Marker of the menu's status line.
pub struct MainMenuStatusText;

/// Marker of the menu's connect button.
pub struct ConnectButton;

/// Marker of the plugin shared by client and server.
pub struct CommonPlugin;

/// Walls a loaded level has at least.
pub const MIN_WALLS: usize = 4;

/// The scene counts as loaded once a floor, at least four walls and the
/// player's own controlled entity have been replicated.
pub open spec fn scene_loaded(floors: usize, walls: usize, controlled_predicted: usize, controlled: usize) -> bool {
    floors > 0 && walls >= MIN_WALLS && (controlled_predicted > 0 || controlled > 0)
}

/// Whether loading is complete.
pub fn loading_complete(floors: usize, walls: usize, controlled_predicted: usize, controlled: usize) -> (r: bool)
    ensures
        r == scene_loaded(floors, walls, controlled_predicted, controlled),
{
    floors > 0 && walls >= MIN_WALLS && (controlled_predicted > 0 || controlled > 0)
}

/// The state after checking the scene: loading turns into playing once
/// loaded; every other state stays.
pub fn after_load_check(state: GameState, loaded: bool) -> (r: GameState)
    ensures
        r == (if state == GameState::Loading && loaded { GameState::Playing } else { state }),
{
    if state == GameState::Loading && loaded {
        GameState::Playing
    } else {
        state
    }
}

/// The connect button was clicked: the main menu moves on to connecting.
pub fn after_connect_click(state: GameState) -> (r: GameState)
    ensures
        r == (if state == GameState::MainMenu { GameState::ConnectingRemote } else { state }),
{
    if state == GameState::MainMenu {
        GameState::ConnectingRemote
    } else {
        state
    }
}

/// The menu's status line on entering `state`, where it changes.
pub fn status_text(state: GameState) -> (r: Option<String>)
    ensures
        state == GameState::ConnectingRemote ==> (r matches Some(s) && s@ == "Connecting"@),
        state == GameState::Loading ==> (r matches Some(s) && s@ == "Loading game..."@),
        (state == GameState::MainMenu || state == GameState::Playing) ==> r is None,
{
    match state {
        GameState::ConnectingRemote => Some("Connecting".to_owned()),
        GameState::Loading => Some("Loading game...".to_owned()),
        _ => None,
    }
}

/// The session became connected: a client that was connecting goes on to
/// loading; every other state stays.
pub fn after_connected(state: GameState) -> (r: GameState)
    ensures
        r == (if state == GameState::ConnectingRemote { GameState::Loading } else { state }),
{
    if state == GameState::ConnectingRemote {
        GameState::Loading
    } else {
        state
    }
}

/// The session was lost: every state goes back to the main menu.
pub fn after_disconnected(state: GameState) -> (r: GameState)
    ensures
        r == GameState::MainMenu,
{
    GameState::MainMenu
}

/// The periodic connection check: while loading or playing, a client that
/// exists but is no longer connected returns to the main menu. A connection
/// attempt in progress is left alone.
pub fn after_connection_check(state: GameState, connected: bool, client_exists: bool) -> (r: GameState)
    ensures
        r == (if (state == GameState::Loading || state == GameState::Playing) && !connected && client_exists {
            GameState::MainMenu
        } else {
            state
        }),
{
    if (state == GameState::Loading || state == GameState::Playing) && !connected && client_exists {
        GameState::MainMenu
    } else {
        state
    }
}

/// Auto-connect: with it switched on, the main menu moves on to connecting
/// without a click.
pub fn after_auto_connect(state: GameState, auto_connect: bool) -> (r: GameState)
    ensures
        r == (if auto_connect && state == GameState::MainMenu { GameState::ConnectingRemote } else { state }),
{
    if auto_connect && state == GameState::MainMenu {
        GameState::ConnectingRemote
    } else {
        state
    }
}

} // verus!
