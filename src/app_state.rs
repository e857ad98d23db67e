use vstd::prelude::*;

verus! {

/// Whether a game is being played.
#[derive(Debug, Copy, Clone, PartialEq, Eq, Hash, Structural)]
pub enum AppState {
    InGame,
    Out,
}

impl AppState {
    /// The state to switch to after a frame's key presses: the clear key leaves a game,
    /// the reset key starts one; `None` when the state stays.
    pub fn on_keys(self, clear_pressed: bool, reset_pressed: bool) -> (r: Option<AppState>)
        ensures
            r == if clear_pressed && self == AppState::InGame {
                Some(AppState::Out)
            } else if reset_pressed && self == AppState::Out {
                Some(AppState::InGame)
            } else {
                None::<AppState>
            },
    {
        let mut next: Option<AppState> = None;
        if clear_pressed && self == AppState::InGame {
            next = Some(AppState::Out);
        }
        if reset_pressed && self == AppState::Out {
            next = Some(AppState::InGame);
        }
        next
    }
}

} // verus!
