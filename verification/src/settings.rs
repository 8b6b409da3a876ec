//! Player-facing settings, persisted by the surrounding application.

use vstd::prelude::*;

verus! {

/// Settings stored across runs.
#[derive(Clone, Debug)]
pub struct Settings {
    pub name: String,
}

/// Per-game options chosen in the menu: board size, mine count and the
/// clearing speed, in queue entries processed per engine tick.
#[derive(Clone, Copy, Debug, PartialEq, Eq, Structural)]
pub struct GameSettings {
    pub width: u32,
    pub height: u32,
    pub bombs: u32,
    pub speed: u32,
}

impl Default for GameSettings {
    /// The stock 20-by-20 board with 40 mines.
    fn default() -> (r: GameSettings)
        ensures
            r.width == 20,
            r.height == 20,
            r.bombs == 40,
            r.speed == 2,
    {
        GameSettings { width: 20, height: 20, bombs: 40, speed: 2 }
    }
}

} // verus!
