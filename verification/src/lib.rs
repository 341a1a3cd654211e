pub mod tile;
pub mod sweep;
pub mod text;
pub mod world;
pub mod render;
pub mod terrain;
pub mod water;

use vstd::prelude::*;

verus! {

/// The greeting the library answers with.
pub fn greet() -> (s: String)
    ensures
        s@ == "Hello from game_core!"@,
{
    "Hello from game_core!".to_owned()
}

} // verus!
