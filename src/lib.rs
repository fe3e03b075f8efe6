//! Game logic of a small arcade shooter, independent of any engine.
//!
//! - [`geometry`]: positions, box extents and the overlap test between boxes.
//! - [`collision`]: one collision pass between lasers and enemies, with the
//!   bookkeeping that despawns each entity and scores each enemy at most once.
//! - [`motion`]: fixed-step integration of velocities and the play-area bounds.
//! - [`resources`]: the score, the round timer and entity lifetimes.
//! - [`world`]: an arena of entities with the movement and lifetime passes.
//! - [`systems`]: spawning, steering, firing and the collision pass over the world.
//! - [`round`]: the menu / in-game / end-game state machine of a session.
//! - [`hud`]: the texts shown to the player.
//! - [`random`]: random spawn coordinates.
//!
//! Positions and extents are integers counted in sub-pixels
//! (see [`motion::SUBPIXELS_PER_PIXEL`]); durations are counted in milliseconds.

pub mod collision;
pub mod geometry;
pub mod hud;
pub mod motion;
pub mod random;
pub mod resources;
pub mod round;
pub mod systems;
pub mod world;
