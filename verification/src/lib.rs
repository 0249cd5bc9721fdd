//! Scheduling of timed attacks across independent tracks.
//!
//! One track, the lead, commits to an attack whose demand frames ask for
//! complementary effects. The other tracks answer with attacks of their own
//! whose effect frames land exactly on those demand frames. All time is
//! counted in whole frames.

pub mod attack;
pub mod enemy_track;
pub mod default_hasher_random;
pub mod godot_random;
pub mod solver;
