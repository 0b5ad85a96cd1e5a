//! Core of a racing-game server: a deterministic tick-based simulation of a
//! car driving around an ASCII-described racetrack.
//!
//! The track compiler ([`racetrack`]) parses a textual course description,
//! validates its topology and produces a tile grid annotated with border
//! segments and finish-line membership; all of its geometry is exact integer
//! arithmetic. The simulation bookkeeping ([`sim`]) owns the tick counter and
//! the lap counter and decides when a run ends and with which [`sim::Score`];
//! the floating-point kinematics that feed it events live outside the library.
//! The [`leaderboard`] ranks finished runs.

pub mod geometry;
pub mod leaderboard;
pub mod racetrack;
pub mod sim;
