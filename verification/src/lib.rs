//! Rewindable discrete animation, timeline control, force state machine
//! and scene-extras rewriting for the Legend of R shooter.
pub mod animation;
pub mod force;
pub mod gltf;
