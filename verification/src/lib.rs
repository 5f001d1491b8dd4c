//! Simulation core of a grow-by-consuming multiplayer arena game.
//!
//! All world quantities (coordinates, masses, radii, speeds) are fixed-point
//! integers in milli-units: 1000 units here stand for one world unit. This
//! keeps every physics formula exact and checkable.

pub mod auth;
pub mod broadcast;
pub mod config;
pub mod consts;
pub mod entity;
pub mod game;
pub mod grid;
pub mod physics;
pub mod player;
pub mod rng;
