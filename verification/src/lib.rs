//! Simulation core of a 2D scene engine: exact integer vector math, oriented
//! boxes with a separating-axis overlap test, per-entity motion integration,
//! spatial indexes for broad-phase queries, and a per-space tick orchestrator.

pub mod base;
pub mod bse_map;
pub mod console;
pub mod control;
pub mod event;
pub mod grid;
pub mod handle;
pub mod hitbox;
pub mod ids;
pub mod listener;
pub mod num;
pub mod ordered;
pub mod position;
pub mod rect;
pub mod render;
pub mod rotation;
pub mod scene;
pub mod simple_grid;
pub mod track;
pub mod vector;
pub mod view;
