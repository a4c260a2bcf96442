//! A falling-sand world: a grid of typed atoms moved by cellular rules,
//! chemical reactions between neighbours, the solid regions that become
//! colliders, and the editing, level, magic, networking, sound and
//! touch-control state that the game keeps around it.

pub mod atoms;
pub mod reactions;
pub mod random;
pub mod rules;
pub mod paths;
pub mod editor;
pub mod level;
pub mod odds;
pub mod magic;
pub mod game;
pub mod network;
pub mod regions;
pub mod sound;
pub mod touch;
