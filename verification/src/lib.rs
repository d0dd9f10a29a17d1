pub mod ability;
pub mod action;
pub mod chance;
pub mod characters;
pub mod menu;
pub mod roster;
pub mod state;
pub mod text;
pub mod ui;
pub mod unused;
