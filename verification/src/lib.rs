//! The engine behind mino-win-style, verified.

pub mod text;
pub mod error;
pub mod value;
pub mod provider;
pub mod os;
pub mod tweak;
pub mod tweaks;
pub mod time;
pub mod journal;
pub mod engine;
pub mod profile;
pub mod utf16;
pub mod regdata;
pub mod winos;
pub mod shell;
pub mod looks;
pub mod dock;
pub mod packs;
pub mod appbar;
pub mod state;
pub mod cli;
pub mod undo;
