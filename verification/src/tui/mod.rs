//! What the terminal UI shows.

pub mod log_message;
pub mod state;
pub mod ui;
