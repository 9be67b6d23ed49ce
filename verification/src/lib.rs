//! Decisions and bookkeeping of a desktop time tracker: which tasks run,
//! how sessions open and close, and how tracked time adds up.
pub mod text;
pub mod tray;
pub mod status;
pub mod clock;
pub mod sessions;
pub mod tasks;
