//! A chime scheduler: cron-style rules are polled, judged due within a small
//! window of their next occurrence, deduplicated, and handed out for playback.

pub mod audio;
pub mod config;
pub mod logging;
pub mod recurrence;
pub mod scheduler;
pub mod text;
pub mod tray;
