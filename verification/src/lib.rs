//! A window-switching core: a deduplicated, sorted registry of window titles,
//! fuzzy ranking of titles against a query, the focus-transfer sequence that
//! works around foreground-lock restrictions, and the keystroke classifier of
//! the global-hotkey daemon.
//!
//! All operating-system work (window enumeration, key synthesis, the hook
//! itself) is performed by the surrounding application; this crate holds the
//! decisions and data transformations, verified.

pub mod focus;
pub mod hook;
pub mod ranker;
pub mod registry;
pub mod text;
