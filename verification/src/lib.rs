//! The logic of a search tool for recorded coding sessions: classifying the
//! events of a session file, deciding what to (re)index, building search
//! statements, and laying out what the terminal shows.

pub mod cli;
pub mod clock;
pub mod highlight;
pub mod index;
pub mod numbers;
pub mod paint;
pub mod paths;
pub mod picker;
pub mod preview;
pub mod resume;
pub mod search;
pub mod session;
pub mod stats;
pub mod text;
pub mod words;
