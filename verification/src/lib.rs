//! Rules engine for a turn-based grid board game.
//!
//! The crate decides which squares a piece may reach, resolves moves,
//! attacks and special powers, and tracks each piece's per-turn action
//! budget.  Presentation (rendering, windowing, input translation) is a
//! collaborator, not part of this crate: it feeds board events in and
//! reads highlight markers out.

pub mod geometry;
pub mod board;
pub mod laws;
pub mod machine;
pub mod piece;
pub mod rules;
pub mod target_highlighter;
