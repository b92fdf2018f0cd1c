//! Package dependency graph and disk-space analysis.
pub mod text;
pub mod graph;
pub mod dnf;
pub mod order;
pub mod tui;
pub mod listing;
pub mod bun;
pub mod flatpak;
pub mod npm;
pub mod pip;
pub mod runtime;
