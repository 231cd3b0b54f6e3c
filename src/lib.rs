//! Archetype-based entity-component storage with a conflict-aware system
//! scheduler.
//!
//! Entities are grouped by their exact set of components (their archetype).
//! Each archetype keeps its rows in fixed-capacity chunks of bytes, one column
//! per component. Systems declare the access they need through views, and the
//! schedule orders systems whose declared access conflicts.

pub mod access;
pub mod archetype;
pub mod bundle;
pub mod chunks;
pub mod component;
pub mod entity;
pub mod schedule;
pub mod signature;
pub mod storage;
pub mod view;
pub mod world;
pub mod world_access;

