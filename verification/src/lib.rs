//! Streaming of an effectively unbounded 2D tile world around a moving
//! observer.
//!
//! The world is divided into square chunks of tiles, addressed by integer
//! chunk coordinates. Each chunk has a residency state (`Loaded`,
//! `Unloaded`, `Freed`); a per-frame streaming pass keeps every chunk's
//! tile grid, physics handles and dependent monsters consistent with its
//! distance to the observer. All geometry is expressed in integer world
//! units; an embedding layer converts to whatever scale the physics or
//! rendering backend uses.

pub mod body;
pub mod chunk;
pub mod common;
pub mod coords;
pub mod field;
pub mod manager;
pub mod physics;
pub mod store;
