//! Quipu-inspired hierarchical encoding of numbers on knotted cords.
//!
//! Position on a cord is the coordinate, the knot type is the value, and the cord
//! hierarchy is the dimension.

pub mod cord;
pub mod cord_id;
pub mod cord_type;
pub mod knot;
pub mod quipu;
pub mod registry;
pub mod table;

pub use cord::{Cord, Reading};
pub use cord_id::CordId;
pub use cord_type::CordType;
pub use knot::{DigitReading, Knot, KnotType, KnotValue, SignedMagnitude};
pub use quipu::Quipu;
pub use registry::{QuipuRegistry, RegistryCounts};
pub use table::NamedTable;
