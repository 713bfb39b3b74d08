//! Continuum distance field (CDF) bookkeeping for coupling particles with
//! rigid colliders: packed per-collider affinity/tag colors, the per-node
//! min-distance record, the per-particle gather and a bounded spin lock.

pub mod color;
pub mod grid;
pub mod gather;
pub mod lock;
pub mod particles;
