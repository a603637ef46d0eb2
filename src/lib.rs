//! Collision-world bookkeeping for a 2D platformer: change records of the
//! tracked attributes, the entity/handle synchronizer and the control of
//! the swept motion resolver.
pub mod bitset;
pub mod change;
pub mod resolve;
pub mod sync;
