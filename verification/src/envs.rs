//! Environment-facing data types and a grid-world fixture.
//!
//! Concrete environments live outside the engine: they enumerate
//! their states and actions as index identifiers and register their
//! transitions in a `MapMdp`.  These modules hold the plain state and
//! action vocabularies of the bundled environments and a verified
//! builder for the cliff-walking grid.

pub mod blackjack;
pub mod cliff_walking;
pub mod my_intersection;
