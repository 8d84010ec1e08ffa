//! Data types for the two-agent intersection scenario: two lights run
//! by two learners, stepped sequentially, never concurrently.

pub mod intersection;
