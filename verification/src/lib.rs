//! A tabular reinforcement-learning engine for finite Markov decision
//! processes, with verified contracts.
//!
//! The engine learns action-value tables through simulated interaction
//! (Q-Learning, SARSA, eligibility-trace variants, Monte Carlo control,
//! Dyna-Q with a learned empirical model, and bias-corrected variants),
//! and computes exact optimal state values by value iteration.
//!
//! All quantities (rewards, probabilities, learning rates, value
//! estimates) are fixed-point numbers with six decimal digits of
//! fraction; arithmetic saturates at the representable bounds.  States
//! and actions are opaque index identifiers: an environment enumerates
//! its states and actions and describes itself as a transition table
//! (`MapMdp`).  Randomness comes from a caller-supplied ChaCha20
//! generator; every draw is a deterministic function of the generator
//! value, so training is reproducible and training `n` episodes in one
//! call leaves the same table and generator as training them in two.

#![verifier::loop_isolation(false)]

pub mod algorithms;
pub mod envs;
pub mod eval;
pub mod fixed;
pub mod mdp;
pub mod multiagent;
pub mod policies;
pub mod rng;
pub mod table;
