//! Opinion diffusion over a weighted small-world network.
//!
//! Weights and opinions are fixed-point numbers with six decimals: a weight of
//! `FULL_WEIGHT` stands for 1.0 and an opinion of `OPINION_CEILING` for 100.0.
//! Since both use the same scale, a difference of opinions divided by 100 is
//! directly a change of weight.
pub mod dynamics;
pub mod graph;
pub mod random;
pub mod simulation;
pub mod topology;
