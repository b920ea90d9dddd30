//! A generic evolutionary-optimisation engine with machine-checked contracts.

pub mod individual;
pub mod population;
pub mod ranking;
pub mod selection;
pub mod training;

pub use individual::Individual;
pub use population::Population;
pub use training::train;
