pub mod functions;
pub mod solver;
pub mod strategies;
pub mod traits;
