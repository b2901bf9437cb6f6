//! Operations layer of the toad workspace tooling: the decisions and
//! tallies behind batch runs, cleaning, analytics and safety checks.

pub mod analytics;
pub mod audit;
pub mod batch;
pub mod clean;
pub mod cycles;
pub mod dependencies;
pub mod doctor;
pub mod migration;
pub mod model;
pub mod order;
pub mod safety;
pub mod shell;
pub mod stats;
pub mod text;
pub mod workflow;
