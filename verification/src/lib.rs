pub mod accuracy;
pub mod api;
pub mod balance;
pub mod binary32;
pub mod context;
pub mod countdown;
pub mod displacing;
pub mod doubling;
pub mod engine;
pub mod isolation;
pub mod laws;
pub mod membership;
pub mod model;
pub mod motion;
pub mod orders;
pub mod pairs;
pub mod rounding;
pub mod sampling;
pub mod scaled;
pub mod settling;
pub mod spread;
pub mod stages;
pub mod sums;
pub mod sweep;
pub mod symmetry;
pub mod topology;
pub mod weights;
