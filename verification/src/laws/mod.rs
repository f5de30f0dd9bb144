//! What holds of the library's operations, over all their inputs.

pub mod addresses;
pub mod blocks;
pub mod bodies;
pub mod configuration;
pub mod connections;
pub mod listings;
pub mod messages;
pub mod parameters;
pub mod paths;
pub mod requests;
pub mod responses;
pub mod scripts;
pub mod servers;
pub mod serving;
pub mod sessions;
pub mod texts;
