pub mod cache_model;
pub mod cli;
pub mod config;
pub mod errors;
pub mod framing;
pub mod handler;
pub mod laws;
pub mod protocol;
pub mod store;
pub mod text;
