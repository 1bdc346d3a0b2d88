pub mod config;
pub mod lifecycle;
pub mod repo;
pub mod schema;
pub mod state;
