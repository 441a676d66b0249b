pub mod config;
pub mod coverage;
pub mod models;
pub mod persist;
pub mod slug;
pub mod store;
pub mod templates;
pub mod text;
