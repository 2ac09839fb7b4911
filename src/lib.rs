pub mod error;
pub mod text;
pub mod model;
pub mod aggregate;
pub mod store;
pub mod commands;
pub mod report;
