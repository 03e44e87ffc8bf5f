//! The repository and the services built on it.

pub mod user;
pub mod user_repository;
