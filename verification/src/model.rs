//! The data model: user records as the services return them.

pub mod user;
