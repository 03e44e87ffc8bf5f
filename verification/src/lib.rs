//! Identity and access-control library: a relational store of users, teams
//! and memberships with verified referential-integrity guarantees, a
//! credential verifier built on bcrypt, and an authorization service.

pub mod error;
pub mod hash;
pub mod model;
pub mod order;
pub mod service;
