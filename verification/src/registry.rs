//! What a registry client decides: which image a reference names, how it
//! authenticates, what it requests, and whether what it got is right.

pub mod auth;
pub mod client;
pub mod credentials;
pub mod fetch;
pub mod reference;
