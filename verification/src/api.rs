//! Record types exchanged with the remote catalog, and the decisions the
//! client makes on them. The transport itself lives outside the library.

pub mod auth;
pub mod group;
pub mod instance;
pub mod invite;
pub mod world;
