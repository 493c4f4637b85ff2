//! The console side: the link engine, the login handshake, acknowledged words and the command
//! router.
pub mod diagnose;
pub mod gpi;
pub mod login;
pub mod result;
pub mod routes;
pub mod spi;
