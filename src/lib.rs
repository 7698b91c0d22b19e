//! A matchmaking front server speaking the Source engine's connectionless queries and
//! netchannel protocol, which sends each joining player on to a backend game server.
pub mod bits;
pub mod checksum;
pub mod messages;
pub mod client;
pub mod state;
pub mod netchannel;
pub mod stateless;
pub mod matchmaking;
pub mod session;
pub mod server;
