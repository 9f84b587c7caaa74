//! Verified core of the Catcheb multiplayer game: identifiers, message
//! types, keyed collections, delta encoding of maps, the server's input
//! buffering and delta encoding bases, the client's playback and
//! prediction bookkeeping, ping and loss bookkeeping, and the reading of
//! map objects.

pub mod ids;
pub mod idmap;
pub mod join;
pub mod diff;
pub mod loss;
pub mod game;
pub mod interp;
pub mod prediction;
pub mod server;
pub mod client;
pub mod mapfile;
pub mod ping;
