//! Core of a chat sign-up bot: time-boxed queues that players join or leave,
//! grouped per chat, with a capacity rule, a minute-granular expiry sweep,
//! an ordered listing for display, and a durable text encoding of the whole
//! state.  All transitions are pure: they take a snapshot and return a new
//! one together with a result descriptor.

pub mod codec;
pub mod laws;
pub mod listing;
pub mod scheduler;
pub mod settings;
pub mod state;
pub mod stats;
pub mod types;
pub mod util;
pub mod weather;
