//! A personal journal library: durable entries keyed by calendar date,
//! threaded assistant conversations, and a passcode-backed access gate.
//!
//! The store's integrity rules — one entry per valid date, messages owned
//! by their session with cascading deletion, derived session titles, and
//! the orderings the listing operations promise — and the access gate's
//! state machine are verified here. Durability is the caller's concern:
//! [`store`] holds the relations in memory and validates whatever a caller
//! loads back, and [`passfile`] renders and parses the access gate's
//! backing record exactly.
#![verifier::loop_isolation(false)]

pub mod context;
pub mod dates;
pub mod gate;
pub mod passfile;
pub mod platform;
pub mod store;
pub mod text;

pub use dates::is_valid_date;
