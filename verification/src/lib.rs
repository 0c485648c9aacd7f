//! Redshift: the deterministic core of a lockstep real-time strategy engine.
//!
//! Rules as data, maps and match setup, the wire format's framing, turn
//! scheduling, the lobby handshake, computer opponents' decisions and the
//! interface's rules, each with its behaviour stated as a contract.

pub mod armour;
pub mod checks;
pub mod command;
pub mod commander;
pub mod discovery;
pub mod ground;
pub mod interface;
pub mod joining;
pub mod lobby;
pub mod lockstep;
pub mod map;
pub mod minimap;
pub mod outlook;
pub mod protocol;
pub mod replay;
pub mod rules;
pub mod session;
pub mod setup;
pub mod sidebar;
pub mod skill;
pub mod sorting;
pub mod text;
pub mod traits;
pub mod value;
pub mod watch;
