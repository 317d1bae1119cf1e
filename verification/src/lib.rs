//! Combat and timed-effect tracking engine for a tabletop campaign tracker.
//!
//! The engine runs a live combat encounter: it orders participants by
//! initiative, advances turns and rounds, attaches timed status effects with
//! heterogeneous duration units, expires them as rounds elapse, and keeps the
//! session consistent when participants are removed mid-combat. Persistent,
//! entity-scoped effects that outlive a combat session are kept in a separate
//! ledger and cleared by rest events. A linear migration plan describes the
//! relational schema that a persistence layer applies on startup.

pub mod duration;
pub mod effects;
pub mod errors;
pub mod migrations;
pub mod roster;
pub mod session;
pub mod settings;
