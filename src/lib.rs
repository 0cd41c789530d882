//! Room registry and inbound-command logic for a multi-room text relay.
pub mod registry;
pub mod command;
pub mod session;
