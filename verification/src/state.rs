//! The events of the state machine layered above the storage stack. The
//! state machine itself consumes the storage layer; only its event
//! vocabulary is defined here.

pub mod event;
