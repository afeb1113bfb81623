//! Core of an MQTT 3.1.1 broker: the wire codec, the subscription trie,
//! the per-connection state machine and the broker dispatcher, each with
//! its behaviour stated as a contract and proved.
pub mod packets;
pub mod wire;
pub mod format;
pub mod encoder;
pub mod decoder;
pub mod format_laws;
pub mod topic;
pub mod trie;
pub mod session;
pub mod authentication;
pub mod broker;
pub mod connection;
pub mod settings;
