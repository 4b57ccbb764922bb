//! A Tor-native remote shell: the verified core.
//!
//! The library holds the logic of the service and its client — deriving a
//! stable service address from a long-term key, the publish and accept
//! state machines of the service lifecycle, the registry of running
//! services, the bidirectional byte bridge with its escape and
//! cancellation rules, the shell-selection policy, and address
//! normalization. The anonymity transport, the pseudo-terminal, and all
//! I/O stay outside, behind a handful of trusted calls into the digest,
//! encoding and key-expansion crates.

pub mod address;
pub mod bridge;
pub mod client;
pub mod keys;
pub mod lifecycle;
pub mod registry;
pub mod shell;
