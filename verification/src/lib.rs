//! Synchronized playback over a relay network.
//!
//! The crate holds the verified core of a system that renders a short message
//! at the same wall-clock instant on a set of distributed participants: the
//! framed byte buffer and binary codec spoken to the realtime relay service,
//! the UDP latency-probe bookkeeping, the region ping cache, the per-client
//! heartbeat tracker, and the coordinator's broadcast-timestamp engine.
//! Transports (WebSocket, UDP, DNS) live outside the crate and hand these
//! functions plain values.

pub mod client_data;
pub mod errors;
pub mod gp_type;
pub mod message_handler;
pub mod message_type;
pub mod messages;
pub mod models;
pub mod operation_response;
pub mod parameter_codes;
pub mod parameter_dictionary;
pub mod photon_codes;
pub mod photon_region;
pub mod ping_cache;
pub mod pinger;
pub mod protocol_v18;
pub mod region_ping_data;
pub mod relay;
pub mod stream_buffer;
pub mod text;
