//! A selective forwarding unit for WebRTC calls: rooms, voice activity,
//! track routing and the cluster of SFU nodes that relay media to each
//! other.
pub mod ids;
pub mod relay;
pub mod assoc;
pub mod rtc;
pub mod peer;
pub mod routing;
pub mod graphql_types;
pub mod server;
pub mod cascade;
pub mod service;
