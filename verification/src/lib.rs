//! Core of a BitTorrent-compatible file-distribution system: the bencode
//! codec, wire framing, the torrent piece ledger, and the tracker swarm
//! registry, with machine-checked contracts.

pub mod announce;
pub mod bencode;
pub mod bitfield;
pub mod bt_peer;
pub mod byte_util;
pub mod cfg;
pub mod handshake;
pub mod http;
pub mod http_handler;
pub mod info;
pub mod message;
pub mod message_handler;
pub mod numerals;
pub mod parser;
pub mod peer_session;
pub mod query_params;
pub mod request;
pub mod request_handler;
pub mod session_status;
pub mod stats;
pub mod status;
pub mod swarm;
pub mod torrent;
pub mod tracker_handler;
pub mod tracker_peer;
pub mod tracker_response;
pub mod tracker_status;
pub mod url_encoder;
pub mod url_parser;
