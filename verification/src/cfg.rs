//! The client configuration record. Reading and parsing the
//! `KEY=VALUE` configuration file is I/O and lives with the caller; the
//! record itself is what the core logic consumes.

use vstd::prelude::*;

verus! {

/// Client settings.
#[derive(Debug)]
pub struct Cfg {
    pub tcp_port: u16,
    pub log_directory: String,
    pub download_directory: String,
    pub pipelining_size: u32,
    pub read_write_seconds_timeout: u64,
    pub max_peers_per_torrent: u32,
    pub max_log_file_kb_size: u32,
}

impl Clone for Cfg {
    /// Field-for-field copy.
    fn clone(&self) -> (r: Cfg)
        ensures
            r.tcp_port == self.tcp_port,
            r.log_directory@ == self.log_directory@,
            r.download_directory@ == self.download_directory@,
            r.pipelining_size == self.pipelining_size,
            r.read_write_seconds_timeout == self.read_write_seconds_timeout,
            r.max_peers_per_torrent == self.max_peers_per_torrent,
            r.max_log_file_kb_size == self.max_log_file_kb_size,
    {
        Cfg {
            tcp_port: self.tcp_port,
            log_directory: self.log_directory.clone(),
            download_directory: self.download_directory.clone(),
            pipelining_size: self.pipelining_size,
            read_write_seconds_timeout: self.read_write_seconds_timeout,
            max_peers_per_torrent: self.max_peers_per_torrent,
            max_log_file_kb_size: self.max_log_file_kb_size,
        }
    }
}

} // verus!
