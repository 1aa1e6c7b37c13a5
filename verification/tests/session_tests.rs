use dtorrent::announce::{AnnounceRequest, AnnounceResponse};
use dtorrent::bitfield::Bitfield;
use dtorrent::cfg::Cfg;
use dtorrent::http::HttpStatus;
use dtorrent::info::Info;
use dtorrent::message::{Message, MessageId};
use dtorrent::message_handler::{build_have_message, build_piece_message, build_request_message};
use dtorrent::peer_session::PeerSession;
use dtorrent::request_handler::create_response;
use dtorrent::stats::StatsUpdater;
use dtorrent::torrent::Torrent;
use dtorrent::tracker_status::{AtomicTrackerStatus, CurrentTrackerStats};

fn test_torrent() -> Torrent {
    // SHA-1 of the empty byte string, as raw bytes, is the hash of piece 0
    let empty_sha1: Vec<u8> = vec![
        0xda, 0x39, 0xa3, 0xee, 0x5e, 0x6b, 0x4b, 0x0d, 0x32, 0x55, 0xbf, 0xef, 0x95, 0x60, 0x18,
        0x90, 0xaf, 0xd8, 0x07, 0x09,
    ];
    Torrent {
        announce_url: "http://example.org/announce".to_string(),
        info: Info {
            length: 100,
            name: "example".to_string(),
            piece_length: 10,
            pieces: empty_sha1,
        },
        info_hash: "beef".to_string(),
    }
}

fn test_config() -> Cfg {
    Cfg {
        tcp_port: 1000,
        log_directory: "./log".to_string(),
        download_directory: "./download".to_string(),
        pipelining_size: 5,
        read_write_seconds_timeout: 120,
        max_peers_per_torrent: 5,
        max_log_file_kb_size: 100,
    }
}

#[test]
fn test_session_starts_choked_and_uninterested() {
    let session = PeerSession::new(
        test_torrent(),
        Bitfield::new(vec![0, 0]),
        test_config(),
        "client".to_string(),
    );
    assert!(session.status.choked);
    assert!(!session.status.interested);
    assert!(session.status.peer_choked);
    assert!(!session.status.peer_interested);
}

#[test]
fn test_handle_choke_and_unchoke() {
    let mut session = PeerSession::new(
        test_torrent(),
        Bitfield::new(vec![0, 0]),
        test_config(),
        "client".to_string(),
    );
    session.handle_message(Message::new(MessageId::Unchoke, vec![]));
    assert!(!session.status.choked);
    session.handle_message(Message::new(MessageId::Choke, vec![]));
    assert!(session.status.choked);
}

#[test]
fn test_handle_bitfield_and_have() {
    let mut session = PeerSession::new(
        test_torrent(),
        Bitfield::new(vec![0, 0]),
        test_config(),
        "client".to_string(),
    );
    session.handle_message(Message::new(MessageId::Bitfield, vec![0b00000000]));
    assert!(!session.bitfield.has_piece(0));
    session.handle_message(Message::new(MessageId::Have, vec![0, 0, 0, 0]));
    assert!(session.bitfield.has_piece(0));
}

#[test]
fn test_handle_piece_appends_block() {
    let mut session = PeerSession::new(
        test_torrent(),
        Bitfield::new(vec![0, 0]),
        test_config(),
        "client".to_string(),
    );
    let mut payload = vec![0, 0, 0, 0, 0, 0, 0, 0];
    payload.extend(b"abc");
    session.handle_message(Message::new(MessageId::Piece, payload));
    assert_eq!(session.piece, b"abc".to_vec());
}

#[test]
fn test_complete_blocks_and_window() {
    let mut torrent = test_torrent();
    torrent.info.length = 100000;
    torrent.info.piece_length = 32768;
    let session = PeerSession::new(
        torrent,
        Bitfield::new(vec![0]),
        test_config(),
        "client".to_string(),
    );
    // a middle piece holds two full blocks of 16384 bytes
    assert_eq!(session.complete_blocks_in_torrent_piece(0), 2);
    // the trailing piece of 1696 bytes holds no full block
    assert_eq!(session.complete_blocks_in_torrent_piece(3), 0);
    assert_eq!(PeerSession::pipeline_window(10, 5), 5);
    assert_eq!(PeerSession::pipeline_window(3, 5), 3);
}

#[test]
fn test_plan_block_requests_offsets() {
    let requests = PeerSession::plan_block_requests(7, 2, 3);
    assert_eq!(requests.len(), 3);
    assert_eq!(requests[0].index, 7);
    assert_eq!(requests[0].begin, 2 * 16384);
    assert_eq!(requests[1].begin, 3 * 16384);
    assert_eq!(requests[2].begin, 4 * 16384);
    assert_eq!(requests[0].length, 16384);
}

#[test]
fn test_validate_piece_accepts_matching_hash() {
    let session = PeerSession::new(
        test_torrent(),
        Bitfield::new(vec![0, 0]),
        test_config(),
        "client".to_string(),
    );
    assert!(session.validate_piece(&[], 0).is_ok());
}

#[test]
fn test_validate_piece_rejects_wrong_hash() {
    let session = PeerSession::new(
        test_torrent(),
        Bitfield::new(vec![0, 0]),
        test_config(),
        "client".to_string(),
    );
    assert!(session.validate_piece(b"not the empty piece", 0).is_err());
}

#[test]
fn test_build_messages() {
    let piece = build_piece_message(1, 2, b"xy");
    assert_eq!(piece.id, MessageId::Piece);
    assert_eq!(piece.payload, vec![0, 0, 0, 1, 0, 0, 0, 2, b'x', b'y']);
    let request = build_request_message(1, 2, 3);
    assert_eq!(request.id, MessageId::Request);
    assert_eq!(request.payload, vec![0, 0, 0, 1, 0, 0, 0, 2, 0, 0, 0, 3]);
    let have = build_have_message(259);
    assert_eq!(have.id, MessageId::Have);
    assert_eq!(have.payload, vec![0, 0, 1, 3]);
}

#[test]
fn test_announce_request_parses_query() {
    let params = vec![
        (
            "info_hash".to_string(),
            "%01%02%03%04%05%06%07%08%09%0a%0b%0c%0d%0e%0f%10%11%12%13%14".to_string(),
        ),
        (
            "peer_id".to_string(),
            "%15%16%17%18%19%1a%1b%1c%1d%1e%1f%20%21%22%23%24%25%26%27%28".to_string(),
        ),
        ("port".to_string(), "6881".to_string()),
        ("uploaded".to_string(), "10".to_string()),
        ("downloaded".to_string(), "20".to_string()),
        ("left".to_string(), "30".to_string()),
        ("event".to_string(), "started".to_string()),
    ];
    let request = AnnounceRequest::new_from(&params).unwrap();
    assert_eq!(request.info_hash[0], 1);
    assert_eq!(request.info_hash[19], 20);
    assert_eq!(request.peer_id[0], 21);
    assert_eq!(request.port, 6881);
    assert_eq!(request.uploaded, 10);
    assert_eq!(request.downloaded, 20);
    assert_eq!(request.left, 30);
    assert_eq!(request.numwant, 50);
}

#[test]
fn test_announce_request_rejects_bad_port() {
    let params = vec![
        (
            "info_hash".to_string(),
            "%01%02%03%04%05%06%07%08%09%0a%0b%0c%0d%0e%0f%10%11%12%13%14".to_string(),
        ),
        (
            "peer_id".to_string(),
            "%15%16%17%18%19%1a%1b%1c%1d%1e%1f%20%21%22%23%24%25%26%27%28".to_string(),
        ),
        ("port".to_string(), "not_a_number".to_string()),
    ];
    assert!(AnnounceRequest::new_from(&params).is_err());
}

#[test]
fn test_announce_response_counts_leecher() {
    let params = vec![
        (
            "info_hash".to_string(),
            "%01%02%03%04%05%06%07%08%09%0a%0b%0c%0d%0e%0f%10%11%12%13%14".to_string(),
        ),
        (
            "peer_id".to_string(),
            "%15%16%17%18%19%1a%1b%1c%1d%1e%1f%20%21%22%23%24%25%26%27%28".to_string(),
        ),
        ("port".to_string(), "6881".to_string()),
        ("uploaded".to_string(), "0".to_string()),
        ("downloaded".to_string(), "0".to_string()),
        ("left".to_string(), "100".to_string()),
    ];
    let mut tracker = AtomicTrackerStatus::default();
    let response = AnnounceResponse::from(&params, &mut tracker, "10.0.0.1".to_string());
    assert!(response.failure_reason.is_none());
    assert_eq!(response.complete, 0);
    assert_eq!(response.incomplete, 1);
    assert_eq!(response.peers.len(), 1);
}

#[test]
fn test_announce_response_reports_failure() {
    let params = vec![("left".to_string(), "100".to_string())];
    let mut tracker = AtomicTrackerStatus::default();
    let response = AnnounceResponse::from(&params, &mut tracker, "10.0.0.1".to_string());
    assert_eq!(response.failure_reason.unwrap(), "Invalid info_hash");
}

#[test]
fn test_stats_ring_and_history() {
    let mut updater = StatsUpdater::new(60);
    updater.record(CurrentTrackerStats::new(1, 2, 3));
    updater.record(CurrentTrackerStats::new(4, 5, 6));
    let history = updater.get_history(60);
    assert_eq!(history.len(), 1);
    assert_eq!(history[0].torrents, 4);
    let all = updater.get_history(60 * 60 * 24);
    assert_eq!(all.len(), 2);
    assert_eq!(updater.get_timeout(), 60);
}

#[test]
fn test_create_response_frames_body() {
    let response = create_response(b"hello".to_vec(), HttpStatus::Okay);
    let expected =
        b"HTTP/1.1 200 OK\r\nAccess-Control-Allow-Origin: *\r\nContent-Length: 5\r\n\r\nhello";
    assert_eq!(response, expected.to_vec());
}
