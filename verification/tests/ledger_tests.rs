use dtorrent::bitfield::Bitfield;
use dtorrent::bt_peer::BtPeer;
use dtorrent::cfg::Cfg;
use dtorrent::info::Info;
use dtorrent::status::{AtomicTorrentStatus, PieceStatus};
use dtorrent::torrent::Torrent;

#[test]
fn test_is_not_finished() {
    let torrent = create_test_torrent("test_is_not_finished");
    let status = AtomicTorrentStatus::new(&torrent, test_config());
    assert!(!status.is_finished());
}

#[test]
fn test_is_finished() {
    let torrent = create_test_torrent("test_is_finished");
    let mut status = AtomicTorrentStatus::new(&torrent, test_config());
    for _ in 0..(torrent.info.length / torrent.info.piece_length) {
        let index = status
            .select_piece(&Bitfield::new(vec![0b11111111, 0b11111111]))
            .unwrap()
            .unwrap();
        status.piece_downloaded(index).unwrap();
    }
    assert!(status.is_finished());
}

#[test]
fn test_is_finished_exactly_on_last_piece() {
    // ten pieces: completion flips exactly on the tenth download
    let torrent = create_test_torrent("test_finishes_on_tenth");
    let mut status = AtomicTorrentStatus::new(&torrent, test_config());
    let all_ones = Bitfield::new(vec![0b11111111, 0b11111111]);
    for round in 0..10 {
        assert!(!status.is_finished());
        let index = status.select_piece(&all_ones).unwrap().unwrap();
        status.piece_downloaded(index).unwrap();
        if round < 9 {
            assert!(!status.is_finished());
        }
    }
    assert!(status.is_finished());
}

#[test]
fn test_starting_current_peers() {
    let torrent = create_test_torrent("test_starting_current_peers");
    let status = AtomicTorrentStatus::new(&torrent, test_config());
    assert_eq!(0, status.current_peers());
}

#[test]
fn test_peer_connected() {
    let torrent = create_test_torrent("test_peer_connected");
    let peer = create_test_peer("192.0".to_string());
    let mut status = AtomicTorrentStatus::new(&torrent, test_config());
    status.peer_connecting();
    status.peer_connected(&peer).unwrap();
    assert_eq!(1, status.current_peers());
}

#[test]
fn test_peer_disconnected() {
    let torrent = create_test_torrent("test_peer_disconnected");
    let peer = create_test_peer("192.0".to_string());
    let mut status = AtomicTorrentStatus::new(&torrent, test_config());
    status.peer_connecting();
    status.peer_connecting();
    status.peer_connected(&peer).unwrap();
    status.peer_connected(&peer).unwrap();
    status.peer_disconnected(&peer).unwrap();
    assert_eq!(1, status.current_peers());
}

#[test]
fn test_peer_disconnected_error() {
    let torrent = create_test_torrent("test_peer_disconnected_error");
    let peer = create_test_peer("192.0".to_string());
    let mut status = AtomicTorrentStatus::new(&torrent, test_config());
    assert!(status.peer_disconnected(&peer).is_err());
}

#[test]
fn test_select_piece() {
    let torrent = create_test_torrent("test_piece_downloaded");
    let mut status = AtomicTorrentStatus::new(&torrent, test_config());
    let index = status
        .select_piece(&Bitfield::new(vec![0b11111111, 0b11111111]))
        .unwrap()
        .unwrap();
    assert_eq!(
        status.pieces_status[index as usize],
        PieceStatus::Downloading
    );
}

#[test]
fn test_no_pieces_to_select() {
    let torrent = create_test_torrent("test_no_pieces_to_select");
    let mut status = AtomicTorrentStatus::new(&torrent, test_config());
    let index = status
        .select_piece(&Bitfield::new(vec![0b00000000, 0b00000000]))
        .unwrap();
    assert!(index.is_none());
}

#[test]
fn test_select_piece_endgame_returns_downloading_piece() {
    let torrent = create_test_torrent("test_endgame");
    let mut status = AtomicTorrentStatus::new(&torrent, test_config());
    let all_ones = Bitfield::new(vec![0b11111111, 0b11111111]);
    for _ in 0..10 {
        status.select_piece(&all_ones).unwrap().unwrap();
    }
    // nothing free remains: the selection duplicates a downloading piece
    let index = status.select_piece(&all_ones).unwrap().unwrap();
    assert_eq!(
        status.pieces_status[index as usize],
        PieceStatus::Downloading
    );
    assert_eq!(status.downloading_pieces(), 10);
}

#[test]
fn test_piece_downloaded() {
    let torrent = create_test_torrent("test_piece_downloaded");
    let mut status = AtomicTorrentStatus::new(&torrent, test_config());
    let index = status
        .select_piece(&Bitfield::new(vec![0b11111111, 0b11111111]))
        .unwrap()
        .unwrap();
    status.piece_downloaded(index).unwrap();
    assert_eq!(status.pieces_status[index as usize], PieceStatus::Finished);
}

#[test]
fn test_piece_downloaded_twice_fails() {
    let torrent = create_test_torrent("test_piece_downloaded_twice");
    let mut status = AtomicTorrentStatus::new(&torrent, test_config());
    let index = status
        .select_piece(&Bitfield::new(vec![0b11111111, 0b11111111]))
        .unwrap()
        .unwrap();
    status.piece_downloaded(index).unwrap();
    assert!(status.piece_downloaded(index).is_err());
}

#[test]
fn test_piece_aborted() {
    let torrent = create_test_torrent("test_piece_aborted");
    let mut status = AtomicTorrentStatus::new(&torrent, test_config());
    let index = status
        .select_piece(&Bitfield::new(vec![0b11111111, 0b11111111]))
        .unwrap()
        .unwrap();
    status.piece_aborted(index).unwrap();
    assert_eq!(status.pieces_status[index as usize], PieceStatus::Free);
}

#[test]
fn test_bad_index() {
    let torrent = create_test_torrent("test_bad_index");
    let mut status = AtomicTorrentStatus::new(&torrent, test_config());
    let index = 1000;
    assert!(status.piece_downloaded(index).is_err());
}

#[test]
fn test_bad_downloaded() {
    let torrent = create_test_torrent("test_bad_downloaded");
    let mut status = AtomicTorrentStatus::new(&torrent, test_config());
    let index = 0;
    assert!(status.piece_downloaded(index).is_err());
}

#[test]
fn test_bad_abort() {
    let torrent = create_test_torrent("test_bad_abort");
    let mut status = AtomicTorrentStatus::new(&torrent, test_config());
    let index = 0;
    assert!(status.piece_aborted(index).is_err());
}

#[test]
fn test_remaining_pieces() {
    let torrent = create_test_torrent("test_remaining_pieces");
    let mut status = AtomicTorrentStatus::new(&torrent, test_config());

    let total_pieces = (torrent.info.length / torrent.info.piece_length) as usize;

    let remaining_starting_pieces = status.remaining_pieces();

    let index = status
        .select_piece(&Bitfield::new(vec![0b11111111, 0b11111111]))
        .unwrap()
        .unwrap();
    status.piece_downloaded(index).unwrap();

    assert_eq!(remaining_starting_pieces, total_pieces);
    assert_eq!(status.remaining_pieces(), total_pieces - 1);
}

#[test]
fn test_downloading_pieces() {
    let torrent = create_test_torrent("test_downloading_pieces");
    let mut status = AtomicTorrentStatus::new(&torrent, test_config());

    let _ = status
        .select_piece(&Bitfield::new(vec![0b11111111, 0b11111111]))
        .unwrap()
        .unwrap();

    assert_eq!(status.downloading_pieces(), 1);
}

#[test]
fn test_downloaded_pieces() {
    let torrent = create_test_torrent("test_downloaded_pieces");
    let mut status = AtomicTorrentStatus::new(&torrent, test_config());

    let index = status
        .select_piece(&Bitfield::new(vec![0b11111111, 0b11111111]))
        .unwrap()
        .unwrap();
    status.piece_downloaded(index).unwrap();

    assert_eq!(status.downloaded_pieces(), 1);
}

#[test]
fn test_counters_partition_total() {
    let torrent = create_test_torrent("test_counters_partition");
    let mut status = AtomicTorrentStatus::new(&torrent, test_config());
    let all_ones = Bitfield::new(vec![0b11111111, 0b11111111]);
    let a = status.select_piece(&all_ones).unwrap().unwrap();
    let _ = status.select_piece(&all_ones).unwrap().unwrap();
    status.piece_downloaded(a).unwrap();
    let free = status.pieces_status.len()
        - status.downloading_pieces()
        - status.downloaded_pieces();
    assert_eq!(free + status.downloading_pieces() + status.downloaded_pieces(), 10);
    assert_eq!(status.downloading_pieces(), 1);
    assert_eq!(status.downloaded_pieces(), 1);
}

#[test]
fn test_get_bitfield_matches_finished_pieces() {
    let torrent = create_test_torrent("test_get_bitfield");
    let mut status = AtomicTorrentStatus::new(&torrent, test_config());
    let all_ones = Bitfield::new(vec![0b11111111, 0b11111111]);
    let index = status.select_piece(&all_ones).unwrap().unwrap();
    status.piece_downloaded(index).unwrap();
    let bf = status.get_bitfield().unwrap();
    assert!(bf.has_piece(index));
    assert_eq!(index, 0);
}

// Auxiliary functions

fn create_test_torrent(name: &str) -> Torrent {
    let info = Info {
        length: 10,
        name: name.to_string(),
        piece_length: 1,
        pieces: vec![],
    };

    Torrent {
        announce_url: "announce".to_string(),
        info,
        info_hash: "info_hash".to_string(),
    }
}

fn create_test_peer(ip: String) -> BtPeer {
    BtPeer {
        peer_id: Some(vec![0x00]),
        ip,
        port: 0,
        info_hash: None,
    }
}

fn test_config() -> Cfg {
    Cfg {
        tcp_port: 1000,
        log_directory: "./log".to_string(),
        download_directory: "./download".to_string(),
        pipelining_size: 5,
        read_write_seconds_timeout: 120,
        max_peers_per_torrent: 5,
        max_log_file_kb_size: 100,
    }
}
