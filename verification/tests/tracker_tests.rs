use dtorrent::bencode::Bencode;
use dtorrent::bt_peer::BtPeer;
use dtorrent::tracker_peer::{Peer, PeerStatus};
use dtorrent::tracker_response::TrackerResponse;
use dtorrent::tracker_status::AtomicTrackerStatus;

#[test]
fn test_from_bt_peer() {
    let dict = vec![
        (b"ip".to_vec(), Bencode::BString(b"127.0.0.1".to_vec())),
        (b"peer id".to_vec(), Bencode::BString(b"peer id".to_vec())),
        (b"port".to_vec(), Bencode::BNumber(6868)),
    ];

    let bencode = Bencode::BDict(dict);

    let bt_peer = BtPeer::from(bencode).unwrap();

    assert_eq!(bt_peer.peer_id, Some(b"peer id".to_vec()));
    assert_eq!(bt_peer.ip, "127.0.0.1");
    assert_eq!(bt_peer.port, 6868);
}

#[test]
fn test_new_peer() {
    let bt_peer = BtPeer::new("127.0.0.1".to_string(), 6868);

    assert_eq!(bt_peer.peer_id, None);
    assert_eq!(bt_peer.ip, "127.0.0.1");
    assert_eq!(bt_peer.port, 6868);
}

#[test]
fn test_from_tracker_response() {
    let peer_dict = build_peer_dict(b"id1".to_vec(), b"127.0.0.1".to_vec(), 6868);
    let peer_dict2 = build_peer_dict(b"id2".to_vec(), b"127.0.0.2".to_vec(), 4242);

    let peers_list = vec![Bencode::BDict(peer_dict), Bencode::BDict(peer_dict2)];

    let dict = vec![
        (b"complete".to_vec(), Bencode::BNumber(10)),
        (b"incomplete".to_vec(), Bencode::BNumber(10)),
        (b"interval".to_vec(), Bencode::BNumber(10)),
        (b"peers".to_vec(), Bencode::BList(peers_list)),
    ];

    let response = Bencode::encode(&Bencode::BDict(dict));
    let response_decoded = TrackerResponse::from(response).unwrap();

    assert_eq!(response_decoded.interval, 10);
    assert_eq!(response_decoded.complete, 10);
    assert_eq!(response_decoded.incomplete, 10);
    assert_eq!(response_decoded.peers.len(), 2);
}

#[test]
fn test_from_tracker_response_compact_peers() {
    let dict = vec![
        (b"complete".to_vec(), Bencode::BNumber(1)),
        (b"incomplete".to_vec(), Bencode::BNumber(1)),
        (b"interval".to_vec(), Bencode::BNumber(30)),
        (
            b"peers".to_vec(),
            Bencode::BString(vec![127, 0, 0, 1, 0x1a, 0xe1]),
        ),
    ];
    let response = Bencode::encode(&Bencode::BDict(dict));
    let decoded = TrackerResponse::from(response).unwrap();
    assert_eq!(decoded.peers.len(), 1);
    assert_eq!(decoded.peers[0].ip, "127.0.0.1");
    assert_eq!(decoded.peers[0].port, 6881);
}

#[test]
fn test_incoming_seeder() {
    let mut tracker_status = AtomicTrackerStatus::default();
    let a_seeder = create_test_seeder([0; 20]);
    let info_hash = [0; 20];

    tracker_status.incoming_peer(info_hash, a_seeder, 50);

    assert_there_are_only_these_peers(&tracker_status, info_hash, 1, 0);
    let (active_peers, _, _) = get_active_peers_for(&tracker_status, info_hash, 50).unwrap();
    assert!(active_peers[0].is_seeder());
}

#[test]
fn test_incoming_leecher() {
    let mut tracker_status = AtomicTrackerStatus::default();
    let a_leecher = create_test_leecher([0; 20]);
    let info_hash = [0; 20];

    tracker_status.incoming_peer(info_hash, a_leecher, 50);

    assert_there_are_only_these_peers(&tracker_status, info_hash, 0, 1);
    let (active_peers, _, _) = get_active_peers_for(&tracker_status, info_hash, 50).unwrap();
    assert!(active_peers[0].is_leecher());
}

#[test]
fn test_multiple_incoming_peers_on_the_same_torrent() {
    let mut tracker_status = AtomicTrackerStatus::default();
    let a_peer = create_test_seeder([0; 20]);
    let another_peer = create_test_leecher([1; 20]);
    let info_hash = [0; 20];

    tracker_status.incoming_peer(info_hash, a_peer, 50);
    tracker_status.incoming_peer(info_hash, another_peer, 50);

    assert_there_are_only_these_peers(&tracker_status, info_hash, 1, 1);
}

#[test]
fn test_returning_peer() {
    let mut tracker_status = AtomicTrackerStatus::default();
    let peer_id = [0; 20];
    let a_peer = create_test_leecher(peer_id);
    let info_hash = [0; 20];

    tracker_status.incoming_peer(info_hash, a_peer, 50);
    tracker_status.incoming_peer(info_hash, create_test_seeder(peer_id), 50);

    assert_there_are_only_these_peers(&tracker_status, info_hash, 1, 0);
}

#[test]
fn test_peers_on_multiple_torrents() {
    let mut tracker_status = AtomicTrackerStatus::default();
    let a_peer = create_test_leecher([0; 20]);
    let another_peer = create_test_leecher([1; 20]);
    let an_info_hash = [0; 20];
    let another_info_hash = [1; 20];

    tracker_status.incoming_peer(an_info_hash, a_peer, 50);
    tracker_status.incoming_peer(another_info_hash, another_peer, 50);

    assert_there_are_only_these_peers(&tracker_status, an_info_hash, 0, 1);
    assert_there_are_only_these_peers(&tracker_status, another_info_hash, 0, 1);
}

#[test]
fn test_peer_can_get_inactive() {
    let mut tracker_status = AtomicTrackerStatus::default();
    let peer_id = [0; 20];
    let a_peer = create_test_seeder(peer_id);
    let an_info_hash = [0; 20];
    tracker_status.incoming_peer(an_info_hash, a_peer, 50);

    let inactive_peer = create_inactive_peer(peer_id);
    tracker_status.incoming_peer(an_info_hash, inactive_peer, 50);
    tracker_status.remove_inactive_peers();

    assert_there_are_only_these_peers(&tracker_status, an_info_hash, 0, 0);
}

#[test]
fn test_global_statistics_totals() {
    let mut tracker_status = AtomicTrackerStatus::default();
    tracker_status.incoming_peer([0; 20], create_test_seeder([0; 20]), 50);
    tracker_status.incoming_peer([1; 20], create_test_leecher([1; 20]), 50);
    let stats = tracker_status.get_global_statistics();
    assert_eq!(stats.torrents, 2);
    assert_eq!(stats.seeders, 1);
    assert_eq!(stats.leechers, 1);
}

fn assert_there_are_only_these_peers(
    status: &AtomicTrackerStatus,
    info_hash: [u8; 20],
    expected_seeders: u32,
    expected_leechers: u32,
) {
    let (active_peers, seeders, leechers) = get_active_peers_for(status, info_hash, 50).unwrap();
    assert_eq!(
        active_peers.len(),
        (expected_seeders + expected_leechers) as usize
    );
    assert_eq!(seeders, expected_seeders);
    assert_eq!(leechers, expected_leechers);
}

fn get_active_peers_for(
    status: &AtomicTrackerStatus,
    info_hash: [u8; 20],
    wanted_peers: u32,
) -> Option<(Vec<Peer>, u32, u32)> {
    for entry in &status.torrent_swarms {
        if entry.0 == info_hash {
            let active = entry.1.get_active_peers(wanted_peers);
            return Some((active.peers, active.seeders, active.leechers));
        }
    }
    None
}

fn build_peer_dict(peer_id: Vec<u8>, ip: Vec<u8>, port: i64) -> Vec<(Vec<u8>, Bencode)> {
    vec![
        (b"ip".to_vec(), Bencode::BString(ip)),
        (b"peer id".to_vec(), Bencode::BString(peer_id)),
        (b"port".to_vec(), Bencode::BNumber(port)),
    ]
}

fn create_test_seeder(peer_id: [u8; 20]) -> Peer {
    let peer_status = PeerStatus::new(0, 0, 0, None);

    Peer::new(peer_id, "0".to_string(), 0, None, peer_status)
}

fn create_test_leecher(peer_id: [u8; 20]) -> Peer {
    let peer_status = PeerStatus::new(0, 0, 3000, None);

    Peer::new(peer_id, "0".to_string(), 0, None, peer_status)
}

fn create_inactive_peer(peer_id: [u8; 20]) -> Peer {
    let peer_status = PeerStatus {
        uploaded: 0,
        downloaded: 0,
        left: 0,
        event: None,
        last_seen: 0,
    };

    Peer::new(peer_id, "0".to_string(), 0, None, peer_status)
}
