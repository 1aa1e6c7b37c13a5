use dtorrent::bencode::Bencode;
use dtorrent::info::{FromInfoError, Info};
use dtorrent::parser::TorrentParser;
use dtorrent::torrent::{FromTorrentError, Torrent};

#[test]
fn test_from_info_empty() {
    let bencode = Bencode::BDict(vec![]);
    let info = Info::from(&bencode).unwrap();
    assert_eq!(info.length, 0);
    assert_eq!(info.name, String::new());
    assert_eq!(info.piece_length, 0);
    assert_eq!(info.pieces, Vec::new());
}

#[test]
fn test_from_info_full() {
    let info = vec![
        (b"length".to_vec(), Bencode::BNumber(1)),
        (b"name".to_vec(), Bencode::BString(b"test1".to_vec())),
        (b"piece length".to_vec(), Bencode::BNumber(2)),
        (b"pieces".to_vec(), Bencode::BString(b"test2".to_vec())),
    ];
    let bencode = Bencode::BDict(info);

    let response = Info::from(&bencode).unwrap();
    assert_eq!(response.length, 1);
    assert_eq!(response.name, "test1");
    assert_eq!(response.piece_length, 2);
    assert_eq!(response.pieces, b"test2");
}

#[test]
fn test_from_info_with_multiple_files() {
    let info = vec![
        (b"files".to_vec(), Bencode::BList(vec![])),
        (b"name".to_vec(), Bencode::BString(b"test1".to_vec())),
        (b"piece length".to_vec(), Bencode::BNumber(2)),
        (b"pieces".to_vec(), Bencode::BString(b"test2".to_vec())),
    ];
    let bencode = Bencode::BDict(info);

    let response = Info::from(&bencode).unwrap_err();
    assert_eq!(response, FromInfoError::MultipleFilesNotSupported);
}

#[test]
fn test_from_torrent_full() {
    let announce = String::from("http://example.com/announce");
    let info_len = 10;
    let info_name = String::from("example");
    let info_piece_len = 20;
    let info_pieces = String::from("test").into_bytes();

    let info_bencode = build_info_bencode(
        info_len,
        info_name.clone().into_bytes(),
        info_piece_len,
        info_pieces.clone(),
    );
    let torrent_bencode =
        build_torrent_bencode(announce.clone().into_bytes(), info_bencode.clone());

    let info = Info::from(&Bencode::BDict(info_bencode)).unwrap();
    let info_hash = Torrent::create_info_hash(&info).unwrap();

    let torrent = Torrent::from(torrent_bencode).unwrap();

    assert_eq!(torrent.announce_url, announce);
    assert_eq!(torrent.info.length, info_len);
    assert_eq!(torrent.info.name, info_name);
    assert_eq!(torrent.info.piece_length, info_piece_len);
    assert_eq!(torrent.info.pieces, info_pieces);
    assert_eq!(torrent.info_hash, info_hash);
}

#[test]
fn test_from_torrent_empty() {
    let torrent_bencode = Bencode::BDict(vec![]);

    let actual_err = Torrent::from(torrent_bencode).unwrap_err();
    let expected_err = FromTorrentError::MissingAnnounce;

    assert_eq!(actual_err, expected_err);
}

#[test]
fn test_from_torrent_missing_announce() {
    let m = vec![(b"info".to_vec(), Bencode::BDict(vec![]))];
    let torrent_bencode = Bencode::BDict(m);

    let actual_err = Torrent::from(torrent_bencode).unwrap_err();
    let expected_err = FromTorrentError::MissingAnnounce;

    assert_eq!(actual_err, expected_err);
}

#[test]
fn test_from_torrent_missing_info() {
    let announce = String::from("http://example.com/announce").into_bytes();
    let m = vec![(b"announce".to_vec(), Bencode::BString(announce))];
    let torrent_bencode = Bencode::BDict(m);

    let actual_err = Torrent::from(torrent_bencode).unwrap_err();
    let expected_err = FromTorrentError::MissingInfo;

    assert_eq!(actual_err, expected_err);
}

#[test]
fn test_from_torrent_not_a_dict() {
    let torrent_bencode = Bencode::BString(String::from("test").into_bytes());

    let actual_err = Torrent::from(torrent_bencode).unwrap_err();
    let expected_err = FromTorrentError::NotADict;

    assert_eq!(actual_err, expected_err);
}

#[test]
fn test_get_info_hash_as_bytes() {
    let info_hash = String::from("2c6b6858d61da9543d4231a71db4b1c9264b0685");
    let info_hash_bytes = [
        44, 107, 104, 88, 214, 29, 169, 84, 61, 66, 49, 167, 29, 180, 177, 201, 38, 75, 6, 133,
    ];

    let torrent = Torrent {
        announce_url: String::from("http://example.com/announce"),
        info: Info {
            length: 10,
            name: String::from("example"),
            piece_length: 20,
            pieces: String::from("test").into_bytes(),
        },
        info_hash,
    };

    assert_eq!(torrent.get_info_hash_as_bytes().unwrap(), info_hash_bytes);
}

#[test]
fn test_name() {
    let torrent = build_test_torrent();
    assert_eq!(torrent.name(), "example");
}

#[test]
fn test_piece_length() {
    let torrent = build_test_torrent();
    assert_eq!(torrent.piece_length(), 10);
}

#[test]
fn test_length() {
    let torrent = build_test_torrent();
    assert_eq!(torrent.length(), 105);
}

#[test]
fn test_total_pieces() {
    let torrent = build_test_torrent();
    assert_eq!(torrent.total_pieces(), 11);
}

#[test]
fn test_last_piece_size() {
    let torrent = build_test_torrent();
    assert_eq!(torrent.last_piece_size(), 5);
}

#[test]
fn test_parse_torrent() {
    let contents: &[u8] =
        b"d8:announce35:https://torrent.ubuntu.com/announce4:infod6:lengthi3654957056e4:name30:ubuntu-22.04-desktop-amd64.iso12:piece lengthi262144e6:pieces64:<hex>BC 07 C0 6A 9D BC 07 C0 6A 9D BC 07 C0 6A 9D BC 07 C0 6A 9Dee";

    let torrent = TorrentParser::parse(contents).unwrap();

    assert_eq!(torrent.announce_url, "https://torrent.ubuntu.com/announce",);
    assert_eq!(torrent.info.length, 3654957056);
    assert_eq!(torrent.info.name, "ubuntu-22.04-desktop-amd64.iso");
    assert_eq!(torrent.info.piece_length, 262144);
    assert_eq!(
        torrent.info_hash,
        "48442ddee1900ed8c8101bb8b2bd955060f1eabc"
    );
}

fn build_info_bencode(
    length: i64,
    name: Vec<u8>,
    pieces_len: i64,
    pieces: Vec<u8>,
) -> Vec<(Vec<u8>, Bencode)> {
    vec![
        (b"length".to_vec(), Bencode::BNumber(length)),
        (b"name".to_vec(), Bencode::BString(name)),
        (b"piece length".to_vec(), Bencode::BNumber(pieces_len)),
        (b"pieces".to_vec(), Bencode::BString(pieces)),
    ]
}

fn build_torrent_bencode(announce: Vec<u8>, info: Vec<(Vec<u8>, Bencode)>) -> Bencode {
    Bencode::BDict(vec![
        (b"announce".to_vec(), Bencode::BString(announce)),
        (b"info".to_vec(), Bencode::BDict(info)),
    ])
}

fn build_test_torrent() -> Torrent {
    Torrent {
        announce_url: String::from("http://example.com/announce"),
        info: Info {
            length: 105,
            name: String::from("example"),
            piece_length: 10,
            pieces: String::from("test").into_bytes(),
        },
        info_hash: "info_hash".to_string(),
    }
}
