use dtorrent::bitfield::Bitfield;
use dtorrent::handshake::Handshake;
use dtorrent::message::{Message, MessageId};
use dtorrent::request::Request;
use dtorrent::peer_session::{classify_frame_length, interest_wait_step, FrameLength, InterestWait};
use dtorrent::status::PieceStatus;

#[test]
fn test_as_bytes() {
    let expected_handshake_len = 68;
    let expected_pstrlen = 19;
    let expected_pstr = b"BitTorrent protocol".to_vec();
    let expected_reserved = [0; 8];

    let info_hash: Vec<u8> = (1..=20).collect();
    let peer_id: Vec<u8> = (21..=40).collect();
    let handshake = Handshake::new(info_hash.clone(), peer_id.clone());

    let bytes = handshake.as_bytes();

    assert_eq!(bytes.len(), expected_handshake_len);
    assert_eq!(bytes[0], expected_pstrlen);
    assert_eq!(bytes[1..20], expected_pstr);
    assert_eq!(bytes[20..28], expected_reserved);
    assert_eq!(bytes[28..48], info_hash);
    assert_eq!(bytes[48..], peer_id);
}

#[test]
fn test_from_bytes() {
    let expected_pstrlen = 19;
    let expected_pstr = "BitTorrent protocol";
    let expected_reserved = [0; 8];

    let info_hash: Vec<u8> = (1..=20).collect();
    let peer_id: Vec<u8> = (21..=40).collect();
    let handshake = Handshake::new(info_hash.clone(), peer_id.clone());
    let bytes = handshake.as_bytes();

    let handshake = Handshake::from_bytes(&bytes).unwrap();

    assert_eq!(handshake.pstrlen, expected_pstrlen);
    assert_eq!(handshake.pstr, expected_pstr);
    assert_eq!(handshake.reserved, expected_reserved);
    assert_eq!(handshake.info_hash, info_hash);
    assert_eq!(handshake.peer_id, peer_id);
}

#[test]
fn test_from_bytes_rejects_wrong_protocol() {
    let info_hash: Vec<u8> = (1..=20).collect();
    let peer_id: Vec<u8> = (21..=40).collect();
    let mut bytes = Handshake::new(info_hash, peer_id).as_bytes();
    bytes[1] = b'X';
    assert!(Handshake::from_bytes(&bytes).is_err());
}

#[test]
fn test_message_unchoke_from_bytes() {
    let payload = 1u8.to_be_bytes();
    let msg = Message::from_bytes(&payload).unwrap();

    assert_eq!(msg.id, MessageId::Unchoke);
    assert_eq!(msg.payload, vec![]);
}

#[test]
fn test_message_interested_from_bytes() {
    let payload = 2u8.to_be_bytes();
    let msg = Message::from_bytes(&payload).unwrap();

    assert_eq!(msg.id, MessageId::Interested);
    assert_eq!(msg.payload, vec![]);
}

#[test]
fn test_message_request_as_bytes() {
    let index = 0u32.to_be_bytes();
    let begin = 0u32.to_be_bytes();
    let length = 16384u32.to_be_bytes();
    let payload = [index, begin, length].concat();
    let msg = Message::new(MessageId::Request, payload.clone());

    let bytes = msg.as_bytes();

    let len = 13u32.to_be_bytes();
    let msg_type = 6u8.to_be_bytes();
    let mut expected = vec![];
    expected.extend(&len);
    expected.extend(&msg_type);
    expected.extend(&payload);

    assert_eq!(bytes, expected);
}

#[test]
fn test_message_interested_as_bytes() {
    let msg = Message::new(MessageId::Interested, vec![]);

    let bytes = msg.as_bytes();

    let len = 1u32.to_be_bytes();
    let msg_type = 2u8.to_be_bytes();
    let mut expected = vec![];
    expected.extend(&len);
    expected.extend(&msg_type);

    assert_eq!(bytes, expected);
}

#[test]
fn test_message_from_bytes_rejects_unknown_id() {
    let payload = [10u8, 0, 0];
    assert!(Message::from_bytes(&payload).is_err());
}

#[test]
fn test_request_as_bytes() {
    let index = 0u32;
    let begin = 0u32;
    let length = 16384u32;
    let request = Request::new(index, begin, length);

    let bytes = request.as_bytes();

    let mut expected = vec![];
    expected.extend(&index.to_be_bytes());
    expected.extend(&begin.to_be_bytes());
    expected.extend(&length.to_be_bytes());

    assert_eq!(bytes, expected);
}

#[test]
fn test_bitfield_has_all_pieces() {
    let bitfield = Bitfield::new(vec![0b11111111, 0b11111111, 0b11111111, 0b11111111]);

    assert!(bitfield.has_piece(4));
}

#[test]
fn test_bitfield_has_one_piece() {
    let bitfield = Bitfield::new(vec![0b00000000, 0b00000010, 0b00000000, 0b00000000]);

    assert!(bitfield.has_piece(14));
}

#[test]
fn test_bitfield_not_has_piece() {
    let bitfield = Bitfield::new(vec![0b11111111, 0b11111111, 0b11111101, 0b11111111]);

    assert!(!bitfield.has_piece(22));
}

#[test]
fn test_bitfield_from_one_piece_finished() {
    let mut pieces_status = vec![PieceStatus::Free; 8];
    pieces_status[0] = PieceStatus::Finished;

    let bitfield = Bitfield::from(&pieces_status);

    assert_eq!(bitfield.get_vec(), vec![0b1000_0000]);
}

#[test]
fn test_bitfield_from_one_piece_finished_in_the_middle() {
    let mut pieces_status = vec![PieceStatus::Free; 8];
    pieces_status[3] = PieceStatus::Finished;

    let bitfield = Bitfield::from(&pieces_status);

    assert_eq!(bitfield.get_vec(), vec![0b0001_0000]);
}

#[test]
fn test_bitfield_from_all_pieces_finished() {
    let pieces_status = vec![PieceStatus::Finished; 8];

    let bitfield = Bitfield::from(&pieces_status);

    assert_eq!(bitfield.get_vec(), vec![0b1111_1111]);
}

#[test]
fn test_from_two_bytes() {
    let pieces_status = vec![PieceStatus::Finished; 9];

    let bitfield = Bitfield::from(&pieces_status);

    assert_eq!(bitfield.get_vec(), vec![0b1111_1111, 0b1000_0000]);
}

#[test]
fn test_from_two_bytes_complete() {
    let pieces_status = vec![PieceStatus::Finished; 16];

    let bitfield = Bitfield::from(&pieces_status);

    assert_eq!(bitfield.get_vec(), vec![0b1111_1111, 0b1111_1111]);
}

#[test]
fn test_diff() {
    let bitfield1 = Bitfield::new(vec![0b11111100, 0b11111111]);
    let bitfield2 = Bitfield::new(vec![0b00011100, 0b00111111]);

    assert_eq!(bitfield2.diff(&bitfield1), vec![0, 1, 2, 8, 9]);
}

#[test]
fn test_equal_diff() {
    let bitfield1 = Bitfield::new(vec![0b11111100, 0b11111111]);
    let bitfield2 = Bitfield::new(vec![0b11111100, 0b11111111]);

    assert_eq!(bitfield2.diff(&bitfield1), vec![]);
}

#[test]
fn test_set_bit_true() {
    let mut bitfield = Bitfield::new(vec![0b00000000]);
    bitfield.set_bit(0, true);

    assert_eq!(bitfield.get_vec(), vec![0b10000000]);
}

#[test]
fn test_set_bit_false() {
    let mut bitfield = Bitfield::new(vec![0b11000000]);
    bitfield.set_bit(1, false);

    assert_eq!(bitfield.get_vec(), vec![0b10000000]);
}

#[test]
fn test_is_complete() {
    assert!(Bitfield::new(vec![0xff, 0xff]).is_complete());
    assert!(!Bitfield::new(vec![0xff, 0xfe]).is_complete());
}

#[test]
fn test_classify_frame_length() {
    assert!(match classify_frame_length(0) {
        FrameLength::KeepAlive => true,
        _ => false,
    });
    assert!(match classify_frame_length(163841) {
        FrameLength::TooLong => true,
        _ => false,
    });
    assert!(match classify_frame_length(163840) {
        FrameLength::Payload(n) => n == 163840,
        _ => false,
    });
    assert!(match classify_frame_length(13) {
        FrameLength::Payload(n) => n == 13,
        _ => false,
    });
}

#[test]
fn test_interest_wait_step() {
    assert!(match interest_wait_step(&MessageId::NotInterested) {
        InterestWait::EndSession => true,
        _ => false,
    });
    assert!(match interest_wait_step(&MessageId::Interested) {
        InterestWait::StartUpload => true,
        _ => false,
    });
    assert!(match interest_wait_step(&MessageId::Choke) {
        InterestWait::KeepWaiting => true,
        _ => false,
    });
}

#[test]
fn test_handshake_is_ourself() {
    let info_hash = vec![7u8; 20];
    let ours = b"-qB4250-abcdefgh1234".to_vec();
    let handshake = Handshake::new(info_hash, ours.clone());
    assert!(handshake.is_ourself(&ours));
    assert!(!handshake.is_ourself(b"-qB4250-abcdefgh0000"));
}
