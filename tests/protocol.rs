use bittorrent::decoder::DecodeError;
use bittorrent::peer_handshake::{
    HandshakeError, HandshakeEvent, HandshakeMessage, HandshakeState, PeerHandshake,
};
use bittorrent::torrent::Torrent;
use bittorrent::torrent_file::{FileError, Pieces, TorrentFile};
use bittorrent::tracker::{Peers, Tracker, TrackerError, TrackerQuery, TrackerResponse};
use bittorrent::url::encode;
use sha1::{Digest, Sha1};

fn descriptor(pieces: &[u8]) -> Vec<u8> {
    let mut out = Vec::new();
    out.extend_from_slice(b"d8:announce23:http://tracker.test/ann4:infod");
    out.extend_from_slice(b"4:name8:file.txt");
    out.extend_from_slice(b"12:piece lengthi32768e");
    out.extend_from_slice(format!("6:pieces{}:", pieces.len()).as_bytes());
    out.extend_from_slice(pieces);
    out.extend_from_slice(b"6:lengthi92063eee");
    out
}

fn two_pieces() -> Vec<u8> {
    let mut p = vec![0xabu8; 20];
    p.extend_from_slice(&[0x01u8; 20]);
    p
}

fn sha1(bytes: &[u8]) -> [u8; 20] {
    Sha1::digest(bytes).into()
}

#[test]
fn reads_descriptor_fields() {
    let t = TorrentFile::from_bytes(&descriptor(&two_pieces())).unwrap();
    assert_eq!(t.tracker_url(), "http://tracker.test/ann");
    assert_eq!(t.length(), 92063);
    assert_eq!(t.left(), 92063);
    assert_eq!(t.name(), "file.txt");
    assert_eq!(t.piece_length(), 32768);
    let hashes = t.pieces().iter();
    assert_eq!(hashes.len(), 2);
    assert_eq!(hashes[0], [0xabu8; 20]);
    assert_eq!(hashes[1], [0x01u8; 20]);
    let hex = t.piece_hashes_hex();
    assert_eq!(hex[0], "ab".repeat(20));
    assert_eq!(hex[1], "01".repeat(20));
}

#[test]
fn info_hash_is_sha1_of_sorted_info_dictionary() {
    let pieces = two_pieces();
    let t = TorrentFile::from_bytes(&descriptor(&pieces)).unwrap();
    let mut info = Vec::new();
    info.extend_from_slice(b"d6:lengthi92063e4:name8:file.txt12:piece lengthi32768e6:pieces40:");
    info.extend_from_slice(&pieces);
    info.push(b'e');
    let expected = sha1(&info);
    assert_eq!(t.info_hash(), expected);
    assert_eq!(t.info_hash_hex(), hex::encode(expected));
}

#[test]
fn rejects_pieces_not_a_multiple_of_twenty() {
    let r = TorrentFile::from_bytes(&descriptor(&[7u8; 21]));
    assert_eq!(r.err(), Some(FileError::Decode(DecodeError)));
    assert!(Pieces::from_bytes(&[0u8; 19]).is_none());
    assert_eq!(Pieces::from_bytes(&[0u8; 40]).unwrap().iter().len(), 2);
}

#[test]
fn rejects_descriptor_missing_keys_or_malformed() {
    let r = TorrentFile::from_bytes(b"d8:announce3:abce");
    assert_eq!(r.err(), Some(FileError::Decode(DecodeError)));
    let r = TorrentFile::from_bytes(b"d8:announce3:abc4:infoi1ee");
    assert_eq!(r.err(), Some(FileError::Decode(DecodeError)));
    let r = TorrentFile::from_bytes(b"d8:announce");
    assert_eq!(r.err(), Some(FileError::Decode(DecodeError)));
    let r = TorrentFile::from_bytes(
        b"d8:announce1:a4:infod6:lengthi-1e4:name1:n12:piece lengthi1e6:pieces0:ee",
    );
    assert_eq!(r.err(), Some(FileError::Decode(DecodeError)));
}

#[test]
fn decodes_two_compact_peers() {
    let bytes = [192u8, 168, 0, 1, 0x1a, 0xe1, 10, 0, 0, 2, 0x00, 0x50];
    let peers = Peers::from_compact(&bytes).unwrap();
    let list = peers.iter();
    assert_eq!(list.len(), 2);
    assert_eq!(list[0].ip, [192, 168, 0, 1]);
    assert_eq!(list[0].port, 6881);
    assert_eq!(list[1].ip, [10, 0, 0, 2]);
    assert_eq!(list[1].port, 80);
}

#[test]
fn rejects_compact_peers_of_length_seven() {
    assert!(Peers::from_compact(&[1u8; 7]).is_none());
    assert_eq!(Peers::from_compact(&[]).unwrap().iter().len(), 0);
}

#[test]
fn reads_tracker_response() {
    let mut body = b"d8:intervali900e5:peers12:".to_vec();
    body.extend_from_slice(&[127, 0, 0, 1, 0x1a, 0xe1, 1, 2, 3, 4, 0xff, 0xff]);
    body.push(b'e');
    let r = TrackerResponse::from_bytes(&body).unwrap();
    let peers = r.peers().iter();
    assert_eq!(peers.len(), 2);
    assert_eq!(peers[0].ip, [127, 0, 0, 1]);
    assert_eq!(peers[1].port, 65535);
}

#[test]
fn rejects_bad_tracker_responses() {
    assert_eq!(
        TrackerResponse::from_bytes(b"d5:peers7:abcdefge").err(),
        Some(TrackerError::Decode)
    );
    assert_eq!(TrackerResponse::from_bytes(b"d1:xi1ee").err(), Some(TrackerError::Decode));
    assert_eq!(TrackerResponse::from_bytes(b"xyz").err(), Some(TrackerError::Decode));
}

#[test]
fn percent_encodes_every_byte() {
    assert_eq!(encode(&[0x12, 0xab, 0x00, 0xff]), "%12%ab%00%ff");
    assert_eq!(encode(&[]), "");
}

#[test]
fn builds_query_string() {
    let q = TrackerQuery::new("%01%02".to_string(), *b"-RS0001-123456789012", 42);
    assert_eq!(q.port, 6881);
    assert_eq!(q.compact, 1);
    let mut expected = String::from("info_hash=%01%02&peer_id=");
    expected.push_str(&encode(b"-RS0001-123456789012"));
    expected.push_str("&port=6881&uploaded=0&downloaded=0&left=42&compact=1");
    assert_eq!(q.to_query_string(), expected);
}

#[test]
fn builds_request_url() {
    let t = TorrentFile::from_bytes(&descriptor(&two_pieces())).unwrap();
    let tracker = Tracker::new(&t);
    let url = tracker.request_url(*b"00112233445566778899");
    let expected = format!(
        "http://tracker.test/ann?info_hash={}&peer_id={}&port=6881&uploaded=0&downloaded=0&left=92063&compact=1",
        encode(&t.info_hash()),
        encode(b"00112233445566778899")
    );
    assert_eq!(url, expected);
}

#[test]
fn handshake_round_trip() {
    let info_hash = [0x5au8; 20];
    let peer_id = *b"00112233445566778899";
    let m = HandshakeMessage::new(info_hash, peer_id);
    let bytes = m.serialise();
    assert_eq!(bytes.len(), 68);
    assert_eq!(bytes[0], 19);
    assert_eq!(&bytes[1..20], b"BitTorrent protocol");
    assert_eq!(&bytes[20..28], &[0u8; 8]);
    let arr: [u8; 68] = bytes.clone().try_into().unwrap();
    let back = HandshakeMessage::deserialise(arr);
    assert_eq!(back.info_hash, info_hash);
    assert_eq!(back.peer_id, peer_id);
    assert_eq!(back.length, 19);
    assert_eq!(&back.protocol, b"BitTorrent protocol");
    assert_eq!(back.peer_id_hex(), hex::encode(peer_id));
    let again = HandshakeMessage::from_slice(&bytes).unwrap();
    assert_eq!(again.serialise(), bytes);
}

#[test]
fn handshake_session_messages() {
    let t = TorrentFile::from_bytes(&descriptor(&two_pieces())).unwrap();
    let session = PeerHandshake::new(&t, *b"00112233445566778899");
    let req = session.request();
    assert_eq!(req.len(), 68);
    assert_eq!(&req[28..48], &t.info_hash());
    let mut reply = req.clone();
    reply[48..68].copy_from_slice(&[9u8; 20]);
    let m = session.complete(&reply).unwrap();
    assert_eq!(m.peer_id, [9u8; 20]);
    assert_eq!(session.complete(&reply[..60]).err(), Some(HandshakeError::ShortRead));
}

#[test]
fn rejects_descriptor_with_non_utf8_name() {
    let bytes = b"d8:announce1:a4:infod6:lengthi1e4:name2:\xff\xfe12:piece lengthi1e6:pieces0:ee";
    let r = TorrentFile::from_bytes(bytes);
    assert_eq!(r.err(), Some(FileError::Decode(DecodeError)));
}

#[test]
fn info_hash_ignores_key_order_and_extra_keys_of_the_file() {
    let a = TorrentFile::from_bytes(
        b"d8:announce1:a4:infod6:pieces0:4:name1:n12:piece lengthi2e6:lengthi3eee",
    )
    .unwrap();
    let b = TorrentFile::from_bytes(
        b"d4:infod6:lengthi3e4:name1:n12:piece lengthi2e6:pieces0:5:extrai9ee8:announce1:ae",
    )
    .unwrap();
    let expected = sha1(b"d6:lengthi3e4:name1:n12:piece lengthi2e6:pieces0:e");
    assert_eq!(a.info_hash(), expected);
    assert_eq!(b.info_hash(), expected);
}

#[test]
fn handshake_session_steps() {
    let t = TorrentFile::from_bytes(&descriptor(&two_pieces())).unwrap();
    let session = PeerHandshake::new(&t, *b"00112233445566778899");
    let s = session.step(HandshakeState::Idle, HandshakeEvent::Connected);
    assert!(matches!(s, HandshakeState::Connected));
    let s = session.step(s, HandshakeEvent::Written(68));
    assert!(matches!(s, HandshakeState::Sent));
    let reply = session.request();
    match session.step(s, HandshakeEvent::Read(reply)) {
        HandshakeState::Complete(m) => assert_eq!(m.peer_id, *b"00112233445566778899"),
        _ => panic!("handshake did not complete"),
    }
    assert!(matches!(
        session.step(HandshakeState::Idle, HandshakeEvent::ConnectFailed),
        HandshakeState::Failed(HandshakeError::Connect)
    ));
    assert!(matches!(
        session.step(HandshakeState::Connected, HandshakeEvent::Written(30)),
        HandshakeState::Failed(HandshakeError::ShortWrite)
    ));
    assert!(matches!(
        session.step(HandshakeState::Sent, HandshakeEvent::Read(vec![1u8; 67])),
        HandshakeState::Failed(HandshakeError::ShortRead)
    ));
    assert!(matches!(
        session.step(HandshakeState::Idle, HandshakeEvent::Written(68)),
        HandshakeState::Idle
    ));
}
