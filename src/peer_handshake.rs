//! The 68-byte peer handshake message, and the decisions of one handshake
//! exchange.
use vstd::prelude::*;
use crate::torrent::Torrent;
use crate::url::{hex_chars, to_hex};

verus! {

/// The size of a handshake message on the wire.
pub const HANDSHAKE_MESSAGE_SERIALISE_LENGTH: usize = 68;

/// The protocol name, `BitTorrent protocol`, as bytes.
pub open spec fn protocol_name() -> Seq<u8> {
    seq![66u8, 105, 116, 84, 111, 114, 114, 101, 110, 116, 32, 112, 114, 111, 116, 111, 99, 111, 108]
}

/// A handshake message: the protocol name's length, the name, eight
/// reserved bytes, the info hash and the sender's peer id.
pub struct HandshakeMessage {
    pub length: u8,
    pub protocol: [u8; 19],
    pub reserved: [u8; 8],
    pub info_hash: [u8; 20],
    pub peer_id: [u8; 20],
}

impl HandshakeMessage {
    /// The message on the wire: its fields one after another.
    pub open spec fn wire(&self) -> Seq<u8> {
        seq![self.length] + self.protocol@ + self.reserved@ + self.info_hash@ + self.peer_id@
    }

    /// Whether the fields of `self` are those that the 68 bytes `b` hold, cut
    /// at 1, 20, 28 and 48.
    pub open spec fn read_from(&self, b: Seq<u8>) -> bool {
        &&& self.length == b[0]
        &&& self.protocol@ == b.subrange(1, 20)
        &&& self.reserved@ == b.subrange(20, 28)
        &&& self.info_hash@ == b.subrange(28, 48)
        &&& self.peer_id@ == b.subrange(48, 68)
    }

    /// A message of this protocol for `info_hash`, sent as `peer_id`.
    pub fn new(info_hash: [u8; 20], peer_id: [u8; 20]) -> (r: Self)
        ensures
            r.length == 19,
            r.protocol@ == protocol_name(),
            r.reserved@ == seq![0u8, 0, 0, 0, 0, 0, 0, 0],
            r.info_hash == info_hash,
            r.peer_id == peer_id,
    {
        let protocol: [u8; 19] = [
            66,
            105,
            116,
            84,
            111,
            114,
            114,
            101,
            110,
            116,
            32,
            112,
            114,
            111,
            116,
            111,
            99,
            111,
            108,
        ];
        let reserved: [u8; 8] = [0, 0, 0, 0, 0, 0, 0, 0];
        assert(protocol@ =~= protocol_name());
        assert(reserved@ =~= seq![0u8, 0, 0, 0, 0, 0, 0, 0]);
        HandshakeMessage { length: 19, protocol, reserved, info_hash, peer_id }
    }

    /// Cuts 68 bytes into the fields of a message.
    pub fn deserialise(bytes: [u8; 68]) -> (r: Self)
        ensures
            r.read_from(bytes@),
    {
        let mut protocol: [u8; 19] = [0u8; 19];
        let mut reserved: [u8; 8] = [0u8; 8];
        let mut info_hash: [u8; 20] = [0u8; 20];
        let mut peer_id: [u8; 20] = [0u8; 20];
        let mut i: usize = 0;
        while i < 19
            invariant
                i <= 19,
                forall|k: int| 0 <= k < i ==> protocol@[k] == bytes@[1 + k],
            decreases 19 - i,
        {
            protocol[i] = bytes[1 + i];
            i = i + 1;
        }
        let mut i: usize = 0;
        while i < 8
            invariant
                i <= 8,
                forall|k: int| 0 <= k < i ==> reserved@[k] == bytes@[20 + k],
            decreases 8 - i,
        {
            reserved[i] = bytes[20 + i];
            i = i + 1;
        }
        let mut i: usize = 0;
        while i < 20
            invariant
                i <= 20,
                forall|k: int| 0 <= k < i ==> info_hash@[k] == bytes@[28 + k],
                forall|k: int| 0 <= k < i ==> peer_id@[k] == bytes@[48 + k],
            decreases 20 - i,
        {
            info_hash[i] = bytes[28 + i];
            peer_id[i] = bytes[48 + i];
            i = i + 1;
        }
        assert(protocol@ =~= bytes@.subrange(1, 20));
        assert(reserved@ =~= bytes@.subrange(20, 28));
        assert(info_hash@ =~= bytes@.subrange(28, 48));
        assert(peer_id@ =~= bytes@.subrange(48, 68));
        HandshakeMessage { length: bytes[0], protocol, reserved, info_hash, peer_id }
    }

    /// Reads a message from a received buffer, which must hold exactly 68
    /// bytes.
    pub fn from_slice(bytes: &[u8]) -> (r: Option<Self>)
        ensures
            match r {
                Some(m) => bytes@.len() == 68 && m.read_from(bytes@),
                None => bytes@.len() != 68,
            },
    {
        if bytes.len() != HANDSHAKE_MESSAGE_SERIALISE_LENGTH {
            return None;
        }
        let mut buf: [u8; 68] = [0u8; 68];
        let mut i: usize = 0;
        while i < 68
            invariant
                i <= 68,
                bytes@.len() == 68,
                forall|k: int| 0 <= k < i ==> buf@[k] == bytes@[k],
            decreases 68 - i,
        {
            buf[i] = bytes[i];
            i = i + 1;
        }
        assert(buf@ =~= bytes@);
        Some(HandshakeMessage::deserialise(buf))
    }

    /// The message on the wire, always 68 bytes.
    pub fn serialise(&self) -> (r: Vec<u8>)
        ensures
            r@ == self.wire(),
            r@.len() == 68,
    {
        let mut ser: Vec<u8> = vec![self.length];
        let mut i: usize = 0;
        while i < 19
            invariant
                i <= 19,
                ser@ == seq![self.length] + self.protocol@.subrange(0, i as int),
            decreases 19 - i,
        {
            ser.push(self.protocol[i]);
            i = i + 1;
            assert(ser@ =~= seq![self.length] + self.protocol@.subrange(0, i as int));
        }
        assert(self.protocol@.subrange(0, 19) =~= self.protocol@);
        let ghost a = ser@;
        let mut i: usize = 0;
        while i < 8
            invariant
                i <= 8,
                ser@ == a + self.reserved@.subrange(0, i as int),
            decreases 8 - i,
        {
            ser.push(self.reserved[i]);
            i = i + 1;
            assert(ser@ =~= a + self.reserved@.subrange(0, i as int));
        }
        assert(self.reserved@.subrange(0, 8) =~= self.reserved@);
        let ghost b = ser@;
        let mut i: usize = 0;
        while i < 20
            invariant
                i <= 20,
                ser@ == b + self.info_hash@.subrange(0, i as int),
            decreases 20 - i,
        {
            ser.push(self.info_hash[i]);
            i = i + 1;
            assert(ser@ =~= b + self.info_hash@.subrange(0, i as int));
        }
        assert(self.info_hash@.subrange(0, 20) =~= self.info_hash@);
        let ghost c = ser@;
        let mut i: usize = 0;
        while i < 20
            invariant
                i <= 20,
                ser@ == c + self.peer_id@.subrange(0, i as int),
            decreases 20 - i,
        {
            ser.push(self.peer_id[i]);
            i = i + 1;
            assert(ser@ =~= c + self.peer_id@.subrange(0, i as int));
        }
        assert(self.peer_id@.subrange(0, 20) =~= self.peer_id@);
        ser
    }

    /// The sender's peer id in lowercase hexadecimal.
    pub fn peer_id_hex(&self) -> (r: String)
        ensures
            r@ == hex_chars(self.peer_id@),
    {
        to_hex(&self.peer_id)
    }
}

/// Encoding a message and reading the bytes back gives its fields again,
/// and the encoding is always 68 bytes long.
pub proof fn lemma_handshake_round_trip(m: HandshakeMessage, r: HandshakeMessage)
    requires
        r.read_from(m.wire()),
    ensures
        m.wire().len() == 68,
        r.length == m.length,
        r.protocol@ == m.protocol@,
        r.reserved@ == m.reserved@,
        r.info_hash@ == m.info_hash@,
        r.peer_id@ == m.peer_id@,
{
    let w = m.wire();
    assert(w.subrange(1, 20) =~= m.protocol@);
    assert(w.subrange(20, 28) =~= m.reserved@);
    assert(w.subrange(28, 48) =~= m.info_hash@);
    assert(w.subrange(48, 68) =~= m.peer_id@);
}

/// Why a handshake failed.
#[derive(Debug, PartialEq, Eq, Structural)]
pub enum HandshakeError {
    /// No connection to the peer could be opened.
    Connect,
    /// The message could not be written whole.
    ShortWrite,
    /// The stream ended before 68 bytes of answer came.
    ShortRead,
}

/// Where a handshake exchange stands.
pub enum HandshakeState {
    Idle,
    Connected,
    Sent,
    Complete(HandshakeMessage),
    Failed(HandshakeError),
}

/// What the transport reports back to the exchange.
pub enum HandshakeEvent {
    /// The connection to the peer was opened.
    Connected,
    /// The connection could not be opened.
    ConnectFailed,
    /// This many bytes of the request were written.
    Written(usize),
    /// These bytes were read before 68 had come or the stream ended.
    Read(Vec<u8>),
}

/// One handshake with a peer for a torrent.
pub struct PeerHandshake<'t, T: Torrent> {
    torrent: &'t T,
    peer_id: [u8; 20],
}

impl<'t, T: Torrent> PeerHandshake<'t, T> {
    pub closed spec fn torrent_view(&self) -> &'t T {
        self.torrent
    }

    pub closed spec fn peer_id_view(&self) -> Seq<u8> {
        self.peer_id@
    }

    pub fn new(torrent: &'t T, peer_id: [u8; 20]) -> (r: Self)
        ensures
            r.torrent_view() == torrent,
            r.peer_id_view() == peer_id@,
    {
        PeerHandshake { torrent, peer_id }
    }

    /// The 68 bytes to send once connected: a message for the torrent's
    /// info hash, from our peer id.
    pub fn request(&self) -> (r: Vec<u8>)
        ensures
            r@.len() == 68,
            r@ == seq![19u8] + protocol_name() + seq![0u8, 0, 0, 0, 0, 0, 0, 0]
                + self.torrent_view().spec_info_hash() + self.peer_id_view(),
    {
        let m = HandshakeMessage::new(self.torrent.info_hash(), self.peer_id);
        m.serialise()
    }

    /// Takes what was read back from the peer: exactly 68 bytes complete the
    /// handshake, anything shorter is a short read.
    pub fn complete(&self, response: &[u8]) -> (r: Result<HandshakeMessage, HandshakeError>)
        ensures
            match r {
                Ok(m) => response@.len() == 68 && m.read_from(response@),
                Err(e) => response@.len() != 68 && e == HandshakeError::ShortRead,
            },
    {
        match HandshakeMessage::from_slice(response) {
            Some(m) => Ok(m),
            None => Err(HandshakeError::ShortRead),
        }
    }

    /// The next state of the exchange after `event`. Opening the connection
    /// leads to sending, a whole request to reading, and exactly 68 bytes read
    /// to completion; a failure at any step ends the exchange. An event that
    /// does not belong to the current state leaves it as it is.
    pub fn step(&self, state: HandshakeState, event: HandshakeEvent) -> (r: HandshakeState)
        ensures
            match (state, event) {
                (HandshakeState::Idle, HandshakeEvent::Connected) => r is Connected,
                (HandshakeState::Idle, HandshakeEvent::ConnectFailed) => r == HandshakeState::Failed(
                    HandshakeError::Connect,
                ),
                (HandshakeState::Connected, HandshakeEvent::Written(n)) => if n == 68 {
                    r is Sent
                } else {
                    r == HandshakeState::Failed(HandshakeError::ShortWrite)
                },
                (HandshakeState::Sent, HandshakeEvent::Read(b)) => if b@.len() == 68 {
                    r matches HandshakeState::Complete(m) && m.read_from(b@)
                } else {
                    r == HandshakeState::Failed(HandshakeError::ShortRead)
                },
                (s, _) => r == s,
            },
    {
        match (state, event) {
            (HandshakeState::Idle, HandshakeEvent::Connected) => HandshakeState::Connected,
            (HandshakeState::Idle, HandshakeEvent::ConnectFailed) => HandshakeState::Failed(
                HandshakeError::Connect,
            ),
            (HandshakeState::Connected, HandshakeEvent::Written(n)) => {
                if n == HANDSHAKE_MESSAGE_SERIALISE_LENGTH {
                    HandshakeState::Sent
                } else {
                    HandshakeState::Failed(HandshakeError::ShortWrite)
                }
            },
            (HandshakeState::Sent, HandshakeEvent::Read(b)) => match self.complete(b.as_slice()) {
                Ok(m) => HandshakeState::Complete(m),
                Err(e) => HandshakeState::Failed(e),
            },
            (s, _) => s,
        }
    }
}

} // verus!
