//! The tracker query: the request URL, and the compact peer list of the
//! response.
use vstd::prelude::*;
use vstd::string::StringExecFns;
use crate::bencode::{parse_value, Value};
use crate::decoder::decode_at;
use crate::torrent::Torrent;
use crate::torrent_file::get_bytes;
use crate::url::{encode, url_encoded};

verus! {

pub open spec fn key_peers() -> Seq<u8> {
    seq![112u8, 101, 101, 114, 115]
}

/// The decimal digit characters.
pub open spec fn digit_chars() -> Seq<char> {
    seq!['0', '1', '2', '3', '4', '5', '6', '7', '8', '9']
}

/// The decimal text of `n`, most significant digit first.
pub open spec fn decimal_chars(n: nat) -> Seq<char>
    decreases n,
{
    if n < 10 {
        seq![digit_chars()[n as int]]
    } else {
        decimal_chars(n / 10).push(digit_chars()[(n % 10) as int])
    }
}

/// Relies on `ToString` for usize (its `Display`): the decimal digits of
/// the number, without sign or padding.
#[verifier::external_body]
fn decimal_text(n: usize) -> (r: String)
    ensures
        r@ == decimal_chars(n as nat),
{
    n.to_string()
}

/// A peer's IPv4 address and port.
#[derive(Clone, Copy, Debug)]
pub struct PeerAddress {
    pub ip: [u8; 4],
    pub port: u16,
}

/// Whether `ps` is what the compact list `b` holds: one peer for each six
/// bytes, four octets in order and then the port, high byte first.
pub open spec fn compact_peers(ps: Seq<PeerAddress>, b: Seq<u8>) -> bool {
    &&& ps.len() * 6 == b.len()
    &&& forall|i: int|
        0 <= i < ps.len() ==> {
            &&& (#[trigger] ps[i]).ip@ == b.subrange(6 * i, 6 * i + 4)
            &&& ps[i].port == b[6 * i + 4] as int * 256 + b[6 * i + 5] as int
        }
}

/// The peers of a tracker response, in order.
pub struct Peers(Vec<PeerAddress>);

impl View for Peers {
    type V = Seq<PeerAddress>;

    closed spec fn view(&self) -> Seq<PeerAddress> {
        self.0@
    }
}

impl Peers {
    pub fn new(peers: Vec<PeerAddress>) -> (r: Self)
        ensures
            r@ == peers@,
    {
        Peers(peers)
    }

    /// The peers, in order.
    pub fn iter(&self) -> (r: &[PeerAddress])
        ensures
            r@ == self@,
    {
        self.0.as_slice()
    }

    /// Decodes a compact peer list; a length that is not a multiple of six
    /// is refused.
    pub fn from_compact(b: &[u8]) -> (r: Option<Self>)
        ensures
            match r {
                Some(p) => b@.len() % 6 == 0 && compact_peers(p@, b@),
                None => b@.len() % 6 != 0,
            },
    {
        let len = b.len();
        if len % 6 != 0 {
            return None;
        }
        let n = len / 6;
        let mut out: Vec<PeerAddress> = Vec::new();
        let mut i: usize = 0;
        while i < n
            invariant
                i <= n,
                n * 6 == b@.len(),
                len == b@.len(),
                out@.len() == i,
                forall|k: int|
                    0 <= k < i ==> {
                        &&& (#[trigger] out@[k]).ip@ == b@.subrange(6 * k, 6 * k + 4)
                        &&& out@[k].port == b@[6 * k + 4] as int * 256 + b@[6 * k + 5] as int
                    },
            decreases n - i,
        {
            assert(6 * i + 6 <= len) by (nonlinear_arith)
                requires
                    i < n,
                    n * 6 == len,
            ;
            let base = 6 * i;
            let ip: [u8; 4] = [b[base], b[base + 1], b[base + 2], b[base + 3]];
            let port: u16 = (b[base + 4] as u16) * 256 + (b[base + 5] as u16);
            assert(ip@ =~= b@.subrange(6 * i as int, 6 * i + 4));
            out.push(PeerAddress { ip, port });
            i = i + 1;
        }
        Some(Peers(out))
    }
}

/// Why a tracker query failed.
#[derive(Debug, PartialEq, Eq, Structural)]
pub enum TrackerError {
    /// The request could not be made or answered.
    Request,
    /// The response is not a bencoded dictionary with a compact `peers` list.
    Decode,
}

/// What a tracker answered.
pub struct TrackerResponse {
    peers: Peers,
}

impl TrackerResponse {
    pub closed spec fn peers_view(&self) -> Seq<PeerAddress> {
        self.peers@
    }

    /// Reads a response body: a bencoded dictionary whose `peers` is a
    /// compact peer list.
    pub fn from_bytes(body: &[u8]) -> (r: Result<TrackerResponse, TrackerError>)
        ensures
            match parse_value(body@, 0) {
                Some((v, _)) => match get_bytes(v, key_peers()) {
                    Some(p) => if p.len() % 6 == 0 {
                        r matches Ok(t) && compact_peers(t.peers_view(), p)
                    } else {
                        r == Err::<TrackerResponse, TrackerError>(TrackerError::Decode)
                    },
                    None => r == Err::<TrackerResponse, TrackerError>(TrackerError::Decode),
                },
                None => r == Err::<TrackerResponse, TrackerError>(TrackerError::Decode),
            },
    {
        let v = match decode_at(body, 0) {
            Ok((v, _)) => v,
            Err(_) => {
                return Err(TrackerError::Decode);
            },
        };
        let key = vec![112u8, 101, 101, 114, 115];
        assert(key@ == key_peers());
        match v.get(key.as_slice()) {
            Some(Value::ByteString(b)) => match Peers::from_compact(b.as_slice()) {
                Some(peers) => Ok(TrackerResponse { peers }),
                None => Err(TrackerError::Decode),
            },
            _ => Err(TrackerError::Decode),
        }
    }

    pub fn peers(&self) -> (r: &Peers)
        ensures
            r@ == self.peers_view(),
    {
        &self.peers
    }
}

/// The query parameters of a tracker request.
pub struct TrackerQuery {
    pub info_hash: String,
    pub peer_id: [u8; 20],
    pub port: u16,
    pub uploaded: usize,
    pub downloaded: usize,
    pub left: usize,
    pub compact: u8,
}

/// The query text: each parameter as `name=value`, joined by `&`.
pub open spec fn query_text(q: TrackerQuery) -> Seq<char> {
    "info_hash="@ + q.info_hash@ + "&peer_id="@ + url_encoded(q.peer_id@) + "&port="@
        + decimal_chars(q.port as nat) + "&uploaded="@ + decimal_chars(q.uploaded as nat)
        + "&downloaded="@ + decimal_chars(q.downloaded as nat) + "&left="@ + decimal_chars(
        q.left as nat,
    ) + "&compact="@ + decimal_chars(q.compact as nat)
}

impl TrackerQuery {
    /// A query for the whole remaining content, from port 6881, asking for a
    /// compact peer list; `info_hash` comes already percent-encoded.
    pub fn new(info_hash: String, peer_id: [u8; 20], left: usize) -> (r: Self)
        ensures
            r.info_hash@ == info_hash@,
            r.peer_id == peer_id,
            r.port == 6881,
            r.uploaded == 0,
            r.downloaded == 0,
            r.left == left,
            r.compact == 1,
    {
        TrackerQuery {
            info_hash,
            peer_id,
            port: 6881,
            uploaded: 0,
            downloaded: 0,
            left,
            compact: 1,
        }
    }

    /// The query text of these parameters.
    pub fn to_query_string(&self) -> (r: String)
        ensures
            r@ == query_text(*self),
    {
        let mut s = String::from_str("info_hash=");
        s.append(self.info_hash.as_str());
        s.append("&peer_id=");
        s.append(encode(&self.peer_id).as_str());
        s.append("&port=");
        s.append(decimal_text(self.port as usize).as_str());
        s.append("&uploaded=");
        s.append(decimal_text(self.uploaded).as_str());
        s.append("&downloaded=");
        s.append(decimal_text(self.downloaded).as_str());
        s.append("&left=");
        s.append(decimal_text(self.left).as_str());
        s.append("&compact=");
        s.append(decimal_text(self.compact as usize).as_str());
        s
    }
}

/// Queries a tracker about a torrent.
pub struct Tracker<'t, T: Torrent> {
    torrent: &'t T,
}

impl<'t, T: Torrent> Tracker<'t, T> {
    pub closed spec fn torrent_view(&self) -> &'t T {
        self.torrent
    }

    pub fn new(torrent: &'t T) -> (r: Self)
        ensures
            r.torrent_view() == torrent,
    {
        Tracker { torrent }
    }

    /// The parameters of the request for this torrent.
    pub fn query(&self, peer_id: [u8; 20]) -> (r: TrackerQuery)
        ensures
            r.info_hash@ == url_encoded(self.torrent_view().spec_info_hash()),
            r.peer_id == peer_id,
            r.port == 6881,
            r.uploaded == 0,
            r.downloaded == 0,
            r.left as nat == self.torrent_view().spec_left(),
            r.compact == 1,
    {
        let info_hash = encode(&self.torrent.info_hash());
        TrackerQuery::new(info_hash, peer_id, self.torrent.left())
    }

    /// The full request URL: the tracker URL, `?`, and the query text.
    pub fn request_url(&self, peer_id: [u8; 20]) -> (r: String)
        ensures
            exists|q: TrackerQuery|
                {
                    &&& q.info_hash@ == url_encoded(self.torrent_view().spec_info_hash())
                    &&& q.peer_id == peer_id
                    &&& q.port == 6881
                    &&& q.uploaded == 0
                    &&& q.downloaded == 0
                    &&& q.left as nat == self.torrent_view().spec_left()
                    &&& q.compact == 1
                    &&& r@ == self.torrent_view().spec_tracker_url() + "?"@ + query_text(q)
                },
    {
        let q = self.query(peer_id);
        let mut url = String::from_str(self.torrent.tracker_url());
        url.append("?");
        url.append(q.to_query_string().as_str());
        url
    }
}

} // verus!
