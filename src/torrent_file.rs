//! The torrent descriptor: its fields, read from a decoded bencode
//! dictionary, and its info hash.
use vstd::prelude::*;
use vstd::utf8::{decode_utf8, encode_utf8, valid_utf8};
use crate::bencode::{dict_get, parse_value, BValue, Value};
use crate::decoder::{decode_at, DecodeError};
use crate::encoder::{
    bytes_text, encode, encode_entries, encode_value, insert_index, int_text, keys_of, lex_less,
    sort_indices,
};
use crate::torrent::Torrent;
use crate::url::{hex_chars, to_hex};

verus! {

pub open spec fn key_announce() -> Seq<u8> {
    seq![97u8, 110, 110, 111, 117, 110, 99, 101]
}

pub open spec fn key_info() -> Seq<u8> {
    seq![105u8, 110, 102, 111]
}

pub open spec fn key_length() -> Seq<u8> {
    seq![108u8, 101, 110, 103, 116, 104]
}

pub open spec fn key_name() -> Seq<u8> {
    seq![110u8, 97, 109, 101]
}

pub open spec fn key_piece_length() -> Seq<u8> {
    seq![112u8, 105, 101, 99, 101, 32, 108, 101, 110, 103, 116, 104]
}

pub open spec fn key_pieces() -> Seq<u8> {
    seq![112u8, 105, 101, 99, 101, 115]
}

/// The SHA-1 digest of `data`.
pub uninterp spec fn sha1_of(data: Seq<u8>) -> Seq<u8>;

/// Relies on sha1::Sha1::digest (through the `Digest` trait): the SHA-1
/// digest of the bytes, which depends on them alone.
#[verifier::external_body]
fn sha1_digest(data: &[u8]) -> (r: [u8; 20])
    ensures
        r@ == sha1_of(data@),
{
    <sha1::Sha1 as sha1::Digest>::digest(data).into()
}

/// Relies on String::from_utf8: it succeeds exactly on valid UTF-8, and the
/// text then holds the characters that the bytes encode.
#[verifier::external_body]
fn text_from_utf8(b: Vec<u8>) -> (r: Option<String>)
    ensures
        match r {
            Some(s) => valid_utf8(b@) && s@ == decode_utf8(b@),
            None => !valid_utf8(b@),
        },
{
    String::from_utf8(b).ok()
}

/// The integer under `k` in dictionary `v`.
pub open spec fn get_int(v: BValue, k: Seq<u8>) -> Option<int> {
    match dict_get(v, k) {
        Some(BValue::Int(n)) => Some(n),
        _ => None,
    }
}

/// The byte string under `k` in dictionary `v`.
pub open spec fn get_bytes(v: BValue, k: Seq<u8>) -> Option<Seq<u8>> {
    match dict_get(v, k) {
        Some(BValue::Bytes(b)) => Some(b),
        _ => None,
    }
}

/// The `info` dictionary of a descriptor.
pub open spec fn get_info(v: BValue) -> Option<BValue> {
    match dict_get(v, key_info()) {
        Some(BValue::Dict(es)) => Some(BValue::Dict(es)),
        _ => None,
    }
}

/// `b` cut into consecutive 20-byte pieces.
pub open spec fn chunks20(b: Seq<u8>) -> Seq<Seq<u8>> {
    Seq::new(b.len() / 20, |i: int| b.subrange(20 * i, 20 * i + 20))
}

/// The parts one after another.
pub open spec fn join(parts: Seq<Seq<u8>>) -> Seq<u8>
    decreases parts.len(),
{
    if parts.len() == 0 {
        Seq::empty()
    } else {
        join(parts.drop_last()) + parts.last()
    }
}

/// Whether a decoded value is a well-formed descriptor: a text `announce`,
/// and an `info` dictionary with a non-negative `length` and `piece length`,
/// a text `name`, and `pieces` whose length is a multiple of 20.
pub open spec fn is_descriptor(v: BValue) -> bool {
    &&& get_bytes(v, key_announce()) is Some
    &&& valid_utf8(get_bytes(v, key_announce())->0)
    &&& get_info(v) is Some
    &&& get_int(get_info(v)->0, key_length()) is Some
    &&& 0 <= get_int(get_info(v)->0, key_length())->0 <= usize::MAX
    &&& get_bytes(get_info(v)->0, key_name()) is Some
    &&& valid_utf8(get_bytes(get_info(v)->0, key_name())->0)
    &&& get_int(get_info(v)->0, key_piece_length()) is Some
    &&& 0 <= get_int(get_info(v)->0, key_piece_length())->0 <= usize::MAX
    &&& get_bytes(get_info(v)->0, key_pieces()) is Some
    &&& get_bytes(get_info(v)->0, key_pieces())->0.len() % 20 == 0
}

/// The info dictionary, with its keys in ascending order.
pub open spec fn info_value(length: int, name: Seq<u8>, piece_length: int, pieces: Seq<u8>) -> BValue {
    BValue::Dict(
        seq![
            (key_length(), BValue::Int(length)),
            (key_name(), BValue::Bytes(name)),
            (key_piece_length(), BValue::Int(piece_length)),
            (key_pieces(), BValue::Bytes(pieces)),
        ],
    )
}

proof fn lemma_info_keys_ascending()
    ensures
        !lex_less(key_name(), key_length()),
        !lex_less(key_piece_length(), key_length()),
        !lex_less(key_piece_length(), key_name()),
        !lex_less(key_pieces(), key_length()),
        !lex_less(key_pieces(), key_name()),
        !lex_less(key_pieces(), key_piece_length()),
{
    reveal_with_fuel(lex_less, 7);
    assert(key_pieces().drop_first() =~= seq![105u8, 101, 99, 101, 115]);
    assert(key_piece_length().drop_first() =~= seq![105u8, 101, 99, 101, 32, 108, 101, 110, 103, 116, 104]);
}

proof fn lemma_info_keys_sorted(keys: Seq<Seq<u8>>)
    requires
        keys == seq![key_length(), key_name(), key_piece_length(), key_pieces()],
    ensures
        sort_indices(keys, 4) == seq![0int, 1, 2, 3],
{
    lemma_info_keys_ascending();
    let s0 = Seq::<int>::empty();
    assert(sort_indices(keys, 0) == s0);
    assert(insert_index(s0, keys, 0) =~= seq![0int]);
    assert(sort_indices(keys, 1) == seq![0int]);
    assert(seq![0int].drop_first() =~= s0);
    assert(insert_index(s0, keys, 1) =~= seq![1int]);
    assert(insert_index(seq![0int], keys, 1) =~= seq![0int, 1]);
    assert(sort_indices(keys, 2) == seq![0int, 1]);
    assert(seq![0int, 1].drop_first() =~= seq![1int]);
    assert(seq![1int].drop_first() =~= s0);
    assert(insert_index(s0, keys, 2) =~= seq![2int]);
    assert(insert_index(seq![1int], keys, 2) =~= seq![1int, 2]);
    assert(insert_index(seq![0int, 1], keys, 2) =~= seq![0int, 1, 2]);
    assert(sort_indices(keys, 3) == seq![0int, 1, 2]);
    assert(seq![0int, 1, 2].drop_first() =~= seq![1int, 2]);
    assert(seq![1int, 2].drop_first() =~= seq![2int]);
    assert(seq![2int].drop_first() =~= s0);
    assert(insert_index(s0, keys, 3) =~= seq![3int]);
    assert(insert_index(seq![2int], keys, 3) =~= seq![2int, 3]);
    assert(insert_index(seq![1int, 2], keys, 3) =~= seq![1int, 2, 3]);
    assert(insert_index(seq![0int, 1, 2], keys, 3) =~= seq![0int, 1, 2, 3]);
}

/// The canonical info dictionary lists its keys in the order `length`,
/// `name`, `piece length`, `pieces`, each followed by its value.
#[verifier::rlimit(60)]
pub proof fn lemma_info_bytes_key_order(length: int, name: Seq<u8>, piece_length: int, pieces: Seq<u8>)
    ensures
        encode_value(info_value(length, name, piece_length, pieces)) == seq![100u8] + bytes_text(
            key_length(),
        ) + seq![105u8] + int_text(length) + seq![101u8] + bytes_text(key_name()) + bytes_text(name)
            + bytes_text(key_piece_length()) + seq![105u8] + int_text(piece_length) + seq![101u8]
            + bytes_text(key_pieces()) + bytes_text(pieces) + seq![101u8],
{
    let v = info_value(length, name, piece_length, pieces);
    let es = v->Dict_0;
    let keys = keys_of(es);
    assert(keys =~= seq![key_length(), key_name(), key_piece_length(), key_pieces()]);
    lemma_info_keys_sorted(keys);
    let order = sort_indices(keys, 4);
    assert(encode_value(v) == seq![100u8] + encode_entries(es, order, 4) + seq![101u8]);
    let e0 = seq![105u8] + int_text(length) + seq![101u8];
    let e2 = seq![105u8] + int_text(piece_length) + seq![101u8];
    assert(encode_value(es[0].1) == e0);
    assert(encode_value(es[1].1) == bytes_text(name));
    assert(encode_value(es[2].1) == e2);
    assert(encode_value(es[3].1) == bytes_text(pieces));
    assert(encode_entries(es, order, 0) == Seq::<u8>::empty());
    assert(encode_entries(es, order, 1) =~= bytes_text(key_length()) + e0);
    assert(encode_entries(es, order, 2) =~= bytes_text(key_length()) + e0 + bytes_text(key_name())
        + bytes_text(name));
    assert(encode_entries(es, order, 3) =~= bytes_text(key_length()) + e0 + bytes_text(key_name())
        + bytes_text(name) + bytes_text(key_piece_length()) + e2);
    assert(encode_entries(es, order, 4) =~= bytes_text(key_length()) + e0 + bytes_text(key_name())
        + bytes_text(name) + bytes_text(key_piece_length()) + e2 + bytes_text(key_pieces())
        + bytes_text(pieces));
}

/// Why a descriptor could not be had.
#[derive(Debug, PartialEq, Eq, Structural)]
pub enum FileError {
    /// The file could not be read.
    Read,
    /// Its contents are not a well-formed descriptor.
    Decode(DecodeError),
}

/// The ordered 20-byte piece hashes.
pub struct Pieces(Vec<[u8; 20]>);

impl View for Pieces {
    type V = Seq<Seq<u8>>;

    closed spec fn view(&self) -> Seq<Seq<u8>> {
        Seq::new(self.0@.len(), |i: int| self.0@[i]@)
    }
}

impl Pieces {
    pub fn new(pieces: Vec<[u8; 20]>) -> (r: Self)
        ensures
            r@ == Seq::new(pieces@.len(), |i: int| pieces@[i]@),
    {
        Pieces(pieces)
    }

    /// The hashes, in order.
    pub fn iter(&self) -> (r: &[[u8; 20]])
        ensures
            r@.len() == self@.len(),
            forall|i: int| 0 <= i < r@.len() ==> (#[trigger] r@[i])@ == self@[i],
    {
        self.0.as_slice()
    }

    /// Splits `b` into 20-byte hashes; a length that is not a multiple of 20
    /// is refused.
    pub fn from_bytes(b: &[u8]) -> (r: Option<Self>)
        ensures
            match r {
                Some(p) => b@.len() % 20 == 0 && p@ == chunks20(b@),
                None => b@.len() % 20 != 0,
            },
    {
        if b.len() % 20 != 0 {
            return None;
        }
        let len = b.len();
        let n = len / 20;
        let mut out: Vec<[u8; 20]> = Vec::new();
        let mut i: usize = 0;
        while i < n
            invariant
                i <= n,
                n * 20 == b@.len(),
                len == b@.len(),
                out@.len() == i,
                forall|k: int| 0 <= k < i ==> (#[trigger] out@[k])@ == b@.subrange(20 * k, 20 * k + 20),
            decreases n - i,
        {
            let mut h: [u8; 20] = [0u8; 20];
            assert(20 * i + 20 <= b@.len()) by (nonlinear_arith)
                requires
                    i < n,
                    n * 20 == b@.len(),
            ;
            assert(20 * i + 20 <= len);
            let base = 20 * i;
            let mut j: usize = 0;
            while j < 20
                invariant
                    j <= 20,
                    i < n,
                    n * 20 == b@.len(),
                    base == 20 * i,
                    base + 20 <= b@.len(),
                    len == b@.len(),
                    forall|k: int| 0 <= k < j ==> h@[k] == b@[base + k],
                decreases 20 - j,
            {
                h[j] = b[base + j];
                j = j + 1;
            }
            assert(h@ =~= b@.subrange(20 * i as int, 20 * i + 20));
            out.push(h);
            i = i + 1;
        }
        let r = Pieces(out);
        assert(r@ =~= chunks20(b@));
        Some(r)
    }

    /// The hashes one after another.
    pub fn concat(&self) -> (r: Vec<u8>)
        ensures
            r@ == join(self@),
    {
        let mut out: Vec<u8> = Vec::new();
        let mut i: usize = 0;
        assert(self@.subrange(0, 0) =~= Seq::<Seq<u8>>::empty());
        while i < self.0.len()
            invariant
                i <= self@.len() == self.0@.len(),
                out@ == join(self@.subrange(0, i as int)),
            decreases self.0@.len() - i,
        {
            let h = self.0[i];
            let ghost before = out@;
            let mut j: usize = 0;
            while j < 20
                invariant
                    j <= 20,
                    out@ == before + h@.subrange(0, j as int),
                decreases 20 - j,
            {
                out.push(h[j]);
                j = j + 1;
                assert(out@ =~= before + h@.subrange(0, j as int));
            }
            proof {
                assert(h@.subrange(0, 20) =~= h@);
                assert(self@.subrange(0, i + 1).drop_last() =~= self@.subrange(0, i as int));
                assert(self@[i as int] == h@);
            }
            i = i + 1;
        }
        assert(self@.subrange(0, i as int) =~= self@);
        out
    }
}

struct Info {
    length: usize,
    name: String,
    piece_length: usize,
    pieces: Pieces,
}

/// A torrent descriptor.
pub struct TorrentFile {
    announce: String,
    info: Info,
}

impl TorrentFile {
    #[verifier::type_invariant]
    spec fn inv(&self) -> bool {
        self.info.length <= i64::MAX && self.info.piece_length <= i64::MAX
    }
}

fn copy_bytes(b: &[u8]) -> (r: Vec<u8>)
    ensures
        r@ == b@,
{
    let mut out: Vec<u8> = Vec::new();
    let mut i: usize = 0;
    while i < b.len()
        invariant
            i <= b@.len(),
            out@ == b@.subrange(0, i as int),
        decreases b@.len() - i,
    {
        out.push(b[i]);
        i = i + 1;
        assert(out@ =~= b@.subrange(0, i as int));
    }
    assert(b@.subrange(0, i as int) =~= b@);
    out
}

fn get_int_field(v: &Value, key: &[u8]) -> (r: Option<usize>)
    ensures
        match r {
            Some(n) => get_int(v@, key@) == Some(n as int) && n <= i64::MAX,
            None => !(get_int(v@, key@) is Some && 0 <= get_int(v@, key@)->0 <= usize::MAX),
        },
{
    match v.get(key) {
        Some(Value::Integer(n)) => {
            if *n < 0 || (*n as u64) > (usize::MAX as u64) {
                None
            } else {
                Some(*n as usize)
            }
        },
        _ => None,
    }
}

fn get_text_field(v: &Value, key: &[u8]) -> (r: Option<String>)
    ensures
        match r {
            Some(s) => get_bytes(v@, key@) is Some && valid_utf8(get_bytes(v@, key@)->0) && s@
                == decode_utf8(get_bytes(v@, key@)->0),
            None => !(get_bytes(v@, key@) is Some && valid_utf8(get_bytes(v@, key@)->0)),
        },
{
    match v.get(key) {
        Some(Value::ByteString(b)) => text_from_utf8(copy_bytes(b.as_slice())),
        _ => None,
    }
}

impl TorrentFile {
    /// The tracker URL.
    pub closed spec fn announce_view(&self) -> Seq<char> {
        self.announce@
    }

    /// The total length of the content in bytes.
    pub closed spec fn length_view(&self) -> nat {
        self.info.length as nat
    }

    pub closed spec fn name_view(&self) -> Seq<char> {
        self.info.name@
    }

    pub closed spec fn piece_length_view(&self) -> nat {
        self.info.piece_length as nat
    }

    pub closed spec fn pieces_view(&self) -> Seq<Seq<u8>> {
        self.info.pieces@
    }

    /// The bytes that the info hash is taken of: the info dictionary in
    /// canonical form.
    pub open spec fn info_bytes(&self) -> Seq<u8> {
        encode_value(
            info_value(
                self.length_view() as int,
                encode_utf8(self.name_view()),
                self.piece_length_view() as int,
                join(self.pieces_view()),
            ),
        )
    }

    /// How the fields of `self` come from the decoded value `v`.
    pub open spec fn read_from(&self, v: BValue) -> bool {
        let info = get_info(v)->0;
        &&& self.announce_view() == decode_utf8(get_bytes(v, key_announce())->0)
        &&& self.length_view() == get_int(info, key_length())->0
        &&& self.name_view() == decode_utf8(get_bytes(info, key_name())->0)
        &&& self.piece_length_view() == get_int(info, key_piece_length())->0
        &&& self.pieces_view() == chunks20(get_bytes(info, key_pieces())->0)
    }

    /// Reads a descriptor from its decoded top-level dictionary.
    pub fn from_value(v: &Value) -> (r: Result<TorrentFile, FileError>)
        ensures
            r is Ok <==> is_descriptor(v@),
            r matches Err(e) ==> e == FileError::Decode(DecodeError),
            r matches Ok(t) ==> t.read_from(v@),
    {
        let k_announce = vec![97u8, 110, 110, 111, 117, 110, 99, 101];
        let k_info = vec![105u8, 110, 102, 111];
        let k_length = vec![108u8, 101, 110, 103, 116, 104];
        let k_name = vec![110u8, 97, 109, 101];
        let k_piece_length = vec![112u8, 105, 101, 99, 101, 32, 108, 101, 110, 103, 116, 104];
        let k_pieces = vec![112u8, 105, 101, 99, 101, 115];
        assert(k_announce@ == key_announce());
        assert(k_info@ == key_info());
        assert(k_length@ == key_length());
        assert(k_name@ == key_name());
        assert(k_piece_length@ == key_piece_length());
        assert(k_pieces@ == key_pieces());
        let announce = match get_text_field(v, k_announce.as_slice()) {
            Some(a) => a,
            None => {
                return Err(FileError::Decode(DecodeError));
            },
        };
        let info = match v.get(k_info.as_slice()) {
            Some(d) => match d {
                Value::Dictionary(_) => d,
                _ => {
                    return Err(FileError::Decode(DecodeError));
                },
            },
            None => {
                return Err(FileError::Decode(DecodeError));
            },
        };
        assert(get_info(v@) == Some(info@));
        let length = match get_int_field(info, k_length.as_slice()) {
            Some(n) => n,
            None => {
                return Err(FileError::Decode(DecodeError));
            },
        };
        let name = match get_text_field(info, k_name.as_slice()) {
            Some(s) => s,
            None => {
                return Err(FileError::Decode(DecodeError));
            },
        };
        let piece_length = match get_int_field(info, k_piece_length.as_slice()) {
            Some(n) => n,
            None => {
                return Err(FileError::Decode(DecodeError));
            },
        };
        let pieces = match info.get(k_pieces.as_slice()) {
            Some(Value::ByteString(b)) => match Pieces::from_bytes(b.as_slice()) {
                Some(p) => p,
                None => {
                    return Err(FileError::Decode(DecodeError));
                },
            },
            _ => {
                return Err(FileError::Decode(DecodeError));
            },
        };
        Ok(TorrentFile { announce, info: Info { length, name, piece_length, pieces } })
    }

    /// Decodes a descriptor file's bytes and reads the descriptor from them.
    pub fn from_bytes(bytes: &[u8]) -> (r: Result<TorrentFile, FileError>)
        ensures
            match parse_value(bytes@, 0) {
                Some((v, _)) => {
                    &&& r is Ok <==> is_descriptor(v)
                    &&& r matches Err(e) ==> e == FileError::Decode(DecodeError)
                    &&& r matches Ok(t) ==> t.read_from(v)
                },
                None => r == Err::<TorrentFile, FileError>(FileError::Decode(DecodeError)),
            },
    {
        match decode_at(bytes, 0) {
            Ok((v, _)) => TorrentFile::from_value(&v),
            Err(e) => Err(FileError::Decode(e)),
        }
    }

    /// The info dictionary as a bencode value.
    fn info_dictionary(&self) -> (r: Value)
        ensures
            r@ == info_value(
                self.length_view() as int,
                encode_utf8(self.name_view()),
                self.piece_length_view() as int,
                join(self.pieces_view()),
            ),
    {
        proof {
            use_type_invariant(self);
        }
        let k_length = vec![108u8, 101, 110, 103, 116, 104];
        let k_name = vec![110u8, 97, 109, 101];
        let k_piece_length = vec![112u8, 105, 101, 99, 101, 32, 108, 101, 110, 103, 116, 104];
        let k_pieces = vec![112u8, 105, 101, 99, 101, 115];
        let name_text = self.info.name.as_str();
        let name = copy_bytes(name_text.as_bytes());
        assert(name@ == encode_utf8(self.name_view()));
        let pieces = self.info.pieces.concat();
        let es = vec![
            (k_length, Value::Integer(self.info.length as i64)),
            (k_name, Value::ByteString(name)),
            (k_piece_length, Value::Integer(self.info.piece_length as i64)),
            (k_pieces, Value::ByteString(pieces)),
        ];
        assert(k_length@ == key_length());
        assert(k_name@ == key_name());
        assert(k_piece_length@ == key_piece_length());
        assert(k_pieces@ == key_pieces());
        assert(es@.len() == 4);
        assert(es@[0].1@ == BValue::Int(self.length_view() as int));
        assert(es@[1].1@ == BValue::Bytes(encode_utf8(self.name_view())));
        assert(es@[2].1@ == BValue::Int(self.piece_length_view() as int));
        assert(es@[3].1@ == BValue::Bytes(join(self.pieces_view())));
        let ghost ev = Seq::new(4, |i: int| (es@[i].0@, es@[i].1@));
        let r = Value::Dictionary(es);
        assert(r@->Dict_0 =~= ev);
        assert(ev =~= info_value(
            self.length_view() as int,
            encode_utf8(self.name_view()),
            self.piece_length_view() as int,
            join(self.pieces_view()),
        )->Dict_0);
        r
    }

    /// The info hash in lowercase hexadecimal.
    pub fn info_hash_hex(&self) -> (r: String)
        ensures
            r@ == hex_chars(sha1_of(self.info_bytes())),
    {
        let h = self.info_hash();
        to_hex(&h)
    }

    /// Each piece hash in lowercase hexadecimal, in order.
    pub fn piece_hashes_hex(&self) -> (r: Vec<String>)
        ensures
            r@.len() == self.pieces_view().len(),
            forall|i: int| 0 <= i < r@.len() ==> (#[trigger] r@[i])@ == hex_chars(self.pieces_view()[i]),
    {
        let hashes = self.info.pieces.iter();
        let mut out: Vec<String> = Vec::new();
        let mut i: usize = 0;
        while i < hashes.len()
            invariant
                i <= hashes@.len() == self.pieces_view().len(),
                out@.len() == i,
                forall|k: int| 0 <= k < hashes@.len() ==> (#[trigger] hashes@[k])@ == self.pieces_view()[k],
                forall|k: int| 0 <= k < i ==> (#[trigger] out@[k])@ == hex_chars(self.pieces_view()[k]),
            decreases hashes@.len() - i,
        {
            let h = hashes[i];
            out.push(to_hex(&h));
            i = i + 1;
        }
        out
    }

    pub fn name(&self) -> (r: &str)
        ensures
            r@ == self.name_view(),
    {
        self.info.name.as_str()
    }

    pub fn length(&self) -> (r: usize)
        ensures
            r as nat == self.length_view(),
    {
        self.info.length
    }

    pub fn piece_length(&self) -> (r: usize)
        ensures
            r as nat == self.piece_length_view(),
    {
        self.info.piece_length
    }

    pub fn pieces(&self) -> (r: &Pieces)
        ensures
            r@ == self.pieces_view(),
    {
        &self.info.pieces
    }
}

impl Torrent for TorrentFile {
    open spec fn spec_tracker_url(&self) -> Seq<char> {
        self.announce_view()
    }

    open spec fn spec_info_hash(&self) -> Seq<u8> {
        sha1_of(self.info_bytes())
    }

    open spec fn spec_left(&self) -> nat {
        self.length_view()
    }

    fn tracker_url(&self) -> (r: &str) {
        self.announce.as_str()
    }

    /// The SHA-1 digest of the info dictionary in canonical form.
    fn info_hash(&self) -> (r: [u8; 20]) {
        let info = self.info_dictionary();
        let bytes = encode(&info);
        sha1_digest(bytes.as_slice())
    }

    fn left(&self) -> (r: usize) {
        self.info.length
    }
}

} // verus!
