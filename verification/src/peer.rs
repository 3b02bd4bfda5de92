use std::io::{Read, Write};
use vstd::prelude::*;

verus! {

/// Length of the protocol string `BitTorrent protocol`.
pub const PSTR_LEN: usize = 19;

/// Length of a peer wire handshake.
pub const HANDSHAKE_LEN: usize = 68;

/// Largest message payload the wire codec reads or writes.
pub const MAX_MESSAGE_LEN: usize = 2097152;

/// The extension-protocol bit in reserved byte 5 (BEP 10).
pub const EXTENSION_PROTOCOL_BIT: u8 = 0x10;

/// The v2 upgrade bit in reserved byte 7 (BEP 52).
pub const HYBRID_V2_UPGRADE_BIT: u8 = 0x10;

/// Length of the request tuple shared by hash messages.
pub const HASH_REQUEST_PAYLOAD_LEN: usize = 48;

/// Largest number of hashes one hash request may ask for.
pub const MAX_HASH_REQUEST_LENGTH: u32 = 512;

/// Deepest layer of a v2 hash tree.
pub const MAX_HASH_TREE_LAYERS: u32 = 64;

#[verifier::external_type_specification]
#[verifier::external_body]
pub struct ExIoError(std::io::Error);

/// A parsed peer handshake.
#[derive(Debug, Clone, PartialEq, Eq)]
pub struct Handshake {
    pub reserved: [u8; 8],
    pub info_hash: [u8; 20],
    pub peer_id: [u8; 20],
}

/// The fixed request tuple shared by BEP 52 hash-request and hash-reject
/// messages. All integer fields are encoded as four-byte big-endian values.
#[derive(Debug, Clone, Copy, PartialEq, Eq)]
pub struct HashRequest {
    pub pieces_root: [u8; 32],
    pub base_layer: u32,
    pub index: u32,
    pub length: u32,
    pub proof_layers: u32,
}

/// A peer wire message.
#[derive(Debug, Clone, PartialEq, Eq)]
pub enum Message {
    KeepAlive,
    Choke,
    Unchoke,
    Interested,
    NotInterested,
    Have(u32),
    Bitfield(Vec<u8>),
    Request { index: u32, begin: u32, length: u32 },
    Piece { index: u32, begin: u32, block: Vec<u8> },
    Cancel { index: u32, begin: u32, length: u32 },
    Port(u16),
    Extended { ext_id: u8, payload: Vec<u8> },
    SuggestPiece(u32),
    HaveAll,
    HaveNone,
    RejectRequest { index: u32, begin: u32, length: u32 },
    AllowedFast(u32),
    HashRequest(HashRequest),
    Hashes { request: HashRequest, hashes: Vec<[u8; 32]> },
    HashReject(HashRequest),
}

/// The mathematical model of a hash request: the root becomes a sequence.
pub struct HashRequestModel {
    pub pieces_root: Seq<u8>,
    pub base_layer: u32,
    pub index: u32,
    pub length: u32,
    pub proof_layers: u32,
}

impl View for HashRequest {
    type V = HashRequestModel;

    open spec fn view(&self) -> HashRequestModel {
        HashRequestModel {
            pieces_root: self.pieces_root@,
            base_layer: self.base_layer,
            index: self.index,
            length: self.length,
            proof_layers: self.proof_layers,
        }
    }
}

/// The mathematical model of a message: byte vectors become sequences.
pub enum MessageModel {
    KeepAlive,
    Choke,
    Unchoke,
    Interested,
    NotInterested,
    Have(u32),
    Bitfield(Seq<u8>),
    Request { index: u32, begin: u32, length: u32 },
    Piece { index: u32, begin: u32, block: Seq<u8> },
    Cancel { index: u32, begin: u32, length: u32 },
    Port(u16),
    Extended { ext_id: u8, payload: Seq<u8> },
    SuggestPiece(u32),
    HaveAll,
    HaveNone,
    RejectRequest { index: u32, begin: u32, length: u32 },
    AllowedFast(u32),
    HashRequest(HashRequestModel),
    Hashes { request: HashRequestModel, hashes: Seq<Seq<u8>> },
    HashReject(HashRequestModel),
}

impl View for Message {
    type V = MessageModel;

    open spec fn view(&self) -> MessageModel {
        match *self {
            Message::KeepAlive => MessageModel::KeepAlive,
            Message::Choke => MessageModel::Choke,
            Message::Unchoke => MessageModel::Unchoke,
            Message::Interested => MessageModel::Interested,
            Message::NotInterested => MessageModel::NotInterested,
            Message::Have(i) => MessageModel::Have(i),
            Message::Bitfield(b) => MessageModel::Bitfield(b@),
            Message::Request { index, begin, length } => MessageModel::Request {
                index,
                begin,
                length,
            },
            Message::Piece { index, begin, block } => MessageModel::Piece {
                index,
                begin,
                block: block@,
            },
            Message::Cancel { index, begin, length } => MessageModel::Cancel {
                index,
                begin,
                length,
            },
            Message::Port(p) => MessageModel::Port(p),
            Message::Extended { ext_id, payload } => MessageModel::Extended {
                ext_id,
                payload: payload@,
            },
            Message::SuggestPiece(i) => MessageModel::SuggestPiece(i),
            Message::HaveAll => MessageModel::HaveAll,
            Message::HaveNone => MessageModel::HaveNone,
            Message::RejectRequest { index, begin, length } => MessageModel::RejectRequest {
                index,
                begin,
                length,
            },
            Message::AllowedFast(i) => MessageModel::AllowedFast(i),
            Message::HashRequest(r) => MessageModel::HashRequest(r@),
            Message::Hashes { request, hashes } => MessageModel::Hashes {
                request: request@,
                hashes: hashes@.map_values(|h: [u8; 32]| h@),
            },
            Message::HashReject(r) => MessageModel::HashReject(r@),
        }
    }
}

/// Why a handshake or message was refused, or an I/O failure.
#[derive(Debug)]
pub enum Error {
    Io(std::io::Error),
    InvalidHandshake,
    InvalidProtocol,
    InvalidMessage,
    InvalidLength,
    UnsupportedMessage(u8),
}

// ---------------------------------------------------------------------
// Big-endian integers
// ---------------------------------------------------------------------

pub open spec fn be32(x: u32) -> Seq<u8> {
    seq![(x >> 24u32) as u8, (x >> 16u32) as u8, (x >> 8u32) as u8, x as u8]
}

pub open spec fn from_be32(s: Seq<u8>) -> u32 {
    ((s[0] as u32) << 24u32) | ((s[1] as u32) << 16u32) | ((s[2] as u32) << 8u32) | (s[3] as u32)
}

pub open spec fn be16(x: u16) -> Seq<u8> {
    seq![(x >> 8u16) as u8, x as u8]
}

pub open spec fn from_be16(s: Seq<u8>) -> u16 {
    ((s[0] as u16) << 8u16) | (s[1] as u16)
}

pub proof fn lemma_be32_roundtrip(x: u32)
    ensures
        from_be32(be32(x)) == x,
{
    let b0 = (x >> 24u32) as u8;
    let b1 = (x >> 16u32) as u8;
    let b2 = (x >> 8u32) as u8;
    let b3 = x as u8;
    assert(((b0 as u32) << 24u32) | ((b1 as u32) << 16u32) | ((b2 as u32) << 8u32) | (b3 as u32)
        == x) by (bit_vector)
        requires
            b0 == (x >> 24u32) as u8,
            b1 == (x >> 16u32) as u8,
            b2 == (x >> 8u32) as u8,
            b3 == x as u8,
    ;
}

pub proof fn lemma_from_be32_roundtrip(s: Seq<u8>)
    requires
        s.len() == 4,
    ensures
        be32(from_be32(s)) == s,
{
    let b0 = s[0];
    let b1 = s[1];
    let b2 = s[2];
    let b3 = s[3];
    let x = from_be32(s);
    assert((x >> 24u32) as u8 == b0 && (x >> 16u32) as u8 == b1 && (x >> 8u32) as u8 == b2 && x
        as u8 == b3) by (bit_vector)
        requires
            x == ((b0 as u32) << 24u32) | ((b1 as u32) << 16u32) | ((b2 as u32) << 8u32) | (
            b3 as u32),
    ;
    assert(be32(x) =~= s);
}

pub proof fn lemma_be16_roundtrip(x: u16)
    ensures
        from_be16(be16(x)) == x,
{
    let b0 = (x >> 8u16) as u8;
    let b1 = x as u8;
    assert(((b0 as u16) << 8u16) | (b1 as u16) == x) by (bit_vector)
        requires
            b0 == (x >> 8u16) as u8,
            b1 == x as u8,
    ;
}

/// The big-endian bytes of `x`.
pub fn u32_to_be(x: u32) -> (r: [u8; 4])
    ensures
        r@ == be32(x),
{
    let r = [(x >> 24u32) as u8, (x >> 16u32) as u8, (x >> 8u32) as u8, x as u8];
    assert(r@ =~= be32(x));
    r
}

/// Appends the big-endian bytes of `x`.
fn push_u32(out: &mut Vec<u8>, x: u32)
    ensures
        final(out)@ == old(out)@ + be32(x),
{
    out.push((x >> 24u32) as u8);
    out.push((x >> 16u32) as u8);
    out.push((x >> 8u32) as u8);
    out.push(x as u8);
    assert(final(out)@ =~= old(out)@ + be32(x));
}

/// Appends the given bytes.
fn push_all(out: &mut Vec<u8>, src: &[u8])
    ensures
        final(out)@ == old(out)@ + src@,
{
    let ghost start = out@;
    let mut i: usize = 0;
    while i < src.len()
        invariant
            i <= src.len(),
            out@ == start + src@.subrange(0, i as int),
        decreases src.len() - i,
    {
        out.push(src[i]);
        i = i + 1;
        assert(out@ =~= start + src@.subrange(0, i as int));
    }
    assert(src@.subrange(0, src@.len() as int) =~= src@);
}

/// The big-endian number in a four-byte field.
pub fn read_u32(bytes: &[u8]) -> (r: Result<u32, Error>)
    ensures
        bytes@.len() == 4 ==> (r matches Ok(v) && v == from_be32(bytes@)),
        bytes@.len() != 4 ==> r matches Err(Error::InvalidMessage),
{
    if bytes.len() != 4 {
        return Err(Error::InvalidMessage);
    }
    Ok(((bytes[0] as u32) << 24u32) | ((bytes[1] as u32) << 16u32) | ((bytes[2] as u32) << 8u32)
        | (bytes[3] as u32))
}

// ---------------------------------------------------------------------
// Handshakes
// ---------------------------------------------------------------------

/// The protocol string `BitTorrent protocol`.
pub open spec fn pstr() -> Seq<u8> {
    seq![66u8, 105, 116, 84, 111, 114, 114, 101, 110, 116, 32, 112, 114, 111, 116, 111, 99, 111, 108]
}

fn pstr_bytes() -> (r: [u8; 19])
    ensures
        r@ == pstr(),
{
    let r = [66u8, 105, 116, 84, 111, 114, 114, 101, 110, 116, 32, 112, 114, 111, 116, 111, 99, 111, 108];
    assert(r@ =~= pstr());
    r
}

/// The reserved bytes announcing the extension protocol and the v2
/// upgrade.
pub open spec fn reserved_bytes(extensions: bool, hybrid_v2_upgrade: bool) -> Seq<u8> {
    seq![
        0u8,
        0,
        0,
        0,
        0,
        if extensions { 0x10u8 } else { 0 },
        0,
        if hybrid_v2_upgrade { 0x10u8 } else { 0 },
    ]
}

/// The bytes of a handshake.
pub open spec fn spec_handshake(
    info_hash: Seq<u8>,
    peer_id: Seq<u8>,
    extensions: bool,
    hybrid_v2_upgrade: bool,
) -> Seq<u8> {
    seq![19u8] + pstr() + reserved_bytes(extensions, hybrid_v2_upgrade) + info_hash + peer_id
}

impl Handshake {
    /// Whether the peer announced the extension protocol (BEP 10).
    pub fn supports_extensions(&self) -> (r: bool)
        ensures
            r == (self.reserved@[5] & 0x10 != 0),
    {
        self.reserved[5] & EXTENSION_PROTOCOL_BIT != 0
    }

    /// BEP 52's upgrade signal: the fourth most-significant bit in the final
    /// reserved byte of a v1 hybrid-torrent handshake.
    pub fn supports_hybrid_v2_upgrade(&self) -> (r: bool)
        ensures
            r == (self.reserved@[7] & 0x10 != 0),
    {
        self.reserved[7] & HYBRID_V2_UPGRADE_BIT != 0
    }
}

/// A handshake announcing the extension protocol when `extensions` holds.
pub fn build_handshake(info_hash: [u8; 20], peer_id: [u8; 20], extensions: bool) -> (r: [u8; 68])
    ensures
        r@ == spec_handshake(info_hash@, peer_id@, extensions, false),
{
    build_handshake_with_hybrid_upgrade(info_hash, peer_id, extensions, false)
}

/// A handshake that may also announce the BEP 52 upgrade.
pub fn build_handshake_with_hybrid_upgrade(
    info_hash: [u8; 20],
    peer_id: [u8; 20],
    extensions: bool,
    hybrid_v2_upgrade: bool,
) -> (r: [u8; 68])
    ensures
        r@ == spec_handshake(info_hash@, peer_id@, extensions, hybrid_v2_upgrade),
{
    let mut out = [0u8; 68];
    out[0] = 19u8;
    let p = pstr_bytes();
    let mut i: usize = 0;
    while i < 19
        invariant
            i <= 19,
            p@ == pstr(),
            out@.len() == 68,
            out@[0] == 19u8,
            forall|j: int| 0 <= j < i ==> out@[1 + j] == p@[j],
            forall|j: int| 20 <= j < 68 ==> out@[j] == 0u8,
        decreases 19 - i,
    {
        out[1 + i] = p[i];
        i = i + 1;
    }
    if extensions {
        out[25] = 0x10u8;
    }
    if hybrid_v2_upgrade {
        out[27] = 0x10u8;
    }
    let mut k: usize = 0;
    while k < 20
        invariant
            k <= 20,
            p@ == pstr(),
            out@.len() == 68,
            out@[0] == 19u8,
            forall|j: int| 0 <= j < 19 ==> out@[1 + j] == p@[j],
            forall|j: int| 0 <= j < 8 ==> out@[20 + j] == reserved_bytes(extensions, hybrid_v2_upgrade)[j],
            forall|j: int| 0 <= j < k ==> out@[28 + j] == info_hash@[j] && out@[48 + j] == peer_id@[j],
        decreases 20 - k,
    {
        out[28 + k] = info_hash[k];
        out[48 + k] = peer_id[k];
        k = k + 1;
    }
    assert(out@ =~= spec_handshake(info_hash@, peer_id@, extensions, hybrid_v2_upgrade));
    out
}

fn copy_array20(src: &[u8], at: usize) -> (r: [u8; 20])
    requires
        at + 20 <= src@.len(),
    ensures
        r@ == src@.subrange(at as int, at + 20),
{
    let mut out = [0u8; 20];
    let mut i: usize = 0;
    while i < 20
        invariant
            i <= 20,
            at + 20 <= src.len(),
            out@.len() == 20,
            forall|j: int| 0 <= j < i ==> out@[j] == src@[at + j],
        decreases 20 - i,
    {
        assert(at + i < src@.len());
        out[i] = src[at + i];
        i = i + 1;
    }
    assert(out@ =~= src@.subrange(at as int, at + 20));
    out
}

/// Parses a 68-byte handshake.
pub fn parse_handshake(bytes: &[u8]) -> (r: Result<Handshake, Error>)
    ensures
        bytes@.len() != 68 || bytes@[0] != 19 ==> r matches Err(Error::InvalidHandshake),
        bytes@.len() == 68 && bytes@[0] == 19 && bytes@.subrange(1, 20) != pstr() ==> r matches Err(
            Error::InvalidProtocol,
        ),
        bytes@.len() == 68 && bytes@[0] == 19 && bytes@.subrange(1, 20) == pstr() ==> (r matches Ok(
            h,
        ) && h.reserved@ == bytes@.subrange(20, 28) && h.info_hash@ == bytes@.subrange(28, 48)
            && h.peer_id@ == bytes@.subrange(48, 68)),
{
    if bytes.len() != HANDSHAKE_LEN {
        return Err(Error::InvalidHandshake);
    }
    if bytes[0] != 19u8 {
        return Err(Error::InvalidHandshake);
    }
    let p = pstr_bytes();
    let mut i: usize = 0;
    while i < 19
        invariant
            i <= 19,
            bytes@.len() == 68,
            bytes@[0] == 19,
            p@ == pstr(),
            forall|j: int| 0 <= j < i ==> bytes@[1 + j] == p@[j],
        decreases 19 - i,
    {
        if bytes[1 + i] != p[i] {
            assert(bytes@.subrange(1, 20)[i as int] != pstr()[i as int]);
            return Err(Error::InvalidProtocol);
        }
        i = i + 1;
    }
    assert(bytes@.subrange(1, 20) =~= pstr());
    let mut reserved = [0u8; 8];
    let mut k: usize = 0;
    while k < 8
        invariant
            k <= 8,
            bytes@.len() == 68,
            reserved@.len() == 8,
            forall|j: int| 0 <= j < k ==> reserved@[j] == bytes@[20 + j],
        decreases 8 - k,
    {
        reserved[k] = bytes[20 + k];
        k = k + 1;
    }
    assert(reserved@ =~= bytes@.subrange(20, 28));
    let info_hash = copy_array20(bytes, 28);
    let peer_id = copy_array20(bytes, 48);
    Ok(Handshake { reserved, info_hash, peer_id })
}

/// What a built handshake announces is what parsing it reports.
pub proof fn lemma_handshake_roundtrip(
    info_hash: Seq<u8>,
    peer_id: Seq<u8>,
    extensions: bool,
    hybrid_v2_upgrade: bool,
)
    requires
        info_hash.len() == 20,
        peer_id.len() == 20,
    ensures
        ({
            let b = spec_handshake(info_hash, peer_id, extensions, hybrid_v2_upgrade);
            &&& b.len() == 68
            &&& b[0] == 19
            &&& b.subrange(1, 20) == pstr()
            &&& b.subrange(20, 28) == reserved_bytes(extensions, hybrid_v2_upgrade)
            &&& b.subrange(28, 48) == info_hash
            &&& b.subrange(48, 68) == peer_id
            &&& (reserved_bytes(extensions, hybrid_v2_upgrade)[5] & 0x10 != 0) == extensions
            &&& (reserved_bytes(extensions, hybrid_v2_upgrade)[7] & 0x10 != 0) == hybrid_v2_upgrade
        }),
{
    let b = spec_handshake(info_hash, peer_id, extensions, hybrid_v2_upgrade);
    assert(b.subrange(1, 20) =~= pstr());
    assert(b.subrange(20, 28) =~= reserved_bytes(extensions, hybrid_v2_upgrade));
    assert(b.subrange(28, 48) =~= info_hash);
    assert(b.subrange(48, 68) =~= peer_id);
    assert(0x10u8 & 0x10u8 != 0) by (bit_vector);
    assert(0u8 & 0x10u8 == 0) by (bit_vector);
}

// ---------------------------------------------------------------------
// Messages
// ---------------------------------------------------------------------

/// Whether `x` is a power of two.
pub open spec fn is_pow2(x: nat) -> bool
    decreases x,
{
    if x == 1 {
        true
    } else if x < 2 || x % 2 != 0 {
        false
    } else {
        is_pow2(x / 2)
    }
}

/// The bounds BEP 52 hash requests must respect: a power-of-two count of
/// at least two and at most 512 hashes, aligned to its length, inside a
/// tree of at most 64 layers.
pub open spec fn valid_hash_request(r: HashRequestModel) -> bool {
    &&& r.base_layer <= MAX_HASH_TREE_LAYERS
    &&& r.proof_layers <= MAX_HASH_TREE_LAYERS
    &&& r.length >= 2
    &&& r.length <= MAX_HASH_REQUEST_LENGTH
    &&& is_pow2(r.length as nat)
    &&& r.index % r.length == 0
    &&& r.index + r.length <= u32::MAX
}

/// A hashes response carries the requested hashes plus at most one proof
/// hash per requested proof layer.
pub open spec fn valid_hashes(r: HashRequestModel, count: int) -> bool {
    &&& valid_hash_request(r)
    &&& count >= r.length
    &&& count <= r.length + r.proof_layers
}

pub open spec fn hr_bytes(r: HashRequestModel) -> Seq<u8> {
    r.pieces_root + be32(r.base_layer) + be32(r.index) + be32(r.length) + be32(r.proof_layers)
}

pub open spec fn hashes_bytes(hs: Seq<Seq<u8>>) -> Seq<u8>
    decreases hs.len(),
{
    if hs.len() == 0 {
        seq![]
    } else {
        hashes_bytes(hs.drop_last()) + hs.last()
    }
}

/// Splits bytes into consecutive 32-byte hashes.
pub open spec fn chunks32(s: Seq<u8>) -> Seq<Seq<u8>> {
    Seq::new(s.len() / 32, |i: int| s.subrange(32 * i, 32 * i + 32))
}

pub open spec fn triple(id: u8, a: u32, b: u32, c: u32) -> Seq<u8> {
    seq![id] + be32(a) + be32(b) + be32(c)
}

/// The payload of a message: its id byte followed by its fields.
pub open spec fn spec_payload(m: MessageModel) -> Seq<u8> {
    match m {
        MessageModel::KeepAlive => seq![],
        MessageModel::Choke => seq![0u8],
        MessageModel::Unchoke => seq![1u8],
        MessageModel::Interested => seq![2u8],
        MessageModel::NotInterested => seq![3u8],
        MessageModel::Have(i) => seq![4u8] + be32(i),
        MessageModel::Bitfield(b) => seq![5u8] + b,
        MessageModel::Request { index, begin, length } => triple(6, index, begin, length),
        MessageModel::Piece { index, begin, block } => seq![7u8] + be32(index) + be32(begin)
            + block,
        MessageModel::Cancel { index, begin, length } => triple(8, index, begin, length),
        MessageModel::Port(p) => seq![9u8] + be16(p),
        MessageModel::Extended { ext_id, payload } => seq![20u8, ext_id] + payload,
        MessageModel::SuggestPiece(i) => seq![13u8] + be32(i),
        MessageModel::HaveAll => seq![14u8],
        MessageModel::HaveNone => seq![15u8],
        MessageModel::RejectRequest { index, begin, length } => triple(16, index, begin, length),
        MessageModel::AllowedFast(i) => seq![17u8] + be32(i),
        MessageModel::HashRequest(r) => seq![21u8] + hr_bytes(r),
        MessageModel::Hashes { request, hashes } => seq![22u8] + hr_bytes(request) + hashes_bytes(
            hashes,
        ),
        MessageModel::HashReject(r) => seq![23u8] + hr_bytes(r),
    }
}

/// A message on the wire: the payload length as four big-endian bytes, then
/// the payload.
pub open spec fn spec_frame(m: MessageModel) -> Seq<u8> {
    be32(spec_payload(m).len() as u32) + spec_payload(m)
}

/// The payload length the writer checks before sending: none when a hash
/// message is out of bounds or the length does not fit in `usize`.
pub open spec fn spec_payload_len(m: MessageModel) -> Option<int> {
    match m {
        MessageModel::HashRequest(r) => if valid_hash_request(r) {
            Some(49)
        } else {
            None
        },
        MessageModel::HashReject(r) => if valid_hash_request(r) {
            Some(49)
        } else {
            None
        },
        MessageModel::Hashes { request, hashes } => if !valid_hashes(request, hashes.len() as int) {
            None
        } else if 49 + 32 * hashes.len() > usize::MAX {
            None
        } else {
            Some((49 + 32 * hashes.len()) as int)
        },
        _ => if spec_payload(m).len() > usize::MAX {
            None
        } else {
            Some(spec_payload(m).len() as int)
        },
    }
}

pub open spec fn spec_decode_hash_request(d: Seq<u8>) -> Result<HashRequestModel, Error> {
    if d.len() != 48 {
        Err(Error::InvalidMessage)
    } else {
        let r = HashRequestModel {
            pieces_root: d.subrange(0, 32),
            base_layer: from_be32(d.subrange(32, 36)),
            index: from_be32(d.subrange(36, 40)),
            length: from_be32(d.subrange(40, 44)),
            proof_layers: from_be32(d.subrange(44, 48)),
        };
        if valid_hash_request(r) {
            Ok(r)
        } else {
            Err(Error::InvalidMessage)
        }
    }
}

pub open spec fn spec_decode_hashes(d: Seq<u8>) -> Result<MessageModel, Error> {
    if d.len() < 48 || (d.len() - 48) % 32 != 0 {
        Err(Error::InvalidMessage)
    } else {
        match spec_decode_hash_request(d.subrange(0, 48)) {
            Err(e) => Err(e),
            Ok(r) => {
                let hashes = chunks32(d.subrange(48, d.len() as int));
                if valid_hashes(r, hashes.len() as int) {
                    Ok(MessageModel::Hashes { request: r, hashes })
                } else {
                    Err(Error::InvalidMessage)
                }
            },
        }
    }
}

pub open spec fn expect_empty_spec(d: Seq<u8>, m: MessageModel) -> Result<MessageModel, Error> {
    if d.len() == 0 {
        Ok(m)
    } else {
        Err(Error::InvalidMessage)
    }
}

/// Decodes a message payload (without its length prefix).
pub open spec fn spec_decode(p: Seq<u8>) -> Result<MessageModel, Error> {
    if p.len() == 0 {
        Err(Error::InvalidMessage)
    } else {
        let id = p[0];
        let d = p.subrange(1, p.len() as int);
        if id == 0 {
            expect_empty_spec(d, MessageModel::Choke)
        } else if id == 1 {
            expect_empty_spec(d, MessageModel::Unchoke)
        } else if id == 2 {
            expect_empty_spec(d, MessageModel::Interested)
        } else if id == 3 {
            expect_empty_spec(d, MessageModel::NotInterested)
        } else if id == 4 || id == 13 || id == 17 {
            if d.len() != 4 {
                Err(Error::InvalidMessage)
            } else if id == 4 {
                Ok(MessageModel::Have(from_be32(d)))
            } else if id == 13 {
                Ok(MessageModel::SuggestPiece(from_be32(d)))
            } else {
                Ok(MessageModel::AllowedFast(from_be32(d)))
            }
        } else if id == 5 {
            Ok(MessageModel::Bitfield(d))
        } else if id == 6 || id == 8 || id == 16 {
            if d.len() != 12 {
                Err(Error::InvalidMessage)
            } else {
                let a = from_be32(d.subrange(0, 4));
                let b = from_be32(d.subrange(4, 8));
                let c = from_be32(d.subrange(8, 12));
                if id == 6 {
                    Ok(MessageModel::Request { index: a, begin: b, length: c })
                } else if id == 8 {
                    Ok(MessageModel::Cancel { index: a, begin: b, length: c })
                } else {
                    Ok(MessageModel::RejectRequest { index: a, begin: b, length: c })
                }
            }
        } else if id == 7 {
            if d.len() < 8 {
                Err(Error::InvalidMessage)
            } else {
                Ok(
                    MessageModel::Piece {
                        index: from_be32(d.subrange(0, 4)),
                        begin: from_be32(d.subrange(4, 8)),
                        block: d.subrange(8, d.len() as int),
                    },
                )
            }
        } else if id == 9 {
            if d.len() != 2 {
                Err(Error::InvalidMessage)
            } else {
                Ok(MessageModel::Port(from_be16(d)))
            }
        } else if id == 14 {
            expect_empty_spec(d, MessageModel::HaveAll)
        } else if id == 15 {
            expect_empty_spec(d, MessageModel::HaveNone)
        } else if id == 20 {
            if d.len() == 0 {
                Err(Error::InvalidMessage)
            } else {
                Ok(MessageModel::Extended { ext_id: d[0], payload: d.subrange(1, d.len() as int) })
            }
        } else if id == 21 {
            match spec_decode_hash_request(d) {
                Ok(r) => Ok(MessageModel::HashRequest(r)),
                Err(e) => Err(e),
            }
        } else if id == 22 {
            spec_decode_hashes(d)
        } else if id == 23 {
            match spec_decode_hash_request(d) {
                Ok(r) => Ok(MessageModel::HashReject(r)),
                Err(e) => Err(e),
            }
        } else {
            Err(Error::UnsupportedMessage(id))
        }
    }
}

/// What reading a frame gives: a zero length is a keep-alive, a length
/// above the limit is refused, otherwise the payload is decoded.
pub open spec fn spec_read_frame(frame: Seq<u8>) -> Result<MessageModel, Error> {
    let len = from_be32(frame.subrange(0, 4)) as int;
    if len == 0 {
        Ok(MessageModel::KeepAlive)
    } else if len > MAX_MESSAGE_LEN {
        Err(Error::InvalidLength)
    } else {
        spec_decode(frame.subrange(4, 4 + len))
    }
}

/// Whether `x` is a power of two.
pub fn is_power_of_two(x: u32) -> (r: bool)
    ensures
        r == is_pow2(x as nat),
{
    let mut v = x;
    while v > 1 && v % 2 == 0
        invariant
            is_pow2(v as nat) == is_pow2(x as nat),
        decreases v,
    {
        v = v / 2;
    }
    v == 1
}

/// Checks the bounds of a hash request.
pub fn validate_hash_request(request: &HashRequest) -> (r: bool)
    ensures
        r == valid_hash_request(request@),
{
    request.base_layer <= MAX_HASH_TREE_LAYERS && request.proof_layers <= MAX_HASH_TREE_LAYERS
        && request.length >= 2 && request.length <= MAX_HASH_REQUEST_LENGTH && is_power_of_two(
        request.length,
    ) && request.index % request.length == 0 && request.index.checked_add(request.length).is_some()
}

/// Checks a hashes response against its request.
pub fn validate_hashes(request: &HashRequest, hashes: &[[u8; 32]]) -> (r: bool)
    ensures
        r == valid_hashes(request@, hashes@.len() as int),
{
    if !validate_hash_request(request) {
        return false;
    }
    let base_hashes = request.length as usize;
    let max_proofs = request.proof_layers as usize;
    hashes.len() >= base_hashes && hashes.len() <= base_hashes + max_proofs
}

/// The payload length `write_message` checks against its limit.
pub fn encoded_payload_len(message: &Message) -> (r: Option<usize>)
    ensures
        match spec_payload_len(message@) {
            Some(n) => r == Some(n as usize),
            None => r is None,
        },
{
    match message {
        Message::KeepAlive => Some(0),
        Message::Choke | Message::Unchoke | Message::Interested | Message::NotInterested
        | Message::HaveAll | Message::HaveNone => Some(1),
        Message::Have(_) | Message::SuggestPiece(_) | Message::AllowedFast(_) => {
            assert(spec_payload(message@).len() == 5);
            Some(5)
        },
        Message::Bitfield(bits) => 1usize.checked_add(bits.len()),
        Message::Request { .. } | Message::Cancel { .. } | Message::RejectRequest { .. } => {
            assert(spec_payload(message@).len() == 13);
            Some(13)
        },
        Message::Piece { block, .. } => 9usize.checked_add(block.len()),
        Message::Port(_) => Some(3),
        Message::Extended { payload, .. } => 2usize.checked_add(payload.len()),
        Message::HashRequest(request) | Message::HashReject(request) => {
            if validate_hash_request(request) {
                Some(49)
            } else {
                None
            }
        },
        Message::Hashes { request, hashes } => {
            if !validate_hashes(request, hashes.as_slice()) {
                return None;
            }
            match hashes.len().checked_mul(32) {
                None => None,
                Some(n) => 49usize.checked_add(n),
            }
        },
    }
}

fn with_len_prefix(payload: Vec<u8>) -> (r: Vec<u8>)
    ensures
        r@ == be32(payload@.len() as u32) + payload@,
{
    let len = payload.len() as u32;
    let mut out: Vec<u8> = Vec::new();
    push_u32(&mut out, len);
    push_all(&mut out, payload.as_slice());
    assert(out@ =~= be32(payload@.len() as u32) + payload@);
    out
}

fn encode_simple(id: u8) -> (r: Vec<u8>)
    ensures
        r@ == be32(1) + seq![id],
{
    let mut v: Vec<u8> = Vec::new();
    v.push(id);
    with_len_prefix(v)
}

fn encode_triple(id: u8, first: u32, second: u32, third: u32) -> (r: Vec<u8>)
    ensures
        r@ == be32(13) + triple(id, first, second, third),
{
    let mut payload: Vec<u8> = Vec::new();
    payload.push(id);
    push_u32(&mut payload, first);
    push_u32(&mut payload, second);
    push_u32(&mut payload, third);
    assert(payload@ =~= triple(id, first, second, third));
    with_len_prefix(payload)
}

fn encode_u32_message(id: u8, x: u32) -> (r: Vec<u8>)
    ensures
        r@ == be32(5) + (seq![id] + be32(x)),
{
    let mut payload: Vec<u8> = Vec::new();
    payload.push(id);
    push_u32(&mut payload, x);
    assert(payload@ =~= seq![id] + be32(x));
    with_len_prefix(payload)
}

/// The payload of a hash request or hash reject message.
pub fn encode_hash_request_payload(id: u8, request: &HashRequest) -> (r: Vec<u8>)
    ensures
        r@ == seq![id] + hr_bytes(request@),
{
    let mut payload: Vec<u8> = Vec::new();
    payload.push(id);
    push_all(&mut payload, request.pieces_root.as_slice());
    push_u32(&mut payload, request.base_layer);
    push_u32(&mut payload, request.index);
    push_u32(&mut payload, request.length);
    push_u32(&mut payload, request.proof_layers);
    assert(payload@ =~= seq![id] + hr_bytes(request@));
    payload
}

proof fn lemma_hashes_bytes_push(hs: Seq<Seq<u8>>, h: Seq<u8>)
    ensures
        hashes_bytes(hs.push(h)) == hashes_bytes(hs) + h,
{
    assert(hs.push(h).drop_last() =~= hs);
}

/// The frame of a message: its payload with the length prefix.
pub fn encode_message(message: &Message) -> (r: Vec<u8>)
    ensures
        r@ == spec_frame(message@),
{
    let r = match message {
        Message::KeepAlive => {
            let v: Vec<u8> = Vec::new();
            with_len_prefix(v)
        },
        Message::Choke => encode_simple(0),
        Message::Unchoke => encode_simple(1),
        Message::Interested => encode_simple(2),
        Message::NotInterested => encode_simple(3),
        Message::Have(index) => encode_u32_message(4, *index),
        Message::Bitfield(bits) => {
            let mut payload: Vec<u8> = Vec::new();
            payload.push(5);
            push_all(&mut payload, bits.as_slice());
            with_len_prefix(payload)
        },
        Message::Request { index, begin, length } => encode_triple(6, *index, *begin, *length),
        Message::Piece { index, begin, block } => {
            let mut payload: Vec<u8> = Vec::new();
            payload.push(7);
            push_u32(&mut payload, *index);
            push_u32(&mut payload, *begin);
            push_all(&mut payload, block.as_slice());
            with_len_prefix(payload)
        },
        Message::Cancel { index, begin, length } => encode_triple(8, *index, *begin, *length),
        Message::Port(port) => {
            let mut payload: Vec<u8> = Vec::new();
            payload.push(9);
            payload.push((*port >> 8u16) as u8);
            payload.push(*port as u8);
            with_len_prefix(payload)
        },
        Message::Extended { ext_id, payload } => {
            let mut buf: Vec<u8> = Vec::new();
            buf.push(20);
            buf.push(*ext_id);
            push_all(&mut buf, payload.as_slice());
            with_len_prefix(buf)
        },
        Message::SuggestPiece(index) => encode_u32_message(13, *index),
        Message::HaveAll => encode_simple(14),
        Message::HaveNone => encode_simple(15),
        Message::RejectRequest { index, begin, length } => encode_triple(
            16,
            *index,
            *begin,
            *length,
        ),
        Message::AllowedFast(index) => encode_u32_message(17, *index),
        Message::HashRequest(request) => with_len_prefix(encode_hash_request_payload(21, request)),
        Message::Hashes { request, hashes } => {
            let mut payload = encode_hash_request_payload(22, request);
            let ghost start = payload@;
            let mut k: usize = 0;
            while k < hashes.len()
                invariant
                    k <= hashes.len(),
                    payload@ == start + hashes_bytes(
                        hashes@.map_values(|h: [u8; 32]| h@).subrange(0, k as int),
                    ),
                decreases hashes.len() - k,
            {
                push_all(&mut payload, hashes[k].as_slice());
                proof {
                    let hv = hashes@.map_values(|h: [u8; 32]| h@);
                    assert(hv.subrange(0, k + 1) =~= hv.subrange(0, k as int).push(hashes@[k as int]@));
                    lemma_hashes_bytes_push(hv.subrange(0, k as int), hashes@[k as int]@);
                }
                k = k + 1;
            }
            proof {
                let hv = hashes@.map_values(|h: [u8; 32]| h@);
                assert(hv.subrange(0, hv.len() as int) =~= hv);
            }
            with_len_prefix(payload)
        },
        Message::HashReject(request) => with_len_prefix(encode_hash_request_payload(23, request)),
    };
    assert(r@ =~= spec_frame(message@));
    r
}

fn copy_array32(src: &[u8], at: usize) -> (r: [u8; 32])
    requires
        at + 32 <= src@.len(),
    ensures
        r@ == src@.subrange(at as int, at + 32),
{
    let mut out = [0u8; 32];
    let mut i: usize = 0;
    while i < 32
        invariant
            i <= 32,
            at + 32 <= src.len(),
            out@.len() == 32,
            forall|j: int| 0 <= j < i ==> out@[j] == src@[at + j],
        decreases 32 - i,
    {
        assert(at + i < src@.len());
        out[i] = src[at + i];
        i = i + 1;
    }
    assert(out@ =~= src@.subrange(at as int, at + 32));
    out
}

fn copy_vec(src: &[u8]) -> (r: Vec<u8>)
    ensures
        r@ == src@,
{
    let mut out: Vec<u8> = Vec::new();
    push_all(&mut out, src);
    assert(out@ =~= src@);
    out
}

/// Decodes the request tuple of a hash message.
pub fn decode_hash_request(data: &[u8]) -> (r: Result<HashRequest, Error>)
    ensures
        match spec_decode_hash_request(data@) {
            Ok(m) => r matches Ok(req) && req@ == m,
            Err(e) => r matches Err(e2) && e2 == e,
        },
{
    if data.len() != HASH_REQUEST_PAYLOAD_LEN {
        return Err(Error::InvalidMessage);
    }
    let pieces_root = copy_array32(data, 0);
    let base_layer = read_u32(&data[32..36])?;
    let index = read_u32(&data[36..40])?;
    let length = read_u32(&data[40..44])?;
    let proof_layers = read_u32(&data[44..48])?;
    let request = HashRequest { pieces_root, base_layer, index, length, proof_layers };
    if !validate_hash_request(&request) {
        return Err(Error::InvalidMessage);
    }
    Ok(request)
}

fn decode_hashes(data: &[u8]) -> (r: Result<Message, Error>)
    ensures
        match spec_decode_hashes(data@) {
            Ok(m) => r matches Ok(msg) && msg@ == m,
            Err(e) => r matches Err(e2) && e2 == e,
        },
{
    if data.len() < HASH_REQUEST_PAYLOAD_LEN || (data.len() - HASH_REQUEST_PAYLOAD_LEN) % 32 != 0 {
        return Err(Error::InvalidMessage);
    }
    let request = decode_hash_request(&data[0..48])?;
    let count = (data.len() - 48) / 32;
    let ghost rest = data@.subrange(48, data@.len() as int);
    let mut hashes: Vec<[u8; 32]> = Vec::new();
    let mut k: usize = 0;
    let mut off: usize = 48;
    while k < count
        invariant
            k <= count,
            off == 48 + 32 * k,
            count == (data@.len() - 48) / 32,
            (data@.len() - 48) % 32 == 0,
            data.len() >= 48,
            hashes@.len() == k,
            forall|j: int| 0 <= j < k ==> #[trigger] hashes@[j]@ == chunks32(rest)[j],
            rest == data@.subrange(48, data@.len() as int),
        decreases count - k,
    {
        assert(48 + 32 * k + 32 <= data@.len()) by (nonlinear_arith)
            requires
                k < count,
                count == (data@.len() - 48) / 32,
                data@.len() >= 48,
        ;
        let h = copy_array32(data, off);
        assert(h@ =~= chunks32(rest)[k as int]);
        hashes.push(h);
        k = k + 1;
        off = off + 32;
    }
    assert(hashes@.map_values(|h: [u8; 32]| h@) =~= chunks32(rest));
    if !validate_hashes(&request, hashes.as_slice()) {
        return Err(Error::InvalidMessage);
    }
    Ok(Message::Hashes { request, hashes })
}

fn decode_triple(data: &[u8]) -> (r: Result<(u32, u32, u32), Error>)
    ensures
        data@.len() == 12 ==> (r matches Ok((a, b, c)) && a == from_be32(data@.subrange(0, 4))
            && b == from_be32(data@.subrange(4, 8)) && c == from_be32(data@.subrange(8, 12))),
        data@.len() != 12 ==> r matches Err(Error::InvalidMessage),
{
    if data.len() != 12 {
        return Err(Error::InvalidMessage);
    }
    let first = read_u32(&data[0..4])?;
    let second = read_u32(&data[4..8])?;
    let third = read_u32(&data[8..12])?;
    Ok((first, second, third))
}

fn expect_empty(data: &[u8], msg: Message) -> (r: Result<Message, Error>)
    ensures
        data@.len() == 0 ==> (r matches Ok(m) && m@ == msg@),
        data@.len() != 0 ==> r matches Err(Error::InvalidMessage),
{
    if data.len() != 0 {
        return Err(Error::InvalidMessage);
    }
    Ok(msg)
}

/// Decodes a message payload (the frame without its length prefix).
pub fn decode_message(payload: &[u8]) -> (r: Result<Message, Error>)
    ensures
        match spec_decode(payload@) {
            Ok(m) => r matches Ok(msg) && msg@ == m,
            Err(e) => r matches Err(e2) && e2 == e,
        },
{
    if payload.len() == 0 {
        return Err(Error::InvalidMessage);
    }
    let id = payload[0];
    let data = &payload[1..payload.len()];
    assert(data@ == payload@.subrange(1, payload@.len() as int));
    if id == 0 {
        expect_empty(data, Message::Choke)
    } else if id == 1 {
        expect_empty(data, Message::Unchoke)
    } else if id == 2 {
        expect_empty(data, Message::Interested)
    } else if id == 3 {
        expect_empty(data, Message::NotInterested)
    } else if id == 4 || id == 13 || id == 17 {
        if data.len() != 4 {
            return Err(Error::InvalidMessage);
        }
        let v = read_u32(data)?;
        if id == 4 {
            Ok(Message::Have(v))
        } else if id == 13 {
            Ok(Message::SuggestPiece(v))
        } else {
            Ok(Message::AllowedFast(v))
        }
    } else if id == 5 {
        Ok(Message::Bitfield(copy_vec(data)))
    } else if id == 6 || id == 8 || id == 16 {
        let (a, b, c) = decode_triple(data)?;
        if id == 6 {
            Ok(Message::Request { index: a, begin: b, length: c })
        } else if id == 8 {
            Ok(Message::Cancel { index: a, begin: b, length: c })
        } else {
            Ok(Message::RejectRequest { index: a, begin: b, length: c })
        }
    } else if id == 7 {
        if data.len() < 8 {
            return Err(Error::InvalidMessage);
        }
        let index = read_u32(&data[0..4])?;
        let begin = read_u32(&data[4..8])?;
        let block = copy_vec(&data[8..data.len()]);
        Ok(Message::Piece { index, begin, block })
    } else if id == 9 {
        if data.len() != 2 {
            return Err(Error::InvalidMessage);
        }
        Ok(Message::Port(((data[0] as u16) << 8u16) | (data[1] as u16)))
    } else if id == 14 {
        expect_empty(data, Message::HaveAll)
    } else if id == 15 {
        expect_empty(data, Message::HaveNone)
    } else if id == 20 {
        if data.len() == 0 {
            return Err(Error::InvalidMessage);
        }
        Ok(Message::Extended { ext_id: data[0], payload: copy_vec(&data[1..data.len()]) })
    } else if id == 21 {
        Ok(Message::HashRequest(decode_hash_request(data)?))
    } else if id == 22 {
        decode_hashes(data)
    } else if id == 23 {
        Ok(Message::HashReject(decode_hash_request(data)?))
    } else {
        Err(Error::UnsupportedMessage(id))
    }
}

} // verus!

verus! {

// ---------------------------------------------------------------------
// Laws of the codec
// ---------------------------------------------------------------------

/// Fixed-size fields of a model have the sizes of their arrays.
pub open spec fn message_model_wf(m: MessageModel) -> bool {
    match m {
        MessageModel::HashRequest(r) => r.pieces_root.len() == 32,
        MessageModel::HashReject(r) => r.pieces_root.len() == 32,
        MessageModel::Hashes { request, hashes } => request.pieces_root.len() == 32 && forall|
            i: int,
        |
            0 <= i < hashes.len() ==> (#[trigger] hashes[i]).len() == 32,
        _ => true,
    }
}

/// A message `write_message` accepts: its checked payload length is
/// defined and within the limit.
pub open spec fn writable(m: MessageModel) -> bool {
    &&& spec_payload_len(m) is Some
    &&& spec_payload_len(m).unwrap() <= MAX_MESSAGE_LEN
}

proof fn lemma_hashes_bytes(hs: Seq<Seq<u8>>)
    requires
        forall|i: int| 0 <= i < hs.len() ==> (#[trigger] hs[i]).len() == 32,
    ensures
        hashes_bytes(hs).len() == 32 * hs.len(),
        chunks32(hashes_bytes(hs)) == hs,
    decreases hs.len(),
{
    if hs.len() > 0 {
        let init = hs.drop_last();
        lemma_hashes_bytes(init);
        let hb = hashes_bytes(hs);
        let hb0 = hashes_bytes(init);
        assert(hb == hb0 + hs.last());
        assert(hb.len() == 32 * hs.len());
        assert(hb.len() / 32 == hs.len()) by (nonlinear_arith)
            requires
                hb.len() == 32 * hs.len(),
        ;
        assert forall|i: int| 0 <= i < hs.len() implies #[trigger] chunks32(hb)[i] == hs[i] by {
            if i < hs.len() - 1 {
                assert(32 * i + 32 <= hb0.len());
                assert(hb.subrange(32 * i, 32 * i + 32) =~= hb0.subrange(32 * i, 32 * i + 32));
                assert(chunks32(hb0)[i] == init[i]);
            } else {
                assert(hb.subrange(32 * i, 32 * i + 32) =~= hs.last());
            }
        }
        assert(chunks32(hb) =~= hs);
    } else {
        assert(chunks32(hashes_bytes(hs)) =~= hs);
    }
}

proof fn lemma_decode_hash_request(r: HashRequestModel)
    requires
        r.pieces_root.len() == 32,
        valid_hash_request(r),
    ensures
        hr_bytes(r).len() == 48,
        spec_decode_hash_request(hr_bytes(r)) == Ok::<HashRequestModel, Error>(r),
{
    let d = hr_bytes(r);
    assert(d.subrange(0, 32) =~= r.pieces_root);
    assert(d.subrange(32, 36) =~= be32(r.base_layer));
    assert(d.subrange(36, 40) =~= be32(r.index));
    assert(d.subrange(40, 44) =~= be32(r.length));
    assert(d.subrange(44, 48) =~= be32(r.proof_layers));
    lemma_be32_roundtrip(r.base_layer);
    lemma_be32_roundtrip(r.index);
    lemma_be32_roundtrip(r.length);
    lemma_be32_roundtrip(r.proof_layers);
}

proof fn lemma_triple(id: u8, a: u32, b: u32, c: u32)
    ensures
        triple(id, a, b, c).len() == 13,
        triple(id, a, b, c)[0] == id,
        from_be32(triple(id, a, b, c).subrange(1, 13).subrange(0, 4)) == a,
        from_be32(triple(id, a, b, c).subrange(1, 13).subrange(4, 8)) == b,
        from_be32(triple(id, a, b, c).subrange(1, 13).subrange(8, 12)) == c,
{
    let t = triple(id, a, b, c);
    assert(t.subrange(1, 13).subrange(0, 4) =~= be32(a));
    assert(t.subrange(1, 13).subrange(4, 8) =~= be32(b));
    assert(t.subrange(1, 13).subrange(8, 12) =~= be32(c));
    lemma_be32_roundtrip(a);
    lemma_be32_roundtrip(b);
    lemma_be32_roundtrip(c);
}

/// Decoding the payload of a well-formed message that the writer accepts
/// gives the message back.
pub proof fn lemma_decode_payload(m: MessageModel)
    requires
        message_model_wf(m),
        writable(m),
        !(m is KeepAlive),
    ensures
        spec_payload(m).len() == spec_payload_len(m).unwrap(),
        spec_decode(spec_payload(m)) == Ok::<MessageModel, Error>(m),
{
    let p = spec_payload(m);
    match m {
        MessageModel::Have(i) => {
            assert(p.subrange(1, p.len() as int) =~= be32(i));
            lemma_be32_roundtrip(i);
        },
        MessageModel::SuggestPiece(i) => {
            assert(p.subrange(1, p.len() as int) =~= be32(i));
            lemma_be32_roundtrip(i);
        },
        MessageModel::AllowedFast(i) => {
            assert(p.subrange(1, p.len() as int) =~= be32(i));
            lemma_be32_roundtrip(i);
        },
        MessageModel::Bitfield(b) => {
            assert(p.subrange(1, p.len() as int) =~= b);
        },
        MessageModel::Request { index, begin, length } => {
            lemma_triple(6, index, begin, length);
        },
        MessageModel::Cancel { index, begin, length } => {
            lemma_triple(8, index, begin, length);
        },
        MessageModel::RejectRequest { index, begin, length } => {
            lemma_triple(16, index, begin, length);
        },
        MessageModel::Piece { index, begin, block } => {
            let d = p.subrange(1, p.len() as int);
            assert(d.subrange(0, 4) =~= be32(index));
            assert(d.subrange(4, 8) =~= be32(begin));
            assert(d.subrange(8, d.len() as int) =~= block);
            lemma_be32_roundtrip(index);
            lemma_be32_roundtrip(begin);
        },
        MessageModel::Port(port) => {
            assert(p.subrange(1, p.len() as int) =~= be16(port));
            lemma_be16_roundtrip(port);
        },
        MessageModel::Extended { ext_id, payload } => {
            let d = p.subrange(1, p.len() as int);
            assert(d.subrange(1, d.len() as int) =~= payload);
        },
        MessageModel::HashRequest(r) => {
            lemma_decode_hash_request(r);
            assert(p.subrange(1, p.len() as int) =~= hr_bytes(r));
        },
        MessageModel::HashReject(r) => {
            lemma_decode_hash_request(r);
            assert(p.subrange(1, p.len() as int) =~= hr_bytes(r));
        },
        MessageModel::Hashes { request, hashes } => {
            lemma_decode_hash_request(request);
            lemma_hashes_bytes(hashes);
            let d = p.subrange(1, p.len() as int);
            assert(d =~= hr_bytes(request) + hashes_bytes(hashes));
            assert(d.subrange(0, 48) =~= hr_bytes(request));
            assert(d.subrange(48, d.len() as int) =~= hashes_bytes(hashes));
            assert((d.len() - 48) % 32 == 0) by (nonlinear_arith)
                requires
                    d.len() - 48 == 32 * hashes.len(),
            ;
        },
        _ => {
            assert(p.subrange(1, p.len() as int) =~= Seq::<u8>::empty());
        },
    }
}

/// Reading back the frame of a message that the writer accepts gives the
/// same message.
pub proof fn lemma_frame_roundtrip(m: MessageModel)
    requires
        message_model_wf(m),
        writable(m),
    ensures
        spec_read_frame(spec_frame(m)) == Ok::<MessageModel, Error>(m),
{
    let p = spec_payload(m);
    let f = spec_frame(m);
    if m is KeepAlive {
        assert(f.subrange(0, 4) =~= be32(0));
        lemma_be32_roundtrip(0);
    } else {
        lemma_decode_payload(m);
        assert(f.subrange(0, 4) =~= be32(p.len() as u32));
        lemma_be32_roundtrip(p.len() as u32);
        assert(f.subrange(4, 4 + p.len() as int) =~= p);
    }
}

} // verus!

verus! {

// ---------------------------------------------------------------------
// Streams
// ---------------------------------------------------------------------

/// Reads exactly `n` bytes with `Read::read_exact`. When it succeeds the
/// vector holds `n` bytes; what they are depends on the reader.
#[verifier::external_body]
fn read_exact_vec<R: Read>(reader: &mut R, n: usize) -> (r: Result<Vec<u8>, std::io::Error>)
    ensures
        r matches Ok(v) ==> v@.len() == n,
{
    let mut buf = vec![0u8; n];
    reader.read_exact(&mut buf)?;
    Ok(buf)
}

/// Hands `data` to `Write::write_all`. Nothing is stated of the writer,
/// whose type is the caller's.
#[verifier::external_body]
fn write_all_bytes<W: Write>(writer: &mut W, data: &[u8]) -> (r: Result<(), std::io::Error>) {
    writer.write_all(data)
}

/// One call of `Read::read` into a 4096-byte buffer; `Read::read`
/// documents that it reports at most the buffer's length.
#[verifier::external_body]
fn read_chunk<R: Read>(reader: &mut R) -> (r: Result<Vec<u8>, std::io::Error>)
    ensures
        r matches Ok(v) ==> v@.len() <= 4096,
{
    let mut tmp = [0u8; 4096];
    let n = reader.read(&mut tmp)?;
    Ok(tmp[..n].to_vec())
}

/// Whether an I/O error only means that no data was ready in time
/// (`ErrorKind::TimedOut` or `ErrorKind::WouldBlock`).
#[verifier::external_body]
fn is_retryable(err: &std::io::Error) -> (r: bool) {
    match err.kind() {
        std::io::ErrorKind::TimedOut => true,
        std::io::ErrorKind::WouldBlock => true,
        _ => false,
    }
}

/// The `ErrorKind::UnexpectedEof` error reported when the peer closes the
/// connection.
#[verifier::external_body]
fn peer_closed_error() -> (r: std::io::Error) {
    std::io::Error::new(std::io::ErrorKind::UnexpectedEof, "peer closed connection")
}

/// `h` is what a 68-byte handshake `b` with the right protocol string holds.
pub open spec fn handshake_from(b: Seq<u8>, h: Handshake) -> bool {
    &&& b.len() == 68
    &&& b[0] == 19
    &&& b.subrange(1, 20) == pstr()
    &&& h.reserved@ == b.subrange(20, 28)
    &&& h.info_hash@ == b.subrange(28, 48)
    &&& h.peer_id@ == b.subrange(48, 68)
}

/// Sends our handshake.
pub fn write_handshake<W: Write>(
    writer: &mut W,
    info_hash: [u8; 20],
    peer_id: [u8; 20],
    extensions: bool,
) -> (r: Result<(), Error>)
    ensures
        r is Ok || r matches Err(Error::Io(_)),
{
    let data = build_handshake(info_hash, peer_id, extensions);
    match write_all_bytes(writer, data.as_slice()) {
        Ok(()) => Ok(()),
        Err(e) => Err(Error::Io(e)),
    }
}

/// Sends our handshake, possibly announcing the BEP 52 upgrade.
pub fn write_handshake_with_hybrid_upgrade<W: Write>(
    writer: &mut W,
    info_hash: [u8; 20],
    peer_id: [u8; 20],
    extensions: bool,
    hybrid_v2_upgrade: bool,
) -> (r: Result<(), Error>)
    ensures
        r is Ok || r matches Err(Error::Io(_)),
{
    let data = build_handshake_with_hybrid_upgrade(info_hash, peer_id, extensions, hybrid_v2_upgrade);
    match write_all_bytes(writer, data.as_slice()) {
        Ok(()) => Ok(()),
        Err(e) => Err(Error::Io(e)),
    }
}

/// Reads and parses the peer's handshake.
pub fn read_handshake<R: Read>(reader: &mut R) -> (r: Result<Handshake, Error>)
    ensures
        r matches Ok(h) ==> exists|b: Seq<u8>| handshake_from(b, h),
        r matches Err(e) ==> (e is Io || e is InvalidHandshake || e is InvalidProtocol),
{
    match read_exact_vec(reader, HANDSHAKE_LEN) {
        Err(e) => Err(Error::Io(e)),
        Ok(buf) => {
            let r = parse_handshake(buf.as_slice());
            if let Ok(h) = &r {
                assert(handshake_from(buf@, *h));
            }
            r
        },
    }
}

/// Sends a message, refusing one whose payload is over the limit or whose
/// hash fields are out of bounds.
pub fn write_message<W: Write>(writer: &mut W, message: &Message) -> (r: Result<(), Error>)
    ensures
        !writable(message@) ==> r matches Err(Error::InvalidLength),
        writable(message@) ==> (r is Ok || r matches Err(Error::Io(_))),
{
    match encoded_payload_len(message) {
        None => {
            return Err(Error::InvalidLength);
        },
        Some(n) => {
            if n > MAX_MESSAGE_LEN {
                return Err(Error::InvalidLength);
            }
        },
    }
    let data = encode_message(message);
    match write_all_bytes(writer, data.as_slice()) {
        Ok(()) => Ok(()),
        Err(e) => Err(Error::Io(e)),
    }
}

/// A frame holds exactly what `read_message` takes from the stream: the
/// four length bytes and, for an accepted non-zero length, that many bytes.
pub open spec fn frame_complete(f: Seq<u8>) -> bool {
    &&& f.len() >= 4
    &&& {
        let len = from_be32(f.subrange(0, 4)) as int;
        if len == 0 || len > MAX_MESSAGE_LEN {
            f.len() == 4
        } else {
            f.len() == 4 + len
        }
    }
}

/// How many payload bytes follow a frame header: none for a keep-alive,
/// the length for an accepted one, nothing (refused) above
/// `MAX_MESSAGE_LEN`.
pub fn frame_payload_len(header: [u8; 4]) -> (r: Option<usize>)
    ensures
        from_be32(header@) > MAX_MESSAGE_LEN ==> r is None,
        from_be32(header@) <= MAX_MESSAGE_LEN ==> r == Some(from_be32(header@) as usize),
{
    let len = ((header[0] as u32) << 24u32) | ((header[1] as u32) << 16u32) | ((header[2] as u32) << 8u32) | (
    header[3] as u32);
    if len as usize > MAX_MESSAGE_LEN {
        None
    } else {
        Some(len as usize)
    }
}

/// The message a frame of `header` and `payload` holds (see
/// `spec_read_frame`), for a payload of the length the header gives.
pub fn frame_outcome(header: [u8; 4], payload: &[u8]) -> (r: Result<Message, Error>)
    requires
        from_be32(header@) <= MAX_MESSAGE_LEN ==> payload@.len() == from_be32(header@),
    ensures
        match spec_read_frame(header@ + payload@) {
            Ok(m) => r matches Ok(msg) && msg@ == m,
            Err(e) => r matches Err(e2) && e2 == e,
        },
{
    let ghost f = header@ + payload@;
    assert(f.subrange(0, 4) =~= header@);
    match frame_payload_len(header) {
        None => Err(Error::InvalidLength),
        Some(0) => Ok(Message::KeepAlive),
        Some(n) => {
            assert(f.subrange(4, 4 + n as int) =~= payload@);
            decode_message(payload)
        },
    }
}

/// Reads one length-prefixed message: four header bytes, then exactly as
/// many payload bytes as the header gives when it accepts the length; the
/// outcome is `frame_outcome` of what was read.
pub fn read_message<R: Read>(reader: &mut R) -> (r: Result<Message, Error>)
    ensures
        r matches Ok(m) ==> exists|h: Seq<u8>, p: Seq<u8>|
            h.len() == 4 && frame_complete(h + p) && spec_read_frame(h + p) == Ok::<MessageModel, Error>(m@),
        r matches Err(e) ==> (e is Io || exists|h: Seq<u8>, p: Seq<u8>|
            h.len() == 4 && frame_complete(h + p) && spec_read_frame(h + p) == Err::<MessageModel, Error>(e)),
{
    let head = match read_exact_vec(reader, 4) {
        Err(e) => {
            return Err(Error::Io(e));
        },
        Ok(h) => h,
    };
    let header: [u8; 4] = [head[0], head[1], head[2], head[3]];
    assert(header@.subrange(0, 4) =~= header@);
    let empty: [u8; 0] = [];
    let n = match frame_payload_len(header) {
        None => {
            assert(header@ + empty@ =~= header@);
            let r = frame_outcome(header, empty.as_slice());
            assert(frame_complete(header@ + empty@));
            return r;
        },
        Some(n) => n,
    };
    if n == 0 {
        assert(header@ + empty@ =~= header@);
        assert(frame_complete(header@ + empty@));
        return frame_outcome(header, empty.as_slice());
    }
    let payload = match read_exact_vec(reader, n) {
        Err(e) => {
            return Err(Error::Io(e));
        },
        Ok(p) => p,
    };
    let r = frame_outcome(header, payload.as_slice());
    proof {
        let f = header@ + payload@;
        assert(f.subrange(0, 4) =~= header@);
        assert(frame_complete(f));
    }
    r
}

/// What a message reader hands out: the parse outcome with byte vectors
/// seen as sequences.
pub open spec fn parse_outcome(r: Result<Option<Message>, Error>) -> Result<Option<MessageModel>, Error> {
    match r {
        Ok(Some(m)) => Ok(Some(m@)),
        Ok(None) => Ok(None),
        Err(e) => Err(e),
    }
}

/// Parsing the front of buffered bytes: the outcome and the bytes left.
/// An incomplete frame is left alone; a complete one is consumed, even
/// when its payload does not decode.
pub open spec fn spec_try_parse(p: Seq<u8>) -> (Result<Option<MessageModel>, Error>, Seq<u8>) {
    if p.len() < 4 {
        (Ok(None), p)
    } else {
        let len = from_be32(p.subrange(0, 4)) as int;
        if len > MAX_MESSAGE_LEN {
            (Err(Error::InvalidLength), p)
        } else if p.len() < 4 + len {
            (Ok(None), p)
        } else if len == 0 {
            (Ok(Some(MessageModel::KeepAlive)), p.subrange(4, p.len() as int))
        } else {
            (
                match spec_decode(p.subrange(4, 4 + len)) {
                    Ok(m) => Ok(Some(m)),
                    Err(e) => Err(e),
                },
                p.subrange(4 + len, p.len() as int),
            )
        }
    }
}

/// Buffers bytes from a stream and splits them into messages.
pub struct MessageReader {
    buf: Vec<u8>,
    start: usize,
}

impl View for MessageReader {
    type V = Seq<u8>;

    /// The bytes received and not yet parsed.
    closed spec fn view(&self) -> Seq<u8> {
        self.buf@.subrange(self.start as int, self.buf@.len() as int)
    }
}

impl MessageReader {
    #[verifier::type_invariant]
    spec fn inv(self) -> bool {
        self.start <= self.buf@.len()
    }

    /// An empty reader.
    pub fn new() -> (r: Self)
        ensures
            r@ == Seq::<u8>::empty(),
    {
        let r = MessageReader { buf: Vec::with_capacity(65536), start: 0 };
        assert(r@ =~= Seq::<u8>::empty());
        r
    }

    /// Appends received bytes.
    pub fn push_bytes(&mut self, data: &[u8])
        ensures
            final(self)@ == old(self)@ + data@,
    {
        let (mut buf, start) = self.take_parts();
        let ghost before = buf@;
        push_all(&mut buf, data);
        assert(buf@.subrange(start as int, buf@.len() as int) =~= before.subrange(
            start as int,
            before.len() as int,
        ) + data@);
        *self = MessageReader { buf, start };
    }

    /// Moves the buffer and offset out, leaving an empty reader behind.
    fn take_parts(&mut self) -> (r: (Vec<u8>, usize))
        ensures
            r.1 <= r.0@.len(),
            r.0@.subrange(r.1 as int, r.0@.len() as int) == old(self)@,
            final(self)@ == Seq::<u8>::empty(),
    {
        let mut taken = MessageReader { buf: Vec::new(), start: 0 };
        std::mem::swap(self, &mut taken);
        proof {
            use_type_invariant(&taken);
        }
        assert(self@ =~= Seq::<u8>::empty());
        let MessageReader { buf, start } = taken;
        (buf, start)
    }

    fn consume(&mut self, amount: usize)
        requires
            amount <= old(self)@.len(),
        ensures
            final(self)@ == old(self)@.subrange(amount as int, old(self)@.len() as int),
    {
        let ghost pending = self@;
        let (mut buf, start) = self.take_parts();
        let blen = buf.len();
        assert(pending.len() == blen - start);
        let new_start = start + amount;
        if new_start == buf.len() {
            buf.clear();
            *self = MessageReader { buf, start: 0 };
        } else if new_start >= 65536 {
            let mut rest: Vec<u8> = Vec::new();
            push_all(&mut rest, &buf.as_slice()[new_start..buf.len()]);
            *self = MessageReader { buf: rest, start: 0 };
        } else {
            *self = MessageReader { buf, start: new_start };
        }
        assert(self@ =~= pending.subrange(amount as int, pending.len() as int));
    }

    /// Parses one buffered message, if a complete frame is buffered.
    pub fn try_parse(&mut self) -> (r: Result<Option<Message>, Error>)
        ensures
            parse_outcome(r) == spec_try_parse(old(self)@).0,
            final(self)@ == spec_try_parse(old(self)@).1,
    {
        proof {
            use_type_invariant(&*self);
        }
        let ghost p = self@;
        let avail = self.buf.len() - self.start;
        if avail < 4 {
            return Ok(None);
        }
        let s = self.start;
        let len = ((self.buf[s] as u32) << 24u32) | ((self.buf[s + 1] as u32) << 16u32) | ((
        self.buf[s + 2] as u32) << 8u32) | (self.buf[s + 3] as u32);
        assert(p.subrange(0, 4) =~= seq![self.buf@[s as int], self.buf@[s + 1], self.buf@[s + 2], self.buf@[s + 3]]);
        if len as usize > MAX_MESSAGE_LEN {
            return Err(Error::InvalidLength);
        }
        let total = 4 + len as usize;
        if avail < total {
            return Ok(None);
        }
        if len == 0 {
            self.consume(4);
            return Ok(Some(Message::KeepAlive));
        }
        let mut payload: Vec<u8> = Vec::new();
        push_all(&mut payload, &self.buf.as_slice()[s + 4..s + total]);
        assert(payload@ =~= p.subrange(4, 4 + len as int));
        self.consume(total);
        match decode_message(payload.as_slice()) {
            Ok(m) => Ok(Some(m)),
            Err(e) => Err(e),
        }
    }

    /// Returns a buffered message if there is one; otherwise performs at
    /// most one read and parses what arrived. A read that times out or
    /// would block gives `Ok(None)`; a closed stream gives an I/O error.
    pub fn read_message<R: Read>(&mut self, reader: &mut R) -> (r: Result<Option<Message>, Error>)
        ensures
            !(spec_try_parse(old(self)@).0 matches Ok(None)) ==> parse_outcome(r) == spec_try_parse(
                old(self)@,
            ).0 && final(self)@ == spec_try_parse(old(self)@).1,
            spec_try_parse(old(self)@).0 matches Ok(None) ==> ((r matches Ok(None) && final(self)@
                == old(self)@) || (r matches Err(Error::Io(_)) && final(self)@ == old(self)@) || exists|
                data: Seq<u8>,
            |
                0 < data.len() <= 4096 && parse_outcome(r) == spec_try_parse(old(self)@ + data).0
                    && final(self)@ == spec_try_parse(old(self)@ + data).1),
    {
        let first = self.try_parse();
        match first {
            Ok(None) => {},
            _ => {
                return first;
            },
        }
        match read_chunk(reader) {
            Ok(data) => {
                if data.len() == 0 {
                    return Err(Error::Io(peer_closed_error()));
                }
                self.push_bytes(data.as_slice());
                self.try_parse()
            },
            Err(e) => {
                if is_retryable(&e) {
                    Ok(None)
                } else {
                    Err(Error::Io(e))
                }
            },
        }
    }
}

/// Parsing the frame of a message that the writer accepts, followed by any
/// bytes, gives the message and leaves exactly those bytes.
pub proof fn lemma_stream_roundtrip(m: MessageModel, rest: Seq<u8>)
    requires
        message_model_wf(m),
        writable(m),
    ensures
        spec_try_parse(spec_frame(m) + rest) == (
            Ok::<Option<MessageModel>, Error>(Some(m)),
            rest,
        ),
{
    let p = spec_payload(m);
    let s = spec_frame(m) + rest;
    if m is KeepAlive {
        assert(s.subrange(0, 4) =~= be32(0));
        lemma_be32_roundtrip(0);
        assert(s.subrange(4, s.len() as int) =~= rest);
    } else {
        lemma_decode_payload(m);
        assert(s.subrange(0, 4) =~= be32(p.len() as u32));
        lemma_be32_roundtrip(p.len() as u32);
        assert(s.subrange(4, 4 + p.len() as int) =~= p);
        assert(s.subrange(4 + p.len() as int, s.len() as int) =~= rest);
    }
}

} // verus!

verus! {

proof fn lemma_from_be16_roundtrip(s: Seq<u8>)
    requires
        s.len() == 2,
    ensures
        be16(from_be16(s)) == s,
{
    let b0 = s[0];
    let b1 = s[1];
    let x = from_be16(s);
    assert((x >> 8u16) as u8 == b0 && x as u8 == b1) by (bit_vector)
        requires
            x == ((b0 as u16) << 8u16) | (b1 as u16),
    ;
    assert(be16(x) =~= s);
}

proof fn lemma_chunks32_bytes(x: Seq<u8>)
    requires
        x.len() % 32 == 0,
    ensures
        hashes_bytes(chunks32(x)) == x,
    decreases x.len(),
{
    if x.len() > 0 {
        let y = x.subrange(0, x.len() - 32);
        assert(y.len() % 32 == 0);
        lemma_chunks32_bytes(y);
        let c = chunks32(x);
        assert(x.len() / 32 == y.len() / 32 + 1);
        assert(c.drop_last() =~= chunks32(y)) by {
            assert forall|i: int| 0 <= i < c.len() - 1 implies c.drop_last()[i] == chunks32(y)[i] by {
                assert(x.subrange(32 * i, 32 * i + 32) =~= y.subrange(32 * i, 32 * i + 32));
            }
        }
        assert(c.last() == x.subrange(x.len() - 32, x.len() as int)) by {
            assert(32 * (c.len() - 1) == x.len() - 32);
        }
        assert(hashes_bytes(c) =~= x);
    } else {
        assert(chunks32(x) =~= Seq::<Seq<u8>>::empty());
        assert(x =~= Seq::<u8>::empty());
    }
}

proof fn lemma_hash_request_bytes(d: Seq<u8>)
    requires
        spec_decode_hash_request(d) is Ok,
    ensures
        hr_bytes(spec_decode_hash_request(d)->Ok_0) == d,
{
    lemma_from_be32_roundtrip(d.subrange(32, 36));
    lemma_from_be32_roundtrip(d.subrange(36, 40));
    lemma_from_be32_roundtrip(d.subrange(40, 44));
    lemma_from_be32_roundtrip(d.subrange(44, 48));
    assert(hr_bytes(spec_decode_hash_request(d)->Ok_0) =~= d);
}

/// A payload the decoder accepts is the canonical encoding of the message
/// it gives: encoding that message yields the payload again.
pub proof fn lemma_decoded_payload_canonical(p: Seq<u8>)
    requires
        spec_decode(p) is Ok,
    ensures
        spec_payload(spec_decode(p)->Ok_0) == p,
{
    let id = p[0];
    let d = p.subrange(1, p.len() as int);
    let m = spec_decode(p)->Ok_0;
    assert(p =~= seq![id] + d);
    if id == 4 || id == 13 || id == 17 {
        lemma_from_be32_roundtrip(d);
    } else if id == 6 || id == 8 || id == 16 {
        lemma_from_be32_roundtrip(d.subrange(0, 4));
        lemma_from_be32_roundtrip(d.subrange(4, 8));
        lemma_from_be32_roundtrip(d.subrange(8, 12));
        assert(d =~= d.subrange(0, 4) + d.subrange(4, 8) + d.subrange(8, 12));
        assert(spec_payload(m) =~= p);
    } else if id == 7 {
        lemma_from_be32_roundtrip(d.subrange(0, 4));
        lemma_from_be32_roundtrip(d.subrange(4, 8));
        assert(spec_payload(m) =~= p);
    } else if id == 9 {
        lemma_from_be16_roundtrip(d);
    } else if id == 20 {
        assert(spec_payload(m) =~= p);
    } else if id == 21 || id == 23 {
        lemma_hash_request_bytes(d);
        assert(spec_payload(m) =~= p);
    } else if id == 22 {
        lemma_hash_request_bytes(d.subrange(0, 48));
        lemma_chunks32_bytes(d.subrange(48, d.len() as int));
        assert(d =~= d.subrange(0, 48) + d.subrange(48, d.len() as int));
        assert(spec_payload(m) =~= p);
    } else {
        assert(spec_payload(m) =~= p);
    }
}

} // verus!
