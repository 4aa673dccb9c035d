//! Peer-wire framing: the handshake, length-prefixed messages, and the block
//! requests that cover a piece.

use vstd::prelude::*;
use vstd::string::StringSliceAdditionalSpecFns;
use crate::peers::PeerID;
use crate::text::{hex_text, push_hex};
use crate::torrent::InfoHash;

verus! {

pub const HANDSHAKE_BYTE_SIZE: usize = 68;

/// The unit of a wire request: 16 384 bytes.
pub const BLOCK_SIZE: usize = 16384;

/// A frame announcing a payload longer than this is refused.
pub const MAX_PAYLOAD_LEN: usize = 1048576;

/// What a peer did wrong on the wire.
#[derive(Debug, Clone, Copy, PartialEq, Eq, Structural)]
pub enum WireError {
    /// The reply to the handshake names another protocol or another torrent.
    HandshakeMismatch,
    /// A message that the core does not accept, or one out of turn.
    ProtocolSequence,
    /// A frame too long, or a payload that does not fit its message.
    Frame,
}

/// The four bytes of `n`, most significant first.
pub open spec fn be_bytes(n: u32) -> Seq<u8> {
    seq![
        (n / 0x1000000) as u8,
        (n / 0x10000 % 0x100) as u8,
        (n / 0x100 % 0x100) as u8,
        (n % 0x100) as u8,
    ]
}

/// The number that four bytes write, most significant first.
pub open spec fn be_value(bytes: Seq<u8>) -> nat {
    (bytes[0] * 0x1000000 + bytes[1] * 0x10000 + bytes[2] * 0x100 + bytes[3]) as nat
}

/// Reading back the bytes of a number gives the number.
pub proof fn law_be_round_trip(n: u32)
    ensures
        be_bytes(n).len() == 4,
        be_value(be_bytes(n)) == n,
{
}

/// Appends the four bytes of `n`, most significant first.
fn push_be(out: &mut Vec<u8>, n: u32)
    ensures
        final(out)@ == old(out)@ + be_bytes(n),
{
    out.push((n / 0x1000000) as u8);
    out.push((n / 0x10000 % 0x100) as u8);
    out.push((n / 0x100 % 0x100) as u8);
    out.push((n % 0x100) as u8);
    assert(out@ =~= old(out)@ + be_bytes(n));
}

/// Reads the four bytes at `at`, most significant first.
fn read_be(bytes: &[u8], at: usize) -> (n: u32)
    requires
        at + 4 <= bytes.len(),
    ensures
        n == be_value(bytes@.subrange(at as int, at + 4)),
{
    let b0 = bytes[at] as u32;
    let b1 = bytes[at + 1] as u32;
    let b2 = bytes[at + 2] as u32;
    let b3 = bytes[at + 3] as u32;
    b0 * 0x1000000 + b1 * 0x10000 + b2 * 0x100 + b3
}

/// The name by which the protocol is known in the handshake.
pub open spec fn protocol_name() -> Seq<u8> {
    "BitTorrent protocol".spec_bytes()
}

/// The protocol's name has nineteen bytes, one for each character.
pub proof fn lemma_protocol_name()
    ensures
        protocol_name().len() == 19,
        forall|i: int| 0 <= i < 19 ==> protocol_name()[i] == "BitTorrent protocol"@[i] as u8,
{
    reveal_strlit("BitTorrent protocol");
    vstd::utf8::is_ascii_chars_encode_utf8("BitTorrent protocol"@);
}

/// The sixty-eight bytes of a handshake: 19, the protocol's name, eight zero
/// bytes, the info-hash, the peer id.
pub open spec fn handshake_bytes(info_hash: Seq<u8>, peer_id: Seq<u8>) -> Seq<u8> {
    seq![19u8] + protocol_name() + Seq::new(8, |i: int| 0u8) + info_hash + peer_id
}

/// The bytes name this protocol: 19, then `BitTorrent protocol`.
pub open spec fn names_protocol(data: Seq<u8>) -> bool {
    data.len() >= 20 && data[0] == 19 && data.subrange(1, 20) == protocol_name()
}

/// A handshake as it is sent reads back as it was made: it names the
/// protocol, and info-hash and peer id stand in their places.
pub proof fn law_handshake_reads_back(info_hash: Seq<u8>, peer_id: Seq<u8>)
    requires
        info_hash.len() == 20,
        peer_id.len() == 20,
    ensures
        handshake_bytes(info_hash, peer_id).len() == 68,
        names_protocol(handshake_bytes(info_hash, peer_id)),
        handshake_bytes(info_hash, peer_id).subrange(28, 48) == info_hash,
        handshake_bytes(info_hash, peer_id).subrange(48, 68) == peer_id,
{
    lemma_protocol_name();
    let bytes = handshake_bytes(info_hash, peer_id);
    assert(bytes.subrange(1, 20) =~= protocol_name());
    assert(bytes.subrange(28, 48) =~= info_hash);
    assert(bytes.subrange(48, 68) =~= peer_id);
}

fn protocol_byte(i: usize) -> (b: u8)
    requires
        i < 19,
    ensures
        b == protocol_name()[i as int],
{
    proof {
        lemma_protocol_name();
    }
    "BitTorrent protocol".as_bytes()[i]
}

/// One side's part of the handshake: the torrent it wants and who it is.
#[derive(Debug)]
pub struct Handshake {
    info_hash: InfoHash,
    peer_id: Vec<u8>,
}

impl Handshake {
    pub closed spec fn info_hash(&self) -> Seq<u8> {
        self.info_hash@
    }

    pub closed spec fn peer_id(&self) -> Seq<u8> {
        self.peer_id@
    }

    /// The peer id has its twenty bytes: this holds of every handshake.
    #[verifier::type_invariant]
    closed spec fn sized(&self) -> bool {
        self.peer_id@.len() == 20
    }

    /// The handshake that this client sends.
    pub fn new(info_hash: &InfoHash, peer_id: &PeerID) -> (h: Handshake)
        ensures
            h.info_hash() == info_hash@,
            h.peer_id().len() == 20,
            forall|i: int| 0 <= i < 20 ==> #[trigger] h.peer_id()[i] == peer_id@[i] as u8,
    {
        proof {
            info_hash.lemma_len();
        }
        Handshake {
            info_hash: info_hash.clone(),
            peer_id: vstd::slice::slice_to_vec(peer_id.as_bytes()),
        }
    }

    /// The sixty-eight bytes to send.
    pub fn to_bytes(&self) -> (out: [u8; 68])
        ensures
            out@ == handshake_bytes(self.info_hash(), self.peer_id()),
            out@.len() == 68,
            out@[0] == 19,
            out@.subrange(1, 20) == protocol_name(),
            out@.subrange(20, 28) == Seq::new(8, |i: int| 0u8),
            out@.subrange(28, 48) == self.info_hash(),
            out@.subrange(48, 68) == self.peer_id(),
    {
        proof {
            use_type_invariant(self);
            self.info_hash.lemma_len();
            lemma_protocol_name();
        }
        let mut out: [u8; 68] = [0u8;68];
        let hash = self.info_hash.get_hash();
        out[0] = 19;
        let mut i: usize = 0;
        while i < 19
            invariant
                i <= 19,
                protocol_name().len() == 19,
                out@.len() == 68,
                out@[0] == 19,
                forall|k: int| 0 <= k < i ==> out@[k + 1] == protocol_name()[k],
                forall|k: int| 20 <= k < 68 ==> out@[k] == 0,
            decreases 19 - i,
        {
            out[i + 1] = protocol_byte(i);
            i += 1;
        }
        i = 0;
        while i < 20
            invariant
                i <= 20,
                self.peer_id@.len() == 20,
                hash@.len() == 20,
                hash@ == self.info_hash(),
                protocol_name().len() == 19,
                out@.len() == 68,
                out@[0] == 19,
                forall|k: int| 0 <= k < 19 ==> out@[k + 1] == protocol_name()[k],
                forall|k: int| 20 <= k < 28 ==> out@[k] == 0,
                forall|k: int| 0 <= k < i ==> out@[k + 28] == hash@[k],
                forall|k: int| 0 <= k < i ==> out@[k + 48] == self.peer_id@[k],
            decreases 20 - i,
        {
            out[i + 28] = hash[i];
            out[i + 48] = self.peer_id[i];
            i += 1;
        }
        assert(out@ =~= handshake_bytes(self.info_hash(), self.peer_id()));
        assert(out@.subrange(1, 20) =~= protocol_name());
        assert(out@.subrange(20, 28) =~= Seq::new(8, |i: int| 0u8));
        assert(out@.subrange(28, 48) =~= self.info_hash());
        assert(out@.subrange(48, 68) =~= self.peer_id());
        out
    }

    /// Reads a peer's handshake. It is refused where it does not name this
    /// protocol.
    pub fn from_bytes(data: [u8; 68]) -> (res: Result<Handshake, WireError>)
        ensures
            match res {
                Ok(h) => names_protocol(data@) && h.info_hash() == data@.subrange(28, 48)
                    && h.peer_id() == data@.subrange(48, 68),
                Err(e) => !names_protocol(data@) && e == WireError::HandshakeMismatch,
            },
    {
        proof {
            lemma_protocol_name();
        }
        if data[0] != 19 {
            return Err(WireError::HandshakeMismatch);
        }
        let mut i: usize = 0;
        while i < 19
            invariant
                i <= 19,
                protocol_name().len() == 19,
                data@[0] == 19,
                forall|k: int| 0 <= k < i ==> data@[k + 1] == protocol_name()[k],
            decreases 19 - i,
        {
            if data[i + 1] != protocol_byte(i) {
                assert(data@.subrange(1, 20)[i as int] != protocol_name()[i as int]);
                return Err(WireError::HandshakeMismatch);
            }
            i += 1;
        }
        assert(data@.subrange(1, 20) =~= protocol_name());
        let mut hash: [u8; 20] = [0u8;20];
        let mut peer_id: Vec<u8> = Vec::new();
        i = 0;
        while i < 20
            invariant
                i <= 20,
                hash@.len() == 20,
                peer_id@.len() == i,
                forall|k: int| 0 <= k < i ==> hash@[k] == data@[k + 28],
                forall|k: int| 0 <= k < i ==> peer_id@[k] == data@[k + 48],
            decreases 20 - i,
        {
            hash[i] = data[i + 28];
            peer_id.push(data[i + 48]);
            i += 1;
        }
        assert(hash@ =~= data@.subrange(28, 48));
        assert(peer_id@ =~= data@.subrange(48, 68));
        Ok(Handshake { info_hash: InfoHash::new(hash), peer_id })
    }

    /// Reads a peer's reply to this client's handshake for the torrent
    /// `expected`. It is refused where it names another protocol or where its
    /// info-hash differs from `expected` in any byte.
    pub fn from_reply(data: [u8; 68], expected: &InfoHash) -> (res: Result<Handshake, WireError>)
        ensures
            match res {
                Ok(h) => names_protocol(data@) && data@.subrange(28, 48) == expected@
                    && h.info_hash() == expected@ && h.peer_id() == data@.subrange(48, 68),
                Err(e) => e == WireError::HandshakeMismatch && !(names_protocol(data@)
                    && data@.subrange(28, 48) == expected@),
            },
    {
        let h = match Handshake::from_bytes(data) {
            Err(e) => { return Err(e); },
            Ok(h) => h,
        };
        let want = expected.get_hash();
        let have = h.info_hash.get_hash();
        let mut i: usize = 0;
        while i < 20
            invariant
                i <= 20,
                want@ == expected@,
                have@ == h.info_hash(),
                have@ == data@.subrange(28, 48),
                have@.len() == 20,
                want@.len() == 20,
                forall|k: int| 0 <= k < i ==> have@[k] == want@[k],
            decreases 20 - i,
        {
            if have[i] != want[i] {
                return Err(WireError::HandshakeMismatch);
            }
            i += 1;
        }
        assert(have@ =~= want@);
        Ok(h)
    }

    /// The peer's id as it was sent.
    pub fn peer_id_bytes(&self) -> (bytes: &Vec<u8>)
        ensures
            bytes@ == self.peer_id(),
    {
        &self.peer_id
    }

    /// `Peer ID: `, the peer id in hexadecimal, and a line end.
    pub fn to_string(&self) -> (text: String)
        ensures
            text@ == "Peer ID: "@ + hex_text(self.peer_id()) + "\n"@,
    {
        let mut text = String::new();
        text.append("Peer ID: ");
        push_hex(&mut text, self.peer_id.as_slice());
        text.append("\n");
        assert(text@ =~= "Peer ID: "@ + hex_text(self.peer_id()) + "\n"@);
        text
    }
}

/// A request for one block: which piece, where in it, how many bytes.
#[derive(Debug, Clone, Copy, PartialEq, Eq, Structural)]
pub struct RequestPayload {
    pub index: u32,
    pub begin: u32,
    pub length: u32,
}

impl RequestPayload {
    /// The twelve bytes of the payload: index, begin and length, each in four
    /// bytes, most significant first.
    pub open spec fn bytes(self) -> Seq<u8> {
        be_bytes(self.index) + be_bytes(self.begin) + be_bytes(self.length)
    }

    /// Reads the payload of a `request` or `cancel` message.
    pub fn from_bytes(b: &[u8]) -> (res: Result<RequestPayload, WireError>)
        ensures
            match res {
                Ok(r) => b@.len() == 12 && r.index == be_value(b@.subrange(0, 4)) && r.begin
                    == be_value(b@.subrange(4, 8)) && r.length == be_value(b@.subrange(8, 12)),
                Err(e) => b@.len() != 12 && e == WireError::Frame,
            },
    {
        if b.len() != 12 {
            return Err(WireError::Frame);
        }
        Ok(RequestPayload { index: read_be(b, 0), begin: read_be(b, 4), length: read_be(b, 8) })
    }

    /// Appends the twelve bytes of the payload.
    pub fn append_bytes(&self, to: &mut Vec<u8>)
        ensures
            final(to)@ == old(to)@ + self.bytes(),
    {
        push_be(to, self.index);
        push_be(to, self.begin);
        push_be(to, self.length);
        assert(to@ =~= old(to)@ + self.bytes());
    }
}

/// One block of a piece as a peer sent it.
#[derive(Debug, PartialEq, Eq)]
pub struct PiecePayload {
    pub index: u32,
    pub begin: u32,
    pub block: Vec<u8>,
}

impl PiecePayload {
    /// The payload on the wire: index and begin, each in four bytes, then the
    /// block.
    pub open spec fn bytes(&self) -> Seq<u8> {
        be_bytes(self.index) + be_bytes(self.begin) + self.block@
    }

    pub fn to_bytes(&self) -> (out: Vec<u8>)
        ensures
            out@ == self.bytes(),
    {
        let mut out: Vec<u8> = Vec::new();
        push_be(&mut out, self.index);
        push_be(&mut out, self.begin);
        out.extend_from_slice(self.block.as_slice());
        assert(out@ =~= self.bytes());
        out
    }

    /// Reads the payload of a `piece` message: eight bytes of index and
    /// begin, and the block, which is all that follows.
    pub fn from_bytes(b: &[u8]) -> (res: Result<PiecePayload, WireError>)
        ensures
            match res {
                Ok(p) => b@.len() >= 8 && p.index == be_value(b@.subrange(0, 4)) && p.begin
                    == be_value(b@.subrange(4, 8)) && p.block@ == b@.subrange(
                    8,
                    b@.len() as int,
                ),
                Err(e) => b@.len() < 8 && e == WireError::Frame,
            },
    {
        if b.len() < 8 {
            return Err(WireError::Frame);
        }
        let block = vstd::slice::slice_to_vec(vstd::slice::slice_subrange(b, 8, b.len()));
        Ok(PiecePayload { index: read_be(b, 0), begin: read_be(b, 4), block })
    }
}

/// A message of the peer-wire protocol.
#[derive(Debug, PartialEq, Eq)]
pub enum PeerMessage {
    Choke,
    Unchoke,
    Interested,
    Have(u32),
    Bitfield,
    Request(RequestPayload),
    Piece(PiecePayload),
    Cancel(RequestPayload),
}

/// A frame: the length of what follows in four bytes, the message id, the
/// payload.
pub open spec fn frame(id: u8, payload: Seq<u8>) -> Seq<u8> {
    be_bytes((payload.len() + 1) as u32) + seq![id] + payload
}

/// `res` is what a received message with this id and payload reads as:
/// `choke`, `unchoke`, `have` with its four bytes of index, `bitfield`, or
/// `piece` with index, begin and block; a payload too short for its message
/// is a frame error, and any other id is out of turn.
pub open spec fn reads_as(ident: u8, payload: Seq<u8>, res: Result<PeerMessage, WireError>) -> bool {
    if ident == 0 {
        res == Ok::<_, WireError>(PeerMessage::Choke)
    } else if ident == 1 {
        res == Ok::<_, WireError>(PeerMessage::Unchoke)
    } else if ident == 5 {
        res == Ok::<_, WireError>(PeerMessage::Bitfield)
    } else if ident == 4 {
        if payload.len() == 4 {
            res == Ok::<_, WireError>(PeerMessage::Have(be_value(payload) as u32))
        } else {
            res == Err::<PeerMessage, _>(WireError::Frame)
        }
    } else if ident == 7 {
        if payload.len() >= 8 {
            res matches Ok(PeerMessage::Piece(p)) && p.index == be_value(payload.subrange(0, 4))
                && p.begin == be_value(payload.subrange(4, 8)) && p.block@ == payload.subrange(
                8,
                payload.len() as int,
            )
        } else {
            res == Err::<PeerMessage, _>(WireError::Frame)
        }
    } else {
        res == Err::<PeerMessage, _>(WireError::ProtocolSequence)
    }
}

impl PeerMessage {
    /// The message id.
    pub open spec fn id(&self) -> u8 {
        match self {
            PeerMessage::Choke => 0,
            PeerMessage::Unchoke => 1,
            PeerMessage::Interested => 2,
            PeerMessage::Have(_) => 4,
            PeerMessage::Bitfield => 5,
            PeerMessage::Request(_) => 6,
            PeerMessage::Piece(_) => 7,
            PeerMessage::Cancel(_) => 8,
        }
    }

    /// The payload that the message carries on the wire.
    pub open spec fn payload(&self) -> Seq<u8> {
        match self {
            PeerMessage::Have(index) => be_bytes(*index),
            PeerMessage::Request(r) => r.bytes(),
            PeerMessage::Piece(p) => p.bytes(),
            PeerMessage::Cancel(r) => r.bytes(),
            _ => Seq::empty(),
        }
    }

    /// Reads a received message from its id and payload. The core accepts
    /// `choke`, `unchoke`, `have`, `bitfield` and `piece`; any other id is out
    /// of turn. What a bitfield holds is not kept.
    pub fn from_bytes(ident: u8, payload: &[u8]) -> (res: Result<PeerMessage, WireError>)
        ensures
            reads_as(ident, payload@, res),
    {
        if ident == 0 {
            Ok(PeerMessage::Choke)
        } else if ident == 1 {
            Ok(PeerMessage::Unchoke)
        } else if ident == 5 {
            Ok(PeerMessage::Bitfield)
        } else if ident == 4 {
            if payload.len() != 4 {
                return Err(WireError::Frame);
            }
            assert(payload@.subrange(0, 4) =~= payload@);
            Ok(PeerMessage::Have(read_be(payload, 0)))
        } else if ident == 7 {
            match PiecePayload::from_bytes(payload) {
                Err(e) => Err(e),
                Ok(p) => Ok(PeerMessage::Piece(p)),
            }
        } else {
            Err(WireError::ProtocolSequence)
        }
    }

    /// The message as a frame, ready to send.
    pub fn to_bytes(&self) -> (out: Vec<u8>)
        requires
            self.payload().len() < u32::MAX,
        ensures
            out@ == frame(self.id(), self.payload()),
    {
        let mut out: Vec<u8> = Vec::new();
        match self {
            PeerMessage::Choke => {
                push_be(&mut out, 1);
                out.push(0);
            },
            PeerMessage::Unchoke => {
                push_be(&mut out, 1);
                out.push(1);
            },
            PeerMessage::Interested => {
                push_be(&mut out, 1);
                out.push(2);
            },
            PeerMessage::Have(index) => {
                push_be(&mut out, 5);
                out.push(4);
                push_be(&mut out, *index);
            },
            PeerMessage::Bitfield => {
                push_be(&mut out, 1);
                out.push(5);
            },
            PeerMessage::Request(r) => {
                push_be(&mut out, 13);
                out.push(6);
                r.append_bytes(&mut out);
            },
            PeerMessage::Piece(p) => {
                let body = p.to_bytes();
                push_be(&mut out, (body.len() + 1) as u32);
                out.push(7);
                out.extend_from_slice(body.as_slice());
            },
            PeerMessage::Cancel(r) => {
                push_be(&mut out, 13);
                out.push(8);
                r.append_bytes(&mut out);
            },
        }
        assert(out@ =~= frame(self.id(), self.payload()));
        out
    }
}

/// A message that the core accepts reads back from its id and payload as the
/// message it is.
pub proof fn law_message_reads_back(message: PeerMessage)
    requires
        message is Choke || message is Unchoke || message is Have || message is Bitfield
            || message is Piece,
    ensures
        reads_as(message.id(), message.payload(), Ok(message)),
{
    match message {
        PeerMessage::Have(index) => {
            law_be_round_trip(index);
        },
        PeerMessage::Piece(p) => {
            let payload = message.payload();
            law_be_round_trip(p.index);
            law_be_round_trip(p.begin);
            assert(payload.subrange(0, 4) =~= be_bytes(p.index));
            assert(payload.subrange(4, 8) =~= be_bytes(p.begin));
            assert(payload.subrange(8, payload.len() as int) =~= p.block@);
        },
        _ => {},
    }
}

/// A frame begins with the length of what follows: the id and the payload.
pub proof fn law_frame_length(id: u8, payload: Seq<u8>)
    requires
        payload.len() < u32::MAX,
    ensures
        frame(id, payload).len() == 5 + payload.len(),
        be_value(frame(id, payload).subrange(0, 4)) == payload.len() + 1,
        frame(id, payload)[4] == id,
        frame(id, payload).subrange(5, 5 + payload.len() as int) == payload,
{
    let bytes = frame(id, payload);
    law_be_round_trip((payload.len() + 1) as u32);
    assert(bytes.subrange(0, 4) =~= be_bytes((payload.len() + 1) as u32));
    assert(bytes.subrange(5, 5 + payload.len() as int) =~= payload);
}

/// The head of a frame as it is read: the length prefix and the message id.
pub struct PeerMessageReader {
    meta_buf: [u8; 5],
}

impl PeerMessageReader {
    /// The five bytes read last: four of length, one of id.
    pub closed spec fn meta(&self) -> Seq<u8> {
        self.meta_buf@
    }

    /// The length that the prefix announces for the rest of the frame.
    pub open spec fn frame_len(&self) -> nat {
        be_value(self.meta().subrange(0, 4))
    }

    pub fn new() -> (reader: Self)
        ensures
            reader.meta() == Seq::new(5, |i: int| 0u8),
    {
        let reader = Self { meta_buf: [0u8;5] };
        assert(reader.meta_buf@ =~= Seq::new(5, |i: int| 0u8));
        reader
    }

    /// Takes the four bytes of a length prefix as they were read.
    pub fn set_length(&mut self, prefix: [u8; 4])
        ensures
            final(self).meta().len() == 5,
            final(self).meta().subrange(0, 4) == prefix@,
            final(self).meta()[4] == old(self).meta()[4],
    {
        self.meta_buf[0] = prefix[0];
        self.meta_buf[1] = prefix[1];
        self.meta_buf[2] = prefix[2];
        self.meta_buf[3] = prefix[3];
        assert(self.meta_buf@.subrange(0, 4) =~= prefix@);
    }

    /// Takes the id byte as it was read.
    pub fn set_ident(&mut self, ident: u8)
        ensures
            final(self).meta().len() == 5,
            final(self).meta().subrange(0, 4) == old(self).meta().subrange(0, 4),
            final(self).meta()[4] == ident,
    {
        self.meta_buf[4] = ident;
        assert(self.meta_buf@.subrange(0, 4) =~= old(self).meta_buf@.subrange(0, 4));
    }

    /// The frame is a keep-alive: nothing follows its prefix.
    pub fn is_keep_alive(&self) -> (yes: bool)
        ensures
            yes == (self.frame_len() == 0),
    {
        self.meta_buf[0] == 0 && self.meta_buf[1] == 0 && self.meta_buf[2] == 0
            && self.meta_buf[3] == 0
    }

    pub fn ident_byte(&self) -> (id: u8)
        ensures
            id == self.meta()[4],
    {
        self.meta_buf[4]
    }

    /// The number of payload bytes that follow the id: one less than the
    /// announced length, and none for a keep-alive.
    pub fn payload_len(&self) -> (n: usize)
        ensures
            self.frame_len() == 0 ==> n == 0,
            self.frame_len() > 0 ==> n == self.frame_len() - 1,
    {
        let announced = read_be(self.meta_buf.as_slice(), 0);
        if announced > 0 {
            (announced - 1) as usize
        } else {
            0
        }
    }

    /// The payload length, refused where it exceeds `MAX_PAYLOAD_LEN`.
    pub fn checked_payload_len(&self) -> (res: Result<usize, WireError>)
        ensures
            match res {
                Ok(n) => n <= MAX_PAYLOAD_LEN && (self.frame_len() == 0 ==> n == 0) && (
                self.frame_len() > 0 ==> n == self.frame_len() - 1),
                Err(e) => e == WireError::Frame && self.frame_len() - 1 > MAX_PAYLOAD_LEN,
            },
    {
        let n = self.payload_len();
        if n > MAX_PAYLOAD_LEN {
            Err(WireError::Frame)
        } else {
            Ok(n)
        }
    }

    /// The message that the frame holds, given its payload as it was read. A
    /// payload of another length than the prefix announced is refused as a
    /// truncated frame; a keep-alive holds no message.
    pub fn message(&self, payload: &[u8]) -> (res: Result<PeerMessage, WireError>)
        ensures
            self.frame_len() == 0 || payload@.len() != self.frame_len() - 1 ==> res == Err::<
                PeerMessage,
                _,
            >(WireError::Frame),
            self.frame_len() > 0 && payload@.len() == self.frame_len() - 1 ==> reads_as(
                self.meta()[4],
                payload@,
                res,
            ),
    {
        if self.is_keep_alive() || payload.len() != self.payload_len() {
            return Err(WireError::Frame);
        }
        PeerMessage::from_bytes(self.ident_byte(), payload)
    }
}

} // verus!
