//! This client's identity, peer endpoints, and the tracker announce.

use vstd::prelude::*;
use vstd::std_specs::iter::IteratorSpec;
use vstd::string::StringSliceAdditionalSpecFns;
use vstd::utf8::is_ascii_chars;
use crate::bencode::decode::decode;
use crate::bencode::grammar::parse_value;
use crate::bencode::model::{lookup, BencodeError, Term, Value};
use crate::text::{decimal_text, hex_digit, push_number};
use crate::torrent::PeerRequest;
use rand::distributions::Alphanumeric;
use rand::Rng;

verus! {

/// The length of a peer id.
pub const ID_SIZE: usize = 20;

/// A letter or digit of ASCII.
pub open spec fn is_alphanumeric(c: char) -> bool {
    ('0' <= c <= '9') || ('A' <= c <= 'Z') || ('a' <= c <= 'z')
}

/// One byte drawn by `rand::thread_rng()` from
/// `rand::distributions::Alphanumeric`. Which byte comes is chance; it is
/// always the code of an ASCII letter or digit.
#[verifier::external_body]
fn random_alphanumeric() -> (b: u8)
    ensures
        is_alphanumeric(b as char),
{
    rand::thread_rng().sample(Alphanumeric)
}

/// The identity under which this client announces and shakes hands: twenty
/// ASCII characters.
#[derive(Debug)]
pub struct PeerID(String);

impl View for PeerID {
    type V = Seq<char>;

    closed spec fn view(&self) -> Seq<char> {
        self.0@
    }
}

impl Clone for PeerID {
    fn clone(&self) -> (copy: PeerID)
        ensures
            copy@ == self@,
    {
        proof {
            use_type_invariant(self);
        }
        PeerID(self.0.clone())
    }
}

impl PeerID {
    /// Twenty characters, each of ASCII: this holds of every identity.
    #[verifier::type_invariant]
    pub closed spec fn wf(&self) -> bool {
        self.0@.len() == ID_SIZE && is_ascii_chars(self.0@)
    }

    /// A fresh identity of twenty random letters and digits.
    pub fn new() -> (id: PeerID)
        ensures
            id@.len() == ID_SIZE,
            forall|i: int| 0 <= i < id@.len() ==> is_alphanumeric(#[trigger] id@[i]),
    {
        let mut text = String::new();
        let mut i: usize = 0;
        while i < ID_SIZE
            invariant
                i <= ID_SIZE,
                text@.len() == i,
                forall|k: int| 0 <= k < text@.len() ==> is_alphanumeric(#[trigger] text@[k]),
            decreases ID_SIZE - i,
        {
            text.push(random_alphanumeric() as char);
            i += 1;
        }
        assert forall|i: int| 0 <= i < text@.len() implies '\0' <= #[trigger] text@[i]
            <= '\u{7f}' by {
            assert(is_alphanumeric(text@[i]));
        }
        PeerID(text)
    }

    /// The identity that `text` spells, if it has twenty characters, all of
    /// ASCII.
    pub fn from_text(text: &str) -> (id: Option<PeerID>)
        ensures
            match id {
                Some(id) => id@ == text@,
                None => !(text@.len() == ID_SIZE && is_ascii_chars(text@)),
            },
    {
        if text.is_ascii() && text.unicode_len() == ID_SIZE {
            Some(PeerID(text.to_owned()))
        } else {
            None
        }
    }

    pub fn to_string(&self) -> (text: &String)
        ensures
            text@ == self@,
    {
        &self.0
    }

    /// The identity as bytes, one for each character.
    pub fn as_bytes(&self) -> (bytes: &[u8])
        ensures
            bytes@.len() == ID_SIZE,
            self@.len() == ID_SIZE,
            forall|i: int| 0 <= i < ID_SIZE ==> #[trigger] bytes@[i] == self@[i] as u8,
    {
        proof {
            use_type_invariant(self);
            vstd::utf8::is_ascii_chars_encode_utf8(self.0@);
        }
        self.0.as_str().as_bytes()
    }
}

/// The port that this client names in its announce.
pub const PORT: usize = 6881;

/// The length of one peer in a tracker's compact list.
pub const PEER_BYTE_SIZE: usize = 6;

/// Why the tracker gave no peers.
#[derive(Debug, PartialEq, Eq)]
pub enum TrackerError {
    /// The tracker answered with an HTTP status outside 200 to 299.
    HttpStatus(u16),
    /// The answer is not bencode.
    Bencode(BencodeError),
    /// The answer is no dictionary.
    NotADictionary,
    /// The tracker refused, for the reason it gives.
    Failure(Vec<u8>),
    /// The answer has no `peers`.
    MissingPeers,
    /// `peers` is no byte string.
    WrongType,
    /// `peers` is no whole number of six-byte records.
    BadPeerList,
}

/// The model of a `TrackerError`.
pub enum TrackerFault {
    HttpStatus(u16),
    Bencode(BencodeError),
    NotADictionary,
    Failure(Seq<u8>),
    MissingPeers,
    WrongType,
    BadPeerList,
}

impl View for TrackerError {
    type V = TrackerFault;

    open spec fn view(&self) -> TrackerFault {
        match self {
            TrackerError::HttpStatus(status) => TrackerFault::HttpStatus(*status),
            TrackerError::Bencode(e) => TrackerFault::Bencode(*e),
            TrackerError::NotADictionary => TrackerFault::NotADictionary,
            TrackerError::Failure(reason) => TrackerFault::Failure(reason@),
            TrackerError::MissingPeers => TrackerFault::MissingPeers,
            TrackerError::WrongType => TrackerFault::WrongType,
            TrackerError::BadPeerList => TrackerFault::BadPeerList,
        }
    }
}

/// An IP address.
#[derive(Debug, Clone, Copy, PartialEq, Eq)]
pub enum IpAddress {
    /// The four bytes of an IPv4 address.
    V4([u8; 4]),
    /// The eight groups of an IPv6 address.
    V6([u16; 8]),
}

/// Where a peer listens: an address and a port.
#[derive(Debug, Clone, Copy, PartialEq, Eq)]
pub struct Peer {
    ip: IpAddress,
    port: u16,
}

/// `n` in lower-case hexadecimal, without leading zeros.
pub open spec fn hex_number_text(n: nat) -> Seq<char>
    decreases n,
{
    if n < 16 {
        seq![hex_digit(n as int)]
    } else {
        hex_number_text(n / 16).push(hex_digit((n % 16) as int))
    }
}

/// An IPv4 address in dotted decimal.
pub open spec fn v4_text(ip: Seq<u8>) -> Seq<char> {
    decimal_text(ip[0] as nat) + "."@ + decimal_text(ip[1] as nat) + "."@ + decimal_text(
        ip[2] as nat,
    ) + "."@ + decimal_text(ip[3] as nat)
}

/// The first `n` groups of an IPv6 address in hexadecimal, with colons
/// between them. No run of zero groups is shortened.
pub open spec fn v6_text(groups: Seq<u16>, n: nat) -> Seq<char>
    decreases n,
{
    if n == 0 {
        Seq::empty()
    } else if n == 1 {
        hex_number_text(groups[0] as nat)
    } else {
        v6_text(groups, (n - 1) as nat) + ":"@ + hex_number_text(groups[n - 1] as nat)
    }
}

/// An address as text.
pub open spec fn ip_text(ip: IpAddress) -> Seq<char> {
    match ip {
        IpAddress::V4(bytes) => v4_text(bytes@),
        IpAddress::V6(groups) => v6_text(groups@, 8),
    }
}

/// Address, colon, port.
pub open spec fn peer_text(ip: IpAddress, port: u16) -> Seq<char> {
    ip_text(ip) + ":"@ + decimal_text(port as nat)
}

fn push_hex_number(out: &mut String, n: u16)
    ensures
        final(out)@ == old(out)@ + hex_number_text(n as nat),
    decreases n,
{
    if n >= 16 {
        push_hex_number(out, n / 16);
    }
    out.push(crate::text::hex_char((n % 16) as u8));
    assert(out@ =~= old(out)@ + hex_number_text(n as nat));
}

impl Peer {
    pub closed spec fn ip(&self) -> IpAddress {
        self.ip
    }

    pub closed spec fn port(&self) -> u16 {
        self.port
    }

    pub fn new(ip: IpAddress, port: u16) -> (peer: Peer)
        ensures
            peer.ip() == ip,
            peer.port() == port,
    {
        Peer { ip, port }
    }

    pub fn address(&self) -> (ip: IpAddress)
        ensures
            ip == self.ip(),
    {
        self.ip
    }

    pub fn port_number(&self) -> (port: u16)
        ensures
            port == self.port(),
    {
        self.port
    }

    /// Reads a peer in compact form: four bytes of IPv4 address, then the
    /// port in two bytes, most significant first.
    pub fn from_bytes(b: &[u8]) -> (res: Result<Peer, TrackerError>)
        ensures
            match res {
                Ok(peer) => b@.len() == 6 && is_compact_peer(b@, peer),
                Err(e) => b@.len() != 6 && e@ == TrackerFault::BadPeerList,
            },
    {
        if b.len() != 6 {
            return Err(TrackerError::BadPeerList);
        }
        let ip: [u8; 4] = [b[0], b[1], b[2], b[3]];
        let port: u16 = (b[4] as u16) * 256 + b[5] as u16;
        assert(ip@ =~= b@.subrange(0, 4));
        Ok(Peer { ip: IpAddress::V4(ip), port })
    }

    /// The address, a colon, the port.
    pub fn to_string(&self) -> (text: String)
        ensures
            text@ == peer_text(self.ip(), self.port()),
    {
        let mut text = String::new();
        self.push_text(&mut text);
        assert(text@ =~= peer_text(self.ip(), self.port()));
        text
    }

    fn push_text(&self, text: &mut String)
        ensures
            final(text)@ == old(text)@ + peer_text(self.ip(), self.port()),
    {
        match self.ip {
            IpAddress::V4(bytes) => {
                push_number(text, bytes[0] as u64);
                text.append(".");
                push_number(text, bytes[1] as u64);
                text.append(".");
                push_number(text, bytes[2] as u64);
                text.append(".");
                push_number(text, bytes[3] as u64);
                assert(text@ =~= old(text)@ + v4_text(bytes@));
            },
            IpAddress::V6(groups) => {
                push_hex_number(text, groups[0]);
                let mut i: usize = 1;
                while i < 8
                    invariant
                        1 <= i <= 8,
                        text@ == old(text)@ + v6_text(groups@, i as nat),
                    decreases 8 - i,
                {
                    text.append(":");
                    push_hex_number(text, groups[i]);
                    assert(text@ =~= old(text)@ + v6_text(groups@, (i + 1) as nat));
                    i += 1;
                }
            },
        }
        text.append(":");
        push_number(text, self.port as u64);
        assert(text@ =~= old(text)@ + peer_text(self.ip(), self.port()));
    }
}

/// `peer` is what the six bytes `b` say: an IPv4 address and a port.
pub open spec fn is_compact_peer(b: Seq<u8>, peer: Peer) -> bool {
    &&& peer.ip() matches IpAddress::V4(ip)
    &&& ip@ == b.subrange(0, 4)
    &&& peer.port() == b[4] * 256 + b[5]
}

/// What a tracker answered where it did not refuse: its peers in compact
/// form.
#[derive(Debug, PartialEq, Eq)]
pub struct PeerResponse {
    pub peers: Vec<u8>,
}

/// What the body of a tracker's answer says: the reason where the tracker
/// gives one for refusing, else the compact peer list.
pub open spec fn peer_response_of(body: Seq<u8>) -> Result<Seq<u8>, TrackerFault> {
    match parse_value(body) {
        Err(e) => Err(TrackerFault::Bencode(e)),
        Ok((Term::Dict(entries), _)) => match lookup(entries, "failure reason".spec_bytes()) {
            Some(Term::Bytes(reason)) => Err(TrackerFault::Failure(reason)),
            _ => match lookup(entries, "peers".spec_bytes()) {
                None => Err(TrackerFault::MissingPeers),
                Some(Term::Bytes(peers)) => Ok(peers),
                Some(_) => Err(TrackerFault::WrongType),
            },
        },
        Ok(_) => Err(TrackerFault::NotADictionary),
    }
}

/// An HTTP status from 200 to 299 is a success; any other is the tracker's
/// error.
pub fn check_status(status: u16) -> (res: Result<(), TrackerError>)
    ensures
        match res {
            Ok(_) => 200 <= status < 300,
            Err(e) => !(200 <= status < 300) && e@ == TrackerFault::HttpStatus(status),
        },
{
    if 200 <= status && status < 300 {
        Ok(())
    } else {
        Err(TrackerError::HttpStatus(status))
    }
}

impl PeerResponse {
    /// Reads the body of a tracker's answer.
    pub fn parse(body: &[u8]) -> (res: Result<PeerResponse, TrackerError>)
        ensures
            match res {
                Ok(response) => peer_response_of(body@) == Ok::<_, TrackerFault>(response.peers@),
                Err(e) => peer_response_of(body@) == Err::<Seq<u8>, _>(e@),
            },
    {
        let parsed = match decode(body) {
            Err(e) => { return Err(TrackerError::Bencode(e)); },
            Ok(p) => p,
        };
        let dict = match &parsed.value {
            Value::Dict(dict) => dict,
            _ => { return Err(TrackerError::NotADictionary); },
        };
        match dict.get("failure reason".as_bytes()) {
            Some(Value::Bytes(reason)) => { return Err(TrackerError::Failure(reason.clone())); },
            _ => {},
        }
        match dict.get("peers".as_bytes()) {
            None => Err(TrackerError::MissingPeers),
            Some(Value::Bytes(peers)) => Ok(PeerResponse { peers: peers.clone() }),
            Some(_) => Err(TrackerError::WrongType),
        }
    }
}

/// The peers that a tracker named, in its order.
#[derive(Debug, PartialEq, Eq)]
pub struct Peers(Vec<Peer>);

impl View for Peers {
    type V = Seq<Peer>;

    closed spec fn view(&self) -> Seq<Peer> {
        self.0@
    }
}

/// Each peer as text on a line of its own.
pub open spec fn peers_text(peers: Seq<Peer>) -> Seq<char>
    decreases peers.len(),
{
    if peers.len() == 0 {
        Seq::empty()
    } else {
        peers_text(peers.drop_last()) + peer_text(peers.last().ip(), peers.last().port()) + "\n"@
    }
}

impl Peers {
    /// The peers given one by one.
    pub fn from_vec(peers: Vec<Peer>) -> (res: Peers)
        ensures
            res@ == peers@,
    {
        Peers(peers)
    }

    /// Reads a compact peer list: six bytes for each peer. A list that is no
    /// whole number of such records is refused.
    pub fn from_peer_response(pr: PeerResponse) -> (res: Result<Peers, TrackerError>)
        ensures
            match res {
                Ok(peers) => pr.peers@.len() % 6 == 0 && peers@.len() == pr.peers@.len() / 6
                    && forall|i: int|
                    0 <= i < peers@.len() ==> is_compact_peer(
                        pr.peers@.subrange(6 * i, 6 * i + 6),
                        #[trigger] peers@[i],
                    ),
                Err(e) => pr.peers@.len() % 6 != 0 && e@ == TrackerFault::BadPeerList,
            },
    {
        let bytes = pr.peers.as_slice();
        if bytes.len() % 6 != 0 {
            return Err(TrackerError::BadPeerList);
        }
        let n = bytes.len() / 6;
        let mut out: Vec<Peer> = Vec::new();
        let mut i: usize = 0;
        while i < n
            invariant
                i <= n,
                6 * n == bytes@.len(),
                6 * n <= usize::MAX,
                bytes@ == pr.peers@,
                out@.len() == i,
                forall|k: int|
                    0 <= k < i ==> is_compact_peer(
                        bytes@.subrange(6 * k, 6 * k + 6),
                        #[trigger] out@[k],
                    ),
            decreases n - i,
        {
            let chunk = vstd::slice::slice_subrange(bytes, 6 * i, 6 * i + 6);
            match Peer::from_bytes(chunk) {
                Err(e) => { return Err(e); },
                Ok(peer) => { out.push(peer); },
            }
            i += 1;
        }
        Ok(Peers(out))
    }

    pub fn len(&self) -> (n: usize)
        ensures
            n == self@.len(),
    {
        self.0.len()
    }

    /// The peers one after another, in their order.
    pub fn iter(&self) -> (it: std::slice::Iter<'_, Peer>)
        ensures
            it.remaining() == self@.as_ref(),
    {
        let peers = self.0.as_slice();
        let it = peers.iter();
        proof {
            vstd::std_specs::slice::axiom_spec_slice_iter(peers);
        }
        it
    }

    /// The peer at place `i`.
    pub fn get(&self, i: usize) -> (peer: Option<Peer>)
        ensures
            match peer {
                Some(p) => i < self@.len() && p == self@[i as int],
                None => i >= self@.len(),
            },
    {
        if i < self.0.len() {
            Some(self.0[i])
        } else {
            None
        }
    }

    /// The peers as a vector, in order.
    pub fn into_vec(self) -> (peers: Vec<Peer>)
        ensures
            peers@ == self@,
    {
        self.0
    }

    /// Each peer as text on a line of its own.
    pub fn to_string(&self) -> (text: String)
        ensures
            text@ == peers_text(self@),
    {
        let mut text = String::new();
        let mut i: usize = 0;
        assert(self@.take(0) =~= Seq::<Peer>::empty());
        while i < self.0.len()
            invariant
                i <= self.0.len(),
                text@ == peers_text(self@.take(i as int)),
            decreases self.0.len() - i,
        {
            proof {
                assert(self@.take(i + 1).drop_last() =~= self@.take(i as int));
            }
            self.0[i].push_text(&mut text);
            text.append("\n");
            i += 1;
        }
        assert(self@.take(self.0.len() as int) =~= self@);
        text
    }
}

/// A byte that stands for itself in a URL: a letter, a digit, `-`, `.`, `_`
/// or `~`.
pub open spec fn is_unreserved(b: u8) -> bool {
    let c = b as char;
    ('0' <= c <= '9') || ('A' <= c <= 'Z') || ('a' <= c <= 'z') || c == '-' || c == '.' || c == '_'
        || c == '~'
}

/// The upper-case hexadecimal digit for `n`, a number below 16.
pub open spec fn upper_hex_digit(n: int) -> char {
    "0123456789ABCDEF"@[n]
}

/// The bytes as they stand in a URL: an unreserved byte as its character,
/// any other as `%` and two upper-case hexadecimal digits.
pub open spec fn percent_encoded(bytes: Seq<u8>) -> Seq<char>
    decreases bytes.len(),
{
    if bytes.len() == 0 {
        Seq::empty()
    } else if is_unreserved(bytes.last()) {
        percent_encoded(bytes.drop_last()).push(bytes.last() as char)
    } else {
        percent_encoded(bytes.drop_last()).push('%').push(
            upper_hex_digit(bytes.last() as int / 16),
        ).push(upper_hex_digit(bytes.last() as int % 16))
    }
}

/// `urlencoding::encode_binary`: every byte but letters, digits, `-`, `.`,
/// `_` and `~` becomes `%` and two upper-case hexadecimal digits.
#[verifier::external_body]
fn url_encode(data: &[u8]) -> (text: String)
    ensures
        text@ == percent_encoded(data@),
{
    urlencoding::encode_binary(data).into_owned()
}

/// The URL of an announce: the tracker's URL and the query that names the
/// torrent, this client, its port, and how much is left to download.
pub open spec fn announce_text(
    url: Seq<char>,
    info_hash: Seq<u8>,
    peer_id: Seq<u8>,
    left: nat,
) -> Seq<char> {
    url + "?info_hash="@ + percent_encoded(info_hash) + "&peer_id="@ + percent_encoded(peer_id)
        + "&port="@ + decimal_text(PORT as nat) + "&uploaded=0&downloaded=0&left="@ + decimal_text(
        left,
    ) + "&compact=1"@
}

/// The bytes of a peer id, one for each character.
pub open spec fn id_bytes(id: Seq<char>) -> Seq<u8> {
    Seq::new(id.len(), |i: int| id[i] as u8)
}

/// The URL to get from the tracker.
pub fn announce_url(req: &PeerRequest, peer_id: &PeerID) -> (url: String)
    ensures
        url@ == announce_text(req.url@, req.info_hash@, id_bytes(peer_id@), req.length as nat),
{
    let id = peer_id.as_bytes();
    assert(id@ =~= id_bytes(peer_id@));
    let mut url = req.url.clone();
    url.append("?info_hash=");
    url.append(url_encode(req.info_hash.get_hash().as_slice()).as_str());
    url.append("&peer_id=");
    url.append(url_encode(id).as_str());
    url.append("&port=");
    push_number(&mut url, PORT as u64);
    url.append("&uploaded=0&downloaded=0&left=");
    push_number(&mut url, req.length as u64);
    url.append("&compact=1");
    url
}

} // verus!
