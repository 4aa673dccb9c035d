//! The torrent model: hashes, the metainfo file, and piece arithmetic.

use vstd::prelude::*;
use sha1::{Digest, Sha1};
use vstd::string::StringSliceAdditionalSpecFns;
use vstd::utf8::{decode_utf8, valid_utf8};
use crate::bencode::decode::{decode, find_value};
use crate::bencode::grammar::{parse_value, value_span};
use crate::bencode::model::{lookup, BencodeError, Dict, Term, Value};
use crate::text::{decimal_text, hash_to_hex, hex_text, push_hex, push_number, utf8_text};

verus! {

/// The SHA-1 digest of a byte string, as the `sha1` crate computes it.
pub uninterp spec fn sha1_digest(data: Seq<u8>) -> Seq<u8>;

/// SHA-1 of `data`, computed by `sha1::Sha1::digest`. Nothing is proved of
/// the digest; the contract only gives it its name.
#[verifier::external_body]
fn hash(data: &Vec<u8>) -> (digest: [u8; 20])
    ensures
        digest@ == sha1_digest(data@),
{
    Sha1::digest(data).into()
}

/// The 20-byte identity of a torrent: SHA-1 of its `info` dictionary as it
/// stands in the metainfo file.
#[derive(Debug, PartialEq, Eq)]
pub struct InfoHash([u8; 20]);

impl View for InfoHash {
    type V = Seq<u8>;

    closed spec fn view(&self) -> Seq<u8> {
        self.0@
    }
}

impl Clone for InfoHash {
    fn clone(&self) -> (copy: InfoHash)
        ensures
            copy@ == self@,
    {
        InfoHash(self.0)
    }
}

impl InfoHash {
    pub fn new(hash: [u8; 20]) -> (h: InfoHash)
        ensures
            h@ == hash@,
    {
        InfoHash(hash)
    }

    pub fn get_hash(&self) -> (bytes: &[u8; 20])
        ensures
            bytes@ == self@,
    {
        &self.0
    }

    /// Forty lower-case hexadecimal digits.
    pub fn to_hex(&self) -> (text: String)
        ensures
            text@ == hex_text(self@),
    {
        hash_to_hex(self.0.as_slice())
    }

    /// An info-hash has twenty bytes.
    pub proof fn lemma_len(&self)
        ensures
            self@.len() == 20,
    {
    }
}

/// The SHA-1 digest of one piece. Well-formed ones have 20 bytes.
#[derive(Debug)]
pub struct PieceHash(Vec<u8>);

impl View for PieceHash {
    type V = Seq<u8>;

    closed spec fn view(&self) -> Seq<u8> {
        self.0@
    }
}

impl PartialEq for PieceHash {
    /// Bytewise comparison.
    fn eq(&self, other: &Self) -> (same: bool) {
        let mut i: usize = 0;
        if self.0.len() != other.0.len() {
            return false;
        }
        while i < self.0.len()
            invariant
                i <= self.0.len(),
                self.0.len() == other.0.len(),
                forall|k: int| 0 <= k < i ==> self.0@[k] == other.0@[k],
            decreases self.0.len() - i,
        {
            if self.0[i] != other.0[i] {
                return false;
            }
            i += 1;
        }
        assert(self.0@ =~= other.0@);
        true
    }
}

impl vstd::std_specs::cmp::PartialEqSpecImpl for PieceHash {
    open spec fn obeys_eq_spec() -> bool {
        true
    }

    open spec fn eq_spec(&self, other: &Self) -> bool {
        self@ == other@
    }
}

impl PieceHash {
    /// The digest has its twenty bytes.
    pub open spec fn wf(&self) -> bool {
        self@.len() == 20
    }

    pub fn new(hash: Vec<u8>) -> (h: PieceHash)
        ensures
            h@ == hash@,
    {
        PieceHash(hash)
    }

    /// The digest of `data`.
    pub fn hash(data: &Vec<u8>) -> (h: PieceHash)
        ensures
            h@ == sha1_digest(data@),
            h.wf(),
    {
        let digest = self::hash(data);
        let bytes = vstd::slice::slice_to_vec(digest.as_slice());
        PieceHash(bytes)
    }

    /// Lower-case hexadecimal, two digits for each byte.
    pub fn to_hex(&self) -> (text: String)
        ensures
            text@ == hex_text(self@),
    {
        hash_to_hex(self.0.as_slice())
    }

    pub fn as_bytes(&self) -> (bytes: &[u8])
        ensures
            bytes@ == self@,
    {
        self.0.as_slice()
    }

    /// The number of bytes; twenty in a well-formed digest.
    pub fn len(&self) -> (n: usize)
        ensures
            n == self@.len(),
    {
        self.0.len()
    }
}

impl Clone for PieceHash {
    fn clone(&self) -> (copy: PieceHash)
        ensures
            copy@ == self@,
    {
        PieceHash(self.0.clone())
    }
}

/// Why a metainfo file gives no torrent.
#[derive(Debug, Clone, Copy, PartialEq, Eq, Structural)]
pub enum TorrentError {
    /// The file, or its `info` value, is not bencode.
    Bencode(BencodeError),
    /// The file, or its `info` value, is no dictionary.
    NotADictionary,
    /// A key that has to be there is not.
    MissingKey,
    /// A value of the wrong kind, a length that is negative or too large for
    /// this machine, or a text that is not UTF-8.
    WrongType,
    /// The announce text is no absolute URL.
    InvalidUrl,
    /// The lengths and the piece hashes do not fit together.
    Invariant,
}

/// The byte string under `key`.
pub open spec fn bytes_field(entries: Seq<(Seq<u8>, Term)>, key: Seq<u8>) -> Result<
    Seq<u8>,
    TorrentError,
> {
    match lookup(entries, key) {
        None => Err(TorrentError::MissingKey),
        Some(Term::Bytes(bytes)) => Ok(bytes),
        Some(_) => Err(TorrentError::WrongType),
    }
}

/// The text under `key`.
pub open spec fn text_field(entries: Seq<(Seq<u8>, Term)>, key: Seq<u8>) -> Result<
    Seq<char>,
    TorrentError,
> {
    match bytes_field(entries, key) {
        Err(e) => Err(e),
        Ok(bytes) => if valid_utf8(bytes) {
            Ok(decode_utf8(bytes))
        } else {
            Err(TorrentError::WrongType)
        },
    }
}

/// The text under `key`, where there is such a key.
pub open spec fn optional_text_field(entries: Seq<(Seq<u8>, Term)>, key: Seq<u8>) -> Result<
    Option<Seq<char>>,
    TorrentError,
> {
    match lookup(entries, key) {
        None => Ok(None),
        Some(_) => match text_field(entries, key) {
            Err(e) => Err(e),
            Ok(text) => Ok(Some(text)),
        },
    }
}

/// The length under `key`: an integer from 0 to the largest `usize`.
pub open spec fn size_field(entries: Seq<(Seq<u8>, Term)>, key: Seq<u8>) -> Result<
    nat,
    TorrentError,
> {
    match lookup(entries, key) {
        None => Err(TorrentError::MissingKey),
        Some(Term::Int(n)) => if 0 <= n <= usize::MAX {
            Ok(n as nat)
        } else {
            Err(TorrentError::WrongType)
        },
        Some(_) => Err(TorrentError::WrongType),
    }
}

fn get_bytes<'a>(dict: &'a Dict, key: &[u8]) -> (res: Result<&'a Vec<u8>, TorrentError>)
    ensures
        match res {
            Ok(bytes) => bytes_field(dict@, key@) == Ok::<_, TorrentError>(bytes@),
            Err(e) => bytes_field(dict@, key@) == Err::<Seq<u8>, _>(e),
        },
{
    match dict.get(key) {
        None => Err(TorrentError::MissingKey),
        Some(Value::Bytes(bytes)) => Ok(bytes),
        Some(_) => Err(TorrentError::WrongType),
    }
}

fn get_text(dict: &Dict, key: &[u8]) -> (res: Result<String, TorrentError>)
    ensures
        match res {
            Ok(text) => text_field(dict@, key@) == Ok::<_, TorrentError>(text@),
            Err(e) => text_field(dict@, key@) == Err::<Seq<char>, _>(e),
        },
{
    match get_bytes(dict, key) {
        Err(e) => Err(e),
        Ok(bytes) => match utf8_text(bytes.clone()) {
            Some(text) => Ok(text),
            None => Err(TorrentError::WrongType),
        },
    }
}

fn get_optional_text(dict: &Dict, key: &[u8]) -> (res: Result<Option<String>, TorrentError>)
    ensures
        match res {
            Ok(Some(text)) => optional_text_field(dict@, key@) == Ok::<_, TorrentError>(
                Some(text@),
            ),
            Ok(None) => optional_text_field(dict@, key@) == Ok::<Option<Seq<char>>, TorrentError>(
                None,
            ),
            Err(e) => optional_text_field(dict@, key@) == Err::<Option<Seq<char>>, _>(e),
        },
{
    match dict.get(key) {
        None => Ok(None),
        Some(_) => match get_text(dict, key) {
            Err(e) => Err(e),
            Ok(text) => Ok(Some(text)),
        },
    }
}

fn get_size(dict: &Dict, key: &[u8]) -> (res: Result<usize, TorrentError>)
    ensures
        match res {
            Ok(n) => size_field(dict@, key@) == Ok::<_, TorrentError>(n as nat),
            Err(e) => size_field(dict@, key@) == Err::<nat, _>(e),
        },
{
    match dict.get(key) {
        None => Err(TorrentError::MissingKey),
        Some(Value::Int(n)) => {
            if *n < 0 || *n as u64 > usize::MAX as u64 {
                Err(TorrentError::WrongType)
            } else {
                Ok(*n as usize)
            }
        },
        Some(_) => Err(TorrentError::WrongType),
    }
}

/// What the `info` dictionary of a metainfo file says.
#[derive(Debug, PartialEq, Eq)]
pub struct FileInfo {
    /// The length of the file in bytes.
    pub length: usize,
    pub name: String,
    /// The length of each piece but the last.
    pub piece_length: usize,
    /// The SHA-1 digests of the pieces, twenty bytes each, one after another.
    pub pieces: Vec<u8>,
    /// The dictionary as it stands in the file, byte for byte.
    pub raw: Vec<u8>,
}

/// The model of a `FileInfo`.
pub struct FileInfoModel {
    pub length: nat,
    pub name: Seq<char>,
    pub piece_length: nat,
    pub pieces: Seq<u8>,
    pub raw: Seq<u8>,
}

impl View for FileInfo {
    type V = FileInfoModel;

    open spec fn view(&self) -> FileInfoModel {
        FileInfoModel {
            length: self.length as nat,
            name: self.name@,
            piece_length: self.piece_length as nat,
            pieces: self.pieces@,
            raw: self.raw@,
        }
    }
}

/// What a metainfo file says.
#[derive(Debug, PartialEq, Eq)]
pub struct TorrentFile {
    /// The `announce` text.
    pub tracker_url: String,
    /// The `created by` text, where the file has one.
    pub created_by: Option<String>,
    pub info: FileInfo,
}

/// The model of a `TorrentFile`.
pub struct TorrentFileModel {
    pub tracker_url: Seq<char>,
    pub created_by: Option<Seq<char>>,
    pub info: FileInfoModel,
}

impl View for TorrentFile {
    type V = TorrentFileModel;

    open spec fn view(&self) -> TorrentFileModel {
        TorrentFileModel {
            tracker_url: self.tracker_url@,
            created_by: match self.created_by {
                Some(text) => Some(text@),
                None => None,
            },
            info: self.info@,
        }
    }
}

/// What the bytes `raw` say as an `info` dictionary: `length`, `name`,
/// `piece length` and `pieces` have to be there, each of its kind.
pub open spec fn file_info_of(raw: Seq<u8>) -> Result<FileInfoModel, TorrentError> {
    match parse_value(raw) {
        Err(e) => Err(TorrentError::Bencode(e)),
        Ok((Term::Dict(entries), _)) => match size_field(entries, "length".spec_bytes()) {
            Err(e) => Err(e),
            Ok(length) => match text_field(entries, "name".spec_bytes()) {
                Err(e) => Err(e),
                Ok(name) => match size_field(entries, "piece length".spec_bytes()) {
                    Err(e) => Err(e),
                    Ok(piece_length) => match bytes_field(entries, "pieces".spec_bytes()) {
                        Err(e) => Err(e),
                        Ok(pieces) => Ok(
                            FileInfoModel { length, name, piece_length, pieces, raw },
                        ),
                    },
                },
            },
        },
        Ok(_) => Err(TorrentError::NotADictionary),
    }
}

/// What the bytes `content` say as a metainfo file: a dictionary with the
/// text `announce`, perhaps the text `created by`, and the dictionary `info`,
/// which is read from its bytes as they stand in `content`.
pub open spec fn torrent_file_of(content: Seq<u8>) -> Result<TorrentFileModel, TorrentError> {
    match parse_value(content) {
        Err(e) => Err(TorrentError::Bencode(e)),
        Ok((Term::Dict(entries), _)) => match text_field(entries, "announce".spec_bytes()) {
            Err(e) => Err(e),
            Ok(tracker_url) => match optional_text_field(entries, "created by".spec_bytes()) {
                Err(e) => Err(e),
                Ok(created_by) => match value_span(content, "info".spec_bytes()) {
                    None => Err(TorrentError::MissingKey),
                    Some((a, b)) => match file_info_of(content.subrange(a as int, b as int)) {
                        Err(e) => Err(e),
                        Ok(info) => Ok(TorrentFileModel { tracker_url, created_by, info }),
                    },
                },
            },
        },
        Ok(_) => Err(TorrentError::NotADictionary),
    }
}

/// The bytes that a metainfo file's `info` is read and hashed from are the
/// text of the value that the file binds to `info`, as it stands in the file:
/// they decode, to their end, to that value.
pub proof fn law_info_as_written(content: Seq<u8>)
    requires
        torrent_file_of(content) is Ok,
    ensures
        ({
            let raw = torrent_file_of(content)->Ok_0.info.raw;
            &&& parse_value(content) matches Ok((Term::Dict(entries), _))
            &&& value_span(content, "info".spec_bytes()) matches Some((a, b))
            &&& raw == content.subrange(a as int, b as int)
            &&& lookup(entries, "info".spec_bytes()) matches Some(info)
            &&& parse_value(raw) == Ok::<_, BencodeError>((info, raw.len()))
        }),
{
    crate::bencode::laws::law_value_span(content, "info".spec_bytes());
}

impl FileInfo {
    /// Reads an `info` dictionary from its bytes.
    pub fn parse(raw: &[u8]) -> (res: Result<FileInfo, TorrentError>)
        ensures
            match res {
                Ok(info) => file_info_of(raw@) == Ok::<_, TorrentError>(info@),
                Err(e) => file_info_of(raw@) == Err::<FileInfoModel, _>(e),
            },
    {
        let parsed = match decode(raw) {
            Err(e) => { return Err(TorrentError::Bencode(e)); },
            Ok(p) => p,
        };
        let dict = match &parsed.value {
            Value::Dict(dict) => dict,
            _ => { return Err(TorrentError::NotADictionary); },
        };
        let length = match get_size(dict, "length".as_bytes()) {
            Err(e) => { return Err(e); },
            Ok(n) => n,
        };
        let name = match get_text(dict, "name".as_bytes()) {
            Err(e) => { return Err(e); },
            Ok(text) => text,
        };
        let piece_length = match get_size(dict, "piece length".as_bytes()) {
            Err(e) => { return Err(e); },
            Ok(n) => n,
        };
        let pieces = match get_bytes(dict, "pieces".as_bytes()) {
            Err(e) => { return Err(e); },
            Ok(bytes) => bytes.clone(),
        };
        Ok(FileInfo { length, name, piece_length, pieces, raw: vstd::slice::slice_to_vec(raw) })
    }
}

impl TorrentFile {
    /// Reads a metainfo file from its bytes.
    pub fn parse(content: &[u8]) -> (res: Result<TorrentFile, TorrentError>)
        ensures
            match res {
                Ok(file) => torrent_file_of(content@) == Ok::<_, TorrentError>(file@),
                Err(e) => torrent_file_of(content@) == Err::<TorrentFileModel, _>(e),
            },
    {
        let parsed = match decode(content) {
            Err(e) => { return Err(TorrentError::Bencode(e)); },
            Ok(p) => p,
        };
        let dict = match &parsed.value {
            Value::Dict(dict) => dict,
            _ => { return Err(TorrentError::NotADictionary); },
        };
        let tracker_url = match get_text(dict, "announce".as_bytes()) {
            Err(e) => { return Err(e); },
            Ok(text) => text,
        };
        let created_by = match get_optional_text(dict, "created by".as_bytes()) {
            Err(e) => { return Err(e); },
            Ok(text) => text,
        };
        let (a, b) = match find_value(content, "info".as_bytes()) {
            None => { return Err(TorrentError::MissingKey); },
            Some(span) => span,
        };
        let info = match FileInfo::parse(vstd::slice::slice_subrange(content, a, b)) {
            Err(e) => { return Err(e); },
            Ok(info) => info,
        };
        Ok(TorrentFile { tracker_url, created_by, info })
    }
}

/// The number of pieces of a file of `length` bytes: `length / piece_length`,
/// rounded up.
pub open spec fn piece_count(length: nat, piece_length: nat) -> nat {
    if length % piece_length == 0 {
        length / piece_length
    } else {
        length / piece_length + 1
    }
}

/// The length of the last piece.
pub open spec fn last_piece_length(length: nat, piece_length: nat) -> nat {
    ((length - 1) % (piece_length as int) + 1) as nat
}

/// The length of piece `index`: `piece_length`, but for the last piece.
pub open spec fn piece_length_at(length: nat, piece_length: nat, index: nat) -> nat {
    if index + 1 == piece_count(length, piece_length) {
        last_piece_length(length, piece_length)
    } else {
        piece_length
    }
}

/// The lengths and the piece hashes fit together: both lengths are positive,
/// and there is one hash of twenty bytes for each piece.
pub open spec fn consistent(length: nat, piece_length: nat, pieces_len: nat) -> bool {
    &&& length > 0
    &&& piece_length > 0
    &&& pieces_len % 20 == 0
    &&& pieces_len / 20 == piece_count(length, piece_length)
}

/// The pieces of a file cover it: there are `length / piece_length` of them,
/// rounded up, and the last one is not empty, at most `piece_length` long, and
/// as long as what the others leave.
pub proof fn law_piece_count(length: nat, piece_length: nat)
    requires
        length > 0,
        piece_length > 0,
    ensures
        piece_count(length, piece_length) >= 1,
        (piece_count(length, piece_length) - 1) * piece_length < length <= piece_count(
            length,
            piece_length,
        ) * piece_length,
        0 < last_piece_length(length, piece_length) <= piece_length,
        last_piece_length(length, piece_length) == length - (piece_count(length, piece_length)
            - 1) * piece_length,
{
    let q = length / piece_length;
    let r = length % piece_length;
    let n = piece_count(length, piece_length);
    assert(length == q * piece_length + r && 0 <= r < piece_length) by (nonlinear_arith)
        requires
            piece_length > 0,
            q == length / piece_length,
            r == length % piece_length,
    ;
    assert((q + 1) * piece_length == q * piece_length + piece_length && (q - 1) * piece_length
        == q * piece_length - piece_length) by (nonlinear_arith);
    let m = (length - 1) % (piece_length as int);
    assert(m == if r == 0 { piece_length - 1 } else { r - 1 }) by (nonlinear_arith)
        requires
            piece_length > 0,
            length > 0,
            length == q * piece_length + r,
            0 <= r < piece_length,
            m == (length - 1) % (piece_length as int),
    ;
    if r == 0 {
        assert(q >= 1) by (nonlinear_arith)
            requires
                length == q * piece_length + r,
                r == 0,
                length > 0,
                piece_length > 0,
        ;
    }
}

/// The number of pieces of a file of `length` bytes.
pub fn count_pieces(length: usize, piece_length: usize) -> (n: usize)
    requires
        piece_length > 0,
    ensures
        n == piece_count(length as nat, piece_length as nat),
{
    if length % piece_length == 0 {
        length / piece_length
    } else {
        assert(length / piece_length < usize::MAX) by (nonlinear_arith)
            requires
                piece_length > 0,
                length % piece_length != 0,
                length <= usize::MAX,
        ;
        length / piece_length + 1
    }
}

/// What `url::Url::parse` makes of a text: the URL in that crate's
/// serialization, or nothing where the text is no absolute URL.
pub uninterp spec fn parsed_url(text: Seq<char>) -> Option<Seq<char>>;

/// The error of `url::Url::parse`.
#[verifier::external_type_specification]
#[verifier::external_body]
pub struct ExUrlParseError(url::ParseError);

/// Parses `text` with `url::Url::parse` and hands out the URL's
/// serialization. Nothing is proved of it; the contract only names the
/// result.
#[verifier::external_body]
fn parse_url(text: &str) -> (res: Result<String, url::ParseError>)
    ensures
        match res {
            Ok(url) => parsed_url(text@) == Some(url@),
            Err(_) => parsed_url(text@) is None,
        },
{
    Ok(String::from(url::Url::parse(text)?))
}

/// A torrent's lengths, piece hashes and identity.
#[derive(Debug)]
pub struct Info {
    length: usize,
    piece_length: usize,
    pieces: Vec<PieceHash>,
    hash: InfoHash,
}

impl Info {
    pub closed spec fn length(&self) -> nat {
        self.length as nat
    }

    pub closed spec fn piece_length(&self) -> nat {
        self.piece_length as nat
    }

    /// The piece hashes in piece order.
    pub closed spec fn pieces(&self) -> Seq<Seq<u8>> {
        Seq::new(self.pieces@.len(), |i: int| self.pieces@[i]@)
    }

    pub closed spec fn hash(&self) -> Seq<u8> {
        self.hash@
    }

    /// Both lengths are positive, and there is one hash of twenty bytes for
    /// each piece.
    pub open spec fn wf(&self) -> bool {
        &&& consistent(self.length(), self.piece_length(), self.pieces().len() * 20)
        &&& forall|i: int| 0 <= i < self.pieces().len() ==> (#[trigger] self.pieces()[i]).len() == 20
        &&& self.hash().len() == 20
    }

    #[verifier::type_invariant]
    closed spec fn valid(&self) -> bool {
        self.wf()
    }

    /// Builds the torrent's data from what the `info` dictionary says. It is
    /// refused where a length is zero, where `pieces` is no whole number of
    /// hashes, or where there are more or fewer hashes than pieces. The
    /// info-hash is the SHA-1 of the dictionary as it stands in the file.
    pub fn from_file_info(fi: &FileInfo) -> (res: Result<Info, TorrentError>)
        ensures
            match res {
                Ok(info) => {
                    &&& consistent(fi@.length, fi@.piece_length, fi@.pieces.len())
                    &&& info.wf()
                    &&& info.length() == fi@.length
                    &&& info.piece_length() == fi@.piece_length
                    &&& info.pieces().len() == fi@.pieces.len() / 20
                    &&& forall|i: int|
                        0 <= i < info.pieces().len() ==> #[trigger] info.pieces()[i]
                            == fi@.pieces.subrange(20 * i, 20 * i + 20)
                    &&& info.hash() == sha1_digest(fi@.raw)
                },
                Err(e) => e == TorrentError::Invariant && !consistent(
                    fi@.length,
                    fi@.piece_length,
                    fi@.pieces.len(),
                ),
            },
    {
        if fi.length == 0 || fi.piece_length == 0 || fi.pieces.len() % 20 != 0 {
            return Err(TorrentError::Invariant);
        }
        let n = fi.pieces.len() / 20;
        if n != count_pieces(fi.length, fi.piece_length) {
            return Err(TorrentError::Invariant);
        }
        let mut pieces: Vec<PieceHash> = Vec::new();
        let mut i: usize = 0;
        while i < n
            invariant
                i <= n,
                20 * n == fi.pieces@.len(),
                20 * n <= usize::MAX,
                pieces@.len() == i,
                forall|k: int|
                    0 <= k < i ==> (#[trigger] pieces@[k])@ == fi.pieces@.subrange(
                        20 * k,
                        20 * k + 20,
                    ),
            decreases n - i,
        {
            let chunk = vstd::slice::slice_subrange(fi.pieces.as_slice(), 20 * i, 20 * i + 20);
            pieces.push(PieceHash::new(vstd::slice::slice_to_vec(chunk)));
            i += 1;
        }
        let digest = InfoHash::new(hash(&fi.raw));
        proof {
            digest.lemma_len();
        }
        let info = Info { length: fi.length, piece_length: fi.piece_length, pieces, hash: digest };
        Ok(info)
    }

    /// Four lines of length, info-hash, piece length and the heading of the
    /// piece hashes, then each piece hash on a line of its own.
    pub fn to_string(&self) -> (text: String)
        ensures
            text@ == info_text(self.length(), self.hash(), self.piece_length(), self.pieces()),
    {
        let mut text = String::new();
        text.append("Length: ");
        push_number(&mut text, self.length as u64);
        text.append("\nInfo Hash ");
        push_hex(&mut text, self.hash.get_hash().as_slice());
        text.append("\nPiece Length: ");
        push_number(&mut text, self.piece_length as u64);
        text.append("\nPiece Hashes\n");
        let ghost head = text@;
        let mut i: usize = 0;
        assert(self.pieces().take(0) =~= Seq::<Seq<u8>>::empty());
        while i < self.pieces.len()
            invariant
                i <= self.pieces.len(),
                self.pieces().len() == self.pieces.len(),
                text@ == head + hashes_text(self.pieces().take(i as int)),
            decreases self.pieces.len() - i,
        {
            proof {
                let upto = self.pieces().take(i + 1);
                assert(upto.drop_last() =~= self.pieces().take(i as int));
                assert(upto.last() == self.pieces@[i as int]@);
            }
            push_hex(&mut text, self.pieces[i].as_bytes());
            text.append("\n");
            i += 1;
        }
        assert(self.pieces().take(self.pieces.len() as int) =~= self.pieces());
        text
    }
}

/// Each hash in hexadecimal on a line of its own.
pub open spec fn hashes_text(pieces: Seq<Seq<u8>>) -> Seq<char>
    decreases pieces.len(),
{
    if pieces.len() == 0 {
        Seq::empty()
    } else {
        hashes_text(pieces.drop_last()) + hex_text(pieces.last()) + "\n"@
    }
}

/// What the `info` command shows of a torrent's data.
pub open spec fn info_text(
    length: nat,
    hash: Seq<u8>,
    piece_length: nat,
    pieces: Seq<Seq<u8>>,
) -> Seq<char> {
    "Length: "@ + decimal_text(length) + "\nInfo Hash "@ + hex_text(hash) + "\nPiece Length: "@
        + decimal_text(piece_length) + "\nPiece Hashes\n"@ + hashes_text(pieces)
}

/// What the tracker has to be asked: where it is, for which torrent, and how
/// much is left to download.
pub struct PeerRequest<'a> {
    pub url: String,
    pub info_hash: &'a InfoHash,
    pub length: usize,
}

/// What a download has to know of the torrent.
pub struct DownloadRequest<'a> {
    pub length: usize,
    pub piece_length: usize,
    pub pieces: &'a [PieceHash],
    pub info_hash: &'a InfoHash,
}

impl<'a> DownloadRequest<'a> {
    /// Both lengths are positive, and there is one hash of twenty bytes for
    /// each piece.
    pub open spec fn wf(&self) -> bool {
        &&& consistent(self.length as nat, self.piece_length as nat, self.pieces@.len() * 20)
        &&& forall|i: int| 0 <= i < self.pieces@.len() ==> (#[trigger] self.pieces@[i]).wf()
    }

    /// Tells whether lengths and piece hashes fit together.
    pub fn check(&self) -> (ok: bool)
        ensures
            ok == self.wf(),
    {
        if self.length == 0 || self.piece_length == 0 {
            return false;
        }
        if self.pieces.len() != count_pieces(self.length, self.piece_length) {
            return false;
        }
        let mut i: usize = 0;
        while i < self.pieces.len()
            invariant
                i <= self.pieces@.len(),
                forall|k: int| 0 <= k < i ==> (#[trigger] self.pieces@[k]).wf(),
            decreases self.pieces@.len() - i,
        {
            if self.pieces[i].len() != 20 {
                return false;
            }
            i += 1;
        }
        true
    }

    /// The length of the last piece.
    pub fn last_piece_len(&self) -> (n: usize)
        requires
            self.length > 0,
            self.piece_length > 0,
        ensures
            n == last_piece_length(self.length as nat, self.piece_length as nat),
            0 < n <= self.piece_length,
    {
        proof {
            law_piece_count(self.length as nat, self.piece_length as nat);
        }
        (self.length - 1) % self.piece_length + 1
    }

    /// The length of piece `index`.
    pub fn piece_len(&self, index: usize) -> (n: usize)
        requires
            self.length > 0,
            self.piece_length > 0,
        ensures
            n == piece_length_at(self.length as nat, self.piece_length as nat, index as nat),
            0 < n <= self.piece_length,
    {
        proof {
            law_piece_count(self.length as nat, self.piece_length as nat);
        }
        let count = count_pieces(self.length, self.piece_length);
        if index < count && index + 1 == count {
            self.last_piece_len()
        } else {
            self.piece_length
        }
    }
}

/// A torrent: where its tracker is, and its data.
#[derive(Debug)]
pub struct Torrent {
    tracker_url: String,
    info: Info,
}

impl Torrent {
    /// The tracker's URL as the `url` crate writes it.
    pub closed spec fn tracker_url(&self) -> Seq<char> {
        self.tracker_url@
    }

    pub closed spec fn info(&self) -> Info {
        self.info
    }

    /// Builds the torrent from what its metainfo file says. The announce text
    /// has to be an absolute URL, and lengths and piece hashes have to fit
    /// together.
    pub fn from_file_torrent(tf: &TorrentFile) -> (res: Result<Torrent, TorrentError>)
        ensures
            match res {
                Ok(torrent) => {
                    &&& parsed_url(tf@.tracker_url) == Some(torrent.tracker_url())
                    &&& consistent(tf@.info.length, tf@.info.piece_length, tf@.info.pieces.len())
                    &&& torrent.info().wf()
                    &&& torrent.info().length() == tf@.info.length
                    &&& torrent.info().piece_length() == tf@.info.piece_length
                    &&& torrent.info().pieces().len() == tf@.info.pieces.len() / 20
                    &&& forall|i: int|
                        0 <= i < torrent.info().pieces().len() ==> #[trigger] torrent.info().pieces()[i]
                            == tf@.info.pieces.subrange(20 * i, 20 * i + 20)
                    &&& torrent.info().hash() == sha1_digest(tf@.info.raw)
                },
                Err(e) => if parsed_url(tf@.tracker_url) is None {
                    e == TorrentError::InvalidUrl
                } else {
                    e == TorrentError::Invariant && !consistent(
                        tf@.info.length,
                        tf@.info.piece_length,
                        tf@.info.pieces.len(),
                    )
                },
            },
    {
        let tracker_url = match parse_url(tf.tracker_url.as_str()) {
            Err(_) => { return Err(TorrentError::InvalidUrl); },
            Ok(url) => url,
        };
        let info = match Info::from_file_info(&tf.info) {
            Err(e) => { return Err(e); },
            Ok(info) => info,
        };
        Ok(Torrent { tracker_url, info })
    }

    /// What to ask the tracker.
    pub fn to_peer_request(&self) -> (req: PeerRequest)
        ensures
            req.url@ == self.tracker_url(),
            req.info_hash@ == self.info().hash(),
            req.length == self.info().length(),
    {
        PeerRequest {
            url: self.tracker_url.clone(),
            info_hash: &self.info.hash,
            length: self.info.length,
        }
    }

    /// What a download has to know.
    pub fn to_download_request(&self) -> (req: DownloadRequest)
        ensures
            req.wf(),
            req.length == self.info().length(),
            req.piece_length == self.info().piece_length(),
            req.pieces@.len() == self.info().pieces().len(),
            forall|i: int|
                0 <= i < req.pieces@.len() ==> (#[trigger] req.pieces@[i])@
                    == self.info().pieces()[i],
            req.info_hash@ == self.info().hash(),
    {
        proof {
            use_type_invariant(&self.info);
        }
        let req = DownloadRequest {
            length: self.info.length,
            piece_length: self.info.piece_length,
            pieces: self.info.pieces.as_slice(),
            info_hash: &self.info.hash,
        };
        assert forall|i: int| 0 <= i < req.pieces@.len() implies (#[trigger] req.pieces@[i]).wf() by {
            assert(self.info.pieces()[i].len() == 20);
        }
        req
    }

    /// The tracker's URL on a line, the torrent's data as `Info::to_string`
    /// gives it, and a line end.
    pub fn to_string(&self) -> (text: String)
        ensures
            text@ == "Tracker URL: "@ + self.tracker_url() + "\n"@ + info_text(
                self.info().length(),
                self.info().hash(),
                self.info().piece_length(),
                self.info().pieces(),
            ) + "\n"@,
    {
        let mut text = String::new();
        text.append("Tracker URL: ");
        text.append(self.tracker_url.as_str());
        text.append("\n");
        let info = self.info.to_string();
        text.append(info.as_str());
        text.append("\n");
        text
    }
}

} // verus!
