//! FastCGI record headers: the 8-byte frame that precedes each record's
//! content, and records that pair a header with its content.
use vstd::prelude::*;

verus! {

/// Type of FCGI record. Almost always BeginRequest, Params, or Stdin.
#[derive(Debug, Clone, Copy, PartialEq, Eq, Structural)]
pub enum FcgiRecType {
    BeginRequest,
    AbortRequest,
    EndRequest,
    Params,
    Stdin,
    Stdout,
    Stderr,
    Data,
    GetValues,
    GetValuesResult,
    UnknownType,
}

/// Wire code of a record type.
pub open spec fn rec_type_code(t: FcgiRecType) -> u8 {
    match t {
        FcgiRecType::BeginRequest => 1,
        FcgiRecType::AbortRequest => 2,
        FcgiRecType::EndRequest => 3,
        FcgiRecType::Params => 4,
        FcgiRecType::Stdin => 5,
        FcgiRecType::Stdout => 6,
        FcgiRecType::Stderr => 7,
        FcgiRecType::Data => 8,
        FcgiRecType::GetValues => 9,
        FcgiRecType::GetValuesResult => 10,
        FcgiRecType::UnknownType => 11,
    }
}

impl FcgiRecType {
    /// The record type with wire code `b`, if there is one.
    pub fn from_u8(b: u8) -> (r: Option<FcgiRecType>)
        ensures
            r matches Some(t) ==> rec_type_code(t) == b,
            r is None <==> (b == 0 || b > 11),
    {
        match b {
            1 => Some(FcgiRecType::BeginRequest),
            2 => Some(FcgiRecType::AbortRequest),
            3 => Some(FcgiRecType::EndRequest),
            4 => Some(FcgiRecType::Params),
            5 => Some(FcgiRecType::Stdin),
            6 => Some(FcgiRecType::Stdout),
            7 => Some(FcgiRecType::Stderr),
            8 => Some(FcgiRecType::Data),
            9 => Some(FcgiRecType::GetValues),
            10 => Some(FcgiRecType::GetValuesResult),
            11 => Some(FcgiRecType::UnknownType),
            _ => None,
        }
    }

    /// Wire code of this record type.
    pub fn to_u8(&self) -> (r: u8)
        ensures
            r == rec_type_code(*self),
    {
        match self {
            FcgiRecType::BeginRequest => 1,
            FcgiRecType::AbortRequest => 2,
            FcgiRecType::EndRequest => 3,
            FcgiRecType::Params => 4,
            FcgiRecType::Stdin => 5,
            FcgiRecType::Stdout => 6,
            FcgiRecType::Stderr => 7,
            FcgiRecType::Data => 8,
            FcgiRecType::GetValues => 9,
            FcgiRecType::GetValuesResult => 10,
            FcgiRecType::UnknownType => 11,
        }
    }
}

/// Errors in FCGI framing.
#[derive(Debug, Clone, Copy, PartialEq, Eq, Structural)]
pub enum FcgiError {
    /// The type byte names no record type.
    InvalidRecordType,
    /// The content does not have the length the header gives.
    ContentLengthMismatch,
    /// The parameter bytes end inside a name-value pair.
    TruncatedParams,
    /// A record of another request id arrived: multiplexing is not supported.
    MultiplexNotSupported,
    /// A record type a responder does not handle.
    UnexpectedRecordType,
    /// A parameter name or value is not UTF-8.
    InvalidUtf8,
}

/// FCGI header record, deserialized.
#[derive(Debug, Clone, Copy, PartialEq, Eq, Structural)]
pub struct FcgiHeader {
    /// Protocol version
    pub version: u8,
    /// Record type. Usually BeginRequest.
    pub rec_type: FcgiRecType,
    /// Request ID
    pub id: u16,
    /// Length of content, in bytes.
    pub content_length: u16,
    /// Length of padding, in bytes
    pub padding_length: u8,
}

/// Big-endian value of two bytes.
pub open spec fn be16(hi: u8, lo: u8) -> int {
    hi * 256 + lo
}

/// The 8 bytes of a header: version, type, id and content length
/// big-endian, padding length, and a reserved zero byte.
pub open spec fn header_bytes(h: FcgiHeader) -> Seq<u8> {
    seq![h.version, rec_type_code(h.rec_type), (h.id / 256) as u8, (h.id % 256) as u8,
        (h.content_length / 256) as u8, (h.content_length % 256) as u8, h.padding_length, 0u8]
}

impl FcgiHeader {
    /// Length of header
    pub const FCGI_HEADER_LENGTH: usize = 8;

    /// Deserialize 8 bytes to an FCGI header. Fails when the type byte
    /// names no record type.
    pub fn new_from_bytes(b: &[u8; 8]) -> (r: Result<FcgiHeader, FcgiError>)
        ensures
            (b@[1] == 0 || b@[1] > 11) <==> r == Err::<FcgiHeader, FcgiError>(FcgiError::InvalidRecordType),
            r matches Ok(h) ==> {
                &&& h.version == b@[0]
                &&& rec_type_code(h.rec_type) == b@[1]
                &&& h.id == be16(b@[2], b@[3])
                &&& h.content_length == be16(b@[4], b@[5])
                &&& h.padding_length == b@[6]
            },
    {
        let rec_type = match FcgiRecType::from_u8(b[1]) {
            Some(t) => t,
            None => { return Err(FcgiError::InvalidRecordType); },
        };
        Ok(FcgiHeader {
            version: b[0],
            rec_type,
            id: (b[2] as u16) * 256 + b[3] as u16,
            content_length: (b[4] as u16) * 256 + b[5] as u16,
            padding_length: b[6],
        })
    }

    /// Serialize an FCGI header to 8 bytes.
    pub fn to_bytes(&self) -> (r: [u8; 8])
        ensures
            r@ == header_bytes(*self),
    {
        let r = [
            self.version,
            self.rec_type.to_u8(),
            (self.id / 256) as u8,
            (self.id % 256) as u8,
            (self.content_length / 256) as u8,
            (self.content_length % 256) as u8,
            self.padding_length,
            0,
        ];
        assert(r@ =~= header_bytes(*self));
        r
    }

    /// Padding needed to round the content up to a multiple of 8.
    pub fn calc_padding_length(content_length: u16) -> (r: u8)
        ensures
            r < 8,
            (content_length + r) % 8 == 0,
    {
        ((8 - content_length % 8) % 8) as u8
    }
}

/// A header written out and read back is the same header.
pub proof fn lemma_header_round_trip(h: FcgiHeader, b: Seq<u8>)
    requires
        b == header_bytes(h),
    ensures
        b.len() == 8,
        b[1] != 0 && b[1] <= 11,
        be16(b[2], b[3]) == h.id,
        be16(b[4], b[5]) == h.content_length,
        b[0] == h.version,
        b[6] == h.padding_length,
{
    assert(b[1] == rec_type_code(h.rec_type));
}

/// FcgiRecord -- one header and its data.
#[derive(Debug)]
pub struct FcgiRecord {
    /// The header
    pub header: FcgiHeader,
    /// The content
    pub content: Option<Vec<u8>>,
}

impl FcgiRecord {
    /// The content still held.
    pub closed spec fn content_view(&self) -> Option<Seq<u8>> {
        match self.content {
            Some(c) => Some(c@),
            None => None,
        }
    }

    /// A record from a header and the content that followed it. Fails when
    /// the content is not as long as the header says.
    pub fn new(header: FcgiHeader, content: Vec<u8>) -> (r: Result<FcgiRecord, FcgiError>)
        ensures
            content@.len() != header.content_length <==> r == Err::<FcgiRecord, FcgiError>(FcgiError::ContentLengthMismatch),
            r matches Ok(rec) ==> rec.header == header && rec.content_view() == Some(content@),
    {
        if content.len() != header.content_length as usize {
            return Err(FcgiError::ContentLengthMismatch);
        }
        Ok(FcgiRecord { header, content: Some(content) })
    }

    /// Take content for use elsewhere. A second take gets None.
    pub fn take_content(&mut self) -> (r: Option<Vec<u8>>)
        ensures
            r matches Some(c) ==> old(self).content_view() == Some(c@),
            r is None <==> old(self).content_view() is None,
            final(self).content_view() is None,
            final(self).header == old(self).header,
    {
        self.content.take()
    }
}

/// Length field at `pos`: one byte below 128, else four bytes big-endian
/// with the top bit of the first cleared. Returns (length, position after).
pub open spec fn length_at(b: Seq<u8>, pos: int) -> (int, int) {
    if b[pos] < 128 {
        (b[pos] as int, pos + 1)
    } else {
        ((b[pos] - 128) * 0x100_0000 + b[pos + 1] * 0x1_0000 + b[pos + 2] * 0x100 + b[pos + 3], pos + 4)
    }
}

/// The length field at `pos` lies within the bytes.
pub open spec fn length_fits(b: Seq<u8>, pos: int) -> bool {
    pos < b.len() && (b[pos] < 128 || pos + 4 <= b.len())
}

/// A name-value pair starts at `pos`: both lengths and both fields fit.
pub open spec fn pair_fits(b: Seq<u8>, pos: int) -> bool {
    let (kn, p1) = length_at(b, pos);
    let (vn, p2) = length_at(b, p1);
    length_fits(b, pos) && length_fits(b, p1) && p2 + kn + vn <= b.len()
}

/// The pair at `pos` and the position after it.
pub open spec fn pair_at(b: Seq<u8>, pos: int) -> (Seq<u8>, Seq<u8>, int) {
    let (kn, p1) = length_at(b, pos);
    let (vn, p2) = length_at(b, p1);
    (b.subrange(p2, p2 + kn), b.subrange(p2 + kn, p2 + kn + vn), p2 + kn + vn)
}

/// All name-value pairs from `pos` to the end, or None when the bytes end
/// inside a pair.
pub open spec fn params_from(b: Seq<u8>, pos: int) -> Option<Seq<(Seq<u8>, Seq<u8>)>>
    decreases b.len() - pos,
{
    if pos >= b.len() || pos < 0 {
        Some(Seq::empty())
    } else if !pair_fits(b, pos) {
        None
    } else {
        let (k, v, next) = pair_at(b, pos);
        if next <= pos {
            None
        } else {
            match params_from(b, next) {
                Some(rest) => Some(seq![(k, v)] + rest),
                None => None,
            }
        }
    }
}

/// Pairs as byte sequences.
pub open spec fn pairs_view(v: Seq<(Vec<u8>, Vec<u8>)>) -> Seq<(Seq<u8>, Seq<u8>)> {
    v.map_values(|p: (Vec<u8>, Vec<u8>)| (p.0@, p.1@))
}

/// Read one length field at `pos`. Ok(None) at the end of the bytes.
pub fn fetch_field_length(b: &Vec<u8>, pos: usize) -> (r: Result<Option<(usize, usize)>, FcgiError>)
    ensures
        pos >= b@.len() ==> r == Ok::<Option<(usize, usize)>, FcgiError>(None),
        pos < b@.len() && !length_fits(b@, pos as int) ==> r == Err::<Option<(usize, usize)>, FcgiError>(FcgiError::TruncatedParams),
        length_fits(b@, pos as int) ==> (r matches Ok(Some((n, next))) && n == length_at(b@, pos as int).0 && next == length_at(b@, pos as int).1),
{
    if pos >= b.len() {
        return Ok(None);
    }
    let b0 = b[pos];
    if b0 < 128 {
        return Ok(Some((b0 as usize, pos + 1)));
    }
    if b.len() - pos < 4 {
        return Err(FcgiError::TruncatedParams);
    }
    let v: u32 = ((b0 - 128) as u32) * 0x100_0000 + (b[pos + 1] as u32) * 0x1_0000 + (b[pos + 2] as u32) * 0x100 + b[pos + 3] as u32;
    Ok(Some((v as usize, pos + 4)))
}

/// Copy of bytes [from, to).
fn copy_range(b: &Vec<u8>, from: usize, to: usize) -> (r: Vec<u8>)
    requires
        from <= to <= b@.len(),
    ensures
        r@ == b@.subrange(from as int, to as int),
{
    let mut out: Vec<u8> = Vec::new();
    let mut i = from;
    while i < to
        invariant
            from <= i <= to <= b@.len(),
            out@ == b@.subrange(from as int, i as int),
        decreases to - i,
    {
        out.push(b[i]);
        proof { assert(out@ =~= b@.subrange(from as int, i + 1)); }
        i += 1;
    }
    out
}

/// Read the name-value pair at `pos`: name length, value length, name,
/// value. Ok(None) at the end of the bytes.
pub fn fetch_name_value_pair(b: &Vec<u8>, pos: usize) -> (r: Result<Option<(Vec<u8>, Vec<u8>, usize)>, FcgiError>)
    ensures
        pos >= b@.len() ==> r is Ok && r->Ok_0 is None,
        pos < b@.len() && !pair_fits(b@, pos as int) ==> r == Err::<Option<(Vec<u8>, Vec<u8>, usize)>, FcgiError>(FcgiError::TruncatedParams),
        pos < b@.len() && pair_fits(b@, pos as int) ==> (r matches Ok(Some((k, v, next)))
            && k@ == pair_at(b@, pos as int).0 && v@ == pair_at(b@, pos as int).1 && next == pair_at(b@, pos as int).2),
{
    let (kn, p1) = match fetch_field_length(b, pos) {
        Ok(Some(t)) => t,
        Ok(None) => { return Ok(None); },
        Err(e) => { return Err(e); },
    };
    let (vn, p2) = match fetch_field_length(b, p1) {
        Ok(Some(t)) => t,
        Ok(None) => { return Err(FcgiError::TruncatedParams); },
        Err(e) => { return Err(e); },
    };
    if kn > b.len() - p2 || vn > b.len() - p2 - kn {
        return Err(FcgiError::TruncatedParams);
    }
    let k = copy_range(b, p2, p2 + kn);
    let v = copy_range(b, p2 + kn, p2 + kn + vn);
    Ok(Some((k, v, p2 + kn + vn)))
}

/// Whether the bytes are valid UTF-8.
pub uninterp spec fn utf8_ok(b: Seq<u8>) -> bool;

/// Relies on std::str::from_utf8: it succeeds exactly on valid UTF-8, which
/// depends on the bytes alone.
#[verifier::external_body]
fn is_utf8(b: &Vec<u8>) -> (r: bool)
    ensures
        r == utf8_ok(b@),
{
    std::str::from_utf8(b.as_slice()).is_ok()
}

/// Every name and value is UTF-8.
pub open spec fn all_utf8(ps: Seq<(Seq<u8>, Seq<u8>)>) -> bool {
    forall|i: int| 0 <= i < ps.len() ==> utf8_ok((#[trigger] ps[i]).0) && utf8_ok(ps[i].1)
}

/// The parameter bytes decode completely and every name and value is UTF-8.
pub open spec fn params_valid(b: Seq<u8>) -> bool {
    match params_from(b, 0) {
        Some(ps) => all_utf8(ps),
        None => false,
    }
}

/// The value of the last pair named `key`: a later pair with the same name
/// wins, as in a map filled in order.
pub open spec fn param_lookup(ps: Seq<(Seq<u8>, Seq<u8>)>, key: Seq<u8>) -> Option<Seq<u8>>
    decreases ps.len(),
{
    if ps.len() == 0 {
        None
    } else if ps.last().0 == key {
        Some(ps.last().1)
    } else {
        param_lookup(ps.drop_last(), key)
    }
}

/// Byte sequences are equal.
fn bytes_eq(a: &Vec<u8>, b: &Vec<u8>) -> (r: bool)
    ensures
        r == (a@ == b@),
{
    if a.len() != b.len() {
        return false;
    }
    let mut i: usize = 0;
    while i < a.len()
        invariant
            a@.len() == b@.len(),
            0 <= i <= a@.len(),
            forall|j: int| 0 <= j < i ==> a@[j] == b@[j],
        decreases a@.len() - i,
    {
        if a[i] != b[i] {
            return false;
        }
        i += 1;
    }
    assert(a@ =~= b@);
    true
}

/// Value of the parameter named `key`; the last pair of that name wins.
pub fn lookup_param(ps: &Vec<(Vec<u8>, Vec<u8>)>, key: &Vec<u8>) -> (r: Option<Vec<u8>>)
    ensures
        match r {
            Some(v) => param_lookup(pairs_view(ps@), key@) == Some(v@),
            None => param_lookup(pairs_view(ps@), key@) is None,
        },
{
    let mut i = ps.len();
    assert(pairs_view(ps@).subrange(0, i as int) =~= pairs_view(ps@));
    while i > 0
        invariant
            i <= ps@.len(),
            param_lookup(pairs_view(ps@), key@) == param_lookup(pairs_view(ps@).subrange(0, i as int), key@),
        decreases i,
    {
        let ghost pv = pairs_view(ps@).subrange(0, i as int);
        if bytes_eq(&ps[i - 1].0, key) {
            let v = copy_range(&ps[i - 1].1, 0, ps[i - 1].1.len());
            proof {
                assert(ps[i - 1].1@.subrange(0, ps[i - 1].1@.len() as int) =~= ps[i - 1].1@);
                assert(pv.last() == (ps@[i - 1].0@, ps@[i - 1].1@));
            }
            return Some(v);
        }
        proof {
            assert(pv.last() == (ps@[i - 1].0@, ps@[i - 1].1@));
            assert(pv.drop_last() =~= pairs_view(ps@).subrange(0, i - 1));
        }
        i -= 1;
    }
    None
}

/// Decode all name-value pairs of the parameter bytes, in order. Fails when
/// the bytes end inside a pair, or a name or value is not UTF-8. A map of
/// them is `param_lookup`: later pairs of a name win.
pub fn build_params(b: &Vec<u8>) -> (r: Result<Vec<(Vec<u8>, Vec<u8>)>, FcgiError>)
    ensures
        params_from(b@, 0) is None <==> r == Err::<Vec<(Vec<u8>, Vec<u8>)>, FcgiError>(FcgiError::TruncatedParams),
        (params_from(b@, 0) is Some && !params_valid(b@)) <==> r == Err::<Vec<(Vec<u8>, Vec<u8>)>, FcgiError>(FcgiError::InvalidUtf8),
        r matches Ok(v) ==> params_from(b@, 0) == Some(pairs_view(v@)) && params_valid(b@),
{
    let pairs = decode_params(b)?;
    let mut i: usize = 0;
    while i < pairs.len()
        invariant
            0 <= i <= pairs@.len(),
            params_from(b@, 0) == Some(pairs_view(pairs@)),
            forall|j: int| 0 <= j < i ==> utf8_ok((#[trigger] pairs_view(pairs@)[j]).0) && utf8_ok(pairs_view(pairs@)[j].1),
        decreases pairs@.len() - i,
    {
        assert(pairs_view(pairs@)[i as int] == (pairs@[i as int].0@, pairs@[i as int].1@));
        if !is_utf8(&pairs[i].0) || !is_utf8(&pairs[i].1) {
            proof {
                assert(!(utf8_ok(pairs_view(pairs@)[i as int].0) && utf8_ok(pairs_view(pairs@)[i as int].1)));
                let ps = pairs_view(pairs@);
                assert(ps.len() == pairs@.len());
                assert(0 <= i < ps.len());
                if all_utf8(ps) {
                    assert(utf8_ok(ps[i as int].0) && utf8_ok(ps[i as int].1));
                }
            }
            return Err(FcgiError::InvalidUtf8);
        }
        i += 1;
    }
    assert(all_utf8(pairs_view(pairs@)));
    Ok(pairs)
}

/// Decode all name-value pairs of the parameter bytes, in order.
fn decode_params(b: &Vec<u8>) -> (r: Result<Vec<(Vec<u8>, Vec<u8>)>, FcgiError>)
    ensures
        params_from(b@, 0) is None <==> r == Err::<Vec<(Vec<u8>, Vec<u8>)>, FcgiError>(FcgiError::TruncatedParams),
        r is Err ==> r == Err::<Vec<(Vec<u8>, Vec<u8>)>, FcgiError>(FcgiError::TruncatedParams),
        r matches Ok(v) ==> params_from(b@, 0) == Some(pairs_view(v@)),
{
    let mut out: Vec<(Vec<u8>, Vec<u8>)> = Vec::new();
    let mut pos: usize = 0;
    while pos < b.len()
        invariant
            pos <= b@.len(),
            params_from(b@, 0) == match params_from(b@, pos as int) {
                Some(rest) => Some(pairs_view(out@) + rest),
                None => None::<Seq<(Seq<u8>, Seq<u8>)>>,
            },
        ensures
            pos >= b@.len(),
            pos <= b@.len(),
            params_from(b@, 0) == match params_from(b@, pos as int) {
                Some(rest) => Some(pairs_view(out@) + rest),
                None => None::<Seq<(Seq<u8>, Seq<u8>)>>,
            },
        decreases b@.len() - pos,
    {
        match fetch_name_value_pair(b, pos) {
            Ok(Some((k, v, next))) => {
                proof {
                    assert(pair_fits(b@, pos as int));
                }
                let ghost o0 = pairs_view(out@);
                out.push((k, v));
                proof {
                    assert(pairs_view(out@) =~= o0.push((k@, v@)));
                    match params_from(b@, next as int) {
                        Some(rest) => {
                            assert(params_from(b@, pos as int) == Some(seq![(k@, v@)] + rest));
                            assert(o0 + (seq![(k@, v@)] + rest) =~= o0.push((k@, v@)) + rest);
                        },
                        None => {},
                    }
                }
                pos = next;
            },
            Ok(None) => {
                break;
            },
            Err(e) => {
                return Err(e);
            },
        }
    }
    proof {
        assert(params_from(b@, pos as int) == Some(Seq::<(Seq<u8>, Seq<u8>)>::empty()));
        assert(pairs_view(out@) + Seq::<(Seq<u8>, Seq<u8>)>::empty() =~= pairs_view(out@));
    }
    Ok(out)
}

/// Request to a responder, assembled from its records.
#[derive(Debug)]
pub struct Request {
    /// Request id, once a record has been seen
    pub id: Option<u16>,
    /// Parameter bytes. Need special decoding
    pub param_bytes: Vec<u8>,
    /// Params, decoded once the request is complete
    pub params: Option<Vec<(Vec<u8>, Vec<u8>)>>,
    /// Standard input - the actual content, if any. Usually from a POST request.
    pub standard_input: Vec<u8>,
}

/// Content bytes of a record, empty when taken.
pub open spec fn content_bytes(rec: FcgiRecord) -> Seq<u8> {
    match rec.content {
        Some(c) => c@,
        None => Seq::empty(),
    }
}

impl Request {
    /// The request id seen so far.
    pub open spec fn request_id(&self) -> Option<u16> {
        self.id
    }

    /// Parameter bytes gathered so far.
    pub open spec fn param_view(&self) -> Seq<u8> {
        self.param_bytes@
    }

    /// Decoded params, once complete.
    pub open spec fn params_view(&self) -> Option<Seq<(Seq<u8>, Seq<u8>)>> {
        match self.params {
            Some(p) => Some(pairs_view(p@)),
            None => None,
        }
    }

    ///  Usual new
    pub fn new() -> (r: Request)
        ensures
            r.request_id() is None,
            r.param_view().len() == 0,
            r.params is None,
            r.standard_input@.len() == 0,
    {
        Request { id: None, param_bytes: Vec::new(), params: None, standard_input: Vec::new() }
    }

    /// Add one record. Returns true when the request is complete: an
    /// empty Stdin record ends it, and its params are then decoded.
    pub fn add_record(&mut self, rec: FcgiRecord) -> (r: Result<bool, FcgiError>)
        ensures
            (old(self).request_id() matches Some(i) && i != rec.header.id)
                ==> r == Err::<bool, FcgiError>(FcgiError::MultiplexNotSupported) && *final(self) == *old(self),
            !(old(self).request_id() matches Some(i) && i != rec.header.id) ==> {
                &&& final(self).request_id() == Some(rec.header.id)
                &&& match rec.header.rec_type {
                    FcgiRecType::BeginRequest => r == Ok::<bool, FcgiError>(false)
                        && final(self).param_view() == old(self).param_view()
                        && final(self).params == old(self).params
                        && final(self).standard_input == old(self).standard_input,
                    FcgiRecType::Params => r == Ok::<bool, FcgiError>(false)
                        && final(self).param_view() == old(self).param_view() + content_bytes(rec)
                        && final(self).params == old(self).params
                        && final(self).standard_input == old(self).standard_input,
                    FcgiRecType::Stdin => if rec.header.content_length == 0 {
                        &&& (params_from(old(self).param_view(), 0) is None <==> r == Err::<bool, FcgiError>(FcgiError::TruncatedParams))
                        &&& ((params_from(old(self).param_view(), 0) is Some && !params_valid(old(self).param_view()))
                            <==> r == Err::<bool, FcgiError>(FcgiError::InvalidUtf8))
                        &&& (r is Ok ==> r == Ok::<bool, FcgiError>(true) && final(self).params_view() == params_from(old(self).param_view(), 0))
                        &&& final(self).param_view() == old(self).param_view()
                        &&& final(self).standard_input == old(self).standard_input
                    } else {
                        &&& r == Ok::<bool, FcgiError>(false)
                        &&& final(self).standard_input@ == old(self).standard_input@ + content_bytes(rec)
                        &&& final(self).param_view() == old(self).param_view()
                        &&& final(self).params == old(self).params
                    },
                    _ => r == Err::<bool, FcgiError>(FcgiError::UnexpectedRecordType),
                }
            },
    {
        match self.id {
            Some(i) => {
                if i != rec.header.id {
                    return Err(FcgiError::MultiplexNotSupported);
                }
            },
            None => {},
        }
        self.id = Some(rec.header.id);
        let mut rec = rec;
        match rec.header.rec_type {
            FcgiRecType::BeginRequest => Ok(false),
            FcgiRecType::Params => {
                match rec.take_content() {
                    Some(mut c) => { self.param_bytes.append(&mut c); },
                    None => {},
                }
                Ok(false)
            },
            FcgiRecType::Stdin => {
                if rec.header.content_length == 0 {
                    match build_params(&self.param_bytes) {
                        Ok(p) => {
                            self.params = Some(p);
                            Ok(true)
                        },
                        Err(e) => Err(e),
                    }
                } else {
                    match rec.take_content() {
                        Some(mut c) => { self.standard_input.append(&mut c); },
                        None => {},
                    }
                    Ok(false)
                }
            },
            _ => Err(FcgiError::UnexpectedRecordType),
        }
    }
}

} // verus!
