//! The envelope decoder and the request it yields. An inbound message is
//! `UUID SPACE ID SPACE PATH SPACE TYPEDVALUE(headers) TYPEDVALUE(body)`;
//! the three tokens are cut strictly left to right, each ended by exactly
//! one space, and the remainder must carry the two typed values.
use vstd::prelude::*;
use vstd::utf8::{decode_utf8, valid_utf8};

use crate::headers::{headers_model, hlookup, parse_headers, Headers, HeadersModel};
use crate::jsonval::{json_entries_model, json_find, json_lookup, json_object_of, JsonVal,
    JsonValModel};
use crate::typed_value::{decode, lemma_tv_encode_decode, lemma_tv_encode_len, tv_decode,
    tv_encode, Tv, TvModel};
use crate::FormatError;

verus! {

pub const SPACE: u8 = 32; // ' '

/// One decoded request, owned by the caller for the handling of that
/// message. `json_body` is present exactly when the method is JSON and the
/// body carries a JSON object; it is never set speculatively.
pub struct Request {
    pub uuid: String,
    pub id: String,
    pub path: String,
    pub headers: Headers,
    pub body: Vec<u8>,
    pub json_body: Option<Vec<(String, JsonVal)>>,
}

/// The mathematical shape of a request.
pub struct RequestModel {
    pub uuid: Seq<char>,
    pub id: Seq<char>,
    pub path: Seq<char>,
    pub headers: HeadersModel,
    pub body: Seq<u8>,
    pub json_body: Option<Seq<(Seq<char>, JsonValModel)>>,
}

impl View for Request {
    type V = RequestModel;

    open spec fn view(&self) -> RequestModel {
        RequestModel {
            uuid: self.uuid@,
            id: self.id@,
            path: self.path@,
            headers: self.headers@,
            body: self.body@,
            json_body: match self.json_body {
                Some(es) => Some(json_entries_model(es@)),
                None => None,
            },
        }
    }
}

/// The first space at or after `from`.
pub open spec fn find_space(s: Seq<u8>, from: int) -> Option<int>
    decreases s.len() - from,
{
    if 0 <= from < s.len() {
        if s[from] == SPACE {
            Some(from)
        } else {
            find_space(s, from + 1)
        }
    } else {
        None
    }
}

/// What decoding the part after the three tokens yields: the normalized
/// headers and the raw body, which must be the string variant; bytes after
/// the body value are ignored.
pub open spec fn rest_model(rest: Seq<u8>) -> Result<(HeadersModel, Seq<u8>), FormatError> {
    if rest.len() == 0 {
        Err(FormatError::EmptyHeaders)
    } else {
        match tv_decode(rest) {
            Err(e) => Err(e),
            Ok((htv, used)) => match headers_model(htv) {
                Err(e) => Err(e),
                Ok(hs) => {
                    let rest2 = rest.skip(used);
                    if rest2.len() == 0 {
                        Err(FormatError::EmptyBody)
                    } else {
                        match tv_decode(rest2) {
                            Err(e) => Err(e),
                            Ok((btv, _)) => match btv {
                                TvModel::Str(b) => Ok((hs, b)),
                                _ => Err(FormatError::BodyShape),
                            },
                        }
                    }
                },
            },
        }
    }
}

/// What parsing a whole inbound message yields, or the first reason it is
/// refused, in the order the message is read.
pub open spec fn parse_model(s: Seq<u8>) -> Result<RequestModel, FormatError> {
    match find_space(s, 0) {
        None => Err(FormatError::Uuid),
        Some(i) => if !valid_utf8(s.subrange(0, i)) {
            Err(FormatError::Utf8)
        } else {
            match find_space(s, i + 1) {
                None => Err(FormatError::Id),
                Some(j) => if !valid_utf8(s.subrange(i + 1, j)) {
                    Err(FormatError::Utf8)
                } else {
                    match find_space(s, j + 1) {
                        None => Err(FormatError::Path),
                        Some(k) => if !valid_utf8(s.subrange(j + 1, k)) {
                            Err(FormatError::Utf8)
                        } else {
                            match rest_model(s.skip(k + 1)) {
                                Err(e) => Err(e),
                                Ok((hs, body)) => {
                                    let req = RequestModel {
                                        uuid: decode_utf8(s.subrange(0, i)),
                                        id: decode_utf8(s.subrange(i + 1, j)),
                                        path: decode_utf8(s.subrange(j + 1, k)),
                                        headers: hs,
                                        body: body,
                                        json_body: None,
                                    };
                                    if hlookup(hs, "METHOD"@) == Some(seq!["JSON"@]) {
                                        match json_object_of(body) {
                                            Some(es) => Ok(
                                                RequestModel { json_body: Some(es), ..req },
                                            ),
                                            None => Err(FormatError::JsonBody),
                                        }
                                    } else {
                                        Ok(req)
                                    }
                                },
                            }
                        },
                    }
                },
            }
        },
    }
}

/// Round trip through the envelope remainder: two encoded string values,
/// back to back, decode to exactly their payloads — the first is handed to
/// the header normalizer, and the body comes back byte for byte from the
/// second. The dictionary variant has no outbound encoding, so this is the
/// remainder-level round trip the format defines.
pub proof fn lemma_rest_model_round_trip(h: Seq<u8>, b: Seq<u8>)
    ensures
        rest_model(tv_encode(TvModel::Str(h)) + tv_encode(TvModel::Str(b))) == (
        match headers_model(TvModel::Str(h)) {
            Ok(hs) => Ok::<(HeadersModel, Seq<u8>), FormatError>((hs, b)),
            Err(e) => Err(e),
        }),
{
    let eh = tv_encode(TvModel::Str(h));
    let eb = tv_encode(TvModel::Str(b));
    let rest = eh + eb;
    lemma_tv_encode_len(TvModel::Str(h));
    lemma_tv_encode_len(TvModel::Str(b));
    lemma_tv_encode_decode(TvModel::Str(h), eb);
    assert(rest.skip(eh.len() as int) =~= eb);
    lemma_tv_encode_decode(TvModel::Str(b), Seq::empty());
    assert(eb + Seq::<u8>::empty() =~= eb);
}

/// Scan for the first space at or after `start`.
fn find_space_exec(msg: &[u8], start: usize) -> (r: Option<usize>)
    requires
        start <= msg@.len(),
    ensures
        match r {
            Some(i) => find_space(msg@, start as int) == Some(i as int) && start <= i
                < msg@.len(),
            None => find_space(msg@, start as int) is None,
        },
{
    let mut i: usize = start;
    while i < msg.len()
        invariant
            start <= i <= msg@.len(),
            find_space(msg@, start as int) == find_space(msg@, i as int),
        decreases msg@.len() - i,
    {
        if msg[i] == SPACE {
            return Some(i);
        }
        i = i + 1;
    }
    None
}

/// Cut the token that runs from `start` to the next space, decoded as text.
fn token_from(msg: &[u8], start: usize, missing: FormatError) -> (r: Result<
    (usize, String),
    FormatError,
>)
    requires
        start <= msg@.len(),
    ensures
        match r {
            Ok((next, tok)) => {
                &&& next <= msg@.len()
                &&& find_space(msg@, start as int) matches Some(i) && next == i + 1
                    && valid_utf8(msg@.subrange(start as int, i)) && tok@ == decode_utf8(
                    msg@.subrange(start as int, i),
                )
            },
            Err(e) => match find_space(msg@, start as int) {
                None => e == missing,
                Some(i) => !valid_utf8(msg@.subrange(start as int, i)) && e == FormatError::Utf8,
            },
        },
{
    let end = msg.len();
    match find_space_exec(msg, start) {
        None => Err(missing),
        Some(i) => {
            let raw = vstd::slice::slice_to_vec(vstd::slice::slice_subrange(msg, start, i));
            match crate::string_from_utf8(raw) {
                Some(tok) => Ok((i + 1, tok)),
                None => Err(FormatError::Utf8),
            }
        },
    }
}

/// Cut the sender uuid: everything before the first space.
pub fn parse_uuid(msg: &[u8]) -> (r: Result<(usize, String), FormatError>)
    ensures
        match r {
            Ok((next, tok)) => {
                &&& next <= msg@.len()
                &&& find_space(msg@, 0) matches Some(i) && next == i + 1 && valid_utf8(
                    msg@.subrange(0, i),
                ) && tok@ == decode_utf8(msg@.subrange(0, i))
            },
            Err(e) => match find_space(msg@, 0) {
                None => e == FormatError::Uuid,
                Some(i) => !valid_utf8(msg@.subrange(0, i)) && e == FormatError::Utf8,
            },
        },
{
    token_from(msg, 0, FormatError::Uuid)
}

/// Cut the connection id: the token after the uuid.
pub fn parse_id(msg: &[u8], start: usize) -> (r: Result<(usize, String), FormatError>)
    requires
        start <= msg@.len(),
    ensures
        match r {
            Ok((next, tok)) => {
                &&& next <= msg@.len()
                &&& find_space(msg@, start as int) matches Some(i) && next == i + 1
                    && valid_utf8(msg@.subrange(start as int, i)) && tok@ == decode_utf8(
                    msg@.subrange(start as int, i),
                )
            },
            Err(e) => match find_space(msg@, start as int) {
                None => e == FormatError::Id,
                Some(i) => !valid_utf8(msg@.subrange(start as int, i)) && e == FormatError::Utf8,
            },
        },
{
    token_from(msg, start, FormatError::Id)
}

/// Cut the request path: the token after the connection id.
pub fn parse_path(msg: &[u8], start: usize) -> (r: Result<(usize, String), FormatError>)
    requires
        start <= msg@.len(),
    ensures
        match r {
            Ok((next, tok)) => {
                &&& next <= msg@.len()
                &&& find_space(msg@, start as int) matches Some(i) && next == i + 1
                    && valid_utf8(msg@.subrange(start as int, i)) && tok@ == decode_utf8(
                    msg@.subrange(start as int, i),
                )
            },
            Err(e) => match find_space(msg@, start as int) {
                None => e == FormatError::Path,
                Some(i) => !valid_utf8(msg@.subrange(start as int, i)) && e == FormatError::Utf8,
            },
        },
{
    token_from(msg, start, FormatError::Path)
}

/// Take the raw body out of its decoded value, which must be the string
/// variant; any other variant is fatal.
pub fn parse_body(tv: Tv) -> (r: Result<Vec<u8>, FormatError>)
    ensures
        match r {
            Ok(b) => tv@ == TvModel::Str(b@),
            Err(e) => !(tv@ is Str) && e == FormatError::BodyShape,
        },
{
    match tv {
        Tv::Str(b) => Ok(b),
        _ => Err(FormatError::BodyShape),
    }
}

/// Decode the two typed values after the tokens: the headers, normalized,
/// and the body, which must be the string variant.
pub fn parse_rest(rest: &[u8]) -> (r: Result<(Headers, Vec<u8>), FormatError>)
    ensures
        match r {
            Ok((hs, body)) => rest_model(rest@) == Ok::<(HeadersModel, Seq<u8>), FormatError>(
                (hs@, body@),
            ),
            Err(e) => rest_model(rest@) == Err::<(HeadersModel, Seq<u8>), FormatError>(e),
        },
{
    match decode(rest) {
        Err(e) => Err(e),
        Ok((None, _)) => Err(FormatError::EmptyHeaders),
        Ok((Some(htv), after)) => {
            match parse_headers(&htv) {
                Err(e) => Err(e),
                Ok(hs) => {
                    match decode(after) {
                        Err(e) => Err(e),
                        Ok((None, _)) => Err(FormatError::EmptyBody),
                        Ok((Some(btv), _)) => match parse_body(btv) {
                            Ok(b) => Ok((hs, b)),
                            Err(e) => Err(e),
                        },
                    }
                },
            }
        },
    }
}

/// Whether the values under `word`'s header are exactly the one given text.
fn values_equal_one(vs: &Vec<String>, word: &str) -> (r: bool)
    ensures
        r == (vs.deep_view() == seq![word@]),
{
    let wanted: String = word.to_owned();
    let r = vs.len() == 1 && vs[0].eq(&wanted);
    proof {
        assert(vs.deep_view().len() == vs@.len());
        if vs@.len() == 1 {
            assert(vs.deep_view()[0] == vs@[0]@);
        }
        if r {
            assert(vs.deep_view() =~= seq![word@]);
        } else if vs.deep_view() == seq![word@] {
            assert(vs.deep_view()[0] == word@);
            assert(false);
        }
    }
    r
}

/// Parse one whole inbound message, as `parse_model` says: tokens left to
/// right, the two typed values, the headers normalized, and the JSON
/// sub-body taken exactly when the method is JSON.
pub fn parse(msg: &[u8]) -> (r: Result<Request, FormatError>)
    ensures
        match r {
            Ok(req) => parse_model(msg@) == Ok::<RequestModel, FormatError>(req@),
            Err(e) => parse_model(msg@) == Err::<RequestModel, FormatError>(e),
        },
{
    let (next1, uuid) = match parse_uuid(msg) {
        Ok(p) => p,
        Err(e) => {
            return Err(e);
        },
    };
    let (next2, id) = match parse_id(msg, next1) {
        Ok(p) => p,
        Err(e) => {
            return Err(e);
        },
    };
    let (next3, path) = match parse_path(msg, next2) {
        Ok(p) => p,
        Err(e) => {
            return Err(e);
        },
    };
    let rest = vstd::slice::slice_subrange(msg, next3, msg.len());
    proof {
        assert(rest@ =~= msg@.skip(next3 as int));
    }
    let (headers, body) = match parse_rest(rest) {
        Ok(p) => p,
        Err(e) => {
            return Err(e);
        },
    };
    let is_json = match headers.find("METHOD") {
        Some(vs) => values_equal_one(vs, "JSON"),
        None => false,
    };
    if is_json {
        match crate::jsonval::json_parse_object(body.as_slice()) {
            Some(es) => Ok(
                Request { uuid, id, path, headers, body, json_body: Some(es) },
            ),
            None => Err(FormatError::JsonBody),
        }
    } else {
        Ok(Request { uuid, id, path, headers, body, json_body: None })
    }
}

/// Whether a request announces that its connection went away: the JSON
/// sub-body is present and its `type` entry is exactly the string
/// `disconnect`.
pub open spec fn req_is_disconnect(r: RequestModel) -> bool {
    match r.json_body {
        Some(es) => json_lookup(es, "type"@) == Some(JsonValModel::Str("disconnect"@)),
        None => false,
    }
}

/// Whether a reply should close the connection: a `connection` header of
/// exactly `["close"]` decides first; otherwise a `VERSION` header of
/// exactly `["HTTP/1.0"]` decides; the two checks are independent.
pub open spec fn req_should_close(r: RequestModel) -> bool {
    hlookup(r.headers, "connection"@) == Some(seq!["close"@]) || hlookup(r.headers, "VERSION"@)
        == Some(seq!["HTTP/1.0"@])
}

impl Request {
    pub fn is_disconnect(&self) -> (r: bool)
        ensures
            r == req_is_disconnect(self@),
    {
        match &self.json_body {
            None => false,
            Some(es) => match json_find(es, "type") {
                Some(v) => match v {
                    JsonVal::Str(s) => {
                        let wanted: String = "disconnect".to_owned();
                        s.eq(&wanted)
                    },
                    _ => false,
                },
                None => false,
            },
        }
    }

    pub fn should_close(&self) -> (r: bool)
        ensures
            r == req_should_close(self@),
    {
        let close = match self.headers.find("connection") {
            Some(vs) => values_equal_one(vs, "close"),
            None => false,
        };
        if close {
            true
        } else {
            match self.headers.find("VERSION") {
                Some(vs) => values_equal_one(vs, "HTTP/1.0"),
                None => false,
            }
        }
    }
}

/// A `connection` header of exactly `["close"]` forces a close, whatever
/// any `VERSION` header holds.
pub proof fn lemma_should_close_connection(r: RequestModel)
    requires
        hlookup(r.headers, "connection"@) == Some(seq!["close"@]),
    ensures
        req_should_close(r),
{
}

/// Without `connection: close`, the `VERSION` header alone decides: a
/// close exactly on `["HTTP/1.0"]`, whether or not a `connection` header
/// with some other value is present.
pub proof fn lemma_should_close_version(r: RequestModel)
    requires
        hlookup(r.headers, "connection"@) != Some(seq!["close"@]),
    ensures
        req_should_close(r) == (hlookup(r.headers, "VERSION"@) == Some(seq!["HTTP/1.0"@])),
{
}

/// A disconnect announcement is exactly a present JSON sub-body whose
/// `type` entry is the string `disconnect`; any other shape, value or
/// absence is not one.
pub proof fn lemma_is_disconnect(r: RequestModel)
    ensures
        req_is_disconnect(r) <==> (r.json_body matches Some(es) && json_lookup(es, "type"@)
            == Some(JsonValModel::Str("disconnect"@))),
{
}

/// Every successfully parsed request keeps the header invariant: a name
/// absent means "not sent", never an empty list.
pub proof fn lemma_parse_headers_nonempty(s: Seq<u8>)
    ensures
        parse_model(s) matches Ok(r) ==> crate::headers::headers_wf(r.headers),
{
    if let Some(i) = find_space(s, 0) {
        if let Some(j) = find_space(s, i + 1) {
            if let Some(k) = find_space(s, j + 1) {
                let rest = s.skip(k + 1);
                if rest.len() > 0 {
                    if let Ok((htv, used)) = tv_decode(rest) {
                        crate::headers::lemma_headers_model_wf(htv);
                    }
                }
            }
        }
    }
}

/// When parsing succeeds, the JSON sub-body is present exactly when the
/// method is JSON; and what it holds is exactly what the JSON collaborator
/// read out of the body.
pub proof fn lemma_json_body_presence(s: Seq<u8>)
    ensures
        parse_model(s) matches Ok(r) ==> ((r.json_body is Some) <==> hlookup(
            r.headers,
            "METHOD"@,
        ) == Some(seq!["JSON"@])),
        parse_model(s) matches Ok(r) ==> (r.json_body matches Some(es) ==> json_object_of(
            r.body,
        ) == Some(es)),
{
}

} // verus!
