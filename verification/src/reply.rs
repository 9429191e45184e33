//! The reply encoder: outbound raw envelopes, and full HTTP-formatted
//! replies. Note the asymmetry with the inbound side: the outbound body is
//! appended as raw bytes, not typed-value framed.
use vstd::prelude::*;
use vstd::utf8::encode_utf8;

use crate::headers::{Headers, HeadersModel};
use crate::request::SPACE;
use crate::typed_value::{dec_digits, encode_string, push_dec, tv_encode, TvModel};

verus! {

pub const CR: u8 = 13; // '\r'
pub const LF: u8 = 10; // '\n'

/// The ids from `i` on, joined with single spaces.
pub open spec fn join_ids(ids: Seq<Seq<char>>, i: int) -> Seq<char>
    decreases ids.len() - i,
{
    if 0 <= i < ids.len() {
        if i == ids.len() - 1 {
            ids[i]
        } else {
            ids[i] + seq![' '] + join_ids(ids, i + 1)
        }
    } else {
        Seq::empty()
    }
}

/// An outbound raw envelope: the uuid, a space, the joined ids as one
/// encoded string value, a space, then the body as raw bytes.
pub open spec fn send_model(uuid: Seq<char>, ids: Seq<Seq<char>>, body: Seq<u8>) -> Seq<u8> {
    encode_utf8(uuid) + seq![SPACE] + tv_encode(TvModel::Str(encode_utf8(join_ids(ids, 0))))
        + seq![SPACE] + body
}

/// Build one outbound raw envelope, as `send_model` says.
pub fn send_frame(uuid: &str, ids: &Vec<String>, body: &[u8]) -> (r: Vec<u8>)
    ensures
        r@ == send_model(uuid@, ids.deep_view(), body@),
{
    let ghost dv = ids.deep_view();
    proof {
        assert(dv.len() == ids@.len());
        reveal_strlit(" ");
        assert(" "@ =~= seq![' ']);
    }
    let mut joined = String::new();
    let mut i: usize = 0;
    while i < ids.len()
        invariant
            0 <= i <= ids@.len(),
            dv == ids.deep_view(),
            dv.len() == ids@.len(),
            forall|j: int| 0 <= j < ids@.len() ==> dv[j] == #[trigger] ids@[j]@,
            " "@ == seq![' '],
            join_ids(dv, 0) == joined@ + join_ids(dv, i as int),
        decreases ids@.len() - i,
    {
        let ghost before = joined@;
        joined.append(ids[i].as_str());
        if i + 1 < ids.len() {
            joined.append(" ");
            proof {
                assert(joined@ + join_ids(dv, i as int + 1) =~= before + join_ids(dv, i as int));
            }
        } else {
            proof {
                assert(join_ids(dv, i as int + 1) =~= Seq::<char>::empty());
                assert(joined@ + join_ids(dv, i as int + 1) =~= before + join_ids(dv, i as int));
            }
        }
        i = i + 1;
    }
    proof {
        assert(join_ids(dv, i as int) =~= Seq::<char>::empty());
        assert(joined@ =~= join_ids(dv, 0));
    }
    let encoded = encode_string(joined.as_str().as_bytes());
    let mut out: Vec<u8> = Vec::new();
    out.extend_from_slice(uuid.as_bytes());
    out.push(SPACE);
    out.extend_from_slice(encoded.as_slice());
    out.push(SPACE);
    out.extend_from_slice(body);
    proof {
        assert(out@ =~= send_model(uuid@, dv, body@));
    }
    out
}

/// One line per value of one header, in list order.
pub open spec fn value_lines(k: Seq<char>, vs: Seq<Seq<char>>, j: int) -> Seq<u8>
    decreases vs.len() - j,
{
    if 0 <= j < vs.len() {
        encode_utf8(k) + encode_utf8(": "@) + encode_utf8(vs[j]) + seq![CR, LF] + value_lines(
            k,
            vs,
            j + 1,
        )
    } else {
        Seq::empty()
    }
}

/// The header lines from entry `i` on, in mapping order.
pub open spec fn header_lines(hs: HeadersModel, i: int) -> Seq<u8>
    decreases hs.len() - i,
{
    if 0 <= i < hs.len() {
        value_lines(hs[i].0, hs[i].1, 0) + header_lines(hs, i + 1)
    } else {
        Seq::empty()
    }
}

/// A full HTTP reply: the status line, a Content-Length line, one line per
/// header value in mapping then list order, a blank line, and the raw
/// body. No header is ever injected beyond Content-Length.
pub open spec fn http_reply_model(
    code: int,
    status: Seq<char>,
    hs: HeadersModel,
    body: Seq<u8>,
) -> Seq<u8> {
    encode_utf8("HTTP/1.1 "@) + dec_digits(code) + encode_utf8(" "@) + encode_utf8(status) + seq![
        CR,
        LF,
    ] + encode_utf8("Content-Length: "@) + dec_digits(body.len() as int) + seq![CR, LF]
        + header_lines(hs, 0) + seq![CR, LF] + body
}

/// Write the lines of one header's values onto the end of `out`.
fn push_value_lines(out: &mut Vec<u8>, key: &String, vs: &Vec<String>)
    ensures
        final(out)@ == old(out)@ + value_lines(key@, vs.deep_view(), 0),
{
    let ghost dv = vs.deep_view();
    let ghost base = out@;
    proof {
        assert(dv.len() == vs@.len());
        assert(base + value_lines(key@, dv, 0) =~= base + value_lines(key@, dv, 0));
    }
    let mut j: usize = 0;
    while j < vs.len()
        invariant
            0 <= j <= vs@.len(),
            dv == vs.deep_view(),
            dv.len() == vs@.len(),
            forall|l: int| 0 <= l < vs@.len() ==> dv[l] == #[trigger] vs@[l]@,
            out@ + value_lines(key@, dv, j as int) == base + value_lines(key@, dv, 0),
        decreases vs@.len() - j,
    {
        let ghost before = out@;
        out.extend_from_slice(key.as_str().as_bytes());
        out.extend_from_slice(": ".as_bytes());
        out.extend_from_slice(vs[j].as_str().as_bytes());
        out.push(CR);
        out.push(LF);
        proof {
            assert(out@ + value_lines(key@, dv, j as int + 1) =~= before + value_lines(
                key@,
                dv,
                j as int,
            ));
        }
        j = j + 1;
    }
    proof {
        assert(value_lines(key@, dv, j as int) =~= Seq::<u8>::empty());
        assert(out@ =~= base + value_lines(key@, dv, 0));
    }
}

/// Write every header line onto the end of `out`.
fn push_header_lines(out: &mut Vec<u8>, headers: &Headers)
    ensures
        final(out)@ == old(out)@ + header_lines(headers@, 0),
{
    let ghost hm = headers@;
    let ghost base = out@;
    let mut i: usize = 0;
    while i < headers.entries.len()
        invariant
            0 <= i <= headers.entries@.len(),
            hm == headers@,
            hm.len() == headers.entries@.len(),
            forall|l: int|
                0 <= l < headers.entries@.len() ==> #[trigger] hm[l] == (
                headers.entries@[l].0@,
                headers.entries@[l].1.deep_view(),
                ),
            out@ + header_lines(hm, i as int) == base + header_lines(hm, 0),
        decreases headers.entries@.len() - i,
    {
        let ghost before = out@;
        push_value_lines(out, &headers.entries[i].0, &headers.entries[i].1);
        proof {
            assert(out@ + header_lines(hm, i as int + 1) =~= before + header_lines(
                hm,
                i as int,
            ));
        }
        i = i + 1;
    }
    proof {
        assert(header_lines(hm, i as int) =~= Seq::<u8>::empty());
        assert(out@ =~= base + header_lines(hm, 0));
    }
}

/// Build one full HTTP reply, as `http_reply_model` says.
pub fn http_reply(code: usize, status: &str, headers: &Headers, body: &[u8]) -> (r: Vec<u8>)
    ensures
        r@ == http_reply_model(code as int, status@, headers@, body@),
{
    let mut out: Vec<u8> = Vec::new();
    out.extend_from_slice("HTTP/1.1 ".as_bytes());
    push_dec(code, &mut out);
    out.extend_from_slice(" ".as_bytes());
    out.extend_from_slice(status.as_bytes());
    out.push(CR);
    out.push(LF);
    out.extend_from_slice("Content-Length: ".as_bytes());
    push_dec(body.len(), &mut out);
    out.push(CR);
    out.push(LF);
    push_header_lines(&mut out, headers);
    out.push(CR);
    out.push(LF);
    out.extend_from_slice(body);
    proof {
        assert(out@ =~= http_reply_model(code as int, status@, headers@, body@));
    }
    out
}

} // verus!
