//! The typed-value codec: a length-prefixed, tag-terminated serialization.
//! One value is written as an ASCII decimal byte count, a colon, exactly that
//! many payload bytes, and a single tag byte that selects the variant. List
//! and dictionary payloads are themselves concatenations of encoded values.
use vstd::prelude::*;

use crate::FormatError;

verus! {

// Tag bytes of the wire format.
pub const TAG_STR: u8 = 44; // ','
pub const TAG_LIST: u8 = 93; // ']'
pub const TAG_DICT: u8 = 125; // '}'
pub const TAG_INT: u8 = 35; // '#'
pub const TAG_FLOAT: u8 = 94; // '^'
pub const TAG_BOOL: u8 = 33; // '!'
pub const TAG_NULL: u8 = 126; // '~'
pub const COLON: u8 = 58; // ':'
pub const MINUS: u8 = 45; // '-'

/// One typed value. The sum is kept closed with all seven variants even
/// though this protocol only ever carries strings, lists and dictionaries.
#[derive(Debug, PartialEq, Eq)]
pub enum Tv {
    Str(Vec<u8>),
    List(Vec<Tv>),
    Dict(Vec<(Vec<u8>, Tv)>),
    Int(i64),
    /// The payload text of a floating-point value, kept undecoded.
    Float(Vec<u8>),
    Bool(bool),
    Null,
}

/// The mathematical shape of a typed value.
pub enum TvModel {
    Str(Seq<u8>),
    List(Seq<TvModel>),
    Dict(Seq<(Seq<u8>, TvModel)>),
    Int(int),
    Float(Seq<u8>),
    Bool(bool),
    Null,
}

pub open spec fn tv_model(t: Tv) -> TvModel
    decreases t, 0int,
{
    match t {
        Tv::Str(b) => TvModel::Str(b@),
        Tv::List(ts) => TvModel::List(tv_models_from(ts@, 0)),
        Tv::Dict(ps) => TvModel::Dict(tv_pair_models_from(ps@, 0)),
        Tv::Int(n) => TvModel::Int(n as int),
        Tv::Float(b) => TvModel::Float(b@),
        Tv::Bool(b) => TvModel::Bool(b),
        Tv::Null => TvModel::Null,
    }
}

pub open spec fn tv_models_from(ts: Seq<Tv>, i: int) -> Seq<TvModel>
    decreases ts, ts.len() - i,
{
    if 0 <= i < ts.len() {
        seq![tv_model(ts[i])] + tv_models_from(ts, i + 1)
    } else {
        Seq::empty()
    }
}

pub open spec fn tv_pair_models_from(ps: Seq<(Vec<u8>, Tv)>, i: int) -> Seq<(Seq<u8>, TvModel)>
    decreases ps, ps.len() - i,
{
    if 0 <= i < ps.len() {
        seq![(ps[i].0@, tv_model(ps[i].1))] + tv_pair_models_from(ps, i + 1)
    } else {
        Seq::empty()
    }
}

impl View for Tv {
    type V = TvModel;

    open spec fn view(&self) -> TvModel {
        tv_model(*self)
    }
}

pub open spec fn is_digit(b: u8) -> bool {
    48 <= b && b <= 57
}

/// How many leading bytes of `s` are ASCII digits.
pub open spec fn digit_prefix_len(s: Seq<u8>) -> int
    decreases s.len(),
{
    if s.len() > 0 && is_digit(s[0]) {
        1 + digit_prefix_len(s.skip(1))
    } else {
        0
    }
}

/// The number written by a sequence of ASCII digits.
pub open spec fn dec_value(s: Seq<u8>) -> int
    decreases s.len(),
{
    if s.len() == 0 {
        0
    } else {
        dec_value(s.drop_last()) * 10 + (s.last() - 48)
    }
}

pub open spec fn all_digits(s: Seq<u8>) -> bool {
    forall|i: int| 0 <= i < s.len() ==> is_digit(#[trigger] s[i])
}

/// A well-formed integer payload: an optional minus sign, then digits, with
/// a value that the codec's signed 64-bit integers can carry.
pub open spec fn int_payload_ok(p: Seq<u8>) -> bool {
    if p.len() > 0 && p[0] == MINUS {
        p.len() > 1 && all_digits(p.skip(1)) && -dec_value(p.skip(1)) >= i64::MIN as int
    } else {
        p.len() > 0 && all_digits(p) && dec_value(p) <= i64::MAX as int
    }
}

pub open spec fn int_payload_value(p: Seq<u8>) -> int {
    if p.len() > 0 && p[0] == MINUS {
        -dec_value(p.skip(1))
    } else {
        dec_value(p)
    }
}

pub open spec fn true_bytes() -> Seq<u8> {
    seq![116u8, 114u8, 117u8, 101u8]
}

pub open spec fn false_bytes() -> Seq<u8> {
    seq![102u8, 97u8, 108u8, 115u8, 101u8]
}

pub open spec fn bool_payload(p: Seq<u8>) -> Option<bool> {
    if p == true_bytes() {
        Some(true)
    } else if p == false_bytes() {
        Some(false)
    } else {
        None
    }
}

/// What decoding the front of `s` yields: a value and the count of bytes it
/// occupied, or the reason decoding is refused. Decoding never looks past
/// the declared extent of a value.
pub open spec fn tv_decode(s: Seq<u8>) -> Result<(TvModel, int), FormatError>
    decreases s.len(), 0int,
{
    let d = digit_prefix_len(s);
    if d < 1 || d >= s.len() || s[d] != COLON {
        Err(FormatError::Length)
    } else {
        let n = dec_value(s.subrange(0, d));
        if n < 0 || n > s.len() - d - 2 {
            Err(FormatError::Truncated)
        } else {
            let payload = s.subrange(d + 1, d + 1 + n);
            let tag = s[d + 1 + n];
            let used = d + 2 + n;
            if tag == TAG_STR {
                Ok((TvModel::Str(payload), used))
            } else if tag == TAG_LIST {
                match tv_decode_items(payload) {
                    Ok(items) => Ok((TvModel::List(items), used)),
                    Err(e) => Err(e),
                }
            } else if tag == TAG_DICT {
                match tv_decode_pairs(payload) {
                    Ok(pairs) => Ok((TvModel::Dict(pairs), used)),
                    Err(e) => Err(e),
                }
            } else if tag == TAG_INT {
                if int_payload_ok(payload) {
                    Ok((TvModel::Int(int_payload_value(payload)), used))
                } else {
                    Err(FormatError::Payload)
                }
            } else if tag == TAG_FLOAT {
                Ok((TvModel::Float(payload), used))
            } else if tag == TAG_BOOL {
                match bool_payload(payload) {
                    Some(b) => Ok((TvModel::Bool(b), used)),
                    None => Err(FormatError::Payload),
                }
            } else if tag == TAG_NULL {
                if payload.len() == 0 {
                    Ok((TvModel::Null, used))
                } else {
                    Err(FormatError::Payload)
                }
            } else {
                Err(FormatError::Tag)
            }
        }
    }
}

/// The values encoded back to back in a list payload, parsed until the
/// payload is exhausted.
pub open spec fn tv_decode_items(s: Seq<u8>) -> Result<Seq<TvModel>, FormatError>
    decreases s.len(), 1int,
{
    if s.len() == 0 {
        Ok(Seq::empty())
    } else {
        match tv_decode(s) {
            Err(e) => Err(e),
            Ok((v, used)) => if 0 < used <= s.len() {
                match tv_decode_items(s.skip(used)) {
                    Ok(items) => Ok(seq![v] + items),
                    Err(e) => Err(e),
                }
            } else {
                Err(FormatError::Truncated)
            },
        }
    }
}

/// The key-value pairs encoded back to back in a dictionary payload; every
/// key must be a string value.
pub open spec fn tv_decode_pairs(s: Seq<u8>) -> Result<Seq<(Seq<u8>, TvModel)>, FormatError>
    decreases s.len(), 1int,
{
    if s.len() == 0 {
        Ok(Seq::empty())
    } else {
        match tv_decode(s) {
            Err(e) => Err(e),
            Ok((k, used1)) => match k {
                TvModel::Str(kb) => if 0 < used1 < s.len() {
                    match tv_decode(s.skip(used1)) {
                        Err(e) => Err(e),
                        Ok((v, used2)) => if 0 < used2 <= s.len() - used1 {
                            match tv_decode_pairs(s.skip(used1).skip(used2)) {
                                Ok(pairs) => Ok(seq![(kb, v)] + pairs),
                                Err(e) => Err(e),
                            }
                        } else {
                            Err(FormatError::Truncated)
                        },
                    }
                } else {
                    Err(FormatError::Truncated)
                },
                _ => Err(FormatError::Payload),
            },
        }
    }
}

/// A decoded value occupies at least the colon, one digit and the tag, and
/// never more than the whole input: decoding cannot read past the buffer.
pub proof fn lemma_tv_decode_used(s: Seq<u8>)
    ensures
        tv_decode(s) matches Ok((v, used)) ==> 3 <= used <= s.len(),
{
    lemma_digit_prefix(s);
    if tv_decode(s) is Ok {
        let d = digit_prefix_len(s);
        lemma_dec_value_nonneg(s.subrange(0, d));
    }
}

/// The digit prefix is made of digits, ends at the first non-digit, and is
/// no longer than the input.
pub proof fn lemma_digit_prefix(s: Seq<u8>)
    ensures
        0 <= digit_prefix_len(s) <= s.len(),
        forall|j: int| 0 <= j < digit_prefix_len(s) ==> is_digit(#[trigger] s[j]),
        digit_prefix_len(s) < s.len() ==> !is_digit(s[digit_prefix_len(s)]),
    decreases s.len(),
{
    if s.len() > 0 && is_digit(s[0]) {
        lemma_digit_prefix(s.skip(1));
        assert forall|j: int| 0 <= j < digit_prefix_len(s) implies is_digit(#[trigger] s[j]) by {
            if j > 0 {
                assert(s.skip(1)[j - 1] == s[j]);
            }
        }
        if digit_prefix_len(s) < s.len() {
            assert(s.skip(1)[digit_prefix_len(s) - 1] == s[digit_prefix_len(s)]);
        }
    }
}

pub proof fn lemma_dec_value_nonneg(s: Seq<u8>)
    requires
        all_digits(s),
    ensures
        dec_value(s) >= 0,
    decreases s.len(),
{
    if s.len() > 0 {
        assert(all_digits(s.drop_last())) by {
            assert(forall|i: int| 0 <= i < s.len() - 1 ==> s.drop_last()[i] == #[trigger] s[i]);
        }
        lemma_dec_value_nonneg(s.drop_last());
    }
}

/// Which values the outbound side can carry: strings, and lists whose
/// members can all be carried.
pub open spec fn tv_encodable(v: TvModel) -> bool
    decreases v, 0int,
{
    match v {
        TvModel::Str(_) => true,
        TvModel::List(items) => tv_all_encodable(items, 0),
        _ => false,
    }
}

pub open spec fn tv_all_encodable(items: Seq<TvModel>, i: int) -> bool
    decreases items, items.len() - i,
{
    if 0 <= i < items.len() {
        tv_encodable(items[i]) && tv_all_encodable(items, i + 1)
    } else {
        true
    }
}

/// The decimal digits of `n`, most significant first.
pub open spec fn dec_digits(n: int) -> Seq<u8>
    decreases n,
{
    if n < 10 {
        seq![(48 + n) as u8]
    } else {
        dec_digits(n / 10).push((48 + n % 10) as u8)
    }
}

/// One framed value: the payload's length in decimal, a colon, the payload,
/// and the tag byte.
pub open spec fn tv_frame(payload: Seq<u8>, tag: u8) -> Seq<u8> {
    dec_digits(payload.len() as int) + seq![COLON] + payload + seq![tag]
}

/// The bytes that encoding a value produces. Only strings and lists are
/// given a meaning here; `tv_encodable` says which values those are.
pub open spec fn tv_encode(v: TvModel) -> Seq<u8>
    decreases v, 0int,
{
    match v {
        TvModel::Str(p) => tv_frame(p, TAG_STR),
        TvModel::List(items) => tv_frame(tv_encode_items(items, 0), TAG_LIST),
        _ => Seq::empty(),
    }
}

pub open spec fn tv_encode_items(items: Seq<TvModel>, i: int) -> Seq<u8>
    decreases items, items.len() - i,
{
    if 0 <= i < items.len() {
        tv_encode(items[i]) + tv_encode_items(items, i + 1)
    } else {
        Seq::empty()
    }
}

pub proof fn lemma_dec_digits(n: int)
    requires
        n >= 0,
    ensures
        all_digits(dec_digits(n)),
        dec_digits(n).len() >= 1,
        dec_value(dec_digits(n)) == n,
    decreases n,
{
    if n < 10 {
        let dd = dec_digits(n);
        assert(dd.drop_last() =~= Seq::<u8>::empty());
        assert(dec_value(dd.drop_last()) == 0);
        assert(dd.last() == (48 + n) as u8);
        assert((48 + n) as u8 == 48 + n);
        assert(dec_value(dd) == dec_value(dd.drop_last()) * 10 + (dd.last() - 48));
    } else {
        lemma_dec_digits(n / 10);
        vstd::arithmetic::div_mod::lemma_fundamental_div_mod(n, 10);
        let dd = dec_digits(n);
        let dq = dec_digits(n / 10);
        assert(dd.drop_last() =~= dq);
        assert(dd.last() == (48 + n % 10) as u8);
        assert(0 <= n % 10 < 10);
        assert(all_digits(dd)) by {
            assert(forall|i: int| 0 <= i < dq.len() ==> dd[i] == #[trigger] dq[i]);
        }
        assert(dec_value(dd) == (n / 10) * 10 + n % 10);
    }
}

/// Scanning for digits in a digit string followed by anything that does not
/// start with a digit stops exactly at the boundary.
pub proof fn lemma_digit_prefix_of(a: Seq<u8>, b: Seq<u8>)
    requires
        all_digits(a),
        b.len() > 0,
        !is_digit(b[0]),
    ensures
        digit_prefix_len(a + b) == a.len(),
    decreases a.len(),
{
    if a.len() == 0 {
        assert(a + b =~= b);
    } else {
        let s = a + b;
        assert(s[0] == a[0]);
        assert(s.skip(1) =~= a.skip(1) + b);
        assert(all_digits(a.skip(1))) by {
            assert(forall|i: int| 0 <= i < a.len() - 1 ==> a.skip(1)[i] == #[trigger] a[i + 1]);
        }
        lemma_digit_prefix_of(a.skip(1), b);
    }
}

/// An encoded value never takes fewer bytes than its frame: one digit, the
/// colon and the tag.
pub proof fn lemma_tv_encode_len(v: TvModel)
    requires
        tv_encodable(v),
    ensures
        tv_encode(v).len() >= 3,
{
    match v {
        TvModel::Str(p) => {
            lemma_dec_digits(p.len() as int);
        },
        TvModel::List(items) => {
            lemma_dec_digits(tv_encode_items(items, 0).len() as int);
        },
        _ => {},
    }
}

/// Decoding an encoded value in front of any trailing bytes yields exactly
/// that value and consumes exactly its encoding.
pub proof fn lemma_tv_encode_decode(v: TvModel, rest: Seq<u8>)
    requires
        tv_encodable(v),
    ensures
        tv_decode(tv_encode(v) + rest) == Ok::<(TvModel, int), FormatError>(
            (v, tv_encode(v).len() as int),
        ),
    decreases v, 0int,
{
    let e = tv_encode(v);
    let s = e + rest;
    let (p, tag) = match v {
        TvModel::Str(p) => (p, TAG_STR),
        TvModel::List(items) => (tv_encode_items(items, 0), TAG_LIST),
        _ => (Seq::empty(), 0u8),
    };
    let dd = dec_digits(p.len() as int);
    lemma_dec_digits(p.len() as int);
    let back = seq![COLON] + p + seq![tag] + rest;
    assert(s =~= dd + back);
    assert(!is_digit(back[0]));
    lemma_digit_prefix_of(dd, back);
    let d = digit_prefix_len(s);
    assert(d == dd.len());
    assert(s[d] == back[0]);
    assert(s.subrange(0, d) =~= dd);
    let n = dec_value(s.subrange(0, d));
    assert(n == p.len());
    assert(s.len() == d + 1 + n + 1 + rest.len());
    assert(s.subrange(d + 1, d + 1 + n) =~= p) by {
        assert(forall|i: int|
            0 <= i < n ==> s.subrange(d + 1, d + 1 + n)[i] == #[trigger] back[i + 1]);
        assert(forall|i: int| 0 <= i < n ==> back[i + 1] == #[trigger] p[i]);
    }
    assert(s[d + 1 + n] == back[n + 1]);
    assert(back[n + 1] == tag);
    assert(e.len() == d + 2 + n);
    match v {
        TvModel::Str(_) => {},
        TvModel::List(items) => {
            lemma_tv_encode_items_decode(items, 0);
            assert(items.skip(0) =~= items);
        },
        _ => {},
    }
}

/// Decoding the back-to-back encodings of the members of a list from index
/// `i` on yields exactly those members.
pub proof fn lemma_tv_encode_items_decode(items: Seq<TvModel>, i: int)
    requires
        0 <= i <= items.len(),
        tv_all_encodable(items, i),
    ensures
        tv_decode_items(tv_encode_items(items, i)) == Ok::<Seq<TvModel>, FormatError>(
            items.skip(i),
        ),
    decreases items, items.len() - i,
{
    if i == items.len() {
        assert(items.skip(i) =~= Seq::<TvModel>::empty());
    } else {
        let head = tv_encode(items[i]);
        let tail = tv_encode_items(items, i + 1);
        let s = tv_encode_items(items, i);
        assert(s == head + tail);
        lemma_tv_encode_len(items[i]);
        lemma_tv_encode_decode(items[i], tail);
        assert(s.len() > 0);
        assert(s.skip(head.len() as int) =~= tail);
        lemma_tv_encode_items_decode(items, i + 1);
        assert(seq![items[i]] + items.skip(i + 1) =~= items.skip(i));
    }
}

/// Round trip: decoding an encoding yields the encoded value back, with the
/// whole input consumed.
pub proof fn lemma_tv_round_trip(v: TvModel)
    requires
        tv_encodable(v),
    ensures
        tv_decode(tv_encode(v)) == Ok::<(TvModel, int), FormatError>(
            (v, tv_encode(v).len() as int),
        ),
{
    lemma_tv_encode_decode(v, Seq::empty());
    assert(tv_encode(v) + Seq::<u8>::empty() =~= tv_encode(v));
}

/// A length prefix that declares more bytes than remain after it makes
/// decoding fail, whatever those bytes hold: nothing past the buffer end is
/// ever read or guessed at.
pub proof fn lemma_tv_truncated(digits: Seq<u8>, rest: Seq<u8>)
    requires
        digits.len() > 0,
        all_digits(digits),
        dec_value(digits) > rest.len() - 1,
    ensures
        tv_decode(digits + seq![COLON] + rest) == Err::<(TvModel, int), FormatError>(
            FormatError::Truncated,
        ),
{
    let back = seq![COLON] + rest;
    let s = digits + seq![COLON] + rest;
    assert(s =~= digits + back);
    assert(!is_digit(back[0]));
    lemma_digit_prefix_of(digits, back);
    let d = digit_prefix_len(s);
    assert(s[d] == back[0]);
    assert(s.subrange(0, d) =~= digits);
    lemma_dec_value_nonneg(digits);
    assert(s.len() - d - 2 == rest.len() - 1);
}

/// The number written by a digit string is at least the number written by
/// any of its prefixes.
pub proof fn lemma_dec_value_prefix(s: Seq<u8>, i: int)
    requires
        all_digits(s),
        0 <= i <= s.len(),
    ensures
        dec_value(s.subrange(0, i)) <= dec_value(s),
    decreases s.len() - i,
{
    if i == s.len() {
        assert(s.subrange(0, i) =~= s);
    } else {
        let a = s.subrange(0, i);
        let b = s.subrange(0, i + 1);
        assert(b.drop_last() =~= a);
        assert(all_digits(a)) by {
            assert(forall|j: int| 0 <= j < i ==> a[j] == #[trigger] s[j]);
        }
        lemma_dec_value_nonneg(a);
        assert(dec_value(b) == dec_value(a) * 10 + (s[i] - 48));
        lemma_dec_value_prefix(s, i + 1);
    }
}

/// `tv_all_encodable` from `i` holds exactly when every member from `i` on
/// is encodable.
pub proof fn lemma_tv_all_encodable_iff(items: Seq<TvModel>, i: int)
    requires
        0 <= i <= items.len(),
    ensures
        tv_all_encodable(items, i) <==> (forall|j: int|
            i <= j < items.len() ==> tv_encodable(#[trigger] items[j])),
    decreases items.len() - i,
{
    if i < items.len() {
        lemma_tv_all_encodable_iff(items, i + 1);
    }
}

/// The member models from index `i` on, one for each member.
pub proof fn lemma_tv_models_from(ts: Seq<Tv>, i: int)
    requires
        0 <= i <= ts.len(),
    ensures
        tv_models_from(ts, i).len() == ts.len() - i,
        forall|j: int|
            0 <= j < ts.len() - i ==> tv_models_from(ts, i)[j] == tv_model(ts[i + j]),
    decreases ts.len() - i,
{
    if i < ts.len() {
        lemma_tv_models_from(ts, i + 1);
    }
}

/// The pair models from index `i` on, one for each pair.
pub proof fn lemma_tv_pair_models_from(ps: Seq<(Vec<u8>, Tv)>, i: int)
    requires
        0 <= i <= ps.len(),
    ensures
        tv_pair_models_from(ps, i).len() == ps.len() - i,
        forall|j: int|
            0 <= j < ps.len() - i ==> tv_pair_models_from(ps, i)[j] == (
            ps[i + j].0@,
            tv_model(ps[i + j].1),
            ),
    decreases ps.len() - i,
{
    if i < ps.len() {
        lemma_tv_pair_models_from(ps, i + 1);
    }
}

/// The digit scan stops exactly where the digits stop.
pub proof fn lemma_digit_prefix_is(s: Seq<u8>, d: int)
    requires
        0 <= d <= s.len(),
        forall|j: int| 0 <= j < d ==> is_digit(#[trigger] s[j]),
        d < s.len() ==> !is_digit(s[d]),
    ensures
        digit_prefix_len(s) == d,
    decreases s.len(),
{
    if d == 0 {
    } else {
        assert(is_digit(s[0]));
        assert(forall|j: int| 0 <= j < d - 1 ==> s.skip(1)[j] == #[trigger] s[j + 1]);
        if d - 1 < s.skip(1).len() {
            assert(s.skip(1)[d - 1] == s[d]);
        }
        lemma_digit_prefix_is(s.skip(1), d - 1);
    }
}

/// Decode the first typed value of `data` and hand back the bytes after it.
/// An empty input carries no value at all; anything else either decodes or
/// is refused for the reason `tv_decode` gives.
pub fn decode<'a>(data: &'a [u8]) -> (r: Result<(Option<Tv>, &'a [u8]), FormatError>)
    ensures
        match r {
            Ok((ov, rest)) => match ov {
                Some(v) => {
                    &&& tv_decode(data@) matches Ok((m, used)) && m == v@ && rest@ == data@.skip(
                        used,
                    )
                    &&& data@.len() > 0
                },
                None => data@.len() == 0 && rest@ == data@,
            },
            Err(e) => data@.len() > 0 && tv_decode(data@) == Err::<(TvModel, int), FormatError>(
                e,
            ),
        },
{
    if data.len() == 0 {
        Ok((None, data))
    } else {
        match decode_value(data) {
            Ok((v, used)) => {
                let rest = vstd::slice::slice_subrange(data, used, data.len());
                proof {
                    assert(data@.subrange(used as int, data@.len() as int) =~= data@.skip(
                        used as int,
                    ));
                }
                Ok((Some(v), rest))
            },
            Err(e) => Err(e),
        }
    }
}

/// Decode one value at the front of `s`, with the count of bytes it took.
fn decode_value(s: &[u8]) -> (r: Result<(Tv, usize), FormatError>)
    ensures
        match r {
            Ok((v, used)) => tv_decode(s@) == Ok::<(TvModel, int), FormatError>(
                (v@, used as int),
            ) && used <= s@.len(),
            Err(e) => tv_decode(s@) == Err::<(TvModel, int), FormatError>(e),
        },
    decreases s@.len(), 0int,
{
    let mut d: usize = 0;
    while d < s.len() && 48 <= s[d] && s[d] <= 57
        invariant
            0 <= d <= s@.len(),
            forall|j: int| 0 <= j < d ==> is_digit(#[trigger] s@[j]),
        decreases s@.len() - d,
    {
        d = d + 1;
    }
    proof {
        lemma_digit_prefix_is(s@, d as int);
    }
    if d == 0 || d >= s.len() || s[d] != COLON {
        return Err(FormatError::Length);
    }
    let ghost digits = s@.subrange(0, d as int);
    let mut acc: u128 = 0;
    let mut i: usize = 0;
    while i < d
        invariant
            0 <= i <= d,
            1 <= d < s@.len(),
            s@.len() <= usize::MAX,
            s@[d as int] == COLON,
            digit_prefix_len(s@) == d as int,
            forall|j: int| 0 <= j < d ==> is_digit(#[trigger] s@[j]),
            digits == s@.subrange(0, d as int),
            acc == dec_value(s@.subrange(0, i as int)),
            acc <= usize::MAX as u128,
        decreases d - i,
    {
        proof {
            assert(s@.subrange(0, i as int + 1).drop_last() =~= s@.subrange(0, i as int));
            assert(s@.subrange(0, i as int + 1).last() == s@[i as int]);
        }
        acc = acc * 10 + (s[i] - 48) as u128;
        i = i + 1;
        if acc > usize::MAX as u128 {
            proof {
                assert(all_digits(digits)) by {
                    assert(forall|j: int|
                        0 <= j < digits.len() ==> digits[j] == #[trigger] s@[j]);
                }
                lemma_dec_value_prefix(digits, i as int);
                assert(digits.subrange(0, i as int) =~= s@.subrange(0, i as int));
                assert(dec_value(digits) >= acc);
            }
            return Err(FormatError::Truncated);
        }
    }
    proof {
        assert(s@.subrange(0, i as int) =~= digits);
    }
    let n = acc as usize;
    let after = s.len() - d - 1;
    if n >= after {
        return Err(FormatError::Truncated);
    }
    let payload = vstd::slice::slice_subrange(s, d + 1, d + 1 + n);
    let tag = s[d + 1 + n];
    let used = d + 2 + n;
    if tag == TAG_STR {
        Ok((Tv::Str(vstd::slice::slice_to_vec(payload)), used))
    } else if tag == TAG_LIST {
        match decode_items(payload) {
            Ok(items) => Ok((Tv::List(items), used)),
            Err(e) => Err(e),
        }
    } else if tag == TAG_DICT {
        match decode_pairs(payload) {
            Ok(pairs) => Ok((Tv::Dict(pairs), used)),
            Err(e) => Err(e),
        }
    } else if tag == TAG_INT {
        match parse_int_payload(payload) {
            Ok(v) => Ok((Tv::Int(v), used)),
            Err(e) => Err(e),
        }
    } else if tag == TAG_FLOAT {
        Ok((Tv::Float(vstd::slice::slice_to_vec(payload)), used))
    } else if tag == TAG_BOOL {
        if is_payload(payload, true) {
            Ok((Tv::Bool(true), used))
        } else if is_payload(payload, false) {
            Ok((Tv::Bool(false), used))
        } else {
            Err(FormatError::Payload)
        }
    } else if tag == TAG_NULL {
        if payload.len() == 0 {
            proof {
                assert(payload@ =~= Seq::<u8>::empty());
            }
            Ok((Tv::Null, used))
        } else {
            Err(FormatError::Payload)
        }
    } else {
        Err(FormatError::Tag)
    }
}

/// Whether `p` spells the given boolean.
fn is_payload(p: &[u8], which: bool) -> (r: bool)
    ensures
        r == (p@ == if which {
            true_bytes()
        } else {
            false_bytes()
        }),
{
    if which {
        let r = p.len() == 4 && p[0] == 116 && p[1] == 114 && p[2] == 117 && p[3] == 101;
        proof {
            if r {
                assert(p@ =~= true_bytes());
            }
        }
        r
    } else {
        let r = p.len() == 5 && p[0] == 102 && p[1] == 97 && p[2] == 108 && p[3] == 115 && p[4]
            == 101;
        proof {
            if r {
                assert(p@ =~= false_bytes());
            }
        }
        r
    }
}

/// Decode the members of a list payload until it is exhausted.
fn decode_items(s: &[u8]) -> (r: Result<Vec<Tv>, FormatError>)
    ensures
        match r {
            Ok(items) => tv_decode_items(s@) == Ok::<Seq<TvModel>, FormatError>(
                tv_models_from(items@, 0),
            ),
            Err(e) => tv_decode_items(s@) == Err::<Seq<TvModel>, FormatError>(e),
        },
    decreases s@.len(), 1int,
{
    if s.len() == 0 {
        let items: Vec<Tv> = Vec::new();
        proof {
            lemma_tv_models_from(items@, 0);
            assert(tv_models_from(items@, 0) =~= Seq::<TvModel>::empty());
        }
        Ok(items)
    } else {
        match decode_value(s) {
            Err(e) => Err(e),
            Ok((v, used)) => {
                proof {
                    lemma_tv_decode_used(s@);
                }
                let rest = vstd::slice::slice_subrange(s, used, s.len());
                proof {
                    assert(rest@ =~= s@.skip(used as int));
                }
                match decode_items(rest) {
                    Err(e) => Err(e),
                    Ok(mut items) => {
                        let ghost old_items = items@;
                        items.insert(0, v);
                        proof {
                            lemma_tv_models_from(items@, 0);
                            lemma_tv_models_from(old_items, 0);
                            assert(tv_models_from(items@, 0) =~= seq![v@] + tv_models_from(
                                old_items,
                                0,
                            ));
                        }
                        Ok(items)
                    },
                }
            },
        }
    }
}

/// Decode the key-value pairs of a dictionary payload until it is exhausted.
fn decode_pairs(s: &[u8]) -> (r: Result<Vec<(Vec<u8>, Tv)>, FormatError>)
    ensures
        match r {
            Ok(pairs) => tv_decode_pairs(s@) == Ok::<Seq<(Seq<u8>, TvModel)>, FormatError>(
                tv_pair_models_from(pairs@, 0),
            ),
            Err(e) => tv_decode_pairs(s@) == Err::<Seq<(Seq<u8>, TvModel)>, FormatError>(e),
        },
    decreases s@.len(), 1int,
{
    if s.len() == 0 {
        let pairs: Vec<(Vec<u8>, Tv)> = Vec::new();
        proof {
            lemma_tv_pair_models_from(pairs@, 0);
            assert(tv_pair_models_from(pairs@, 0) =~= Seq::<(Seq<u8>, TvModel)>::empty());
        }
        Ok(pairs)
    } else {
        match decode_value(s) {
            Err(e) => Err(e),
            Ok((k, used1)) => {
                proof {
                    lemma_tv_decode_used(s@);
                }
                match k {
                    Tv::Str(kb) => {
                        if used1 >= s.len() {
                            return Err(FormatError::Truncated);
                        }
                        let s2 = vstd::slice::slice_subrange(s, used1, s.len());
                        proof {
                            assert(s2@ =~= s@.skip(used1 as int));
                        }
                        match decode_value(s2) {
                            Err(e) => Err(e),
                            Ok((v, used2)) => {
                                proof {
                                    lemma_tv_decode_used(s2@);
                                }
                                let rest = vstd::slice::slice_subrange(s2, used2, s2.len());
                                proof {
                                    assert(rest@ =~= s2@.skip(used2 as int));
                                }
                                match decode_pairs(rest) {
                                    Err(e) => Err(e),
                                    Ok(mut pairs) => {
                                        let ghost old_pairs = pairs@;
                                        pairs.insert(0, (kb, v));
                                        proof {
                                            lemma_tv_pair_models_from(pairs@, 0);
                                            lemma_tv_pair_models_from(old_pairs, 0);
                                            assert(tv_pair_models_from(pairs@, 0) =~= seq![
                                                (pairs@[0].0@, v@),
                                            ] + tv_pair_models_from(old_pairs, 0));
                                        }
                                        Ok(pairs)
                                    },
                                }
                            },
                        }
                    },
                    _ => Err(FormatError::Payload),
                }
            },
        }
    }
}

/// Read an integer payload: an optional minus sign and decimal digits, held
/// to the signed 64-bit range.
fn parse_int_payload(p: &[u8]) -> (r: Result<i64, FormatError>)
    ensures
        match r {
            Ok(v) => int_payload_ok(p@) && v as int == int_payload_value(p@),
            Err(e) => !int_payload_ok(p@) && e == FormatError::Payload,
        },
{
    let neg = p.len() > 0 && p[0] == MINUS;
    let start: usize = if neg {
        1
    } else {
        0
    };
    let ghost seg = if neg {
        p@.skip(1)
    } else {
        p@
    };
    if p.len() == start {
        return Err(FormatError::Payload);
    }
    let limit: u128 = if neg {
        9223372036854775808
    } else {
        9223372036854775807
    };
    let mut acc: u128 = 0;
    let mut i: usize = start;
    while i < p.len()
        invariant
            start <= i <= p@.len(),
            start == if neg {
                1int
            } else {
                0int
            },
            neg == (p@.len() > 0 && p@[0] == MINUS),
            seg == if neg {
                p@.skip(1)
            } else {
                p@
            },
            limit == if neg {
                9223372036854775808u128
            } else {
                9223372036854775807u128
            },
            forall|j: int| start <= j < i ==> is_digit(#[trigger] p@[j]),
            acc == dec_value(seg.subrange(0, i - start)),
            acc <= limit,
        decreases p@.len() - i,
    {
        let b = p[i];
        if b < 48 || b > 57 {
            return Err(FormatError::Payload);
        }
        proof {
            let k = i - start;
            assert(seg.subrange(0, k + 1).drop_last() =~= seg.subrange(0, k));
            assert(seg.subrange(0, k + 1).last() == seg[k]);
            assert(seg[k] == p@[i as int]);
        }
        acc = acc * 10 + (b - 48) as u128;
        i = i + 1;
        if acc > limit {
            proof {
                if all_digits(seg) {
                    lemma_dec_value_prefix(seg, i - start);
                }
            }
            return Err(FormatError::Payload);
        }
    }
    proof {
        assert(seg =~= p@.subrange(start as int, p@.len() as int));
        assert forall|j: int| 0 <= j < seg.len() implies is_digit(#[trigger] seg[j]) by {
            assert(seg[j] == p@[j + start]);
        }
        assert(seg.subrange(0, i - start) =~= seg);
    }
    if neg {
        let v = (-(acc as i128)) as i64;
        proof {
            assert(v as int == -(acc as int));
        }
        Ok(v)
    } else {
        Ok(acc as i64)
    }
}

/// Write the decimal digits of `n` onto the end of `out`.
pub(crate) fn push_dec(n: usize, out: &mut Vec<u8>)
    ensures
        final(out)@ == old(out)@ + dec_digits(n as int),
    decreases n,
{
    if n < 10 {
        out.push(48 + n as u8);
        proof {
            assert(out@ =~= old(out)@ + dec_digits(n as int));
        }
    } else {
        push_dec(n / 10, out);
        out.push(48 + (n % 10) as u8);
        proof {
            assert(out@ =~= old(out)@ + dec_digits(n as int));
        }
    }
}

/// Frame one payload: length in decimal, colon, payload, tag.
fn frame_bytes(payload: &[u8], tag: u8) -> (r: Vec<u8>)
    ensures
        r@ == tv_frame(payload@, tag),
{
    let mut out: Vec<u8> = Vec::new();
    push_dec(payload.len(), &mut out);
    out.push(COLON);
    out.extend_from_slice(payload);
    out.push(tag);
    proof {
        assert(out@ =~= tv_frame(payload@, tag));
    }
    out
}

/// Encode a string value: the exact inverse of decoding it.
pub fn encode_string(payload: &[u8]) -> (r: Vec<u8>)
    ensures
        r@ == tv_encode(TvModel::Str(payload@)),
{
    frame_bytes(payload, TAG_STR)
}

/// Encode a value for the outbound side. Only strings and lists of
/// encodable values can travel; anything else is refused.
pub fn encode(v: &Tv) -> (r: Result<Vec<u8>, FormatError>)
    ensures
        match r {
            Ok(b) => tv_encodable(v@) && b@ == tv_encode(v@),
            Err(e) => !tv_encodable(v@) && e == FormatError::Unencodable,
        },
    decreases *v,
{
    match v {
        Tv::Str(p) => Ok(frame_bytes(p.as_slice(), TAG_STR)),
        Tv::List(items) => {
            let ghost models = tv_models_from(items@, 0);
            proof {
                lemma_tv_models_from(items@, 0);
            }
            let mut payload: Vec<u8> = Vec::new();
            let mut j: usize = 0;
            while j < items.len()
                invariant
                    0 <= j <= items@.len(),
                    *v == Tv::List(*items),
                    v@ == TvModel::List(models),
                    models == tv_models_from(items@, 0),
                    models.len() == items@.len(),
                    forall|k: int| 0 <= k < items@.len() ==> models[k] == tv_model(items@[k]),
                    forall|k: int| 0 <= k < j ==> tv_encodable(#[trigger] models[k]),
                    payload@ + tv_encode_items(models, j as int) == tv_encode_items(models, 0),
                decreases items@.len() - j,
            {
                proof {
                    assert(decreases_to!(*v => *items));
                    assert(decreases_to!(*items => items@[j as int]));
                }
                match encode(&items[j]) {
                    Ok(piece) => {
                        let ghost before = payload@;
                        payload.extend_from_slice(piece.as_slice());
                        proof {
                            assert(tv_encode_items(models, j as int) == tv_encode(models[j as int])
                                + tv_encode_items(models, j as int + 1));
                            assert(payload@ + tv_encode_items(models, j as int + 1)
                                =~= before + tv_encode_items(models, j as int));
                        }
                        j = j + 1;
                    },
                    Err(e) => {
                        proof {
                            lemma_tv_all_encodable_iff(models, 0);
                        }
                        return Err(e);
                    },
                }
            }
            proof {
                lemma_tv_all_encodable_iff(models, 0);
                assert(tv_encode_items(models, j as int) =~= Seq::<u8>::empty());
                assert(payload@ =~= tv_encode_items(models, 0));
            }
            Ok(frame_bytes(payload.as_slice(), TAG_LIST))
        },
        Tv::Dict(_) => Err(FormatError::Unencodable),
        Tv::Int(_) => Err(FormatError::Unencodable),
        Tv::Float(_) => Err(FormatError::Unencodable),
        Tv::Bool(_) => Err(FormatError::Unencodable),
        Tv::Null => Err(FormatError::Unencodable),
    }
}

} // verus!


