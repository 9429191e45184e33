//! The header normalizer: whatever shape the wire delivered — a typed-value
//! dictionary or a JSON object carried in a bare string — headers become one
//! uniform mapping from name to ordered list of values. When a name is
//! produced more than once, the later values are appended to the earlier
//! list, preserving encounter order. No name ever carries an empty value
//! list: an empty-list header value is refused outright.
use vstd::prelude::*;
use vstd::utf8::{decode_utf8, valid_utf8};

use crate::jsonval::{json_object_of, JsonValModel};
use crate::typed_value::TvModel;
use crate::FormatError;

verus! {

/// The normalized headers: names in first-seen order, each with its values
/// in encounter order. A name absent means "not sent", never an empty
/// list: the normalizer refuses any value that would open one, so
/// `headers_wf` holds of everything it yields.
pub struct Headers {
    pub entries: Vec<(String, Vec<String>)>,
}

/// The mathematical shape of headers: an association sequence.
pub type HeadersModel = Seq<(Seq<char>, Seq<Seq<char>>)>;

pub open spec fn headers_entries_model(es: Seq<(String, Vec<String>)>) -> HeadersModel {
    es.map_values(|p: (String, Vec<String>)| (p.0@, p.1.deep_view()))
}

impl View for Headers {
    type V = HeadersModel;

    open spec fn view(&self) -> HeadersModel {
        headers_entries_model(self.entries@)
    }
}

/// The values under the first entry named `k`, if any.
pub open spec fn hlookup(hs: HeadersModel, k: Seq<char>) -> Option<Seq<Seq<char>>>
    decreases hs.len(),
{
    if hs.len() == 0 {
        None
    } else if hs[0].0 == k {
        Some(hs[0].1)
    } else {
        hlookup(hs.skip(1), k)
    }
}

/// Merge one batch of values in: appended to the first entry already named
/// `k`, or opening a new entry at the end.
pub open spec fn hupsert(hs: HeadersModel, k: Seq<char>, vs: Seq<Seq<char>>) -> HeadersModel
    decreases hs.len(),
{
    if hs.len() == 0 {
        seq![(k, vs)]
    } else if hs[0].0 == k {
        seq![(hs[0].0, hs[0].1 + vs)] + hs.skip(1)
    } else {
        seq![hs[0]] + hupsert(hs.skip(1), k, vs)
    }
}

/// When no entry is named `k`, merging opens a new entry at the end.
pub proof fn lemma_hupsert_absent(hs: HeadersModel, k: Seq<char>, vs: Seq<Seq<char>>)
    requires
        forall|j: int| 0 <= j < hs.len() ==> (#[trigger] hs[j]).0 != k,
    ensures
        hupsert(hs, k, vs) == hs.push((k, vs)),
    decreases hs.len(),
{
    if hs.len() == 0 {
        assert(hupsert(hs, k, vs) =~= hs.push((k, vs)));
    } else {
        assert(forall|j: int|
            0 <= j < hs.skip(1).len() ==> #[trigger] hs.skip(1)[j] == hs[j + 1]);
        lemma_hupsert_absent(hs.skip(1), k, vs);
        assert(hupsert(hs, k, vs) =~= hs.push((k, vs)));
    }
}

/// When the first entry named `k` stands at `i`, merging appends there and
/// leaves everything else alone.
pub proof fn lemma_hupsert_found(hs: HeadersModel, k: Seq<char>, vs: Seq<Seq<char>>, i: int)
    requires
        0 <= i < hs.len(),
        hs[i].0 == k,
        forall|j: int| 0 <= j < i ==> (#[trigger] hs[j]).0 != k,
    ensures
        hupsert(hs, k, vs) == hs.update(i, (hs[i].0, hs[i].1 + vs)),
    decreases hs.len(),
{
    if i == 0 {
        assert(hupsert(hs, k, vs) =~= hs.update(0, (hs[0].0, hs[0].1 + vs)));
    } else {
        assert(forall|j: int|
            0 <= j < hs.skip(1).len() ==> #[trigger] hs.skip(1)[j] == hs[j + 1]);
        lemma_hupsert_found(hs.skip(1), k, vs, i - 1);
        assert(hupsert(hs, k, vs) =~= hs.update(i, (hs[i].0, hs[i].1 + vs)));
    }
}

impl Headers {
    /// No headers yet.
    pub fn new() -> (r: Headers)
        ensures
            r@ == Seq::<(Seq<char>, Seq<Seq<char>>)>::empty(),
    {
        let r = Headers { entries: Vec::new() };
        proof {
            assert(r@ =~= Seq::<(Seq<char>, Seq<Seq<char>>)>::empty());
        }
        r
    }

    /// How many distinct names were sent.
    pub fn len(&self) -> (r: usize)
        ensures
            r == self@.len(),
    {
        self.entries.len()
    }

    /// The values under `name`, if it was sent.
    pub fn find<'a>(&'a self, name: &str) -> (r: Option<&'a Vec<String>>)
        ensures
            match r {
                Some(vs) => hlookup(self@, name@) == Some(vs.deep_view()),
                None => hlookup(self@, name@) is None,
            },
    {
        let wanted: String = name.to_owned();
        let ghost model = self@;
        proof {
            assert(model.skip(0) =~= model);
        }
        let mut i: usize = 0;
        while i < self.entries.len()
            invariant
                0 <= i <= self.entries@.len(),
                wanted@ == name@,
                model == self@,
                model.len() == self.entries@.len(),
                forall|j: int|
                    0 <= j < self.entries@.len() ==> #[trigger] model[j] == (
                    self.entries@[j].0@,
                    self.entries@[j].1.deep_view(),
                    ),
                hlookup(model, name@) == hlookup(model.skip(i as int), name@),
            decreases self.entries@.len() - i,
        {
            proof {
                assert(model.skip(i as int)[0] == model[i as int]);
                assert(model.skip(i as int).skip(1) =~= model.skip(i as int + 1));
            }
            if self.entries[i].0.eq(&wanted) {
                return Some(&self.entries[i].1);
            }
            i = i + 1;
        }
        proof {
            assert(model.skip(i as int) =~= Seq::<(Seq<char>, Seq<Seq<char>>)>::empty());
        }
        None
    }

    /// Merge one batch of values under `key`, as `hupsert` says.
    pub fn insert_merge(&mut self, key: String, vals: Vec<String>)
        ensures
            final(self)@ == hupsert(old(self)@, key@, vals.deep_view()),
    {
        let ghost model = old(self)@;
        let mut i: usize = 0;
        let mut found = false;
        while i < self.entries.len() && !found
            invariant
                0 <= i <= self.entries@.len(),
                *self == *old(self),
                model == old(self)@,
                model.len() == self.entries@.len(),
                forall|j: int|
                    0 <= j < self.entries@.len() ==> #[trigger] model[j] == (
                    self.entries@[j].0@,
                    self.entries@[j].1.deep_view(),
                    ),
                forall|j: int| 0 <= j < i ==> (#[trigger] model[j]).0 != key@,
                found ==> i < self.entries@.len() && model[i as int].0 == key@,
            decreases self.entries@.len() - i + if found {
                0int
            } else {
                1int
            },
        {
            if self.entries[i].0.eq(&key) {
                found = true;
            } else {
                i = i + 1;
            }
        }
        if found {
            let ghost vs0 = vals.deep_view();
            let mut pair = self.entries.remove(i);
            let mut tail = vals;
            pair.1.append(&mut tail);
            self.entries.insert(i, pair);
            proof {
                lemma_hupsert_found(model, key@, vs0, i as int);
                assert(self@ =~~= model.update(
                    i as int,
                    (model[i as int].0, model[i as int].1 + vs0),
                ));
            }
        } else {
            self.entries.push((key, vals));
            proof {
                lemma_hupsert_absent(model, key@, vals.deep_view());
                assert(self@ =~~= model.push((key@, vals.deep_view())));
            }
        }
    }
}

/// The texts of a run of string values, each decoded from its bytes; any
/// member that is not a string value, or not valid UTF-8, is fatal.
pub open spec fn str_values(items: Seq<TvModel>, i: int) -> Result<Seq<Seq<char>>, FormatError>
    decreases items.len() - i,
{
    if 0 <= i < items.len() {
        match items[i] {
            TvModel::Str(b) => if valid_utf8(b) {
                match str_values(items, i + 1) {
                    Ok(t) => Ok(seq![decode_utf8(b)] + t),
                    Err(e) => Err(e),
                }
            } else {
                Err(FormatError::Utf8)
            },
            _ => Err(FormatError::HeaderShape),
        }
    } else {
        Ok(Seq::empty())
    }
}

/// One header value of the dictionary shape, normalized: a string becomes a
/// one-element list, a non-empty list of strings stays a list, anything
/// else is fatal. The empty list is refused too: a name absent means "not
/// sent", never an empty list, so no value may open one.
pub open spec fn header_values(v: TvModel) -> Result<Seq<Seq<char>>, FormatError> {
    match v {
        TvModel::Str(b) => if valid_utf8(b) {
            Ok(seq![decode_utf8(b)])
        } else {
            Err(FormatError::Utf8)
        },
        TvModel::List(items) => if items.len() == 0 {
            Err(FormatError::HeaderShape)
        } else {
            str_values(items, 0)
        },
        _ => Err(FormatError::HeaderShape),
    }
}

/// One header value of the JSON shape, under the same rules: the empty
/// list is refused here as well.
pub open spec fn json_header_values(v: JsonValModel) -> Result<Seq<Seq<char>>, FormatError> {
    match v {
        JsonValModel::Str(s) => Ok(seq![s]),
        JsonValModel::StrList(ss) => if ss.len() == 0 {
            Err(FormatError::HeaderShape)
        } else {
            Ok(ss)
        },
        JsonValModel::Other => Err(FormatError::HeaderShape),
    }
}

/// Fold the dictionary pairs from `i` on into `acc`, merging values under
/// names already seen.
pub open spec fn headers_from_pairs(
    ps: Seq<(Seq<u8>, TvModel)>,
    i: int,
    acc: HeadersModel,
) -> Result<HeadersModel, FormatError>
    decreases ps.len() - i,
{
    if 0 <= i < ps.len() {
        if !valid_utf8(ps[i].0) {
            Err(FormatError::Utf8)
        } else {
            match header_values(ps[i].1) {
                Err(e) => Err(e),
                Ok(vs) => headers_from_pairs(ps, i + 1, hupsert(acc, decode_utf8(ps[i].0), vs)),
            }
        }
    } else {
        Ok(acc)
    }
}

/// Fold the JSON object entries from `i` on into `acc`, under the same
/// merge policy.
pub open spec fn headers_from_json(
    es: Seq<(Seq<char>, JsonValModel)>,
    i: int,
    acc: HeadersModel,
) -> Result<HeadersModel, FormatError>
    decreases es.len() - i,
{
    if 0 <= i < es.len() {
        match json_header_values(es[i].1) {
            Err(e) => Err(e),
            Ok(vs) => headers_from_json(es, i + 1, hupsert(acc, es[i].0, vs)),
        }
    } else {
        Ok(acc)
    }
}

/// What normalizing a headers value yields: a dictionary is folded
/// directly; a bare string must carry a JSON object and is folded from its
/// entries; anything else is fatal.
pub open spec fn headers_model(tv: TvModel) -> Result<HeadersModel, FormatError> {
    match tv {
        TvModel::Dict(ps) => headers_from_pairs(ps, 0, Seq::empty()),
        TvModel::Str(b) => match json_object_of(b) {
            Some(es) => headers_from_json(es, 0, Seq::empty()),
            None => Err(FormatError::HeaderShape),
        },
        _ => Err(FormatError::HeaderShape),
    }
}

/// Every value list of a normalized header mapping is non-empty: a name
/// absent means "not sent", never an empty list.
pub open spec fn headers_wf(hs: HeadersModel) -> bool {
    forall|i: int| 0 <= i < hs.len() ==> (#[trigger] hs[i]).1.len() > 0
}

/// Merging a non-empty batch of values keeps every value list non-empty.
pub proof fn lemma_hupsert_wf(hs: HeadersModel, k: Seq<char>, vs: Seq<Seq<char>>)
    requires
        headers_wf(hs),
        vs.len() > 0,
    ensures
        headers_wf(hupsert(hs, k, vs)),
    decreases hs.len(),
{
    let r = hupsert(hs, k, vs);
    if hs.len() == 0 {
        assert(r[0].1.len() > 0);
    } else if hs[0].0 == k {
        assert forall|i: int| 0 <= i < r.len() implies (#[trigger] r[i]).1.len() > 0 by {
            if i > 0 {
                assert(r[i] == hs[i]);
            }
        }
    } else {
        assert(headers_wf(hs.skip(1))) by {
            assert(forall|j: int|
                0 <= j < hs.skip(1).len() ==> #[trigger] hs.skip(1)[j] == hs[j + 1]);
        }
        lemma_hupsert_wf(hs.skip(1), k, vs);
        assert forall|i: int| 0 <= i < r.len() implies (#[trigger] r[i]).1.len() > 0 by {
            if i > 0 {
                assert(r[i] == hupsert(hs.skip(1), k, vs)[i - 1]);
            }
        }
    }
}

/// A run of string values yields one text per member.
pub proof fn lemma_str_values_len(items: Seq<TvModel>, i: int)
    requires
        0 <= i <= items.len(),
    ensures
        str_values(items, i) matches Ok(t) ==> t.len() == items.len() - i,
    decreases items.len() - i,
{
    if i < items.len() {
        lemma_str_values_len(items, i + 1);
    }
}

/// A normalized header value is never the empty list.
pub proof fn lemma_header_values_nonempty(v: TvModel)
    ensures
        header_values(v) matches Ok(vs) ==> vs.len() > 0,
{
    if let TvModel::List(items) = v {
        if items.len() > 0 {
            lemma_str_values_len(items, 0);
        }
    }
}

/// Folding dictionary pairs into a well-formed accumulator keeps the
/// invariant.
pub proof fn lemma_headers_from_pairs_wf(ps: Seq<(Seq<u8>, TvModel)>, i: int, acc: HeadersModel)
    requires
        headers_wf(acc),
    ensures
        headers_from_pairs(ps, i, acc) matches Ok(hs) ==> headers_wf(hs),
    decreases ps.len() - i,
{
    if 0 <= i < ps.len() && valid_utf8(ps[i].0) {
        if let Ok(vs) = header_values(ps[i].1) {
            lemma_header_values_nonempty(ps[i].1);
            lemma_hupsert_wf(acc, decode_utf8(ps[i].0), vs);
            lemma_headers_from_pairs_wf(ps, i + 1, hupsert(acc, decode_utf8(ps[i].0), vs));
        }
    }
}

/// Folding JSON object entries into a well-formed accumulator keeps the
/// invariant.
pub proof fn lemma_headers_from_json_wf(
    es: Seq<(Seq<char>, JsonValModel)>,
    i: int,
    acc: HeadersModel,
)
    requires
        headers_wf(acc),
    ensures
        headers_from_json(es, i, acc) matches Ok(hs) ==> headers_wf(hs),
    decreases es.len() - i,
{
    if 0 <= i < es.len() {
        if let Ok(vs) = json_header_values(es[i].1) {
            lemma_hupsert_wf(acc, es[i].0, vs);
            lemma_headers_from_json_wf(es, i + 1, hupsert(acc, es[i].0, vs));
        }
    }
}

/// Whatever shape the wire delivered, normalized headers satisfy the
/// invariant: no name ever carries an empty value list.
pub proof fn lemma_headers_model_wf(tv: TvModel)
    ensures
        headers_model(tv) matches Ok(hs) ==> headers_wf(hs),
{
    match tv {
        TvModel::Dict(ps) => {
            lemma_headers_from_pairs_wf(ps, 0, Seq::empty());
        },
        TvModel::Str(b) => {
            if let Some(es) = json_object_of(b) {
                lemma_headers_from_json_wf(es, 0, Seq::empty());
            }
        },
        _ => {},
    }
}

/// Decode a run of string values into texts, as `str_values` says.
fn str_values_exec(items: &Vec<crate::typed_value::Tv>, i: usize) -> (r: Result<
    Vec<String>,
    FormatError,
>)
    requires
        i <= items@.len(),
    ensures
        match r {
            Ok(vs) => str_values(crate::typed_value::tv_models_from(items@, 0), i as int) == Ok::<
                Seq<Seq<char>>,
                FormatError,
            >(vs.deep_view()),
            Err(e) => str_values(crate::typed_value::tv_models_from(items@, 0), i as int)
                == Err::<Seq<Seq<char>>, FormatError>(e),
        },
    decreases items@.len() - i,
{
    let ghost models = crate::typed_value::tv_models_from(items@, 0);
    proof {
        crate::typed_value::lemma_tv_models_from(items@, 0);
    }
    if i >= items.len() {
        let vs: Vec<String> = Vec::new();
        proof {
            assert(vs.deep_view() =~= Seq::<Seq<char>>::empty());
        }
        Ok(vs)
    } else {
        match &items[i] {
            crate::typed_value::Tv::Str(b) => {
                match crate::string_from_utf8(vstd::slice::slice_to_vec(b.as_slice())) {
                    Some(s) => match str_values_exec(items, i + 1) {
                        Ok(mut vs) => {
                            let ghost tail = vs.deep_view();
                            vs.insert(0, s);
                            proof {
                                assert(vs.deep_view() =~= seq![s@] + tail);
                            }
                            Ok(vs)
                        },
                        Err(e) => Err(e),
                    },
                    None => Err(FormatError::Utf8),
                }
            },
            _ => Err(FormatError::HeaderShape),
        }
    }
}

/// Normalize one dictionary header value, as `header_values` says.
fn header_values_exec(v: &crate::typed_value::Tv) -> (r: Result<Vec<String>, FormatError>)
    ensures
        match r {
            Ok(vs) => header_values(v@) == Ok::<Seq<Seq<char>>, FormatError>(vs.deep_view()),
            Err(e) => header_values(v@) == Err::<Seq<Seq<char>>, FormatError>(e),
        },
{
    match v {
        crate::typed_value::Tv::Str(b) => {
            match crate::string_from_utf8(vstd::slice::slice_to_vec(b.as_slice())) {
                Some(s) => {
                    let vs = vec![s];
                    proof {
                        assert(vs.deep_view() =~= seq![vs@[0]@]);
                    }
                    Ok(vs)
                },
                None => Err(FormatError::Utf8),
            }
        },
        crate::typed_value::Tv::List(items) => if items.len() == 0 {
            Err(FormatError::HeaderShape)
        } else {
            str_values_exec(items, 0)
        },
        _ => Err(FormatError::HeaderShape),
    }
}

/// Fold the dictionary pairs from `i` on into `acc`.
fn pairs_into(
    pairs: &Vec<(Vec<u8>, crate::typed_value::Tv)>,
    i: usize,
    acc: &mut Headers,
) -> (r: Result<(), FormatError>)
    requires
        i <= pairs@.len(),
    ensures
        match r {
            Ok(_) => headers_from_pairs(
                crate::typed_value::tv_pair_models_from(pairs@, 0),
                i as int,
                old(acc)@,
            ) == Ok::<HeadersModel, FormatError>(final(acc)@),
            Err(e) => headers_from_pairs(
                crate::typed_value::tv_pair_models_from(pairs@, 0),
                i as int,
                old(acc)@,
            ) == Err::<HeadersModel, FormatError>(e),
        },
    decreases pairs@.len() - i,
{
    proof {
        crate::typed_value::lemma_tv_pair_models_from(pairs@, 0);
    }
    if i >= pairs.len() {
        Ok(())
    } else {
        match crate::string_from_utf8(vstd::slice::slice_to_vec(pairs[i].0.as_slice())) {
            None => Err(FormatError::Utf8),
            Some(key) => match header_values_exec(&pairs[i].1) {
                Err(e) => Err(e),
                Ok(vs) => {
                    acc.insert_merge(key, vs);
                    pairs_into(pairs, i + 1, acc)
                },
            },
        }
    }
}

/// Fold the JSON object entries from `i` on into `acc`.
fn json_into(
    es: &Vec<(String, crate::jsonval::JsonVal)>,
    i: usize,
    acc: &mut Headers,
) -> (r: Result<(), FormatError>)
    requires
        i <= es@.len(),
    ensures
        match r {
            Ok(_) => headers_from_json(
                crate::jsonval::json_entries_model(es@),
                i as int,
                old(acc)@,
            ) == Ok::<HeadersModel, FormatError>(final(acc)@),
            Err(e) => headers_from_json(
                crate::jsonval::json_entries_model(es@),
                i as int,
                old(acc)@,
            ) == Err::<HeadersModel, FormatError>(e),
        },
    decreases es@.len() - i,
{
    if i >= es.len() {
        Ok(())
    } else {
        let vs: Vec<String> = match &es[i].1 {
            crate::jsonval::JsonVal::Str(s) => {
                let vs = vec![s.clone()];
                proof {
                    assert(vs.deep_view() =~= seq![s@]);
                }
                vs
            },
            crate::jsonval::JsonVal::StrList(ss) => {
                if ss.len() == 0 {
                    return Err(FormatError::HeaderShape);
                }
                clone_strings(ss)
            },
            crate::jsonval::JsonVal::Other => {
                return Err(FormatError::HeaderShape);
            },
        };
        acc.insert_merge(es[i].0.clone(), vs);
        json_into(es, i + 1, acc)
    }
}

/// A fresh list with the same texts.
fn clone_strings(ss: &Vec<String>) -> (r: Vec<String>)
    ensures
        r.deep_view() == ss.deep_view(),
{
    let mut out: Vec<String> = Vec::new();
    let mut i: usize = 0;
    while i < ss.len()
        invariant
            0 <= i <= ss@.len(),
            out@.len() == i,
            forall|j: int| 0 <= j < i ==> out@[j]@ == #[trigger] ss@[j]@,
        decreases ss@.len() - i,
    {
        out.push(ss[i].clone());
        i = i + 1;
    }
    proof {
        assert(out.deep_view() =~= ss.deep_view());
    }
    out
}

/// Normalize a decoded headers value into the uniform mapping, as
/// `headers_model` says.
pub fn parse_headers(tv: &crate::typed_value::Tv) -> (r: Result<Headers, FormatError>)
    ensures
        match r {
            Ok(h) => headers_model(tv@) == Ok::<HeadersModel, FormatError>(h@),
            Err(e) => headers_model(tv@) == Err::<HeadersModel, FormatError>(e),
        },
{
    match tv {
        crate::typed_value::Tv::Dict(ps) => {
            let mut h = Headers::new();
            match pairs_into(ps, 0, &mut h) {
                Ok(_) => Ok(h),
                Err(e) => Err(e),
            }
        },
        crate::typed_value::Tv::Str(b) => {
            match crate::jsonval::json_parse_object(b.as_slice()) {
                Some(es) => {
                    let mut h = Headers::new();
                    match json_into(&es, 0, &mut h) {
                        Ok(_) => Ok(h),
                        Err(e) => Err(e),
                    }
                },
                None => Err(FormatError::HeaderShape),
            }
        },
        _ => Err(FormatError::HeaderShape),
    }
}

} // verus!
