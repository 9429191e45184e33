//! The JSON collaborator's view of a body or header text. The protocol only
//! ever reads three shapes out of a parsed JSON object's values — a string,
//! a list made only of strings, and "anything else" — so that is what a
//! value is reduced to here. Parsing itself is delegated to the external
//! JSON parser and never reimplemented.
use vstd::prelude::*;

verus! {

/// One value of a parsed JSON object, reduced to what this protocol reads.
#[derive(Debug, PartialEq, Eq)]
pub enum JsonVal {
    /// A JSON string.
    Str(String),
    /// A JSON list whose members are all strings.
    StrList(Vec<String>),
    /// Any other JSON value: null, a boolean, a number, a mixed or nested
    /// list, or a nested object.
    Other,
}

/// The mathematical shape of a `JsonVal`.
pub enum JsonValModel {
    Str(Seq<char>),
    StrList(Seq<Seq<char>>),
    Other,
}

pub open spec fn json_val_model(v: JsonVal) -> JsonValModel {
    match v {
        JsonVal::Str(s) => JsonValModel::Str(s@),
        JsonVal::StrList(ss) => JsonValModel::StrList(ss.deep_view()),
        JsonVal::Other => JsonValModel::Other,
    }
}

impl View for JsonVal {
    type V = JsonValModel;

    open spec fn view(&self) -> JsonValModel {
        json_val_model(*self)
    }
}

/// The entries of a parsed JSON object, in order.
pub open spec fn json_entries_model(es: Seq<(String, JsonVal)>) -> Seq<(Seq<char>, JsonValModel)> {
    es.map_values(|p: (String, JsonVal)| (p.0@, json_val_model(p.1)))
}

/// What the JSON collaborator yields for a given text: the entries of the
/// top-level object when the text parses as a JSON object, nothing when it
/// does not parse or its top-level value is something else. The result is a
/// function of the text alone.
pub uninterp spec fn json_object_of(text: Seq<u8>) -> Option<Seq<(Seq<char>, JsonValModel)>>;

/// Relies on json::parse: it parses a text on its own, so the outcome
/// depends on the bytes alone. The top-level object's entries come back in
/// order, each value classified by the only shapes this protocol reads;
/// nothing comes back when the text is not valid JSON or not an object.
#[verifier::external_body]
pub fn json_parse_object(text: &[u8]) -> (r: Option<Vec<(String, JsonVal)>>)
    ensures
        match r {
            Some(es) => json_object_of(text@) == Some(json_entries_model(es@)),
            None => json_object_of(text@) is None,
        },
{
    let s = match core::str::from_utf8(text) { Ok(s) => s, Err(_) => return None };
    let o = match json::parse(s) { Ok(json::JsonValue::Object(o)) => o, _ => return None };
    Some(o.iter().map(|(k, w)| (k.to_string(), if let Some(t) = w.as_str() {
        JsonVal::Str(t.to_string())
    } else if let json::JsonValue::Array(a) = w {
        a.iter().map(|e| e.as_str().map(str::to_string)).collect::<Option<Vec<String>>>()
            .map_or(JsonVal::Other, JsonVal::StrList)
    } else {
        JsonVal::Other
    })).collect())
}

/// The value under the first entry named `k`, if any.
pub open spec fn json_lookup(es: Seq<(Seq<char>, JsonValModel)>, k: Seq<char>) -> Option<
    JsonValModel,
>
    decreases es.len(),
{
    if es.len() == 0 {
        None
    } else if es[0].0 == k {
        Some(es[0].1)
    } else {
        json_lookup(es.skip(1), k)
    }
}

/// Find the first entry named `key`.
pub fn json_find<'a>(es: &'a Vec<(String, JsonVal)>, key: &str) -> (r: Option<&'a JsonVal>)
    ensures
        match r {
            Some(v) => json_lookup(json_entries_model(es@), key@) == Some(v@),
            None => json_lookup(json_entries_model(es@), key@) is None,
        },
{
    let wanted: String = key.to_owned();
    let ghost model = json_entries_model(es@);
    proof {
        assert(model.skip(0) =~= model);
    }
    let mut i: usize = 0;
    while i < es.len()
        invariant
            0 <= i <= es@.len(),
            wanted@ == key@,
            model == json_entries_model(es@),
            model.len() == es@.len(),
            forall|j: int| 0 <= j < es@.len() ==> #[trigger] model[j] == (es@[j].0@, json_val_model(es@[j].1)),
            json_lookup(model, key@) == json_lookup(model.skip(i as int), key@),
        decreases es@.len() - i,
    {
        proof {
            assert(model.skip(i as int)[0] == model[i as int]);
            assert(model.skip(i as int).skip(1) =~= model.skip(i as int + 1));
        }
        if es[i].0.eq(&wanted) {
            return Some(&es[i].1);
        }
        i = i + 1;
    }
    proof {
        assert(model.skip(i as int) =~= Seq::<(Seq<char>, JsonValModel)>::empty());
    }
    None
}

} // verus!
