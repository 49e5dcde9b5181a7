//! JSON values as the runtime sees them, and their text form.

use vstd::prelude::*;
use vstd::string::StringExecFns;

verus! {

/// The mathematical value of a [`Json`].
pub enum JsonView {
    Null,
    Bool(bool),
    Number(Seq<char>),
    Str(Seq<char>),
    Array(Seq<JsonView>),
    Object(Seq<(Seq<char>, JsonView)>),
}

/// A JSON value. `Number` holds the number's literal text; an `Object`
/// keeps its fields in order, and lookups see the first field of a key.
pub enum Json {
    Null,
    Bool(bool),
    Number(String),
    Str(String),
    Array(Vec<Json>),
    Object(Vec<(String, Json)>),
}

pub open spec fn view_of(j: Json) -> JsonView
    decreases j,
{
    match j {
        Json::Null => JsonView::Null,
        Json::Bool(b) => JsonView::Bool(b),
        Json::Number(n) => JsonView::Number(n@),
        Json::Str(s) => JsonView::Str(s@),
        Json::Array(a) => JsonView::Array(
            Seq::new(a.len() as nat, |i: int| if 0 <= i < a.len() { view_of(a[i]) } else { JsonView::Null }),
        ),
        Json::Object(o) => JsonView::Object(
            Seq::new(
                o.len() as nat,
                |i: int|
                    if 0 <= i < o.len() {
                        (o[i].0@, view_of(o[i].1))
                    } else {
                        (Seq::empty(), JsonView::Null)
                    },
            ),
        ),
    }
}

impl View for Json {
    type V = JsonView;

    open spec fn view(&self) -> JsonView {
        view_of(*self)
    }
}

/// The fields of an object, as key and value views.
pub open spec fn fields_view(o: Seq<(String, Json)>) -> Seq<(Seq<char>, JsonView)> {
    Seq::new(o.len() as nat, |i: int| (o[i].0@, view_of(o[i].1)))
}

/// Index of the first field named `k`, if any.
pub open spec fn first_index(o: Seq<(Seq<char>, JsonView)>, k: Seq<char>) -> Option<int>
    decreases o.len(),
{
    if o.len() == 0 {
        None
    } else if o[0].0 == k {
        Some(0)
    } else {
        match first_index(o.drop_first(), k) {
            Some(i) => Some(i + 1),
            None => None,
        }
    }
}

pub open spec fn has_key(o: Seq<(Seq<char>, JsonView)>, k: Seq<char>) -> bool {
    exists|i: int| 0 <= i < o.len() && o[i].0 == k
}

/// The value of the first field named `k`, if any.
pub open spec fn lookup(o: Seq<(Seq<char>, JsonView)>, k: Seq<char>) -> Option<JsonView> {
    match first_index(o, k) {
        Some(i) => Some(o[i].1),
        None => None,
    }
}

/// `o` with field `k` set to `v`: the first field of that key takes the
/// value in place, else the field is appended.
pub open spec fn with_field(o: Seq<(Seq<char>, JsonView)>, k: Seq<char>, v: JsonView) -> Seq<
    (Seq<char>, JsonView),
> {
    match first_index(o, k) {
        Some(i) => o.update(i, (k, v)),
        None => o.push((k, v)),
    }
}

pub proof fn lemma_first_index(o: Seq<(Seq<char>, JsonView)>, k: Seq<char>)
    ensures
        match first_index(o, k) {
            Some(i) => 0 <= i < o.len() && o[i].0 == k && forall|j: int| 0 <= j < i ==> o[j].0 != k,
            None => !has_key(o, k),
        },
    decreases o.len(),
{
    if o.len() > 0 && o[0].0 != k {
        lemma_first_index(o.drop_first(), k);
        if first_index(o.drop_first(), k) is None {
            assert forall|i: int| 0 <= i < o.len() implies o[i].0 != k by {
                if i > 0 {
                    assert(o.drop_first()[i - 1] == o[i]);
                }
            }
        } else {
            let i = first_index(o, k)->Some_0;
            assert forall|j: int| 0 <= j < i implies o[j].0 != k by {
                if j > 0 {
                    assert(o.drop_first()[j - 1] == o[j]);
                }
            }
        }
    }
}

/// The text that serde_json writes for a value.
pub uninterp spec fn json_text(v: JsonView) -> Seq<char>;

/// What serde_json reads from a text: a value, or nothing if the text is not JSON.
pub uninterp spec fn json_parse(s: Seq<char>) -> Option<JsonView>;

pub proof fn lemma_view_fields(o: Vec<(String, Json)>)
    ensures
        view_of(Json::Object(o)) == JsonView::Object(fields_view(o@)),
{
    let a = view_of(Json::Object(o))->Object_0;
    assert(a =~= fields_view(o@));
}

pub proof fn lemma_view_items(a: Vec<Json>)
    ensures
        view_of(Json::Array(a)) == JsonView::Array(Seq::new(a.len() as nat, |i: int| view_of(a[i]))),
{
    let x = view_of(Json::Array(a))->Array_0;
    assert(x =~= Seq::new(a.len() as nat, |i: int| view_of(a[i])));
}

impl Json {
    /// An empty object.
    pub fn new_object() -> (r: Json)
        ensures
            r@ == JsonView::Object(Seq::empty()),
    {
        let r = Json::Object(Vec::new());
        proof {
            assert(r@->Object_0 =~= Seq::<(Seq<char>, JsonView)>::empty());
        }
        r
    }

    pub fn is_string(&self) -> (r: bool)
        ensures
            r == (self@ is Str),
    {
        match self {
            Json::Str(_) => true,
            _ => false,
        }
    }

    /// The text of a string value.
    pub fn as_str(&self) -> (r: Option<&str>)
        ensures
            match self@ {
                JsonView::Str(s) => r is Some && r->Some_0@ == s,
                _ => r is None,
            },
    {
        match self {
            Json::Str(s) => Some(s.as_str()),
            _ => None,
        }
    }

    /// True for an object without fields, and for every value that is not an object.
    pub fn is_empty_object(&self) -> (r: bool)
        ensures
            r == (match self@ {
                JsonView::Object(o) => o.len() == 0,
                _ => true,
            }),
    {
        match self {
            Json::Object(o) => o.len() == 0,
            _ => true,
        }
    }

    /// The value of field `key`, if this is an object that has one.
    pub fn get(&self, key: &str) -> (r: Option<&Json>)
        ensures
            match self@ {
                JsonView::Object(o) => match lookup(o, key@) {
                    Some(v) => r is Some && r->Some_0@ == v,
                    None => r is None,
                },
                _ => r is None,
            },
    {
        match self {
            Json::Object(o) => {
                proof {
                    lemma_view_fields(*o);
                }
                field_get(o, key)
            },
            _ => None,
        }
    }

    /// Sets field `key` of an object (in place if the key is present,
    /// else at the end). A value that is not an object is left alone.
    pub fn insert(&mut self, key: String, value: Json)
        ensures
            match old(self)@ {
                JsonView::Object(o) => final(self)@ == JsonView::Object(with_field(o, key@, value@)),
                _ => final(self)@ == old(self)@,
            },
    {
        match self {
            Json::Object(o) => {
                proof {
                    lemma_view_fields(*o);
                }
                field_insert(o, key, value);
                proof {
                    lemma_view_fields(*o);
                }
            },
            _ => {},
        }
    }

    /// A copy of the value.
    pub fn deep_clone(&self) -> (r: Json)
        ensures
            r@ == self@,
        decreases self,
    {
        match self {
            Json::Null => Json::Null,
            Json::Bool(b) => Json::Bool(*b),
            Json::Number(n) => Json::Number(n.clone()),
            Json::Str(s) => Json::Str(s.clone()),
            Json::Array(a) => {
                let mut out: Vec<Json> = Vec::new();
                let mut i: usize = 0;
                while i < a.len()
                    invariant
                        *self == Json::Array(*a),
                        i <= a.len(),
                        out.len() == i,
                        forall|k: int| 0 <= k < i ==> view_of(#[trigger] out[k]) == view_of(a[k]),
                    decreases a.len() - i,
                {
                    proof {
                        assert(decreases_to!(*self => (*self)->Array_0));
                        assert(decreases_to!(*a => a@));
                        assert(decreases_to!(a@ => a@[i as int]));
                    }
                    let c = a[i].deep_clone();
                    out.push(c);
                    i += 1;
                }
                let r = Json::Array(out);
                proof {
                    lemma_view_items(out);
                    lemma_view_items(*a);
                    assert(r@->Array_0 =~= self@->Array_0);
                }
                r
            },
            Json::Object(o) => {
                let mut out: Vec<(String, Json)> = Vec::new();
                let mut i: usize = 0;
                while i < o.len()
                    invariant
                        *self == Json::Object(*o),
                        i <= o.len(),
                        out.len() == i,
                        forall|k: int|
                            0 <= k < i ==> (#[trigger] out[k]).0@ == o[k].0@ && view_of(out[k].1)
                                == view_of(o[k].1),
                    decreases o.len() - i,
                {
                    proof {
                        assert(decreases_to!(*self => (*self)->Object_0));
                        assert(decreases_to!(*o => o@));
                        assert(decreases_to!(o@ => o@[i as int]));
                    }
                    let c = o[i].1.deep_clone();
                    out.push((o[i].0.clone(), c));
                    i += 1;
                }
                let r = Json::Object(out);
                proof {
                    lemma_view_fields(out);
                    lemma_view_fields(*o);
                    assert(fields_view(out@) =~= fields_view(o@));
                }
                r
            },
        }
    }
}

/// The value of the first field named `key`.
pub fn field_get<'a>(fields: &'a Vec<(String, Json)>, key: &str) -> (r: Option<&'a Json>)
    ensures
        match lookup(fields_view(fields@), key@) {
            Some(v) => r is Some && r->Some_0@ == v,
            None => r is None,
        },
{
    let ghost fv = fields_view(fields@);
    proof {
        lemma_first_index(fv, key@);
    }
    let mut i: usize = 0;
    while i < fields.len()
        invariant
            i <= fields.len(),
            fv == fields_view(fields@),
            forall|j: int| 0 <= j < i ==> fv[j].0 != key@,
        decreases fields.len() - i,
    {
        if same_text(fields[i].0.as_str(), key) {
            proof {
                assert(fv[i as int].0 == key@);
                lemma_first_index(fv, key@);
                let f = first_index(fv, key@);
                assert(f == Some(i as int)) by {
                    if f is None {
                    } else {
                        let fi = f->Some_0;
                        if fi < i {
                        } else if fi > i {
                        }
                    }
                }
            }
            return Some(&fields[i].1);
        }
        i += 1;
    }
    proof {
        lemma_first_index(fv, key@);
    }
    None
}

/// Sets the first field named `key` to `value`, or appends the field.
pub fn field_insert(fields: &mut Vec<(String, Json)>, key: String, value: Json)
    ensures
        fields_view(final(fields)@) == with_field(fields_view(old(fields)@), key@, value@),
{
    let ghost fv = fields_view(fields@);
    proof {
        lemma_first_index(fv, key@);
    }
    let mut i: usize = 0;
    while i < fields.len()
        invariant
            i <= fields.len(),
            fields@ == old(fields)@,
            fv == fields_view(fields@),
            forall|j: int| 0 <= j < i ==> fv[j].0 != key@,
        decreases fields.len() - i,
    {
        if same_text(fields[i].0.as_str(), key.as_str()) {
            proof {
                assert(fv[i as int].0 == key@);
                lemma_first_index(fv, key@);
                let f = first_index(fv, key@);
                assert(f == Some(i as int)) by {
                    if f is None {
                    } else {
                        let fi = f->Some_0;
                        if fi < i {
                        } else if fi > i {
                        }
                    }
                }
            }
            let ghost kv = key@;
            let ghost vv = value@;
            fields.set(i, (key, value));
            proof {
                assert(fields_view(fields@) =~= fv.update(i as int, (kv, vv)));
            }
            return ;
        }
        i += 1;
    }
    proof {
        lemma_first_index(fv, key@);
    }
    let ghost kv = key@;
    let ghost vv = value@;
    fields.push((key, value));
    proof {
        assert(fields_view(fields@) =~= fv.push((kv, vv)));
    }
}

/// True when the two texts hold the same characters.
pub fn same_text(a: &str, b: &str) -> (r: bool)
    ensures
        r == (a@ == b@),
{
    let x = a.to_owned();
    let y = b.to_owned();
    x == y
}

/// Appends `t` to `s`.
pub fn append_text(s: &mut String, t: &str)
    ensures
        final(s)@ == old(s)@ + t@,
{
    s.append(t);
}

/// Relies on `serde_json::to_string` (after the conversion below): the
/// compact JSON text of the value, a function of the value alone (objects
/// are written in key order by serde_json's default map). A serialisation
/// error, which such a tree cannot raise, would give the empty text.
#[verifier::external_body]
pub fn to_json_text(v: &Json) -> (r: String)
    ensures
        r@ == json_text(v@),
{
    serde_json::to_string(&to_serde(v)).unwrap_or_default()
}

/// Relies on `serde_json::from_str`: the value that a JSON text denotes,
/// or serde_json's description of why the text is not JSON.
#[verifier::external_body]
pub fn parse_json_text(s: &str) -> (r: Result<Json, String>)
    ensures
        match json_parse(s@) {
            Some(v) => r is Ok && r->Ok_0@ == v,
            None => r is Err,
        },
{
    serde_json::from_str::<serde_json::Value>(s).map(from_serde).map_err(|e| e.to_string())
}

/// serde_json's own tree of a JSON value, carried through the two conversions below.
#[verifier::external_type_specification]
#[verifier::external_body]
pub struct ExValue(serde_json::Value);

/// Converts a value into serde_json's tree, one node for one node, through
/// the `serde_json::Value` constructors; a number's literal text is read
/// back with `serde_json::from_str` (a text that is no JSON number gives null).
/// Only `to_json_text` calls it.
#[verifier::external_body]
fn to_serde(v: &Json) -> serde_json::Value {
    match v {
        Json::Null => serde_json::Value::Null,
        Json::Bool(b) => serde_json::Value::Bool(*b),
        Json::Number(n) => serde_json::from_str(n).unwrap_or(serde_json::Value::Null),
        Json::Str(s) => serde_json::Value::String(s.clone()),
        Json::Array(a) => serde_json::Value::Array(a.iter().map(to_serde).collect()),
        Json::Object(o) => serde_json::Value::Object(
            o.iter().map(|(k, x)| (k.clone(), to_serde(x))).collect(),
        ),
    }
}

/// Converts serde_json's tree into a value, one node for one node; a number
/// keeps the text that `serde_json::Number`'s `Display` writes. Only
/// `parse_json_text` calls it.
#[verifier::external_body]
fn from_serde(v: serde_json::Value) -> Json {
    match v {
        serde_json::Value::Null => Json::Null,
        serde_json::Value::Bool(b) => Json::Bool(b),
        serde_json::Value::Number(n) => Json::Number(n.to_string()),
        serde_json::Value::String(s) => Json::Str(s),
        serde_json::Value::Array(a) => Json::Array(a.into_iter().map(from_serde).collect()),
        serde_json::Value::Object(o) => Json::Object(
            o.into_iter().map(|(k, x)| (k, from_serde(x))).collect(),
        ),
    }
}

} // verus!
