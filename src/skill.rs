//! Skill descriptors and the JSON-shape schema that guards their inputs and outputs.

use vstd::prelude::*;
use crate::json::{
    Json, JsonView, field_get, fields_view, has_key, lemma_first_index, lookup, to_json_text,
};
use crate::token_optimizer::{estimate_tokens, tokens_of};
use crate::json::json_text;

verus! {

#[derive(Debug, Clone, Copy, PartialEq, Eq, Structural)]
pub enum SkillExecutionMode {
    Deterministic,
    LLM,
}

#[derive(Debug, Clone, Copy, PartialEq, Eq, Structural)]
pub enum ResponseMode {
    StrictJson,
    CompactJson,
}

impl Default for ResponseMode {
    fn default() -> (r: Self)
        ensures
            r == ResponseMode::StrictJson,
    {
        ResponseMode::StrictJson
    }
}

/// The first index below `n` at which `p` holds.
pub open spec fn first_where(n: int, p: spec_fn(int) -> bool) -> Option<int>
    decreases n,
{
    if n <= 0 {
        None
    } else {
        match first_where(n - 1, p) {
            Some(i) => Some(i),
            None => if p(n - 1) {
                Some(n - 1)
            } else {
                None
            },
        }
    }
}

pub proof fn lemma_first_where(n: int, p: spec_fn(int) -> bool)
    ensures
        match first_where(n, p) {
            Some(i) => 0 <= i < n && p(i) && forall|j: int| 0 <= j < i ==> !#[trigger] p(j),
            None => forall|j: int| 0 <= j < n ==> !#[trigger] p(j),
        },
    decreases n,
{
    if n > 0 {
        lemma_first_where(n - 1, p);
    }
}

pub proof fn lemma_first_where_stable(k: int, n: int, p: spec_fn(int) -> bool)
    requires
        first_where(k, p) is Some,
        k <= n,
    ensures
        first_where(n, p) == first_where(k, p),
    decreases n - k,
{
    if k < n {
        lemma_first_where_stable(k, n - 1, p);
    }
}

/// Why a value fails a schema.
pub enum SchemaFault {
    Missing(Seq<char>),
    Unknown(Seq<char>),
    NotObject,
}

/// The fields of the schema itself, when it is an object.
pub open spec fn schema_object(schema: JsonView) -> Option<Seq<(Seq<char>, JsonView)>> {
    match schema {
        JsonView::Object(o) => Some(o),
        _ => None,
    }
}

/// The `required` list of a schema, when it is an array.
pub open spec fn required_of(schema: JsonView) -> Option<Seq<JsonView>> {
    match schema {
        JsonView::Object(o) => match lookup(o, "required"@) {
            Some(JsonView::Array(a)) => Some(a),
            _ => None,
        },
        _ => None,
    }
}

/// The `properties` map of a schema, when it is an object.
pub open spec fn properties_of(schema: JsonView) -> Option<Seq<(Seq<char>, JsonView)>> {
    match schema {
        JsonView::Object(o) => match lookup(o, "properties"@) {
            Some(JsonView::Object(p)) => Some(p),
            _ => None,
        },
        _ => None,
    }
}

/// Required entry `i` names a field that the object lacks.
pub open spec fn missing_at(req: Seq<JsonView>, o: Seq<(Seq<char>, JsonView)>, i: int) -> bool {
    req[i] is Str && !has_key(o, req[i]->Str_0)
}

pub open spec fn missing_pred(req: Seq<JsonView>, o: Seq<(Seq<char>, JsonView)>) -> spec_fn(int) -> bool {
    |i: int| missing_at(req, o, i)
}

/// Field `i` of the object is not declared among the properties.
pub open spec fn unknown_at(o: Seq<(Seq<char>, JsonView)>, props: Seq<(Seq<char>, JsonView)>, i: int) -> bool {
    !has_key(props, o[i].0)
}

pub open spec fn unknown_pred(o: Seq<(Seq<char>, JsonView)>, props: Seq<(Seq<char>, JsonView)>) -> spec_fn(int) -> bool {
    |i: int| unknown_at(o, props, i)
}

/// The first required field that the value lacks, or the value not being an object.
pub open spec fn required_fault(schema: JsonView, v: JsonView) -> Option<SchemaFault> {
    match required_of(schema) {
        Some(req) => match v {
            JsonView::Object(o) => match first_where(req.len() as int, missing_pred(req, o)) {
                Some(i) => Some(SchemaFault::Missing(req[i]->Str_0)),
                None => None,
            },
            _ => Some(SchemaFault::NotObject),
        },
        None => None,
    }
}

/// The verdict of a schema on a value: no fault, or the first one found.
pub open spec fn schema_check(schema: JsonView, v: JsonView) -> Option<SchemaFault> {
    if required_fault(schema, v) is Some {
        required_fault(schema, v)
    } else {
        match (properties_of(schema), v) {
            (Some(props), JsonView::Object(o)) => match first_where(o.len() as int, unknown_pred(o, props)) {
                Some(i) => Some(SchemaFault::Unknown(o[i].0)),
                None => None,
            },
            _ => None,
        }
    }
}

/// The fields of `o` that `props` declares, in order.
pub open spec fn keep_declared(o: Seq<(Seq<char>, JsonView)>, props: Seq<(Seq<char>, JsonView)>) -> Seq<(Seq<char>, JsonView)>
    decreases o.len(),
{
    if o.len() == 0 {
        o
    } else {
        let rest = keep_declared(o.drop_last(), props);
        if has_key(props, o.last().0) {
            rest.push(o.last())
        } else {
            rest
        }
    }
}

/// A value with the fields that the schema does not declare taken out.
pub open spec fn stripped(schema: JsonView, v: JsonView) -> JsonView {
    match (properties_of(schema), v) {
        (Some(props), JsonView::Object(o)) => JsonView::Object(keep_declared(o, props)),
        _ => v,
    }
}

proof fn lemma_keep_declared(o: Seq<(Seq<char>, JsonView)>, props: Seq<(Seq<char>, JsonView)>)
    ensures
        forall|k: int|
            0 <= k < keep_declared(o, props).len() ==> has_key(props, (#[trigger] keep_declared(o, props)[k]).0),
    decreases o.len(),
{
    if o.len() > 0 {
        lemma_keep_declared(o.drop_last(), props);
        let rest = keep_declared(o.drop_last(), props);
        if has_key(props, o.last().0) {
            assert forall|k: int| 0 <= k < rest.push(o.last()).len() implies has_key(
                props,
                (#[trigger] rest.push(o.last())[k]).0,
            ) by {
                if k < rest.len() {
                    assert(rest.push(o.last())[k] == rest[k]);
                }
            }
        }
    }
}

/// Strip, then validate: the stripped value is refused exactly when a
/// required field is missing (or it is not an object while fields are
/// required), never for an undeclared field.
pub proof fn lemma_strip_then_validate(schema: JsonView, v: JsonView)
    ensures
        schema_check(schema, stripped(schema, v)) == required_fault(schema, stripped(schema, v)),
{
    let sv = stripped(schema, v);
    if required_fault(schema, sv) is None {
        match (properties_of(schema), v) {
            (Some(props), JsonView::Object(o)) => {
                let kept = keep_declared(o, props);
                lemma_keep_declared(o, props);
                let p = unknown_pred(kept, props);
                lemma_first_where(kept.len() as int, p);
                if first_where(kept.len() as int, p) is Some {
                    let i = first_where(kept.len() as int, p)->Some_0;
                    assert(has_key(props, kept[i].0));
                }
            },
            _ => {},
        }
    }
}

pub struct JsonSchema {
    pub schema: Json,
}

pub enum SchemaError {
    MissingField(String),
    UnknownField(String),
    TypeMismatch(String),
}

/// The message of a schema fault.
pub open spec fn fault_text(f: SchemaFault) -> Seq<char> {
    match f {
        SchemaFault::Missing(n) => "missing required field: "@ + n,
        SchemaFault::Unknown(n) => "unknown field: "@ + n,
        SchemaFault::NotObject => "type mismatch: "@ + "expected object"@,
    }
}

impl SchemaError {
    /// The message of the error.
    pub fn message(&self) -> (r: String)
        ensures
            r@ == (match self {
                SchemaError::MissingField(n) => "missing required field: "@ + n@,
                SchemaError::UnknownField(n) => "unknown field: "@ + n@,
                SchemaError::TypeMismatch(m) => "type mismatch: "@ + m@,
            }),
    {
        let (head, tail) = match self {
            SchemaError::MissingField(n) => ("missing required field: ", n),
            SchemaError::UnknownField(n) => ("unknown field: ", n),
            SchemaError::TypeMismatch(m) => ("type mismatch: ", m),
        };
        let mut r = head.to_owned();
        crate::json::append_text(&mut r, tail.as_str());
        r
    }

    pub open spec fn fault(&self) -> SchemaFault {
        match self {
            SchemaError::MissingField(f) => SchemaFault::Missing(f@),
            SchemaError::UnknownField(f) => SchemaFault::Unknown(f@),
            SchemaError::TypeMismatch(_) => SchemaFault::NotObject,
        }
    }
}

/// True when `key` names a field of `fields`.
pub fn field_present(fields: &Vec<(String, Json)>, key: &str) -> (r: bool)
    ensures
        r == has_key(fields_view(fields@), key@),
{
    proof {
        lemma_first_index(fields_view(fields@), key@);
    }
    field_get(fields, key).is_some()
}

impl JsonSchema {
    pub fn new(schema: Json) -> (r: Self)
        ensures
            r.schema@ == schema@,
    {
        JsonSchema { schema }
    }

    /// Checks a value: required fields first, in the listed order, then
    /// undeclared fields, in the value's order.
    pub fn validate(&self, value: &Json) -> (r: Result<(), SchemaError>)
        ensures
            match r {
                Ok(()) => schema_check(self.schema@, value@) is None,
                Err(e) => schema_check(self.schema@, value@) == Some(e.fault())
                    && (e is TypeMismatch ==> e->TypeMismatch_0@ == "expected object"@),
            },
    {
        let ghost sv = self.schema@;
        let ghost vv = value@;
        if let Some(required) = self.schema.get("required") {
            if let Json::Array(req) = required {
                let ghost rv = required@->Array_0;
                proof {
                    crate::json::lemma_view_items(*req);
                }
                if let Json::Object(vals) = value {
                    let ghost o = fields_view(vals@);
                    proof {
                        crate::json::lemma_view_fields(*vals);
                    }
                    let ghost p = missing_pred(rv, o);
                    let mut i: usize = 0;
                    assert(required_of(sv) == Some(rv));
                    while i < req.len()
                        invariant
                            sv == self.schema@,
                            vv == value@,
                            required_of(sv) == Some(rv),
                            vv == JsonView::Object(o),
                            i <= req.len(),
                            rv.len() == req.len(),
                            forall|k: int| 0 <= k < req.len() ==> rv[k] == (#[trigger] req[k])@,
                            o == fields_view(vals@),
                            p == missing_pred(rv, o),
                            first_where(i as int, p) is None,
                        decreases req.len() - i,
                    {
                        if let Json::Str(field) = &req[i] {
                            if !field_present(vals, field.as_str()) {
                                proof {
                                    assert(p(i as int));
                                    lemma_first_where(i as int, p);
                                    assert(first_where(i as int + 1, p) == Some(i as int));
                                    lemma_first_where_stable(i as int + 1, rv.len() as int, p);
                                    assert(rv[i as int]->Str_0 == field@);
                                }
                                return Err(SchemaError::MissingField(field.clone()));
                            }
                        }
                        proof {
                            assert(!p(i as int));
                        }
                        i += 1;
                    }
                } else {
                    return Err(SchemaError::TypeMismatch("expected object".to_owned()));
                }
            }
        }
        assert(required_fault(sv, vv) is None);
        if let Some(props) = self.schema.get("properties") {
            if let (Json::Object(decl), Json::Object(vals)) = (props, value) {
                let ghost o = fields_view(vals@);
                let ghost pr = fields_view(decl@);
                proof {
                    crate::json::lemma_view_fields(*vals);
                    crate::json::lemma_view_fields(*decl);
                }
                let ghost p = unknown_pred(o, pr);
                let mut i: usize = 0;
                assert(properties_of(sv) == Some(pr));
                while i < vals.len()
                    invariant
                        sv == self.schema@,
                        vv == value@,
                        required_fault(sv, vv) is None,
                        properties_of(sv) == Some(pr),
                        vv == JsonView::Object(o),
                        i <= vals.len(),
                        o == fields_view(vals@),
                        p == unknown_pred(o, pr),
                        pr == fields_view(decl@),
                        first_where(i as int, p) is None,
                    decreases vals.len() - i,
                {
                    if !field_present(decl, vals[i].0.as_str()) {
                        proof {
                            assert(p(i as int));
                            lemma_first_where(i as int, p);
                            assert(first_where(i as int + 1, p) == Some(i as int));
                            lemma_first_where_stable(i as int + 1, o.len() as int, p);
                        }
                        return Err(SchemaError::UnknownField(vals[i].0.clone()));
                    }
                    i += 1;
                }
            }
        }
        Ok(())
    }

    /// Removes from an object every field that the schema's `properties` do not declare.
    pub fn strip_unknown_fields(&self, value: &mut Json)
        ensures
            final(value)@ == stripped(self.schema@, old(value)@),
    {
        if let Some(props) = self.schema.get("properties") {
            if let Json::Object(decl) = props {
                if let Json::Object(vals) = value {
                    let ghost o = fields_view(vals@);
                    let ghost pr = fields_view(decl@);
                    proof {
                        crate::json::lemma_view_fields(*vals);
                        crate::json::lemma_view_fields(*decl);
                    }
                    let mut kept: Vec<(String, Json)> = Vec::new();
                    let mut i: usize = 0;
                    while i < vals.len()
                        invariant
                            i <= vals.len(),
                            o == fields_view(vals@),
                            pr == fields_view(decl@),
                            fields_view(kept@) == keep_declared(o.take(i as int), pr),
                        decreases vals.len() - i,
                    {
                        proof {
                            assert(o.take(i as int + 1).drop_last() =~= o.take(i as int));
                        }
                        if field_present(decl, vals[i].0.as_str()) {
                            let v = vals[i].1.deep_clone();
                            let ghost before = kept@;
                            kept.push((vals[i].0.clone(), v));
                            proof {
                                assert(fields_view(kept@) =~= fields_view(before).push(o[i as int]));
                            }
                        }
                        i += 1;
                    }
                    proof {
                        assert(o.take(vals.len() as int) =~= o);
                    }
                    *vals = kept;
                    proof {
                        crate::json::lemma_view_fields(*vals);
                    }
                }
            }
        }
    }

    /// Token estimate of the schema: a quarter of the length of its JSON text.
    pub fn estimate_tokens(&self) -> (r: u32)
        ensures
            r == tokens_of(json_text(self.schema@)),
    {
        let s = to_json_text(&self.schema);
        estimate_tokens(s.as_str())
    }
}

pub struct SkillDefinition {
    pub id: String,
    pub input_schema: JsonSchema,
    pub output_schema: JsonSchema,
    pub execution_mode: SkillExecutionMode,
    pub max_output_tokens: u32,
    pub compact_keys: Option<Json>,
}

/// Two definitions that agree in every field.
pub open spec fn same_definition(a: SkillDefinition, b: SkillDefinition) -> bool {
    &&& a.id@ == b.id@
    &&& a.input_schema.schema@ == b.input_schema.schema@
    &&& a.output_schema.schema@ == b.output_schema.schema@
    &&& a.execution_mode == b.execution_mode
    &&& a.max_output_tokens == b.max_output_tokens
    &&& match (a.compact_keys, b.compact_keys) {
        (Some(x), Some(y)) => x@ == y@,
        (None, None) => true,
        _ => false,
    }
}

impl SkillDefinition {
    /// A copy of the definition.
    pub fn copy_definition(&self) -> (r: Self)
        ensures
            same_definition(r, *self),
    {
        SkillDefinition {
            id: self.id.clone(),
            input_schema: JsonSchema { schema: self.input_schema.schema.deep_clone() },
            output_schema: JsonSchema { schema: self.output_schema.schema.deep_clone() },
            execution_mode: self.execution_mode,
            max_output_tokens: self.max_output_tokens,
            compact_keys: match &self.compact_keys {
                Some(k) => Some(k.deep_clone()),
                None => None,
            },
        }
    }

    pub fn is_deterministic(&self) -> (r: bool)
        ensures
            r == (self.execution_mode == SkillExecutionMode::Deterministic),
    {
        self.execution_mode == SkillExecutionMode::Deterministic
    }
}

} // verus!
