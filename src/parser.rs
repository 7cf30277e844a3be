//! Version-aware normalizing parser: document tree to content model.

use vstd::prelude::*;

use crate::error::OasError;
use crate::json::{json_text_tree, yaml_text_tree, read_json, read_yaml, TextError, bool_of, digest_spec, field, json_digest, lemma_lookup_first, lookup, str_of, Json, MAX_DEPTH};
use crate::model::{
    endpoint_key_spec, endpoint_keys, schema_names, Endpoint, ParsedSpec, SpecMetadata, HttpMethod, OpenApiVersion, Parameter, ParameterLocation, RequestBody,
    Response, Schema, SchemaType,
};
use crate::text::{
    insert_sorted, lemma_sorted_no_dup, sorted_strs, contains_str, has_prefix, opt_view, str_equal, lemma_push_contains, lemma_push_fresh, lemma_views_push, starts_with,
    strip_prefix, strip_prefix_spec, views,
};

verus! {

/// Parses API documents into the content model.
pub struct OpenApiParser;

/// Outcome of version detection.
pub open spec fn version_spec(doc: Json) -> Result<OpenApiVersion, OasError> {
    let swagger = str_of(field(doc, "swagger"@));
    let openapi = str_of(field(doc, "openapi"@));
    if swagger.is_some() && has_prefix(swagger.unwrap(), "2."@) {
        Ok(OpenApiVersion::Swagger2)
    } else if openapi.is_some() {
        if has_prefix(openapi.unwrap(), "3.0"@) {
            Ok(OpenApiVersion::OpenApi30)
        } else if has_prefix(openapi.unwrap(), "3.1"@) {
            Ok(OpenApiVersion::OpenApi31)
        } else {
            Err(OasError::UnsupportedVersion(arbitrary()))
        }
    } else if swagger.is_some() {
        Err(OasError::UnsupportedVersion(arbitrary()))
    } else {
        Err(OasError::InvalidOpenApi(arbitrary()))
    }
}

/// The version text that an unsupported-version failure reports: the
/// `openapi` field where present, else the `swagger` field.
pub open spec fn reported_version(doc: Json) -> Option<Seq<char>> {
    match str_of(field(doc, "openapi"@)) {
        Some(o) => Some(o),
        None => str_of(field(doc, "swagger"@)),
    }
}

/// Same outcome kind: the same version, or the same error kind.
pub open spec fn same_outcome(a: Result<OpenApiVersion, OasError>, b: Result<OpenApiVersion, OasError>) -> bool {
    match (a, b) {
        (Ok(x), Ok(y)) => x == y,
        (Err(OasError::UnsupportedVersion(_)), Err(OasError::UnsupportedVersion(_))) => true,
        (Err(OasError::InvalidOpenApi(_)), Err(OasError::InvalidOpenApi(_))) => true,
        _ => false,
    }
}

/// ASCII case-insensitive equality of characters, against a lower-case `t`.
pub open spec fn ci_char(c: char, t: char) -> bool {
    c == t || ('A' <= c && c <= 'Z' && c as u32 + 32 == t as u32)
}

/// ASCII case-insensitive equality, against lower-case text `t`.
pub open spec fn ci_eq(s: Seq<char>, t: Seq<char>) -> bool {
    s.len() == t.len() && forall|i: int| 0 <= i < s.len() ==> ci_char(#[trigger] s[i], t[i])
}

fn eq_ignore_case(s: &str, t: &str) -> (r: bool)
    ensures
        r == ci_eq(s@, t@),
{
    let n = s.unicode_len();
    if n != t.unicode_len() {
        return false;
    }
    let mut i: usize = 0;
    while i < n
        invariant
            n == s@.len(),
            n == t@.len(),
            i <= n,
            forall|k: int| 0 <= k < i ==> ci_char(#[trigger] s@[k], t@[k]),
        decreases n - i,
    {
        let c = s.get_char(i);
        let d = t.get_char(i);
        if !(c == d || ('A' <= c && c <= 'Z' && (c as u32) + 32 == d as u32)) {
            return false;
        }
        i += 1;
    }
    true
}

/// The HTTP method that a path-item member names, ignoring ASCII case.
pub open spec fn method_spec(s: Seq<char>) -> Option<HttpMethod> {
    if ci_eq(s, "get"@) {
        Some(HttpMethod::Get)
    } else if ci_eq(s, "post"@) {
        Some(HttpMethod::Post)
    } else if ci_eq(s, "put"@) {
        Some(HttpMethod::Put)
    } else if ci_eq(s, "patch"@) {
        Some(HttpMethod::Patch)
    } else if ci_eq(s, "delete"@) {
        Some(HttpMethod::Delete)
    } else if ci_eq(s, "head"@) {
        Some(HttpMethod::Head)
    } else if ci_eq(s, "options"@) {
        Some(HttpMethod::Options)
    } else if ci_eq(s, "trace"@) {
        Some(HttpMethod::Trace)
    } else {
        None
    }
}

/// A `$ref` target as a bare schema name: the Swagger 2.0 or OpenAPI 3.x
/// local prefix removed.
pub open spec fn clean_ref(s: Seq<char>) -> Seq<char> {
    if has_prefix(s, "#/definitions/"@) {
        strip_prefix_spec(s, "#/definitions/"@)
    } else {
        strip_prefix_spec(s, "#/components/schemas/"@)
    }
}

fn clean_ref_name(s: &str) -> (r: String)
    ensures
        r@ == clean_ref(s@),
{
    if starts_with(s, "#/definitions/") {
        strip_prefix(s, "#/definitions/")
    } else {
        strip_prefix(s, "#/components/schemas/")
    }
}

/// Every `$ref` string of a tree, cleaned, in document order, repeats kept;
/// down to `fuel` levels.
pub open spec fn refs_of(j: Json, fuel: nat) -> Seq<Seq<char>>
    decreases fuel, 0nat, 0nat,
{
    if fuel == 0 {
        Seq::empty()
    } else {
        match j {
            Json::Array(a) => refs_items(a@, (fuel - 1) as nat),
            Json::Object(m) => (match str_of(field(j, "$ref"@)) {
                Some(s) => seq![clean_ref(s)],
                None => Seq::empty(),
            }) + refs_members(m@, (fuel - 1) as nat),
            _ => Seq::empty(),
        }
    }
}

pub open spec fn refs_items(s: Seq<Json>, fuel: nat) -> Seq<Seq<char>>
    decreases fuel, 1nat, s.len(),
{
    if s.len() == 0 {
        Seq::empty()
    } else {
        refs_items(s.drop_last(), fuel) + refs_of(s.last(), fuel)
    }
}

pub open spec fn refs_members(s: Seq<(String, Json)>, fuel: nat) -> Seq<Seq<char>>
    decreases fuel, 1nat, s.len(),
{
    if s.len() == 0 {
        Seq::empty()
    } else {
        refs_members(s.drop_last(), fuel) + refs_of(s.last().1, fuel)
    }
}

fn collect_refs(j: &Json, fuel: usize, out: &mut Vec<String>)
    ensures
        views(final(out)@) == views(old(out)@) + refs_of(*j, fuel as nat),
    decreases fuel, 0nat, 0nat,
{
    if fuel == 0 {
        return;
    }
    let ghost o0 = views(out@);
    match j {
        Json::Array(a) => {
            let mut i: usize = 0;
            while i < a.len()
                invariant
                    fuel > 0,
                    i <= a@.len(),
                    views(out@) == o0 + refs_items(a@.subrange(0, i as int), (fuel - 1) as nat),
                decreases a.len() - i,
            {
                proof {
                    assert(a@.subrange(0, i + 1).drop_last() =~= a@.subrange(0, i as int));
                }
                collect_refs(&a[i], fuel - 1, out);
                assert(views(out@) =~= o0 + refs_items(a@.subrange(0, i + 1), (fuel - 1) as nat));
                i += 1;
            }
            assert(a@.subrange(0, i as int) =~= a@);
        },
        Json::Object(m) => {
            match j.get("$ref") {
                Some(Json::Str(s)) => {
                    let c = clean_ref_name(s.as_str());
                    proof {
                        lemma_views_push(out@, c);
                    }
                    out.push(c);
                },
                _ => {},
            }
            let ghost o1 = views(out@);
            assert(o1 == o0 + match str_of(field(*j, "$ref"@)) {
                Some(s) => seq![clean_ref(s)],
                None => Seq::<Seq<char>>::empty(),
            });
            let mut i: usize = 0;
            while i < m.len()
                invariant
                    fuel > 0,
                    i <= m@.len(),
                    views(out@) == o1 + refs_members(m@.subrange(0, i as int), (fuel - 1) as nat),
                decreases m.len() - i,
            {
                proof {
                    assert(m@.subrange(0, i + 1).drop_last() =~= m@.subrange(0, i as int));
                }
                collect_refs(&m[i].1, fuel - 1, out);
                assert(views(out@) =~= o1 + refs_members(m@.subrange(0, i + 1), (fuel - 1) as nat));
                i += 1;
            }
            assert(m@.subrange(0, i as int) =~= m@);
        },
        _ => {
            assert(views(out@) =~= o0 + refs_of(*j, fuel as nat));
        },
    }
}

/// The items of `v` sorted, each once.
fn sorted_unique(v: &Vec<String>) -> (r: Vec<String>)
    ensures
        sorted_strs(views(r@)),
        views(r@).no_duplicates(),
        forall|x: Seq<char>| #[trigger] views(r@).contains(x) <==> views(v@).contains(x),
{
    let mut r: Vec<String> = Vec::new();
    let mut i: usize = 0;
    while i < v.len()
        invariant
            i <= v.len(),
            sorted_strs(views(r@)),
            forall|x: Seq<char>| #[trigger] views(r@).contains(x) <==> views(v@.subrange(0, i as int)).contains(x),
        decreases v.len() - i,
    {
        proof {
            assert(views(v@.subrange(0, i + 1)) =~= views(v@.subrange(0, i as int)).push(v@[i as int]@));
            lemma_push_contains(views(v@.subrange(0, i as int)), v@[i as int]@);
        }
        insert_sorted(&mut r, v[i].clone());
        i += 1;
    }
    assert(v@.subrange(0, i as int) =~= v@);
    proof {
        lemma_sorted_no_dup(views(r@));
    }
    r
}


/// Every `$ref` string of a tree as written, in document order; down to
/// `fuel` levels.
pub open spec fn raw_refs_of(j: Json, fuel: nat) -> Seq<Seq<char>>
    decreases fuel, 0nat, 0nat,
{
    if fuel == 0 {
        Seq::empty()
    } else {
        match j {
            Json::Array(a) => raw_refs_items(a@, (fuel - 1) as nat),
            Json::Object(m) => (match str_of(field(j, "$ref"@)) {
                Some(s) => seq![s],
                None => Seq::empty(),
            }) + raw_refs_members(m@, (fuel - 1) as nat),
            _ => Seq::empty(),
        }
    }
}

pub open spec fn raw_refs_items(s: Seq<Json>, fuel: nat) -> Seq<Seq<char>>
    decreases fuel, 1nat, s.len(),
{
    if s.len() == 0 {
        Seq::empty()
    } else {
        raw_refs_items(s.drop_last(), fuel) + raw_refs_of(s.last(), fuel)
    }
}

pub open spec fn raw_refs_members(s: Seq<(String, Json)>, fuel: nat) -> Seq<Seq<char>>
    decreases fuel, 1nat, s.len(),
{
    if s.len() == 0 {
        Seq::empty()
    } else {
        raw_refs_members(s.drop_last(), fuel) + raw_refs_of(s.last().1, fuel)
    }
}

fn collect_raw_refs(j: &Json, fuel: usize, out: &mut Vec<String>)
    ensures
        views(final(out)@) == views(old(out)@) + raw_refs_of(*j, fuel as nat),
    decreases fuel, 0nat, 0nat,
{
    if fuel == 0 {
        return;
    }
    let ghost o0 = views(out@);
    match j {
        Json::Array(a) => {
            let mut i: usize = 0;
            while i < a.len()
                invariant
                    fuel > 0,
                    i <= a@.len(),
                    views(out@) == o0 + raw_refs_items(a@.subrange(0, i as int), (fuel - 1) as nat),
                decreases a.len() - i,
            {
                proof {
                    assert(a@.subrange(0, i + 1).drop_last() =~= a@.subrange(0, i as int));
                }
                collect_raw_refs(&a[i], fuel - 1, out);
                assert(views(out@) =~= o0 + raw_refs_items(a@.subrange(0, i + 1), (fuel - 1) as nat));
                i += 1;
            }
            assert(a@.subrange(0, i as int) =~= a@);
        },
        Json::Object(m) => {
            match j.get("$ref") {
                Some(Json::Str(s)) => {
                    let c = s.clone();
                    proof {
                        lemma_views_push(out@, c);
                    }
                    out.push(c);
                },
                _ => {},
            }
            let ghost o1 = views(out@);
            assert(o1 == o0 + match str_of(field(*j, "$ref"@)) {
                Some(s) => seq![s],
                None => Seq::<Seq<char>>::empty(),
            });
            let mut i: usize = 0;
            while i < m.len()
                invariant
                    fuel > 0,
                    i <= m@.len(),
                    views(out@) == o1 + raw_refs_members(m@.subrange(0, i as int), (fuel - 1) as nat),
                decreases m.len() - i,
            {
                proof {
                    assert(m@.subrange(0, i + 1).drop_last() =~= m@.subrange(0, i as int));
                }
                collect_raw_refs(&m[i].1, fuel - 1, out);
                assert(views(out@) =~= o1 + raw_refs_members(m@.subrange(0, i + 1), (fuel - 1) as nat));
                i += 1;
            }
            assert(m@.subrange(0, i as int) =~= m@);
        },
        _ => {
            assert(views(out@) =~= o0 + raw_refs_of(*j, fuel as nat));
        },
    }
}

/// Local prefix of schema references in a version.
pub open spec fn schema_prefix(v: OpenApiVersion) -> Seq<char> {
    if v == OpenApiVersion::Swagger2 {
        "#/definitions/"@
    } else {
        "#/components/schemas/"@
    }
}

/// A `$ref` that cannot be followed: it points outside the document, or to
/// a schema of this document's kind that is not defined (`names`).
pub open spec fn unresolved(r: Seq<char>, v: OpenApiVersion, names: Seq<Seq<char>>) -> bool {
    !has_prefix(r, "#"@) || (has_prefix(r, schema_prefix(v)) && !names.contains(
        strip_prefix_spec(r, schema_prefix(v)),
    ))
}

/// The first reference of `refs` that cannot be followed, if any.
fn first_unresolved(refs: &Vec<String>, v: OpenApiVersion, names: &Vec<String>) -> (r: Option<String>)
    ensures
        match r {
            Some(x) => views(refs@).contains(x@) && unresolved(x@, v, views(names@)),
            None => forall|k: int| 0 <= k < refs@.len() ==> !unresolved(#[trigger] views(refs@)[k], v, views(names@)),
        },
{
    let prefix = if v == OpenApiVersion::Swagger2 {
        "#/definitions/"
    } else {
        "#/components/schemas/"
    };
    let mut i: usize = 0;
    while i < refs.len()
        invariant
            i <= refs@.len(),
            prefix@ == schema_prefix(v),
            forall|k: int| 0 <= k < i ==> !unresolved(#[trigger] views(refs@)[k], v, views(names@)),
        decreases refs.len() - i,
    {
        let r = refs[i].as_str();
        let bad = !starts_with(r, "#") || (starts_with(r, prefix) && !contains_str(names, strip_prefix(r, prefix).as_str()));
        assert(views(refs@)[i as int] == r@);
        if bad {
            return Some(refs[i].clone());
        }
        i += 1;
    }
    None
}

/// Schema names referenced anywhere in a tree, each once.
pub open spec fn refs_set(j: Json, x: Seq<char>) -> bool {
    refs_of(j, MAX_DEPTH as nat).contains(x)
}

impl OpenApiParser {
    /// Detects the document version from its `swagger` / `openapi` fields.
    pub fn detect_version(doc: &Json) -> (r: Result<OpenApiVersion, OasError>)
        ensures
            same_outcome(r, version_spec(*doc)),
            r matches Err(OasError::UnsupportedVersion(v)) ==> Some(v@) == reported_version(*doc),
    {
        let swagger = doc.get_str("swagger");
        if let Some(sw) = &swagger {
            if starts_with(sw.as_str(), "2.") {
                return Ok(OpenApiVersion::Swagger2);
            }
        }
        if let Some(openapi) = doc.get_str("openapi") {
            if starts_with(openapi.as_str(), "3.0") {
                return Ok(OpenApiVersion::OpenApi30);
            }
            if starts_with(openapi.as_str(), "3.1") {
                return Ok(OpenApiVersion::OpenApi31);
            }
            return Err(OasError::UnsupportedVersion(openapi));
        }
        if let Some(sw) = swagger {
            return Err(OasError::UnsupportedVersion(sw));
        }
        Err(OasError::InvalidOpenApi(String::from_str("Missing 'openapi' or 'swagger' field")))
    }

    /// The HTTP method a path-item member names, if any.
    pub fn parse_http_method(method: &str) -> (r: Option<HttpMethod>)
        ensures
            r == method_spec(method@),
    {
        if eq_ignore_case(method, "get") {
            Some(HttpMethod::Get)
        } else if eq_ignore_case(method, "post") {
            Some(HttpMethod::Post)
        } else if eq_ignore_case(method, "put") {
            Some(HttpMethod::Put)
        } else if eq_ignore_case(method, "patch") {
            Some(HttpMethod::Patch)
        } else if eq_ignore_case(method, "delete") {
            Some(HttpMethod::Delete)
        } else if eq_ignore_case(method, "head") {
            Some(HttpMethod::Head)
        } else if eq_ignore_case(method, "options") {
            Some(HttpMethod::Options)
        } else if eq_ignore_case(method, "trace") {
            Some(HttpMethod::Trace)
        } else {
            None
        }
    }

    /// Schema names referenced by `$ref` anywhere in `value`, prefixes
    /// removed, sorted, each once.
    pub fn extract_refs(value: &Json) -> (r: Vec<String>)
        ensures
            sorted_strs(views(r@)),
            views(r@).no_duplicates(),
            forall|x: Seq<char>| #[trigger] views(r@).contains(x) <==> refs_set(*value, x),
    {
        let mut all: Vec<String> = Vec::new();
        collect_refs(value, MAX_DEPTH, &mut all);
        assert(views(all@) =~= refs_of(*value, MAX_DEPTH as nat));
        sorted_unique(&all)
    }
}

/// The string items of an array member `key`, others skipped; `None` where
/// there is no such array.
fn string_items(j: &Json, key: &str) -> (r: Option<Vec<String>>)
    ensures
        match field(*j, key@) {
            Some(Json::Array(a)) => r is Some && views(r->Some_0@) == texts(a@),
            _ => r is None,
        },
{
    match j.get(key) {
        Some(Json::Array(a)) => {
            let mut out: Vec<String> = Vec::new();
            let mut i: usize = 0;
            while i < a.len()
                invariant
                    i <= a@.len(),
                    views(out@) == texts(a@.subrange(0, i as int)),
                decreases a.len() - i,
            {
                proof {
                    assert(a@.subrange(0, i + 1).drop_last() =~= a@.subrange(0, i as int));
                }
                if let Json::Str(s) = &a[i] {
                    let c = s.clone();
                    proof {
                        lemma_views_push(out@, c);
                    }
                    out.push(c);
                }
                i += 1;
            }
            assert(a@.subrange(0, i as int) =~= a@);
            Some(out)
        },
        _ => None,
    }
}

/// The texts of the string nodes of a list, others skipped.
pub open spec fn texts(s: Seq<Json>) -> Seq<Seq<char>>
    decreases s.len(),
{
    if s.len() == 0 {
        Seq::empty()
    } else {
        texts(s.drop_last()) + match s.last() {
            Json::Str(t) => seq![t@],
            _ => Seq::empty(),
        }
    }
}

/// Items of an array node; none for other nodes.
pub open spec fn array_items(j: Option<Json>) -> Seq<Json> {
    match j {
        Some(Json::Array(a)) => a@,
        _ => Seq::empty(),
    }
}

/// Where a parameter node says it is carried, if the version knows it.
pub open spec fn location_spec(p: Json, v: OpenApiVersion) -> Option<ParameterLocation> {
    let l = str_of(field(p, "in"@));
    if l == Some("path"@) {
        Some(ParameterLocation::Path)
    } else if l == Some("query"@) {
        Some(ParameterLocation::Query)
    } else if l == Some("header"@) {
        Some(ParameterLocation::Header)
    } else if l == Some("cookie"@) && v != OpenApiVersion::Swagger2 {
        Some(ParameterLocation::Cookie)
    } else {
        None
    }
}

/// `r` is the parameter read from node `p`.
pub open spec fn param_ok(r: Parameter, p: Json, v: OpenApiVersion) -> bool {
    let loc = location_spec(p, v);
    &&& loc == Some(r.location)
    &&& r.name@ == or_default(str_of(field(p, "name"@)), ""@)
    &&& r.required == match bool_of(field(p, "required"@)) {
        Some(b) => b,
        None => r.location == ParameterLocation::Path,
    }
    &&& opt_view(r.description) == str_of(field(p, "description"@))
    &&& opt_view(r.schema_ref) == if v == OpenApiVersion::Swagger2 {
        None
    } else {
        schema_ref_spec(p)
    }
    &&& opt_view(r.schema_type) == if v == OpenApiVersion::Swagger2 {
        str_of(field(p, "type"@))
    } else {
        match field(p, "schema"@) {
            Some(sc) => str_of(field(sc, "type"@)),
            None => None,
        }
    }
}

/// Node `i` of `items` is the first `in: body` parameter.
pub open spec fn first_body(items: Seq<Json>, i: int) -> bool {
    &&& 0 <= i < items.len()
    &&& str_of(field(items[i], "in"@)) == Some("body"@)
    &&& forall|k: int| 0 <= k < i ==> str_of(field(#[trigger] items[k], "in"@)) != Some("body"@)
}

/// `r` is the request body that operation `op` declares.
pub open spec fn body_ok(r: Option<RequestBody>, op: Json, v: OpenApiVersion) -> bool {
    if v == OpenApiVersion::Swagger2 {
        let items = array_items(field(op, "parameters"@));
        match r {
            Some(b) => exists|i: int| first_body(items, i) && opt_view(b.schema_ref) == schema_ref_spec(
                #[trigger] items[i],
            ) && b.required == (bool_of(field(items[i], "required"@)) == Some(true)) && opt_view(b.description)
                == str_of(field(items[i], "description"@)) && views(b.content_types@) == declared_types(op, "consumes"@),
            None => forall|i: int| 0 <= i < items.len() ==> str_of(field(#[trigger] items[i], "in"@)) != Some("body"@),
        }
    } else {
        match field(op, "requestBody"@) {
            Some(bn) => match field(bn, "content"@) {
                Some(Json::Object(m)) => match r {
                    Some(b) => {
                        &&& opt_view(b.schema_ref) == if m@.len() > 0 {
                            schema_ref_spec(m@[0].1)
                        } else {
                            None
                        }
                        &&& b.required == (bool_of(field(bn, "required"@)) == Some(true))
                        &&& opt_view(b.description) == str_of(field(bn, "description"@))
                        &&& views(b.content_types@) == names_of(m@)
                    },
                    None => false,
                },
                _ => r is None,
            },
            None => r is None,
        }
    }
}

/// The parameter nodes of an operation that the version reads as parameters.
pub open spec fn param_nodes(op: Json, v: OpenApiVersion) -> Seq<Json> {
    array_items(field(op, "parameters"@)).filter(|p: Json| location_spec(p, v).is_some())
}

/// `r` is the response read from member (`status`, `resp`).
pub open spec fn response_ok(r: Response, status: Seq<char>, resp: Json, op: Json, v: OpenApiVersion) -> bool {
    &&& r.status_code@ == status
    &&& views(r.content_types@) == if v == OpenApiVersion::Swagger2 {
        declared_types(op, "produces"@)
    } else {
        match field(resp, "content"@) {
            Some(Json::Object(m)) => names_of(m@),
            _ => Seq::empty(),
        }
    }
    &&& opt_view(r.description) == str_of(field(resp, "description"@))
    &&& opt_view(r.schema_ref) == if v == OpenApiVersion::Swagger2 {
        schema_ref_spec(resp)
    } else {
        match field(resp, "content"@) {
            Some(Json::Object(m)) => if m@.len() > 0 {
                schema_ref_spec(m@[0].1)
            } else {
                None
            },
            _ => None,
        }
    }
}

/// Names of object members.
pub open spec fn names_of(m: Seq<(String, Json)>) -> Seq<Seq<char>> {
    m.map_values(|x: (String, Json)| x.0@)
}

/// Content types a Swagger 2.0 operation declares under `key`
/// (`consumes` or `produces`), `application/json` when it declares none.
pub open spec fn declared_types(op: Json, key: Seq<char>) -> Seq<Seq<char>> {
    match list_of(op, key) {
        Some(a) => texts(a),
        None => seq!["application/json"@],
    }
}

/// The cleaned `$ref` of the member `schema` of `j`.
pub open spec fn schema_ref_spec(j: Json) -> Option<Seq<char>> {
    match field(j, "schema"@) {
        Some(s) => match str_of(field(s, "$ref"@)) {
            Some(t) => Some(clean_ref(t)),
            None => None,
        },
        None => None,
    }
}

/// The items of array member `key`, if it is an array.
pub open spec fn list_of(j: Json, key: Seq<char>) -> Option<Seq<Json>> {
    match field(j, key) {
        Some(Json::Array(a)) => Some(a@),
        _ => None,
    }
}

/// Variants of a composite shape: one-of (0), any-of (1) or all-of (2).
pub open spec fn variants_of(t: SchemaType, which: int) -> Option<Seq<SchemaType>> {
    match t {
        SchemaType::OneOf { variants } => if which == 0 { Some(variants@) } else { None },
        SchemaType::AnyOf { variants } => if which == 1 { Some(variants@) } else { None },
        SchemaType::AllOf { variants } => if which == 2 { Some(variants@) } else { None },
        _ => None,
    }
}

/// The format of a scalar shape: string (0), number (1) or integer (2).
pub open spec fn scalar_format(t: SchemaType, kind: int) -> Option<Option<Seq<char>>> {
    match t {
        SchemaType::String { format, .. } => if kind == 0 { Some(opt_view(format)) } else { None },
        SchemaType::Number { format } => if kind == 1 { Some(opt_view(format)) } else { None },
        SchemaType::Integer { format } => if kind == 2 { Some(opt_view(format)) } else { None },
        _ => None,
    }
}

/// The allowed values of a string shape.
pub open spec fn enum_of(t: SchemaType) -> Option<Option<Seq<Seq<char>>>> {
    match t {
        SchemaType::String { enum_values, .. } => Some(
            match enum_values {
                Some(v) => Some(views(v@)),
                None => None,
            },
        ),
        _ => None,
    }
}

/// The item shape of an array shape.
pub open spec fn items_of(t: SchemaType) -> Option<SchemaType> {
    match t {
        SchemaType::Array { items } => Some(*items),
        _ => None,
    }
}

/// The properties of an object shape.
pub open spec fn properties_of(t: SchemaType) -> Option<Seq<(String, SchemaType)>> {
    match t {
        SchemaType::Object { properties, .. } => Some(properties@),
        _ => None,
    }
}

/// The required property names of an object shape.
pub open spec fn required_of(t: SchemaType) -> Option<Seq<Seq<char>>> {
    match t {
        SchemaType::Object { required, .. } => Some(views(required@)),
        _ => None,
    }
}

/// `vs` are the shapes of the nodes `a`, down to `fuel` levels.
pub open spec fn all_shapes_ok(vs: Seq<SchemaType>, a: Seq<Json>, fuel: nat) -> bool
    decreases fuel, 1nat,
{
    vs.len() == a.len() && forall|k: int| 0 <= k < a.len() ==> shape_ok(vs[k], #[trigger] a[k], fuel)
}

/// `r` is the shape read from schema node `j`, down to `fuel` levels:
/// a reference; a one-of, any-of or all-of list of shapes; a typed scalar
/// with its format (and, for strings, allowed values); an array with its
/// item shape (unknown when absent); an object with its property shapes and
/// required names (typed `object`, or untyped, with `properties`); else
/// unknown. Past `fuel` levels, unknown.
pub open spec fn shape_ok(r: SchemaType, j: Json, fuel: nat) -> bool
    decreases fuel, 0nat,
{
    if fuel == 0 {
        r is Unknown
    } else {
        let f = (fuel - 1) as nat;
        let ty = str_of(field(j, "type"@));
        let fmt = str_of(field(j, "format"@));
        let props = members(field(j, "properties"@));
        if str_of(field(j, "$ref"@)).is_some() {
            ref_target(r) == Some(clean_ref(str_of(field(j, "$ref"@)).unwrap()))
        } else if list_of(j, "oneOf"@).is_some() {
            variants_of(r, 0).is_some() && all_shapes_ok(variants_of(r, 0).unwrap(), list_of(j, "oneOf"@).unwrap(), f)
        } else if list_of(j, "anyOf"@).is_some() {
            variants_of(r, 1).is_some() && all_shapes_ok(variants_of(r, 1).unwrap(), list_of(j, "anyOf"@).unwrap(), f)
        } else if list_of(j, "allOf"@).is_some() {
            variants_of(r, 2).is_some() && all_shapes_ok(variants_of(r, 2).unwrap(), list_of(j, "allOf"@).unwrap(), f)
        } else if ty == Some("string"@) {
            scalar_format(r, 0) == Some(fmt) && enum_of(r) == Some(
                match list_of(j, "enum"@) {
                    Some(a) => Some(texts(a)),
                    None => None,
                },
            )
        } else if ty == Some("number"@) {
            scalar_format(r, 1) == Some(fmt)
        } else if ty == Some("integer"@) {
            scalar_format(r, 2) == Some(fmt)
        } else if ty == Some("boolean"@) {
            r is Boolean
        } else if ty == Some("array"@) {
            items_of(r).is_some() && match field(j, "items"@) {
                Some(i) => shape_ok(items_of(r).unwrap(), i, f),
                None => items_of(r).unwrap() is Unknown,
            }
        } else if (ty.is_none() || ty == Some("object"@)) && field(j, "properties"@).is_some() {
            &&& properties_of(r).is_some()
            &&& properties_of(r).unwrap().len() == props.len()
            &&& forall|k: int|
                0 <= k < props.len() ==> (#[trigger] properties_of(r).unwrap()[k]).0@ == props[k].0@ && shape_ok(
                    properties_of(r).unwrap()[k].1,
                    props[k].1,
                    f,
                )
            &&& required_of(r) == Some(texts(array_items(field(j, "required"@))))
        } else {
            r is Unknown
        }
    }
}

fn text_is(t: &Option<String>, name: &str) -> (r: bool)
    ensures
        r == (opt_view(*t) == Some(name@)),
{
    match t {
        Some(x) => str_equal(x.as_str(), name),
        None => false,
    }
}

/// The name a reference shape points to.
pub open spec fn ref_target(t: SchemaType) -> Option<Seq<char>> {
    match t {
        SchemaType::Ref { reference } => Some(reference@),
        _ => None,
    }
}

/// The `$ref` of the member `schema` of `j`, cleaned.
fn schema_ref_of(j: &Json) -> (r: Option<String>)
    ensures
        opt_view(r) == schema_ref_spec(*j),
{
    match j.get("schema") {
        Some(s) => match s.get_str("$ref") {
            Some(t) => Some(clean_ref_name(t.as_str())),
            None => None,
        },
        None => None,
    }
}

/// Member names of an object.
fn member_names(j: &Json) -> (r: Vec<String>)
    ensures
        views(r@) == names_of(members(Some(*j))),
{
    let mut out: Vec<String> = Vec::new();
    if let Json::Object(m) = j {
        let mut i: usize = 0;
        while i < m.len()
            invariant
                i <= m@.len(),
                views(out@) == names_of(m@.subrange(0, i as int)),
            decreases m.len() - i,
        {
            let c = m[i].0.clone();
            proof {
                lemma_views_push(out@, c);
                assert(names_of(m@.subrange(0, i + 1)) =~= names_of(m@.subrange(0, i as int)).push(c@));
            }
            out.push(c);
            i += 1;
        }
        assert(m@.subrange(0, i as int) =~= m@);
    } else {
        assert(views(out@) =~= names_of(members(Some(*j))));
    }
    out
}

fn no_strings() -> (r: Vec<String>)
    ensures
        views(r@) == Seq::<Seq<char>>::empty(),
{
    let r: Vec<String> = Vec::new();
    assert(views(r@) =~= Seq::<Seq<char>>::empty());
    r
}

/// The first member value of an object.
fn first_member(j: &Json) -> (r: Option<&Json>)
    ensures
        match *j {
            Json::Object(m) => if m@.len() > 0 {
                r == Some(&m@[0].1)
            } else {
                r is None
            },
            _ => r is None,
        },
{
    match j {
        Json::Object(m) => if m.len() > 0 {
            Some(&m[0].1)
        } else {
            None
        },
        _ => None,
    }
}

fn default_content_types(op: &Json, key: &str) -> (r: Vec<String>)
    ensures
        views(r@) == declared_types(*op, key@),
{
    match string_items(op, key) {
        Some(v) => v,
        None => {
            let mut v: Vec<String> = Vec::new();
            v.push(String::from_str("application/json"));
            assert(views(v@) =~= seq!["application/json"@]);
            v
        },
    }
}

impl OpenApiParser {
    /// The shape of a schema definition, down to `fuel` levels.
    pub fn parse_schema_type(schema: &Json, fuel: usize) -> (r: SchemaType)
        ensures
            shape_ok(r, *schema, fuel as nat),
        decreases fuel, 0nat,
    {
        if fuel == 0 {
            return SchemaType::Unknown;
        }
        if let Some(t) = schema.get_str("$ref") {
            return SchemaType::Ref { reference: clean_ref_name(t.as_str()) };
        }
        if let Some(v) = Self::variants(schema, "oneOf", fuel - 1) {
            return SchemaType::OneOf { variants: v };
        }
        if let Some(v) = Self::variants(schema, "anyOf", fuel - 1) {
            return SchemaType::AnyOf { variants: v };
        }
        if let Some(v) = Self::variants(schema, "allOf", fuel - 1) {
            return SchemaType::AllOf { variants: v };
        }
        let ty = schema.get_str("type");
        if text_is(&ty, "string") {
            SchemaType::String { format: schema.get_str("format"), enum_values: string_items(schema, "enum") }
        } else if text_is(&ty, "number") {
            SchemaType::Number { format: schema.get_str("format") }
        } else if text_is(&ty, "integer") {
            SchemaType::Integer { format: schema.get_str("format") }
        } else if text_is(&ty, "boolean") {
            SchemaType::Boolean
        } else if text_is(&ty, "array") {
            let items = match schema.get("items") {
                Some(i) => Self::parse_schema_type(i, fuel - 1),
                None => SchemaType::Unknown,
            };
            SchemaType::Array { items: Box::new(items) }
        } else if (ty.is_none() || text_is(&ty, "object")) && schema.get("properties").is_some() {
            let mut properties: Vec<(String, SchemaType)> = Vec::new();
            let ghost ms = members(field(*schema, "properties"@));
            if let Some(Json::Object(m)) = schema.get("properties") {
                assert(m@ == ms);
                let mut i: usize = 0;
                while i < m.len()
                    invariant
                        i <= m@.len(),
                        fuel > 0,
                        m@ == ms,
                        properties@.len() == i,
                        forall|k: int|
                            0 <= k < i ==> (#[trigger] properties@[k]).0@ == ms[k].0@ && shape_ok(
                                properties@[k].1,
                                ms[k].1,
                                (fuel - 1) as nat,
                            ),
                    decreases m.len() - i,
                {
                    let item = (m[i].0.clone(), Self::parse_schema_type(&m[i].1, fuel - 1));
                    let ghost p0 = properties@;
                    properties.push(item);
                    assert forall|k: int| 0 <= k < i + 1 implies (#[trigger] properties@[k]).0@ == ms[k].0@ && shape_ok(
                        properties@[k].1,
                        ms[k].1,
                        (fuel - 1) as nat,
                    ) by {
                        if k < i {
                            assert(properties@[k] == p0[k]);
                        }
                    }
                    i += 1;
                }
            } else {
                assert(ms =~= Seq::<(String, Json)>::empty());
            }
            let required = match string_items(schema, "required") {
                Some(v) => v,
                None => {
                    let v: Vec<String> = Vec::new();
                    assert(views(v@) =~= texts(Seq::empty()));
                    v
                },
            };
            let r = SchemaType::Object { properties, required };
            assert(properties_of(r).unwrap() == properties@);
            r
        } else {
            SchemaType::Unknown
        }
    }

    /// The shapes of the items of an array member `key`, if there is one.
    fn variants(schema: &Json, key: &str, fuel: usize) -> (r: Option<Vec<SchemaType>>)
        ensures
            match r {
                Some(v) => list_of(*schema, key@).is_some() && all_shapes_ok(v@, list_of(*schema, key@).unwrap(), fuel as nat),
                None => list_of(*schema, key@).is_none(),
            },
        decreases fuel, 1nat,
    {
        match schema.get(key) {
            Some(Json::Array(a)) => {
                let mut out: Vec<SchemaType> = Vec::new();
                let mut i: usize = 0;
                while i < a.len()
                    invariant
                        i <= a@.len(),
                        out@.len() == i,
                        forall|k: int| 0 <= k < i ==> shape_ok(out@[k], #[trigger] a@[k], fuel as nat),
                    decreases a.len() - i,
                {
                    let t = Self::parse_schema_type(&a[i], fuel);
                    let ghost o0 = out@;
                    out.push(t);
                    assert forall|k: int| 0 <= k < i + 1 implies shape_ok(out@[k], #[trigger] a@[k], fuel as nat) by {
                        if k < i {
                            assert(out@[k] == o0[k]);
                        }
                    }
                    i += 1;
                }
                Some(out)
            },
            _ => None,
        }
    }
}

/// The endpoint built from operation `op` at `path` with `method`: its
/// identity, digest, references, and the fields read directly from `op`.
pub open spec fn endpoint_from(e: Endpoint, path: Seq<char>, method: HttpMethod, op: Json, v: OpenApiVersion) -> bool {
    &&& e.path@ == path
    &&& e.method == method
    &&& e.hash@ == digest_spec(op)
    &&& sorted_strs(views(e.schema_refs@))
    &&& views(e.schema_refs@).no_duplicates()
    &&& (forall|x: Seq<char>| #[trigger] views(e.schema_refs@).contains(x) <==> refs_set(op, x))
    &&& opt_view(e.operation_id) == str_of(field(op, "operationId"@))
    &&& opt_view(e.summary) == str_of(field(op, "summary"@))
    &&& opt_view(e.description) == str_of(field(op, "description"@))
    &&& e.deprecated == (bool_of(field(op, "deprecated"@)) == Some(true))
    &&& views(e.tags@) == texts(array_items(field(op, "tags"@)))
    &&& e.parameters@.len() == param_nodes(op, v).len()
    &&& (forall|k: int| 0 <= k < e.parameters@.len() ==> param_ok(#[trigger] e.parameters@[k], param_nodes(op, v)[k], v))
    &&& body_ok(e.request_body, op, v)
    &&& e.responses@.len() == members(field(op, "responses"@)).len()
    &&& (forall|k: int| 0 <= k < e.responses@.len() ==> response_ok(
        #[trigger] e.responses@[k],
        members(field(op, "responses"@))[k].0@,
        members(field(op, "responses"@))[k].1,
        op,
        v,
    ))
}

impl OpenApiParser {
    /// Parameters of an operation. Swagger 2.0 leaves out the `body`
    /// parameter (it becomes the request body); both skip unknown locations.
    /// A parameter is required when it says so, and path parameters by default.
    fn parse_parameters(op: &Json, version: OpenApiVersion) -> (r: Vec<Parameter>)
        ensures
            r@.len() == param_nodes(*op, version).len(),
            forall|k: int| 0 <= k < r@.len() ==> param_ok(#[trigger] r@[k], param_nodes(*op, version)[k], version),
    {
        let ghost pred = |p: Json| location_spec(p, version).is_some();
        let mut params: Vec<Parameter> = Vec::new();
        let empty: Vec<Json> = Vec::new();
        let list = match op.get("parameters") {
            Some(Json::Array(a)) => a,
            _ => &empty,
        };
        assert(list@ == array_items(field(*op, "parameters"@)));
        let mut i: usize = 0;
        while i < list.len()
            invariant
                i <= list@.len(),
                pred == (|p: Json| location_spec(p, version).is_some()),
                params@.len() == list@.subrange(0, i as int).filter(pred).len(),
                forall|k: int| 0 <= k < params@.len() ==> param_ok(#[trigger] params@[k], list@.subrange(0, i as int).filter(pred)[k], version),
            decreases list.len() - i,
        {
            proof {
                crate::text::lemma_filter_step(list@, i as int, pred);
            }
            let p = &list[i];
            let loc = p.get_str("in");
            let location = match &loc {
                Some(l) => if str_equal(l.as_str(), "path") {
                    Some(ParameterLocation::Path)
                } else if str_equal(l.as_str(), "query") {
                    Some(ParameterLocation::Query)
                } else if str_equal(l.as_str(), "header") {
                    Some(ParameterLocation::Header)
                } else if str_equal(l.as_str(), "cookie") && version != OpenApiVersion::Swagger2 {
                    Some(ParameterLocation::Cookie)
                } else {
                    None
                },
                None => None,
            };
            assert(location == location_spec(*p, version));
            if let Some(location) = location {
                let required = match p.get_bool("required") {
                    Some(b) => b,
                    None => location == ParameterLocation::Path,
                };
                let (schema_ref, schema_type) = if version == OpenApiVersion::Swagger2 {
                    (None, p.get_str("type"))
                } else {
                    let t = match p.get("schema") {
                        Some(sc) => sc.get_str("type"),
                        None => None,
                    };
                    (schema_ref_of(p), t)
                };
                let param = Parameter {
                    name: match p.get_str("name") {
                        Some(n) => n,
                        None => String::from_str(""),
                    },
                    location,
                    required,
                    description: p.get_str("description"),
                    schema_ref,
                    schema_type,
                };
                let ghost prev = params@;
                params.push(param);
                assert forall|k: int| 0 <= k < params@.len() implies param_ok(#[trigger] params@[k], list@.subrange(0, i + 1).filter(pred)[k], version) by {
                    if k < prev.len() {
                        assert(params@[k] == prev[k]);
                    }
                }
            }
            i += 1;
        }
        assert(list@.subrange(0, i as int) =~= list@);
        params
    }

    /// Request body: in Swagger 2.0 the first `in: body` parameter, with the
    /// operation's `consumes` types; in OpenAPI 3.x the `requestBody` with
    /// its `content` map, the schema taken from the first content type.
    fn parse_request_body(op: &Json, version: OpenApiVersion) -> (r: Option<RequestBody>)
        ensures
            body_ok(r, *op, version),
    {
        if version == OpenApiVersion::Swagger2 {
            let empty: Vec<Json> = Vec::new();
            let list = match op.get("parameters") {
                Some(Json::Array(a)) => a,
                _ => &empty,
            };
            assert(list@ == array_items(field(*op, "parameters"@)));
            let mut i: usize = 0;
            while i < list.len()
                invariant
                    i <= list@.len(),
                    list@ == array_items(field(*op, "parameters"@)),
                    version == OpenApiVersion::Swagger2,
                    forall|k: int| 0 <= k < i ==> str_of(field(#[trigger] list@[k], "in"@)) != Some("body"@),
                decreases list.len() - i,
            {
                let p = &list[i];
                let is_body = match p.get_str("in") {
                    Some(l) => str_equal(l.as_str(), "body"),
                    None => false,
                };
                if is_body {
                    let b = RequestBody {
                        required: match p.get_bool("required") {
                            Some(b) => b,
                            None => false,
                        },
                        description: p.get_str("description"),
                        content_types: default_content_types(op, "consumes"),
                        schema_ref: schema_ref_of(p),
                    };
                    assert(first_body(list@, i as int));
                    assert(opt_view(b.schema_ref) == schema_ref_spec(list@[i as int]));
                    assert(b.required == (bool_of(field(list@[i as int], "required"@)) == Some(true)));
                    assert(array_items(field(*op, "parameters"@)) == list@);
                    return Some(b);
                }
                i += 1;
            }
            None
        } else {
            let body = match op.get("requestBody") {
                Some(b) => b,
                None => return None,
            };
            let content = match body.get("content") {
                Some(c) => c,
                None => return None,
            };
            if !(content matches Json::Object(_)) {
                return None;
            }
            let schema_ref = match first_member(content) {
                Some(c) => schema_ref_of(c),
                None => None,
            };
            Some(
                RequestBody {
                    required: match body.get_bool("required") {
                        Some(b) => b,
                        None => false,
                    },
                    description: body.get_str("description"),
                    content_types: member_names(content),
                    schema_ref,
                },
            )
        }
    }

    /// Responses by status code.
    fn parse_responses(op: &Json, version: OpenApiVersion) -> (r: Vec<Response>)
        ensures
            r@.len() == members(field(*op, "responses"@)).len(),
            forall|k: int| 0 <= k < r@.len() ==> response_ok(
                #[trigger] r@[k],
                members(field(*op, "responses"@))[k].0@,
                members(field(*op, "responses"@))[k].1,
                *op,
                version,
            ),
    {
        let mut out: Vec<Response> = Vec::new();
        let empty: Vec<(String, Json)> = Vec::new();
        let m = match op.get("responses") {
            Some(Json::Object(m)) => m,
            _ => &empty,
        };
        assert(m@ == members(field(*op, "responses"@)));
        let mut i: usize = 0;
        while i < m.len()
            invariant
                i <= m@.len(),
                out@.len() == i,
                forall|k: int| 0 <= k < i ==> response_ok(#[trigger] out@[k], m@[k].0@, m@[k].1, *op, version),
            decreases m.len() - i,
        {
            let resp = &m[i].1;
            let (content_types, schema_ref) = if version == OpenApiVersion::Swagger2 {
                (default_content_types(op, "produces"), schema_ref_of(resp))
            } else {
                match resp.get("content") {
                    Some(c) => if c matches Json::Object(_) {
                        (
                            member_names(c),
                            match first_member(c) {
                                Some(f) => schema_ref_of(f),
                                None => None,
                            },
                        )
                    } else {
                        (no_strings(), None)
                    },
                    None => (no_strings(), None),
                }
            };
            let ghost o0 = out@;
            out.push(
                Response {
                    status_code: m[i].0.clone(),
                    description: resp.get_str("description"),
                    content_types,
                    schema_ref,
                },
            );
            assert forall|k: int| 0 <= k < i + 1 implies response_ok(#[trigger] out@[k], m@[k].0@, m@[k].1, *op, version) by {
                if k < i {
                    assert(out@[k] == o0[k]);
                }
            }
            i += 1;
        }
        out
    }

    fn tag_list(op: &Json) -> (r: Vec<String>)
        ensures
            views(r@) == texts(array_items(field(*op, "tags"@))),
    {
        match string_items(op, "tags") {
            Some(t) => t,
            None => {
                let v: Vec<String> = Vec::new();
                assert(views(v@) =~= texts(Seq::empty()));
                v
            },
        }
    }

    /// The endpoint for operation `op` at `path` with `method`.
    fn parse_operation(path: &str, method: HttpMethod, op: &Json, version: OpenApiVersion) -> (e: Endpoint)
        ensures
            endpoint_from(e, path@, method, *op, version),
    {
        Endpoint {
            path: String::from_str(path),
            method,
            operation_id: op.get_str("operationId"),
            summary: op.get_str("summary"),
            description: op.get_str("description"),
            tags: Self::tag_list(op),
            parameters: Self::parse_parameters(op, version),
            request_body: Self::parse_request_body(op, version),
            responses: Self::parse_responses(op, version),
            deprecated: op.get_bool("deprecated") == Some(true),
            hash: json_digest(op),
            schema_refs: Self::extract_refs(op),
        }
    }
}

pub open spec fn deref_opt(o: Option<&Json>) -> Option<Json> {
    match o {
        Some(j) => Some(*j),
        None => None,
    }
}

/// Members of an object node; none for other nodes.
pub open spec fn members(j: Option<Json>) -> Seq<(String, Json)> {
    match j {
        Some(Json::Object(m)) => m@,
        _ => Seq::empty(),
    }
}

/// `s` is the schema read from the first definition named like it among `defs`.
pub open spec fn schema_from(s: Schema, defs: Seq<(String, Json)>) -> bool {
    match lookup(defs, s.name@) {
        Some(def) => {
            &&& s.hash@ == digest_spec(def)
            &&& shape_ok(s.schema_type, def, MAX_DEPTH as nat)
            &&& sorted_strs(views(s.refs@))
            &&& views(s.refs@).no_duplicates()
            &&& (forall|x: Seq<char>| #[trigger] views(s.refs@).contains(x) <==> refs_set(def, x))
            &&& opt_view(s.description) == str_of(field(def, "description"@))
        },
        None => false,
    }
}

/// Operations of a document: path `p`, method `m` and operation `op` stand
/// at member `j` of path item `i`.
pub open spec fn operation_at(doc: Json, i: int, j: int, p: Seq<char>, m: HttpMethod, op: Json) -> bool {
    let paths = members(field(doc, "paths"@));
    &&& 0 <= i < paths.len()
    &&& paths[i].0@ == p
    &&& 0 <= j < members(Some(paths[i].1)).len()
    &&& method_spec(members(Some(paths[i].1))[j].0@) == Some(m)
    &&& members(Some(paths[i].1))[j].1 == op
}

/// Position (`i`, `j`) comes before (`i2`, `j2`) in document order.
pub open spec fn before(i2: int, j2: int, i: int, j: int) -> bool {
    i2 < i || (i2 == i && j2 < j)
}

/// The operation at (`i`, `j`) comes before position (`ci`, `cj`), and no
/// other operation between them has its endpoint key.
pub open spec fn latest_before(doc: Json, i: int, j: int, p: Seq<char>, m: HttpMethod, op: Json, ci: int, cj: int) -> bool {
    &&& operation_at(doc, i, j, p, m, op)
    &&& before(i, j, ci, cj)
    &&& forall|i2: int, j2: int, pb: Seq<char>, mb: HttpMethod, ob: Json|
        #[trigger] operation_at(doc, i2, j2, pb, mb, ob) && before(i, j, i2, j2) && before(i2, j2, ci, cj)
            ==> endpoint_key_spec(mb, pb) != endpoint_key_spec(m, p)
}

/// The operation at (`i`, `j`) is the last in document order whose
/// endpoint key is that of `m` and `p`.
pub open spec fn last_operation(doc: Json, i: int, j: int, p: Seq<char>, m: HttpMethod, op: Json) -> bool {
    &&& operation_at(doc, i, j, p, m, op)
    &&& forall|i2: int, j2: int, pb: Seq<char>, mb: HttpMethod, ob: Json|
        #[trigger] operation_at(doc, i2, j2, pb, mb, ob) && before(i, j, i2, j2) ==> endpoint_key_spec(mb, pb)
            != endpoint_key_spec(m, p)
}

/// `e` was read from the last operation of `doc` with its key.
pub open spec fn endpoint_in(e: Endpoint, doc: Json, v: OpenApiVersion) -> bool {
    exists|i: int, j: int, op: Json|
        #[trigger] last_operation(doc, i, j, e.path@, e.method, op) && endpoint_from(e, e.path@, e.method, op, v)
}

/// `e` was read from the latest operation with its key before (`ci`, `cj`).
pub open spec fn endpoint_seen(e: Endpoint, doc: Json, v: OpenApiVersion, ci: int, cj: int) -> bool {
    exists|i: int, j: int, op: Json|
        #[trigger] latest_before(doc, i, j, e.path@, e.method, op, ci, cj) && endpoint_from(e, e.path@, e.method, op, v)
}

/// Index of `x` in `v`.
fn index_of(v: &Vec<String>, x: &str) -> (r: Option<usize>)
    ensures
        match r {
            Some(k) => k < v@.len() && views(v@)[k as int] == x@,
            None => !views(v@).contains(x@),
        },
{
    let mut k: usize = 0;
    while k < v.len()
        invariant
            k <= v@.len(),
            forall|q: int| 0 <= q < k ==> views(v@)[q] != x@,
        decreases v.len() - k,
    {
        if str_equal(v[k].as_str(), x) {
            return Some(k);
        }
        k += 1;
    }
    None
}

impl OpenApiParser {
    /// One schema per distinct name of the definitions object `defs`, the
    /// first definition of a name winning.
    fn parse_schemas(defs: Option<&Json>) -> (r: Vec<Schema>)
        ensures
            schema_names(r@).no_duplicates(),
            forall|k: int| 0 <= k < r@.len() ==> schema_from(#[trigger] r@[k], members(deref_opt(defs))),
            forall|x: Seq<char>| #[trigger] schema_names(r@).contains(x) <==> exists|i: int|
                0 <= i < members(deref_opt(defs)).len() && (#[trigger] members(deref_opt(defs))[i]).0@ == x,
    {
        let ghost ms = members(deref_opt(defs));
        let mut out: Vec<Schema> = Vec::new();
        let mut names: Vec<String> = Vec::new();
        let empty: Vec<(String, Json)> = Vec::new();
        let m = match defs {
            Some(Json::Object(m)) => m,
            _ => &empty,
        };
        assert(m@ == ms);
        let mut i: usize = 0;
        while i < m.len()
            invariant
                m@ == ms,
                i <= m@.len(),
                views(names@) == schema_names(out@),
                schema_names(out@).no_duplicates(),
                forall|k: int| 0 <= k < out@.len() ==> schema_from(#[trigger] out@[k], ms),
                forall|x: Seq<char>| #[trigger] schema_names(out@).contains(x) <==> exists|i2: int|
                    0 <= i2 < i && (#[trigger] ms[i2]).0@ == x,
            decreases m.len() - i,
        {
            let name = &m[i].0;
            let def = &m[i].1;
            if !contains_str(&names, name.as_str()) {
                proof {
                    assert forall|k: int| 0 <= k < i implies (#[trigger] ms[k]).0@ != name@ by {
                        if ms[k].0@ == name@ {
                            assert(schema_names(out@).contains(name@));
                        }
                    }
                    lemma_lookup_first(ms, name@, i as int);
                }
                let sc = Schema {
                    name: name.clone(),
                    schema_type: Self::parse_schema_type(def, MAX_DEPTH),
                    description: def.get_str("description"),
                    refs: Self::extract_refs(def),
                    hash: json_digest(def),
                };
                let c = name.clone();
                proof {
                    lemma_views_push(names@, c);
                    lemma_push_fresh(views(names@), c@);
                    assert(schema_names(out@.push(sc)) =~= schema_names(out@).push(name@));
                    lemma_push_contains(schema_names(out@), name@);
                }
                let ghost o0 = out@;
                names.push(c);
                out.push(sc);
                assert forall|k: int| 0 <= k < out@.len() implies schema_from(#[trigger] out@[k], ms) by {
                    if k < o0.len() {
                        assert(out@[k] == o0[k]);
                    }
                }
                assert forall|x: Seq<char>| #[trigger] schema_names(out@).contains(x) <==> exists|i2: int|
                    0 <= i2 < i + 1 && (#[trigger] ms[i2]).0@ == x by {
                    if x == name@ {
                        assert(ms[i as int].0@ == x);
                    }
                    if exists|i2: int| 0 <= i2 < i + 1 && (#[trigger] ms[i2]).0@ == x {
                        let i2 = choose|i2: int| 0 <= i2 < i + 1 && (#[trigger] ms[i2]).0@ == x;
                        if i2 < i {
                            assert(schema_names(o0).contains(x));
                        }
                    }
                }
            } else {
                assert forall|x: Seq<char>| #[trigger] schema_names(out@).contains(x) <==> exists|i2: int|
                    0 <= i2 < i + 1 && (#[trigger] ms[i2]).0@ == x by {
                    if exists|i2: int| 0 <= i2 < i + 1 && (#[trigger] ms[i2]).0@ == x {
                        let i2 = choose|i2: int| 0 <= i2 < i + 1 && (#[trigger] ms[i2]).0@ == x;
                        if i2 == i {
                            assert(views(names@).contains(name@));
                        }
                    }
                }
            }
            i += 1;
        }
        out
    }
}

impl OpenApiParser {
    /// One endpoint per distinct key among the operations of the `paths`
    /// object of `doc`, the last operation of a key winning.
    fn parse_paths(doc: &Json, version: OpenApiVersion) -> (r: Vec<Endpoint>)
        ensures
            endpoint_keys(r@).no_duplicates(),
            forall|k: int| 0 <= k < r@.len() ==> endpoint_in(#[trigger] r@[k], *doc, version),
            forall|i: int, j: int, p: Seq<char>, m: HttpMethod, op: Json|
                #[trigger] operation_at(*doc, i, j, p, m, op) ==> endpoint_keys(r@).contains(endpoint_key_spec(m, p)),
    {
        let ghost pm = members(field(*doc, "paths"@));
        let mut out: Vec<Endpoint> = Vec::new();
        let mut keys: Vec<String> = Vec::new();
        let empty: Vec<(String, Json)> = Vec::new();
        let paths = match doc.get("paths") {
            Some(Json::Object(m)) => m,
            _ => &empty,
        };
        assert(paths@ == pm);
        let mut i: usize = 0;
        while i < paths.len()
            invariant
                paths@ == pm,
                empty@ == Seq::<(String, Json)>::empty(),
                pm == members(field(*doc, "paths"@)),
                i <= paths@.len(),
                views(keys@) == endpoint_keys(out@),
                endpoint_keys(out@).no_duplicates(),
                forall|k: int| 0 <= k < out@.len() ==> endpoint_seen(#[trigger] out@[k], *doc, version, i as int, 0),
                forall|i2: int, j2: int, p: Seq<char>, m: HttpMethod, op: Json|
                    #[trigger] operation_at(*doc, i2, j2, p, m, op) && i2 < i ==> endpoint_keys(out@).contains(
                        endpoint_key_spec(m, p),
                    ),
            decreases paths.len() - i,
        {
            let path = &paths[i].0;
            let ops = match &paths[i].1 {
                Json::Object(o) => o,
                _ => &empty,
            };
            assert(ops@ == members(Some(pm[i as int].1)));
            assert forall|k: int| 0 <= k < out@.len() implies endpoint_seen(#[trigger] out@[k], *doc, version, i as int, 0 as int) by {}
            let mut j: usize = 0;
            while j < ops.len()
                invariant
                    paths@ == pm,
                    pm == members(field(*doc, "paths"@)),
                    i < paths@.len(),
                    *path == pm[i as int].0,
                    ops@ == members(Some(pm[i as int].1)),
                    j <= ops@.len(),
                    views(keys@) == endpoint_keys(out@),
                    endpoint_keys(out@).no_duplicates(),
                    forall|k: int| 0 <= k < out@.len() ==> endpoint_seen(#[trigger] out@[k], *doc, version, i as int, j as int),
                    forall|i2: int, j2: int, p: Seq<char>, m: HttpMethod, op: Json|
                        #[trigger] operation_at(*doc, i2, j2, p, m, op) && (i2 < i || (i2 == i && j2 < j))
                            ==> endpoint_keys(out@).contains(endpoint_key_spec(m, p)),
                decreases ops.len() - j,
            {
                let ghost o0 = out@;
                let method_found = Self::parse_http_method(ops[j].0.as_str());
                if let Some(method) = method_found {
                    let mut key = String::from_str(method.lower_name());
                    key.append(":");
                    key.append(path.as_str());
                    let e = Self::parse_operation(path.as_str(), method, &ops[j].1, version);
                    assert(operation_at(*doc, i as int, j as int, e.path@, e.method, ops@[j as int].1));
                    assert(endpoint_key_spec(method, path@) == key@);
                    assert(latest_before(*doc, i as int, j as int, e.path@, e.method, ops@[j as int].1, i as int, j + 1));
                    assert(endpoint_seen(e, *doc, version, i as int, j + 1));
                    match index_of(&keys, key.as_str()) {
                        Some(idx) => {
                            assert(views(keys@).len() == endpoint_keys(out@).len());
                            out[idx] = e;
                            assert(endpoint_keys(out@) =~= endpoint_keys(o0));
                            assert forall|k: int| 0 <= k < out@.len() implies endpoint_seen(#[trigger] out@[k], *doc, version, i as int, j + 1) by {
                                if k != idx {
                                    assert(out@[k] == o0[k]);
                                    assert(endpoint_keys(o0)[k] != key@);
                                    let (a, b, o) = choose|a: int, b: int, o: Json|
                                        #[trigger] latest_before(*doc, a, b, o0[k].path@, o0[k].method, o, i as int, j as int)
                                            && endpoint_from(o0[k], o0[k].path@, o0[k].method, o, version);
                                    assert(latest_before(*doc, a, b, o0[k].path@, o0[k].method, o, i as int, j + 1));
                                }
                            }
                        },
                        None => {
                            proof {
                                lemma_views_push(keys@, key);
                                lemma_push_fresh(views(keys@), key@);
                                assert(endpoint_keys(out@.push(e)) =~= endpoint_keys(out@).push(key@));
                                lemma_push_contains(endpoint_keys(out@), key@);
                            }
                            keys.push(key);
                            out.push(e);
                            assert forall|k: int| 0 <= k < out@.len() implies endpoint_seen(#[trigger] out@[k], *doc, version, i as int, j + 1) by {
                                if k < o0.len() {
                                    assert(out@[k] == o0[k]);
                                    assert(endpoint_keys(o0)[k] != key@);
                                    let (a, b, o) = choose|a: int, b: int, o: Json|
                                        #[trigger] latest_before(*doc, a, b, o0[k].path@, o0[k].method, o, i as int, j as int)
                                            && endpoint_from(o0[k], o0[k].path@, o0[k].method, o, version);
                                    assert(latest_before(*doc, a, b, o0[k].path@, o0[k].method, o, i as int, j + 1));
                                }
                            }
                        },
                    }
                } else {
                    assert forall|k: int| 0 <= k < out@.len() implies endpoint_seen(#[trigger] out@[k], *doc, version, i as int, j + 1) by {
                        let (a, b, o) = choose|a: int, b: int, o: Json|
                            #[trigger] latest_before(*doc, a, b, out@[k].path@, out@[k].method, o, i as int, j as int)
                                && endpoint_from(out@[k], out@[k].path@, out@[k].method, o, version);
                        assert(latest_before(*doc, a, b, out@[k].path@, out@[k].method, o, i as int, j + 1));
                    }
                }
                assert forall|i2: int, j2: int, p: Seq<char>, m: HttpMethod, op: Json|
                    #[trigger] operation_at(*doc, i2, j2, p, m, op) && (i2 < i || (i2 == i && j2 < j + 1))
                        implies endpoint_keys(out@).contains(endpoint_key_spec(m, p)) by {
                    if i2 == i && j2 == j {
                        assert(endpoint_key_spec(m, p) == crate::model::method_lower_spec(m) + ":"@ + path@);
                    }
                }
                j += 1;
            }
            assert forall|k: int| 0 <= k < out@.len() implies endpoint_seen(#[trigger] out@[k], *doc, version, i + 1, 0) by {
                let (a, b, o) = choose|a: int, b: int, o: Json|
                    #[trigger] latest_before(*doc, a, b, out@[k].path@, out@[k].method, o, i as int, j as int)
                        && endpoint_from(out@[k], out@[k].path@, out@[k].method, o, version);
                assert(latest_before(*doc, a, b, out@[k].path@, out@[k].method, o, i + 1, 0));
            }
            i += 1;
        }
        assert forall|k: int| 0 <= k < out@.len() implies endpoint_in(#[trigger] out@[k], *doc, version) by {
            let (a, b, o) = choose|a: int, b: int, o: Json|
                #[trigger] latest_before(*doc, a, b, out@[k].path@, out@[k].method, o, i as int, 0)
                    && endpoint_from(out@[k], out@[k].path@, out@[k].method, o, version);
            assert(last_operation(*doc, a, b, out@[k].path@, out@[k].method, o));
        }
        out
    }
}

/// Where a version keeps its schemas: `definitions` (Swagger 2.0) or
/// `components.schemas` (OpenAPI 3.x).
pub open spec fn schema_container(doc: Json, v: OpenApiVersion) -> Option<Json> {
    if v == OpenApiVersion::Swagger2 {
        field(doc, "definitions"@)
    } else {
        match field(doc, "components"@) {
            Some(c) => field(c, "schemas"@),
            None => None,
        }
    }
}

/// `s`, or `default` when absent.
pub open spec fn or_default(s: Option<Seq<char>>, default: Seq<char>) -> Seq<char> {
    match s {
        Some(x) => x,
        None => default,
    }
}

/// `r` failed with the error kind of `v`.
pub open spec fn same_error(r: Result<ParsedSpec, OasError>, v: Result<OpenApiVersion, OasError>) -> bool {
    match (r, v) {
        (Err(OasError::UnsupportedVersion(_)), Err(OasError::UnsupportedVersion(_))) => true,
        (Err(OasError::InvalidOpenApi(_)), Err(OasError::InvalidOpenApi(_))) => true,
        _ => false,
    }
}

/// Every structural `$ref` of `doc` can be followed, given the schemas it defines.
pub open spec fn refs_resolve(doc: Json) -> bool {
    let v = version_spec(doc)->Ok_0;
    let defs = members(schema_container(doc, v));
    forall|k: int| 0 <= k < raw_refs_of(doc, MAX_DEPTH as nat).len() ==> !unresolved(
        #[trigger] raw_refs_of(doc, MAX_DEPTH as nat)[k],
        v,
        defs.map_values(|m: (String, Json)| m.0@),
    )
}

/// `s` is the content model of `doc`, read from `source`.
pub open spec fn parsed_from(doc: Json, source: Seq<char>, s: ParsedSpec) -> bool {
    let info = field(doc, "info"@).unwrap();
    let v = version_spec(doc)->Ok_0;
    let defs = members(schema_container(doc, v));
    &&& s.wf()
    &&& s.metadata.openapi_version == v
    &&& s.metadata.title@ == or_default(str_of(field(info, "title"@)), "Unknown API"@)
    &&& s.metadata.version@ == or_default(str_of(field(info, "version"@)), "0.0.0"@)
    &&& opt_view(s.metadata.description) == str_of(field(info, "description"@))
    &&& s.metadata.endpoint_count == s.endpoints@.len()
    &&& s.metadata.schema_count == s.schemas@.len()
    &&& s.metadata.tag_count == s.tags@.len()
    &&& s.spec_hash@ == digest_spec(doc)
    &&& s.source@ == source
    &&& views(s.tags@).no_duplicates()
    &&& (forall|t: Seq<char>| #[trigger] views(s.tags@).contains(t) <==> exists|k: int|
        0 <= k < s.endpoints@.len() && views((#[trigger] s.endpoints@[k]).tags@).contains(t))
    &&& (forall|k: int| 0 <= k < s.schemas@.len() ==> schema_from(#[trigger] s.schemas@[k], defs))
    &&& (forall|x: Seq<char>| #[trigger] schema_names(s.schemas@).contains(x) <==> exists|i: int|
        0 <= i < defs.len() && (#[trigger] defs[i]).0@ == x)
    &&& (forall|k: int| 0 <= k < s.endpoints@.len() ==> endpoint_in(#[trigger] s.endpoints@[k], doc, v))
    &&& (forall|i: int, j: int, p: Seq<char>, m: HttpMethod, op: Json|
        #[trigger] operation_at(doc, i, j, p, m, op) ==> endpoint_keys(s.endpoints@).contains(endpoint_key_spec(m, p)))
}

/// Tags of all endpoints, each once.
fn collect_tags(endpoints: &Vec<Endpoint>) -> (r: Vec<String>)
    ensures
        views(r@).no_duplicates(),
        forall|t: Seq<char>| #[trigger] views(r@).contains(t) <==> exists|k: int|
            0 <= k < endpoints@.len() && views((#[trigger] endpoints@[k]).tags@).contains(t),
{
    let mut r: Vec<String> = Vec::new();
    let mut i: usize = 0;
    while i < endpoints.len()
        invariant
            i <= endpoints@.len(),
            views(r@).no_duplicates(),
            forall|t: Seq<char>| #[trigger] views(r@).contains(t) <==> exists|k: int|
                0 <= k < i && views((#[trigger] endpoints@[k]).tags@).contains(t),
        decreases endpoints.len() - i,
    {
        let tags = &endpoints[i].tags;
        let mut j: usize = 0;
        while j < tags.len()
            invariant
                i < endpoints@.len(),
                *tags == endpoints@[i as int].tags,
                j <= tags@.len(),
                views(r@).no_duplicates(),
                forall|t: Seq<char>| #[trigger] views(r@).contains(t) <==> (exists|k: int|
                    0 <= k < i && views((#[trigger] endpoints@[k]).tags@).contains(t)) || views(tags@.subrange(0, j as int)).contains(t),
            decreases tags.len() - j,
        {
            let ghost before = views(r@);
            proof {
                assert(views(tags@.subrange(0, j + 1)) =~= views(tags@.subrange(0, j as int)).push(tags@[j as int]@));
                lemma_push_contains(views(tags@.subrange(0, j as int)), tags@[j as int]@);
            }
            if !contains_str(&r, tags[j].as_str()) {
                let c = tags[j].clone();
                proof {
                    lemma_views_push(r@, c);
                    lemma_push_fresh(views(r@), c@);
                }
                r.push(c);
            }
            proof {
                lemma_push_contains(before, tags@[j as int]@);
            }
            j += 1;
        }
        assert(tags@.subrange(0, j as int) =~= tags@);
        assert forall|t: Seq<char>| #[trigger] views(r@).contains(t) <==> exists|k: int|
            0 <= k < i + 1 && views((#[trigger] endpoints@[k]).tags@).contains(t) by {
            if views(tags@).contains(t) {
                assert(views(endpoints@[i as int].tags@).contains(t));
            }
            if exists|k: int| 0 <= k < i + 1 && views((#[trigger] endpoints@[k]).tags@).contains(t) {
                let k = choose|k: int| 0 <= k < i + 1 && views((#[trigger] endpoints@[k]).tags@).contains(t);
                if k == i {
                    assert(views(tags@).contains(t));
                }
            }
        }
        i += 1;
    }
    r
}

/// What parsing a document tree gives: a version failure unchanged; an
/// invalid-document failure without `info`; an unresolved-reference failure
/// where a `$ref` cannot be followed; else the content model of the tree.
pub open spec fn document_outcome(doc: Json, source: Seq<char>, r: Result<ParsedSpec, OasError>) -> bool {
    &&& (version_spec(doc) is Err ==> same_error(r, version_spec(doc)))
    &&& (version_spec(doc) is Ok && field(doc, "info"@).is_none() ==> (r matches Err(OasError::InvalidOpenApi(_))))
    &&& (version_spec(doc) is Ok && field(doc, "info"@).is_some() && !refs_resolve(doc) ==> (r matches Err(
        OasError::UnresolvedRef(_),
    )))
    &&& (version_spec(doc) is Ok && field(doc, "info"@).is_some() && refs_resolve(doc) ==> (r matches Ok(s)
        && parsed_from(doc, source, s)))
}

/// The tree read from a text: as JSON when its first character after white
/// space is `{`, else as YAML.
pub open spec fn text_tree(s: Seq<char>) -> Option<Json> {
    if starts_as_object(s) {
        json_text_tree(s)
    } else {
        yaml_text_tree(s)
    }
}

impl OpenApiParser {
    /// The content model of a document tree read from `source`. Fails when
    /// the version is missing or unsupported, and when `info` is missing.
    pub fn parse_document(doc: &Json, source: &str) -> (r: Result<ParsedSpec, OasError>)
        ensures
            document_outcome(*doc, source@, r),
    {
        let version = match Self::detect_version(doc) {
            Ok(v) => v,
            Err(e) => return Err(e),
        };
        let info = match doc.get("info") {
            Some(i) => i,
            None => return Err(OasError::InvalidOpenApi(String::from_str("Missing 'info' field"))),
        };
        let title = match info.get_str("title") {
            Some(t) => t,
            None => String::from_str("Unknown API"),
        };
        let spec_version = match info.get_str("version") {
            Some(t) => t,
            None => String::from_str("0.0.0"),
        };
        let defs = if version == OpenApiVersion::Swagger2 {
            doc.get("definitions")
        } else {
            match doc.get("components") {
                Some(c) => c.get("schemas"),
                None => None,
            }
        };
        assert(deref_opt(defs) == schema_container(*doc, version));
        let schemas = Self::parse_schemas(defs);
        let mut names: Vec<String> = Vec::new();
        let mut k: usize = 0;
        while k < schemas.len()
            invariant
                k <= schemas@.len(),
                views(names@) == schema_names(schemas@.subrange(0, k as int)),
            decreases schemas.len() - k,
        {
            let c = schemas[k].name.clone();
            proof {
                lemma_views_push(names@, c);
                assert(schema_names(schemas@.subrange(0, k + 1)) =~= schema_names(schemas@.subrange(0, k as int)).push(c@));
            }
            names.push(c);
            k += 1;
        }
        assert(schemas@.subrange(0, k as int) =~= schemas@);
        let mut raw: Vec<String> = Vec::new();
        collect_raw_refs(doc, MAX_DEPTH, &mut raw);
        assert(views(raw@) =~= raw_refs_of(*doc, MAX_DEPTH as nat));
        let ghost defs_names = members(schema_container(*doc, version)).map_values(|m: (String, Json)| m.0@);
        assert forall|x: Seq<char>| views(names@).contains(x) == defs_names.contains(x) by {
            if defs_names.contains(x) {
                let i = choose|i: int| 0 <= i < defs_names.len() && defs_names[i] == x;
                assert(members(deref_opt(defs))[i].0@ == x);
            }
            if views(names@).contains(x) {
                assert(schema_names(schemas@).contains(x));
                let i = choose|i: int|
                    0 <= i < members(deref_opt(defs)).len() && (#[trigger] members(deref_opt(defs))[i]).0@ == x;
                assert(defs_names[i] == x);
            }
        }
        assert(forall|r: Seq<char>| unresolved(r, version, views(names@)) == unresolved(r, version, defs_names));
        if let Some(bad) = first_unresolved(&raw, version, &names) {
            proof {
                let k = choose|k: int| 0 <= k < views(raw@).len() && views(raw@)[k] == bad@;
                assert(unresolved(raw_refs_of(*doc, MAX_DEPTH as nat)[k], version, defs_names));
            }
            return Err(OasError::UnresolvedRef(bad));
        }
        assert(refs_resolve(*doc));
        let endpoints = Self::parse_paths(doc, version);
        let tags = collect_tags(&endpoints);
        let s = ParsedSpec {
            metadata: SpecMetadata {
                title,
                version: spec_version,
                description: info.get_str("description"),
                openapi_version: version,
                endpoint_count: endpoints.len(),
                schema_count: schemas.len(),
                tag_count: tags.len(),
            },
            endpoints,
            schemas,
            tags,
            spec_hash: json_digest(doc),
            source: String::from_str(source),
        };
        Ok(s)
    }
}

/// Whether the first character of `s` that is not white space is `{`.
pub open spec fn starts_as_object(s: Seq<char>) -> bool {
    exists|i: int| 0 <= i < s.len() && s[i] == '{' && forall|k: int| 0 <= k < i ==> is_space(#[trigger] s[k])
}

/// Unicode white space (the `White_Space` property), as `str::trim` removes it.
pub open spec fn is_space(c: char) -> bool {
    let u = c as u32;
    (0x09 <= u && u <= 0x0D) || u == 0x20 || u == 0x85 || u == 0xA0 || u == 0x1680 || (0x2000 <= u && u <= 0x200A)
        || u == 0x2028 || u == 0x2029 || u == 0x202F || u == 0x205F || u == 0x3000
}

fn space(c: char) -> (r: bool)
    ensures
        r == is_space(c),
{
    let u = c as u32;
    (0x09 <= u && u <= 0x0D) || u == 0x20 || u == 0x85 || u == 0xA0 || u == 0x1680 || (0x2000 <= u && u <= 0x200A)
        || u == 0x2028 || u == 0x2029 || u == 0x202F || u == 0x205F || u == 0x3000
}

fn looks_like_json(s: &str) -> (r: bool)
    ensures
        r == starts_as_object(s@),
{
    let n = s.unicode_len();
    let mut i: usize = 0;
    while i < n
        invariant
            n == s@.len(),
            i <= n,
            forall|k: int| 0 <= k < i ==> is_space(#[trigger] s@[k]),
        decreases n - i,
    {
        let c = s.get_char(i);
        if c == '{' {
            return true;
        }
        if !space(c) {
            assert(!starts_as_object(s@)) by {
                if starts_as_object(s@) {
                    let j = choose|j: int| 0 <= j < s@.len() && s@[j] == '{' && forall|k: int| 0 <= k < j ==> is_space(#[trigger] s@[k]);
                    if j > i {
                        assert(is_space(s@[i as int]));
                    }
                }
            }
            return false;
        }
        i += 1;
    }
    assert(!starts_as_object(s@)) by {
        if starts_as_object(s@) {
            let j = choose|j: int| 0 <= j < s@.len() && s@[j] == '{' && forall|k: int| 0 <= k < j ==> is_space(#[trigger] s@[k]);
            assert(is_space(s@[j]));
        }
    }
    false
}

impl OpenApiParser {
    /// Parses document text read from `source`: as JSON when its first
    /// character after white space is `{`, else as YAML.
    pub fn parse_content(content: &str, source: &str) -> (r: Result<ParsedSpec, OasError>)
        ensures
            match text_tree(content@) {
                Some(doc) => document_outcome(doc, source@, r),
                None => if starts_as_object(content@) {
                    r matches Err(OasError::InvalidJson(_))
                } else {
                    r matches Err(OasError::InvalidYaml(_))
                },
            },
    {
        let is_json = looks_like_json(content);
        let read = if is_json {
            read_json(content)
        } else {
            read_yaml(content)
        };
        let doc = match read {
            Ok(d) => d,
            Err(TextError::Malformed(e)) => {
                return if is_json {
                    Err(OasError::InvalidJson(e))
                } else {
                    Err(OasError::InvalidYaml(e))
                };
            },
        };
        let r = Self::parse_document(&doc, source);
        r
    }
}

proof fn lemma_last_operation_unique(
    doc: Json,
    i1: int, j1: int, pa: Seq<char>, ma: HttpMethod, oa: Json,
    i2: int, j2: int, pb: Seq<char>, mb: HttpMethod, ob: Json,
)
    requires
        last_operation(doc, i1, j1, pa, ma, oa),
        last_operation(doc, i2, j2, pb, mb, ob),
        endpoint_key_spec(ma, pa) == endpoint_key_spec(mb, pb),
    ensures
        oa == ob,
{
    if before(i1, j1, i2, j2) {
        assert(operation_at(doc, i1, j1, pa, ma, oa));
    } else if before(i2, j2, i1, j1) {
        assert(operation_at(doc, i2, j2, pb, mb, ob));
    } else {
        assert(i1 == i2 && j1 == j2);
    }
}

/// Parsing one document twice gives the same document digest, the same
/// digest and references for each schema name, and the same digest for
/// each endpoint key.
pub proof fn lemma_parse_is_deterministic(doc: Json, source: Seq<char>, s1: ParsedSpec, s2: ParsedSpec)
    requires
        version_spec(doc) is Ok,
        field(doc, "info"@).is_some(),
        parsed_from(doc, source, s1),
        parsed_from(doc, source, s2),
    ensures
        s1.spec_hash@ == s2.spec_hash@,
        schema_names(s1.schemas@).to_set() == schema_names(s2.schemas@).to_set(),
        forall|i: int, j: int|
            0 <= i < s1.schemas@.len() && 0 <= j < s2.schemas@.len() && (#[trigger] s1.schemas@[i]).name@ == (
            #[trigger] s2.schemas@[j]).name@ ==> s1.schemas@[i].hash@ == s2.schemas@[j].hash@ && views(
                s1.schemas@[i].refs@,
            ).to_set() == views(s2.schemas@[j].refs@).to_set(),
        forall|i: int, j: int|
            0 <= i < s1.endpoints@.len() && 0 <= j < s2.endpoints@.len() && (#[trigger] s1.endpoints@[i]).key_spec()
                == (#[trigger] s2.endpoints@[j]).key_spec() ==> s1.endpoints@[i].hash@ == s2.endpoints@[j].hash@,
{
    let v = version_spec(doc)->Ok_0;
    assert forall|i: int, j: int|
        0 <= i < s1.endpoints@.len() && 0 <= j < s2.endpoints@.len() && (#[trigger] s1.endpoints@[i]).key_spec()
            == (#[trigger] s2.endpoints@[j]).key_spec() implies s1.endpoints@[i].hash@ == s2.endpoints@[j].hash@ by {
        let e1 = s1.endpoints@[i];
        let e2 = s2.endpoints@[j];
        assert(endpoint_in(e1, doc, v));
        assert(endpoint_in(e2, doc, v));
        let (a1, b1, o1) = choose|a: int, b: int, o: Json|
            #[trigger] last_operation(doc, a, b, e1.path@, e1.method, o) && endpoint_from(e1, e1.path@, e1.method, o, v);
        let (a2, b2, o2) = choose|a: int, b: int, o: Json|
            #[trigger] last_operation(doc, a, b, e2.path@, e2.method, o) && endpoint_from(e2, e2.path@, e2.method, o, v);
        lemma_last_operation_unique(doc, a1, b1, e1.path@, e1.method, o1, a2, b2, e2.path@, e2.method, o2);
    }
    let defs = members(schema_container(doc, version_spec(doc)->Ok_0));
    assert(schema_names(s1.schemas@).to_set() =~= schema_names(s2.schemas@).to_set());
    assert forall|i: int, j: int|
        0 <= i < s1.schemas@.len() && 0 <= j < s2.schemas@.len() && (#[trigger] s1.schemas@[i]).name@ == (
        #[trigger] s2.schemas@[j]).name@ implies s1.schemas@[i].hash@ == s2.schemas@[j].hash@ && views(
            s1.schemas@[i].refs@,
        ).to_set() == views(s2.schemas@[j].refs@).to_set() by {
        assert(schema_from(s1.schemas@[i], defs));
        assert(schema_from(s2.schemas@[j], defs));
        assert(views(s1.schemas@[i].refs@).to_set() =~= views(s2.schemas@[j].refs@).to_set());
    }
}

/// A path separator.
pub open spec fn is_separator(c: char) -> bool {
    c == '/' || c == '\\'
}

/// `s` has a segment that is exactly `..`.
pub open spec fn has_parent_segment_spec(s: Seq<char>) -> bool {
    exists|i: int|
        0 <= i && i + 2 <= s.len() && #[trigger] s[i] == '.' && s[i + 1] == '.' && (i == 0 || is_separator(s[i - 1])) && (
        i + 2 == s.len() || is_separator(s[i + 2]))
}

/// Whether a local path has a `..` segment; such paths are refused, both as
/// given and once resolved.
pub fn has_parent_segment(path: &str) -> (r: bool)
    ensures
        r == has_parent_segment_spec(path@),
{
    let n = path.unicode_len();
    let mut i: usize = 0;
    while i < n
        invariant
            n == path@.len(),
            i <= n,
            forall|k: int|
                0 <= k < i && k + 2 <= n && #[trigger] path@[k] == '.' && path@[k + 1] == '.' ==> !((k == 0
                    || is_separator(path@[k - 1])) && (k + 2 == n || is_separator(path@[k + 2]))),
        decreases n - i,
    {
        if i + 1 < n && path.get_char(i) == '.' && path.get_char(i + 1) == '.' {
            let before = i == 0 || {
                let c = path.get_char(i - 1);
                c == '/' || c == '\\'
            };
            let after = i + 2 == n || {
                let c = path.get_char(i + 2);
                c == '/' || c == '\\'
            };
            if before && after {
                return true;
            }
        }
        i += 1;
    }
    assert(!has_parent_segment_spec(path@)) by {
        if has_parent_segment_spec(path@) {
            let k = choose|k: int|
                0 <= k && k + 2 <= path@.len() && #[trigger] path@[k] == '.' && path@[k + 1] == '.' && (k == 0
                    || is_separator(path@[k - 1])) && (k + 2 == path@.len() || is_separator(path@[k + 2]));
            assert(k < i);
        }
    }
    false
}

} // verus!
