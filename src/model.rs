//! The version-independent content model of an API document.

use vstd::prelude::*;

use crate::text::{lemma_views_push, views};

verus! {

/// Supported document versions.
#[derive(Clone, Copy, Debug, PartialEq, Eq, Structural)]
pub enum OpenApiVersion {
    Swagger2,
    OpenApi30,
    OpenApi31,
}

/// Version tag as written in documents and cache records.
pub open spec fn version_tag_spec(v: OpenApiVersion) -> Seq<char> {
    match v {
        OpenApiVersion::Swagger2 => "2.0"@,
        OpenApiVersion::OpenApi30 => "3.0"@,
        OpenApiVersion::OpenApi31 => "3.1"@,
    }
}

impl OpenApiVersion {
    /// Short tag: "2.0", "3.0" or "3.1".
    pub fn tag(&self) -> (r: &'static str)
        ensures
            r@ == version_tag_spec(*self),
    {
        match self {
            OpenApiVersion::Swagger2 => "2.0",
            OpenApiVersion::OpenApi30 => "3.0",
            OpenApiVersion::OpenApi31 => "3.1",
        }
    }

    /// Human-readable name: "Swagger 2.0", "OpenAPI 3.0" or "OpenAPI 3.1".
    pub fn display_name(&self) -> (r: &'static str)
        ensures
            r@ == match *self {
                OpenApiVersion::Swagger2 => "Swagger 2.0"@,
                OpenApiVersion::OpenApi30 => "OpenAPI 3.0"@,
                OpenApiVersion::OpenApi31 => "OpenAPI 3.1"@,
            },
    {
        match self {
            OpenApiVersion::Swagger2 => "Swagger 2.0",
            OpenApiVersion::OpenApi30 => "OpenAPI 3.0",
            OpenApiVersion::OpenApi31 => "OpenAPI 3.1",
        }
    }
}

/// Document metadata with precomputed counts.
#[derive(Debug)]
pub struct SpecMetadata {
    pub title: String,
    pub version: String,
    pub description: Option<String>,
    pub openapi_version: OpenApiVersion,
    pub endpoint_count: usize,
    pub schema_count: usize,
    pub tag_count: usize,
}

/// HTTP method of an operation.
#[derive(Clone, Copy, Debug, PartialEq, Eq, Hash, Structural)]
pub enum HttpMethod {
    Get,
    Post,
    Put,
    Patch,
    Delete,
    Head,
    Options,
    Trace,
}

/// Lower-case name of a method.
pub open spec fn method_lower_spec(m: HttpMethod) -> Seq<char> {
    match m {
        HttpMethod::Get => "get"@,
        HttpMethod::Post => "post"@,
        HttpMethod::Put => "put"@,
        HttpMethod::Patch => "patch"@,
        HttpMethod::Delete => "delete"@,
        HttpMethod::Head => "head"@,
        HttpMethod::Options => "options"@,
        HttpMethod::Trace => "trace"@,
    }
}

/// Upper-case name of a method.
pub open spec fn method_upper_spec(m: HttpMethod) -> Seq<char> {
    match m {
        HttpMethod::Get => "GET"@,
        HttpMethod::Post => "POST"@,
        HttpMethod::Put => "PUT"@,
        HttpMethod::Patch => "PATCH"@,
        HttpMethod::Delete => "DELETE"@,
        HttpMethod::Head => "HEAD"@,
        HttpMethod::Options => "OPTIONS"@,
        HttpMethod::Trace => "TRACE"@,
    }
}

impl HttpMethod {
    /// Lower-case name, as used in endpoint keys.
    pub fn lower_name(&self) -> (r: &'static str)
        ensures
            r@ == method_lower_spec(*self),
    {
        match self {
            HttpMethod::Get => "get",
            HttpMethod::Post => "post",
            HttpMethod::Put => "put",
            HttpMethod::Patch => "patch",
            HttpMethod::Delete => "delete",
            HttpMethod::Head => "head",
            HttpMethod::Options => "options",
            HttpMethod::Trace => "trace",
        }
    }

    /// Upper-case name, as shown to users.
    pub fn upper_name(&self) -> (r: &'static str)
        ensures
            r@ == method_upper_spec(*self),
    {
        match self {
            HttpMethod::Get => "GET",
            HttpMethod::Post => "POST",
            HttpMethod::Put => "PUT",
            HttpMethod::Patch => "PATCH",
            HttpMethod::Delete => "DELETE",
            HttpMethod::Head => "HEAD",
            HttpMethod::Options => "OPTIONS",
            HttpMethod::Trace => "TRACE",
        }
    }
}

/// Where a parameter is carried.
#[derive(Clone, Copy, Debug, PartialEq, Eq, Structural)]
pub enum ParameterLocation {
    Path,
    Query,
    Header,
    Cookie,
}

/// An operation parameter.
#[derive(Debug)]
pub struct Parameter {
    pub name: String,
    pub location: ParameterLocation,
    pub required: bool,
    pub description: Option<String>,
    pub schema_ref: Option<String>,
    pub schema_type: Option<String>,
}

/// An operation's request body.
#[derive(Debug)]
pub struct RequestBody {
    pub required: bool,
    pub description: Option<String>,
    pub content_types: Vec<String>,
    pub schema_ref: Option<String>,
}

/// One response of an operation, by status code.
#[derive(Debug)]
pub struct Response {
    pub status_code: String,
    pub description: Option<String>,
    pub content_types: Vec<String>,
    pub schema_ref: Option<String>,
}

/// One HTTP method bound to one path.
#[derive(Debug)]
pub struct Endpoint {
    pub path: String,
    pub method: HttpMethod,
    pub operation_id: Option<String>,
    pub summary: Option<String>,
    pub description: Option<String>,
    pub tags: Vec<String>,
    pub parameters: Vec<Parameter>,
    pub request_body: Option<RequestBody>,
    /// Responses, one per status code.
    pub responses: Vec<Response>,
    pub deprecated: bool,
    /// Digest of the operation's raw definition.
    pub hash: String,
    /// Schema names referenced anywhere in the operation, sorted, no repeats.
    pub schema_refs: Vec<String>,
}

/// Identity key of an endpoint: lower-case method, ':', path.
pub open spec fn endpoint_key_spec(m: HttpMethod, path: Seq<char>) -> Seq<char> {
    method_lower_spec(m) + ":"@ + path
}

/// A path segment that names itself: not empty, not a `{parameter}`.
pub open spec fn keep_word(ws: Seq<Seq<char>>, cur: Seq<char>) -> Seq<Seq<char>> {
    if cur.len() > 0 && cur[0] != '{' {
        ws.push(cur)
    } else {
        ws
    }
}

/// Words of a path read so far, and the segment being read.
pub open spec fn word_state(s: Seq<char>) -> (Seq<Seq<char>>, Seq<char>)
    decreases s.len(),
{
    if s.len() == 0 {
        (Seq::empty(), Seq::empty())
    } else {
        let (ws, cur) = word_state(s.drop_last());
        if s.last() == '/' {
            (keep_word(ws, cur), Seq::empty())
        } else {
            (ws, cur.push(s.last()))
        }
    }
}

/// The '/'-separated segments of a path that are neither empty nor
/// `{parameters}`.
pub open spec fn path_words(s: Seq<char>) -> Seq<Seq<char>> {
    keep_word(word_state(s).0, word_state(s).1)
}

/// Words joined by '_'.
pub open spec fn join_words(ws: Seq<Seq<char>>) -> Seq<char>
    decreases ws.len(),
{
    if ws.len() == 0 {
        Seq::empty()
    } else if ws.len() == 1 {
        ws[0]
    } else {
        join_words(ws.drop_last()) + "_"@ + ws.last()
    }
}

fn join_underscore(ws: &Vec<String>) -> (r: String)
    ensures
        r@ == join_words(views(ws@)),
{
    let mut r = String::new();
    let mut i: usize = 0;
    while i < ws.len()
        invariant
            i <= ws@.len(),
            r@ == join_words(views(ws@).subrange(0, i as int)),
        decreases ws.len() - i,
    {
        proof {
            assert(views(ws@).subrange(0, i + 1).drop_last() =~= views(ws@).subrange(0, i as int));
        }
        if i > 0 {
            r.append("_");
        }
        r.append(ws[i].as_str());
        proof {
            if i == 0 {
                assert(r@ =~= join_words(views(ws@).subrange(0, 1)));
            }
        }
        i += 1;
    }
    assert(views(ws@).subrange(0, i as int) =~= views(ws@));
    r
}

fn path_word_list(path: &str) -> (r: Vec<String>)
    ensures
        views(r@) == path_words(path@),
{
    let n = path.unicode_len();
    let mut ws: Vec<String> = Vec::new();
    let mut cur = String::new();
    let mut i: usize = 0;
    while i < n
        invariant
            n == path@.len(),
            i <= n,
            (views(ws@), cur@) == word_state(path@.subrange(0, i as int)),
        decreases n - i,
    {
        proof {
            assert(path@.subrange(0, i + 1).drop_last() =~= path@.subrange(0, i as int));
            assert(path@.subrange(0, i + 1).last() == path@[i as int]);
        }
        let c = path.get_char(i);
        if c == '/' {
            if cur.unicode_len() > 0 && cur.as_str().get_char(0) != '{' {
                proof {
                    lemma_views_push(ws@, cur);
                }
                ws.push(cur);
            }
            cur = String::new();
        } else {
            let ch = path.substring_char(i, i + 1);
            assert(ch@ =~= seq![c]);
            cur.append(ch);
        }
        i += 1;
    }
    assert(path@.subrange(0, n as int) =~= path@);
    if cur.unicode_len() > 0 && cur.as_str().get_char(0) != '{' {
        proof {
            lemma_views_push(ws@, cur);
        }
        ws.push(cur);
    }
    ws
}

impl Endpoint {
    pub open spec fn key_spec(&self) -> Seq<char> {
        endpoint_key_spec(self.method, self.path@)
    }

    /// Unique key of this endpoint within a document.
    pub fn key(&self) -> (r: String)
        ensures
            r@ == self.key_spec(),
    {
        let mut k = String::from_str(self.method.lower_name());
        k.append(":");
        k.append(self.path.as_str());
        k
    }

    /// The operation id, or one made of the lower-case method and the
    /// path's named segments, joined by '_' (`get_users_posts` for
    /// `GET /users/{id}/posts`).
    pub fn effective_operation_id(&self) -> (r: String)
        ensures
            r@ == match self.operation_id {
                Some(id) => id@,
                None => method_lower_spec(self.method) + "_"@ + join_words(path_words(self.path@)),
            },
    {
        match &self.operation_id {
            Some(id) => id.clone(),
            None => {
                let mut r = String::from_str(self.method.lower_name());
                r.append("_");
                let words = path_word_list(self.path.as_str());
                r.append(join_underscore(&words).as_str());
                r
            },
        }
    }
}

/// The shape of a schema.
#[derive(Debug)]
pub enum SchemaType {
    String { format: Option<String>, enum_values: Option<Vec<String>> },
    Number { format: Option<String> },
    Integer { format: Option<String> },
    Boolean,
    Array { items: Box<SchemaType> },
    Object { properties: Vec<(String, SchemaType)>, required: Vec<String> },
    Ref { reference: String },
    OneOf { variants: Vec<SchemaType> },
    AnyOf { variants: Vec<SchemaType> },
    AllOf { variants: Vec<SchemaType> },
    Unknown,
}

/// A named schema definition.
#[derive(Debug)]
pub struct Schema {
    pub name: String,
    pub schema_type: SchemaType,
    pub description: Option<String>,
    /// Schema names referenced directly, sorted, no repeats.
    pub refs: Vec<String>,
    /// Digest of the raw definition.
    pub hash: String,
}

/// A whole parsed document.
#[derive(Debug)]
pub struct ParsedSpec {
    pub metadata: SpecMetadata,
    /// Endpoints, keys unique.
    pub endpoints: Vec<Endpoint>,
    /// Schemas, names unique.
    pub schemas: Vec<Schema>,
    /// Tags of all endpoints, no repeats.
    pub tags: Vec<String>,
    /// Digest of the whole document.
    pub spec_hash: String,
    /// Where the document came from.
    pub source: String,
}

/// Keys of a list of endpoints.
pub open spec fn endpoint_keys(v: Seq<Endpoint>) -> Seq<Seq<char>> {
    v.map_values(|e: Endpoint| e.key_spec())
}

/// Names of a list of schemas.
pub open spec fn schema_names(v: Seq<Schema>) -> Seq<Seq<char>> {
    v.map_values(|s: Schema| s.name@)
}

impl ParsedSpec {
    /// Keys and names are unique.
    pub open spec fn wf(&self) -> bool {
        &&& endpoint_keys(self.endpoints@).no_duplicates()
        &&& schema_names(self.schemas@).no_duplicates()
    }
}

} // verus!
