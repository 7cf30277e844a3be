//! Structural diff of two parsed documents, with breaking-change
//! classification.

use vstd::prelude::*;

use crate::graph::DependencyGraph;
use crate::model::{endpoint_keys, schema_names, Endpoint, HttpMethod, Parameter, ParsedSpec, Response, Schema};
use crate::text::{
    append_strings, contains_str, copy_opt, copy_strings, lemma_filter_step, lemma_views_push,
    kept_from, kept_spec, lemma_filter_none, lemma_filter_only, missing_from, missing_spec, opt_view, prefixed, prefixed_spec, str_equal, views,
};

verus! {

/// Kinds of breaking change.
#[derive(Clone, Copy, Debug, PartialEq, Eq, Structural)]
pub enum BreakingChangeCategory {
    EndpointRemoved,
    ParameterAdded,
    ParameterTypeChanged,
    ResponseTypeChanged,
    SchemaRemoved,
    SchemaFieldRemoved,
    SchemaFieldTypeChanged,
}

/// A change that can make existing clients fail.
#[derive(Debug)]
pub struct BreakingChange {
    pub category: BreakingChangeCategory,
    pub message: String,
    pub location: String,
}

/// An added, removed or modified endpoint.
#[derive(Debug)]
pub struct EndpointChange {
    pub key: String,
    pub path: String,
    pub method: HttpMethod,
    pub operation_id: Option<String>,
    pub tags: Vec<String>,
    /// What changed, one note per line.
    pub changes: Vec<String>,
    /// Modified schemas that this endpoint references.
    pub affected_by_schemas: Vec<String>,
}

/// An added, removed or modified schema.
#[derive(Debug)]
pub struct SchemaChange {
    pub name: String,
    /// What changed, one note per line.
    pub changes: Vec<String>,
    /// Endpoints impacted by the change.
    pub affected_endpoints: Vec<String>,
}

/// Everything that differs between two documents.
#[derive(Debug)]
pub struct SpecDiff {
    pub added_endpoints: Vec<EndpointChange>,
    pub modified_endpoints: Vec<EndpointChange>,
    pub removed_endpoints: Vec<EndpointChange>,
    pub unchanged_endpoints: usize,
    pub added_schemas: Vec<SchemaChange>,
    pub modified_schemas: Vec<SchemaChange>,
    pub removed_schemas: Vec<SchemaChange>,
    pub unchanged_schemas: usize,
    pub breaking_changes: Vec<BreakingChange>,
}

/// Parameter names.
pub open spec fn param_names(v: Seq<Parameter>) -> Seq<Seq<char>> {
    v.map_values(|p: Parameter| p.name@)
}

/// Status codes of responses.
pub open spec fn status_codes(v: Seq<Response>) -> Seq<Seq<char>> {
    v.map_values(|r: Response| r.status_code@)
}

/// `p` is new relative to `old_names`, and required or optional as asked.
pub open spec fn is_added_param(p: Parameter, old_names: Seq<Seq<char>>, required: bool) -> bool {
    p.required == required && !old_names.contains(p.name@)
}

/// Names of the parameters of `new` that `old` lacks, required or optional as asked.
pub open spec fn added_params_spec(old: Endpoint, new: Endpoint, required: bool) -> Seq<Seq<char>> {
    param_names(
        new.parameters@.filter(|p: Parameter| is_added_param(p, param_names(old.parameters@), required)),
    )
}

/// Note on the request body.
pub open spec fn body_notes_spec(old: Endpoint, new: Endpoint) -> Seq<Seq<char>> {
    match (old.request_body, new.request_body) {
        (None, Some(_)) => seq!["Added request body"@],
        (Some(_), None) => seq!["Removed request body"@],
        (Some(a), Some(b)) => if opt_view(a.schema_ref) != opt_view(b.schema_ref) {
            seq!["Request body schema changed"@]
        } else {
            Seq::empty()
        },
        (None, None) => Seq::empty(),
    }
}

/// The specific differences between two versions of an endpoint.
pub open spec fn endpoint_deltas_spec(old: Endpoint, new: Endpoint) -> Seq<Seq<char>> {
    prefixed_spec("Added required parameter: "@, added_params_spec(old, new, true)) + prefixed_spec(
        "Added parameter: "@,
        added_params_spec(old, new, false),
    ) + prefixed_spec(
        "Removed parameter: "@,
        missing_spec(param_names(old.parameters@), param_names(new.parameters@)),
    ) + body_notes_spec(old, new) + prefixed_spec(
        "Added response: "@,
        missing_spec(status_codes(new.responses@), status_codes(old.responses@)),
    ) + prefixed_spec(
        "Removed response: "@,
        missing_spec(status_codes(old.responses@), status_codes(new.responses@)),
    )
}

/// Notes on how an endpoint changed: none when the digests agree; else the
/// specific differences, or a generic note when none is found.
pub open spec fn endpoint_notes_spec(old: Endpoint, new: Endpoint) -> Seq<Seq<char>> {
    if old.hash@ == new.hash@ {
        Seq::empty()
    } else if endpoint_deltas_spec(old, new).len() == 0 {
        seq!["Endpoint definition changed"@]
    } else {
        endpoint_deltas_spec(old, new)
    }
}

/// Notes on how a schema with a changed digest changed: references added
/// and removed, or a generic note when the references agree.
pub open spec fn schema_notes_spec(old: Schema, new: Schema) -> Seq<Seq<char>> {
    let s = prefixed_spec("Added reference to "@, missing_spec(views(new.refs@), views(old.refs@)))
        + prefixed_spec("Removed reference to "@, missing_spec(views(old.refs@), views(new.refs@)));
    if s.len() == 0 {
        seq!["Schema definition changed"@]
    } else {
        s
    }
}

fn param_name_list(v: &Vec<Parameter>) -> (r: Vec<String>)
    ensures
        views(r@) == param_names(v@),
{
    let mut r: Vec<String> = Vec::new();
    let mut i: usize = 0;
    while i < v.len()
        invariant
            i <= v.len(),
            views(r@) == param_names(v@.subrange(0, i as int)),
        decreases v.len() - i,
    {
        let c = v[i].name.clone();
        proof {
            lemma_views_push(r@, c);
            assert(param_names(v@.subrange(0, i + 1)) =~= param_names(v@.subrange(0, i as int)).push(c@));
        }
        r.push(c);
        i += 1;
    }
    assert(v@.subrange(0, i as int) =~= v@);
    r
}

fn status_code_list(v: &Vec<Response>) -> (r: Vec<String>)
    ensures
        views(r@) == status_codes(v@),
{
    let mut r: Vec<String> = Vec::new();
    let mut i: usize = 0;
    while i < v.len()
        invariant
            i <= v.len(),
            views(r@) == status_codes(v@.subrange(0, i as int)),
        decreases v.len() - i,
    {
        let c = v[i].status_code.clone();
        proof {
            lemma_views_push(r@, c);
            assert(status_codes(v@.subrange(0, i + 1)) =~= status_codes(v@.subrange(0, i as int)).push(c@));
        }
        r.push(c);
        i += 1;
    }
    assert(v@.subrange(0, i as int) =~= v@);
    r
}

/// Names of the parameters of `new` absent from `old`, required or optional
/// as asked.
pub fn added_params(old: &Endpoint, new: &Endpoint, required: bool) -> (r: Vec<String>)
    ensures
        views(r@) == added_params_spec(*old, *new, required),
{
    let old_names = param_name_list(&old.parameters);
    let ghost pred = |p: Parameter| is_added_param(p, param_names(old.parameters@), required);
    let mut r: Vec<String> = Vec::new();
    let mut i: usize = 0;
    while i < new.parameters.len()
        invariant
            i <= new.parameters@.len(),
            views(old_names@) == param_names(old.parameters@),
            pred == (|p: Parameter| is_added_param(p, param_names(old.parameters@), required)),
            views(r@) == param_names(new.parameters@.subrange(0, i as int).filter(pred)),
        decreases new.parameters.len() - i,
    {
        proof {
            lemma_filter_step(new.parameters@, i as int, pred);
        }
        let p = &new.parameters[i];
        if p.required == required && !contains_str(&old_names, p.name.as_str()) {
            let c = p.name.clone();
            proof {
                lemma_views_push(r@, c);
                assert(param_names(new.parameters@.subrange(0, i as int).filter(pred).push(*p)) =~= param_names(
                    new.parameters@.subrange(0, i as int).filter(pred),
                ).push(c@));
            }
            r.push(c);
        }
        i += 1;
    }
    assert(new.parameters@.subrange(0, i as int) =~= new.parameters@);
    r
}

fn body_notes(old: &Endpoint, new: &Endpoint) -> (r: Vec<String>)
    ensures
        views(r@) == body_notes_spec(*old, *new),
{
    let mut r: Vec<String> = Vec::new();
    match (&old.request_body, &new.request_body) {
        (None, Some(_)) => r.push(String::from_str("Added request body")),
        (Some(_), None) => r.push(String::from_str("Removed request body")),
        (Some(a), Some(b)) => {
            if !same_opt(&a.schema_ref, &b.schema_ref) {
                r.push(String::from_str("Request body schema changed"));
            }
        },
        (None, None) => {},
    }
    assert(views(r@) =~= body_notes_spec(*old, *new));
    r
}

/// Whether two optional strings are equal.
pub fn same_opt(a: &Option<String>, b: &Option<String>) -> (r: bool)
    ensures
        r == (opt_view(*a) == opt_view(*b)),
{
    match (a, b) {
        (Some(x), Some(y)) => str_equal(x.as_str(), y.as_str()),
        (None, None) => true,
        _ => false,
    }
}

impl DiffEngine {
    /// Notes on how an endpoint changed between two versions.
    pub fn compare_endpoints(old: &Endpoint, new: &Endpoint) -> (r: Vec<String>)
        ensures
            views(r@) == endpoint_notes_spec(*old, *new),
    {
        if str_equal(old.hash.as_str(), new.hash.as_str()) {
            let r: Vec<String> = Vec::new();
            assert(views(r@) =~= Seq::<Seq<char>>::empty());
            return r;
        }
        let mut r = prefixed("Added required parameter: ", &added_params(old, new, true));
        append_strings(&mut r, prefixed("Added parameter: ", &added_params(old, new, false)));
        let old_names = param_name_list(&old.parameters);
        let new_names = param_name_list(&new.parameters);
        append_strings(&mut r, prefixed("Removed parameter: ", &missing_from(&old_names, &new_names)));
        append_strings(&mut r, body_notes(old, new));
        let old_codes = status_code_list(&old.responses);
        let new_codes = status_code_list(&new.responses);
        append_strings(&mut r, prefixed("Added response: ", &missing_from(&new_codes, &old_codes)));
        append_strings(&mut r, prefixed("Removed response: ", &missing_from(&old_codes, &new_codes)));
        if r.len() == 0 {
            let mut g: Vec<String> = Vec::new();
            g.push(String::from_str("Endpoint definition changed"));
            assert(views(g@) =~= seq!["Endpoint definition changed"@]);
            assert(views(r@).len() == 0);
            return g;
        }
        r
    }

    /// Notes on how a schema changed between two versions.
    pub fn compare_schema_details(old: &Schema, new: &Schema) -> (r: Vec<String>)
        ensures
            views(r@) == schema_notes_spec(*old, *new),
    {
        let mut r = prefixed("Added reference to ", &missing_from(&new.refs, &old.refs));
        append_strings(&mut r, prefixed("Removed reference to ", &missing_from(&old.refs, &new.refs)));
        if r.len() == 0 {
            let mut g: Vec<String> = Vec::new();
            g.push(String::from_str("Schema definition changed"));
            assert(views(g@) =~= seq!["Schema definition changed"@]);
            return g;
        }
        r
    }
}

/// Compares two parsed documents.
#[derive(Debug)]
pub struct DiffEngine;

/// `v` has a schema named `n`.
pub open spec fn has_schema(v: Seq<Schema>, n: Seq<char>) -> bool {
    schema_names(v).contains(n)
}

/// `v` has an endpoint with key `k`.
pub open spec fn has_endpoint(v: Seq<Endpoint>, k: Seq<char>) -> bool {
    endpoint_keys(v).contains(k)
}

/// The schema of `v` named like `s`.
pub open spec fn schema_counterpart(s: Schema, v: Seq<Schema>) -> Schema {
    v[choose|j: int| 0 <= j < v.len() && #[trigger] v[j].name@ == s.name@]
}

/// The endpoint of `v` with the key of `e`.
pub open spec fn endpoint_counterpart(e: Endpoint, v: Seq<Endpoint>) -> Endpoint {
    v[choose|j: int| 0 <= j < v.len() && #[trigger] v[j].key_spec() == e.key_spec()]
}

/// `s` stands in `v` under the same name with another digest.
pub open spec fn schema_is_modified(s: Schema, v: Seq<Schema>) -> bool {
    has_schema(v, s.name@) && schema_counterpart(s, v).hash@ != s.hash@
}

/// `s` stands in `v` under the same name with the same digest.
pub open spec fn schema_is_unchanged(s: Schema, v: Seq<Schema>) -> bool {
    has_schema(v, s.name@) && schema_counterpart(s, v).hash@ == s.hash@
}

/// Names of the schemas only in `new`, in the order of `new`.
pub open spec fn added_schemas_spec(old: &ParsedSpec, new: &ParsedSpec) -> Seq<Seq<char>> {
    schema_names(new.schemas@.filter(|s: Schema| !has_schema(old.schemas@, s.name@)))
}

/// Schemas only in `old`, in the order of `old`.
pub open spec fn removed_schemas_spec(old: &ParsedSpec, new: &ParsedSpec) -> Seq<Schema> {
    old.schemas@.filter(|s: Schema| !has_schema(new.schemas@, s.name@))
}

/// Schemas of `old` whose digest differs in `new`, in the order of `old`.
pub open spec fn modified_schemas_spec(old: &ParsedSpec, new: &ParsedSpec) -> Seq<Schema> {
    old.schemas@.filter(|s: Schema| schema_is_modified(s, new.schemas@))
}

/// Number of schemas in both with equal digests.
pub open spec fn unchanged_schema_count(old: &ParsedSpec, new: &ParsedSpec) -> nat {
    old.schemas@.filter(|s: Schema| schema_is_unchanged(s, new.schemas@)).len()
}

/// Names of a list of schema changes.
pub open spec fn change_names(v: Seq<SchemaChange>) -> Seq<Seq<char>> {
    v.map_values(|c: SchemaChange| c.name@)
}

/// What a breaking change says: its kind, location and message.
pub open spec fn break_view(b: BreakingChange) -> (BreakingChangeCategory, Seq<char>, Seq<char>) {
    (b.category, b.location@, b.message@)
}

pub open spec fn break_views(v: Seq<BreakingChange>) -> Seq<(BreakingChangeCategory, Seq<char>, Seq<char>)> {
    v.map_values(|b: BreakingChange| break_view(b))
}

/// The breaking change recorded for a removed schema.
pub open spec fn schema_removed_break(s: Schema) -> (BreakingChangeCategory, Seq<char>, Seq<char>) {
    (
        BreakingChangeCategory::SchemaRemoved,
        "#/components/schemas/"@ + s.name@,
        "Schema '"@ + s.name@ + "' was removed"@,
    )
}

/// Index of the schema named `name` in `v`.
fn find_schema(v: &Vec<Schema>, name: &str) -> (r: Option<usize>)
    requires
        schema_names(v@).no_duplicates(),
    ensures
        match r {
            Some(j) => j < v@.len() && v@[j as int].name@ == name@ && schema_counterpart(
                v@[j as int],
                v@,
            ) == v@[j as int],
            None => !has_schema(v@, name@),
        },
        r.is_some() == has_schema(v@, name@),
{
    let mut i: usize = 0;
    while i < v.len()
        invariant
            i <= v@.len(),
            schema_names(v@).no_duplicates(),
            forall|k: int| 0 <= k < i ==> v@[k].name@ != name@,
        decreases v.len() - i,
    {
        if str_equal(v[i].name.as_str(), name) {
            proof {
                assert(v@[i as int].name@ == v@[i as int].name@);
                let j = choose|j: int| 0 <= j < v@.len() && #[trigger] v@[j].name@ == v@[i as int].name@;
                assert(schema_names(v@)[j] == schema_names(v@)[i as int]);
                assert(j == i);
            }
            return Some(i);
        }
        i += 1;
    }
    assert(!has_schema(v@, name@)) by {
        if has_schema(v@, name@) {
            let k = choose|k: int| 0 <= k < schema_names(v@).len() && schema_names(v@)[k] == name@;
            assert(v@[k].name@ == name@);
        }
    }
    None
}

/// Index of the endpoint with key `key` in `v`.
fn find_endpoint(v: &Vec<Endpoint>, key: &str) -> (r: Option<usize>)
    requires
        endpoint_keys(v@).no_duplicates(),
    ensures
        match r {
            Some(j) => j < v@.len() && v@[j as int].key_spec() == key@ && endpoint_counterpart(
                v@[j as int],
                v@,
            ) == v@[j as int],
            None => !has_endpoint(v@, key@),
        },
        r.is_some() == has_endpoint(v@, key@),
{
    let mut i: usize = 0;
    while i < v.len()
        invariant
            i <= v@.len(),
            endpoint_keys(v@).no_duplicates(),
            forall|k: int| 0 <= k < i ==> v@[k].key_spec() != key@,
        decreases v.len() - i,
    {
        let k = v[i].key();
        if str_equal(k.as_str(), key) {
            proof {
                assert(v@[i as int].key_spec() == v@[i as int].key_spec());
                let j = choose|j: int| 0 <= j < v@.len() && #[trigger] v@[j].key_spec() == v@[i as int].key_spec();
                assert(endpoint_keys(v@)[j] == endpoint_keys(v@)[i as int]);
                assert(j == i);
            }
            return Some(i);
        }
        i += 1;
    }
    assert(!has_endpoint(v@, key@)) by {
        if has_endpoint(v@, key@) {
            let k = choose|k: int| 0 <= k < endpoint_keys(v@).len() && endpoint_keys(v@)[k] == key@;
            assert(v@[k].key_spec() == key@);
        }
    }
    None
}

/// Every change in `v` carries the single note `note` and no impact list.
pub open spec fn plain_changes(v: Seq<SchemaChange>, note: Seq<char>) -> bool {
    forall|k: int| 0 <= k < v.len() ==> views(#[trigger] v[k].changes@) == seq![note] && v[k].affected_endpoints@.len() == 0
}

proof fn lemma_plain_changes_push(v: Seq<SchemaChange>, c: SchemaChange, note: Seq<char>)
    requires
        plain_changes(v, note),
        views(c.changes@) == seq![note],
        c.affected_endpoints@.len() == 0,
    ensures
        plain_changes(v.push(c), note),
{
    assert forall|k: int| 0 <= k < v.push(c).len() implies views(#[trigger] v.push(c)[k].changes@) == seq![note]
        && v.push(c)[k].affected_endpoints@.len() == 0 by {
        if k < v.len() {
            assert(v.push(c)[k] == v[k]);
        }
    }
}

/// A change note list of one line.
fn one_note(s: &str) -> (r: Vec<String>)
    ensures
        views(r@) == seq![s@],
{
    let mut r: Vec<String> = Vec::new();
    r.push(String::from_str(s));
    assert(views(r@) =~= seq![s@]);
    r
}

/// Schemas only in `new`.
fn added_schema_changes(old_spec: &ParsedSpec, new: &ParsedSpec) -> (r: Vec<SchemaChange>)
    requires
        old_spec.wf(),
    ensures
        change_names(r@) == added_schemas_spec(old_spec, new),
        plain_changes(r@, "New schema"@),
{
    let ghost pred = |s: Schema| !has_schema(old_spec.schemas@, s.name@);
    let mut r: Vec<SchemaChange> = Vec::new();
    let mut i: usize = 0;
    while i < new.schemas.len()
        invariant
            old_spec.wf(),
            i <= new.schemas@.len(),
            pred == (|s: Schema| !has_schema(old_spec.schemas@, s.name@)),
            change_names(r@) == schema_names(new.schemas@.subrange(0, i as int).filter(pred)),
            plain_changes(r@, "New schema"@),
        decreases new.schemas.len() - i,
    {
        proof {
            lemma_filter_step(new.schemas@, i as int, pred);
        }
        let sc = &new.schemas[i];
        if find_schema(&old_spec.schemas, sc.name.as_str()).is_none() {
            let c = SchemaChange { name: sc.name.clone(), changes: one_note("New schema"), affected_endpoints: Vec::new() };
            proof {
                assert(change_names(r@.push(c)) =~= change_names(r@).push(sc.name@));
                assert(schema_names(new.schemas@.subrange(0, i as int).filter(pred).push(*sc)) =~= schema_names(
                    new.schemas@.subrange(0, i as int).filter(pred),
                ).push(sc.name@));
            }
            proof {
                lemma_plain_changes_push(r@, c, "New schema"@);
            }
            r.push(c);
        }
        i += 1;
    }
    assert(new.schemas@.subrange(0, i as int) =~= new.schemas@);
    r
}

/// Schemas only in `old`; records one breaking change for each.
fn removed_schema_changes(old_spec: &ParsedSpec, new: &ParsedSpec, breaking: &mut Vec<BreakingChange>) -> (r: Vec<SchemaChange>)
    requires
        new.wf(),
    ensures
        change_names(r@) == schema_names(removed_schemas_spec(old_spec, new)),
        plain_changes(r@, "Schema removed"@),
        break_views(final(breaking)@) == break_views(old(breaking)@) + removed_schemas_spec(old_spec, new).map_values(
            |s: Schema| schema_removed_break(s),
        ),
{
    let ghost pred = |s: Schema| !has_schema(new.schemas@, s.name@);
    let ghost b0 = break_views(breaking@);
    let mut r: Vec<SchemaChange> = Vec::new();
    let mut i: usize = 0;
    while i < old_spec.schemas.len()
        invariant
            new.wf(),
            i <= old_spec.schemas@.len(),
            pred == (|s: Schema| !has_schema(new.schemas@, s.name@)),
            change_names(r@) == schema_names(old_spec.schemas@.subrange(0, i as int).filter(pred)),
            plain_changes(r@, "Schema removed"@),
            break_views(breaking@) == b0 + old_spec.schemas@.subrange(0, i as int).filter(pred).map_values(
                |s: Schema| schema_removed_break(s),
            ),
        decreases old_spec.schemas.len() - i,
    {
        proof {
            lemma_filter_step(old_spec.schemas@, i as int, pred);
        }
        let sc = &old_spec.schemas[i];
        if find_schema(&new.schemas, sc.name.as_str()).is_none() {
            let c = SchemaChange { name: sc.name.clone(), changes: one_note("Schema removed"), affected_endpoints: Vec::new() };
            let mut location = String::from_str("#/components/schemas/");
            location.append(sc.name.as_str());
            let mut message = String::from_str("Schema '");
            message.append(sc.name.as_str());
            message.append("' was removed");
            let b = BreakingChange { category: BreakingChangeCategory::SchemaRemoved, message, location };
            proof {
                assert(change_names(r@.push(c)) =~= change_names(r@).push(sc.name@));
                assert(schema_names(old_spec.schemas@.subrange(0, i as int).filter(pred).push(*sc)) =~= schema_names(
                    old_spec.schemas@.subrange(0, i as int).filter(pred),
                ).push(sc.name@));
                assert(break_views(breaking@.push(b)) =~= break_views(breaking@).push(break_view(b)));
                assert(old_spec.schemas@.subrange(0, i as int).filter(pred).push(*sc).map_values(
                    |s: Schema| schema_removed_break(s),
                ) =~= old_spec.schemas@.subrange(0, i as int).filter(pred).map_values(
                    |s: Schema| schema_removed_break(s),
                ).push(schema_removed_break(*sc)));
            }
            proof {
                lemma_plain_changes_push(r@, c, "Schema removed"@);
            }
            r.push(c);
            breaking.push(b);
        }
        i += 1;
    }
    assert(old_spec.schemas@.subrange(0, i as int) =~= old_spec.schemas@);
    r
}

/// A change for a modified schema `s`: its name, the notes comparing it
/// with its namesake in `new`, and the endpoints the graph says it impacts.
pub open spec fn modified_schema_change_ok(
    c: SchemaChange,
    s: Schema,
    new: Seq<Schema>,
    graph: Option<&DependencyGraph>,
) -> bool {
    &&& c.name@ == s.name@
    &&& views(c.changes@) == schema_notes_spec(s, schema_counterpart(s, new))
    &&& match graph {
        Some(g) => views(c.affected_endpoints@).no_duplicates() && forall|p: Seq<char>|
            #[trigger] views(c.affected_endpoints@).contains(p) <==> g.affected_paths_spec(s.name@, p),
        None => c.affected_endpoints@.len() == 0,
    }
}

/// Schemas in both documents: the changes for those whose digest differs,
/// and the number of the others.
fn modified_schema_changes(old_spec: &ParsedSpec, new: &ParsedSpec, graph: Option<&DependencyGraph>) -> (r: (
    Vec<SchemaChange>,
    usize,
))
    requires
        new.wf(),
        graph matches Some(g) ==> g.wf(),
    ensures
        r.0@.len() == modified_schemas_spec(old_spec, new).len(),
        forall|k: int| 0 <= k < r.0@.len() ==> modified_schema_change_ok(
            #[trigger] r.0@[k],
            modified_schemas_spec(old_spec, new)[k],
            new.schemas@,
            graph,
        ),
        r.1 == unchanged_schema_count(old_spec, new),
{
    let ghost pm = |s: Schema| schema_is_modified(s, new.schemas@);
    let ghost pu = |s: Schema| schema_is_unchanged(s, new.schemas@);
    let mut r: Vec<SchemaChange> = Vec::new();
    let mut unchanged: usize = 0;
    let mut i: usize = 0;
    while i < old_spec.schemas.len()
        invariant
            new.wf(),
            graph matches Some(g) ==> g.wf(),
            i <= old_spec.schemas@.len(),
            pm == (|s: Schema| schema_is_modified(s, new.schemas@)),
            pu == (|s: Schema| schema_is_unchanged(s, new.schemas@)),
            r@.len() == old_spec.schemas@.subrange(0, i as int).filter(pm).len(),
            forall|k: int| 0 <= k < r@.len() ==> modified_schema_change_ok(
                #[trigger] r@[k],
                old_spec.schemas@.subrange(0, i as int).filter(pm)[k],
                new.schemas@,
                graph,
            ),
            unchanged == old_spec.schemas@.subrange(0, i as int).filter(pu).len(),
            unchanged <= i,
        decreases old_spec.schemas.len() - i,
    {
        proof {
            lemma_filter_step(old_spec.schemas@, i as int, pm);
            lemma_filter_step(old_spec.schemas@, i as int, pu);
        }
        let sc = &old_spec.schemas[i];
        match find_schema(&new.schemas, sc.name.as_str()) {
            Some(j) => {
                if !str_equal(new.schemas[j].hash.as_str(), sc.hash.as_str()) {
                    let changes = DiffEngine::compare_schema_details(sc, &new.schemas[j]);
                    let affected = match graph {
                        Some(g) => g.get_affected_paths(sc.name.as_str()),
                        None => Vec::new(),
                    };
                    let c = SchemaChange { name: sc.name.clone(), changes, affected_endpoints: affected };
                    let ghost r0 = r@;
                    r.push(c);
                    assert forall|k: int| 0 <= k < r@.len() implies modified_schema_change_ok(
                        #[trigger] r@[k],
                        old_spec.schemas@.subrange(0, i + 1).filter(pm)[k],
                        new.schemas@,
                        graph,
                    ) by {
                        if k < r0.len() {
                            assert(r@[k] == r0[k]);
                        }
                    }
                } else {
                    unchanged += 1;
                }
            },
            None => {},
        }
        i += 1;
    }
    assert(old_spec.schemas@.subrange(0, i as int) =~= old_spec.schemas@);
    (r, unchanged)
}

/// A change for an endpoint `e` that was added or removed.
pub open spec fn plain_endpoint_change(c: EndpointChange, e: Endpoint, note: Seq<char>) -> bool {
    &&& c.key@ == e.key_spec()
    &&& c.path@ == e.path@
    &&& c.method == e.method
    &&& opt_view(c.operation_id) == opt_view(e.operation_id)
    &&& views(c.tags@) == views(e.tags@)
    &&& views(c.changes@) == seq![note]
    &&& c.affected_by_schemas@.len() == 0
}

/// Endpoints of `new` whose key `old` lacks, in the order of `new`.
pub open spec fn added_endpoints_spec(old: &ParsedSpec, new: &ParsedSpec) -> Seq<Endpoint> {
    new.endpoints@.filter(|e: Endpoint| !has_endpoint(old.endpoints@, e.key_spec()))
}

/// Endpoints of `old` whose key `new` lacks, in the order of `old`.
pub open spec fn removed_endpoints_spec(old: &ParsedSpec, new: &ParsedSpec) -> Seq<Endpoint> {
    old.endpoints@.filter(|e: Endpoint| !has_endpoint(new.endpoints@, e.key_spec()))
}

/// The breaking change recorded for a removed endpoint.
pub open spec fn endpoint_removed_break(e: Endpoint) -> (BreakingChangeCategory, Seq<char>, Seq<char>) {
    (BreakingChangeCategory::EndpointRemoved, e.path@, "Endpoint '"@ + e.key_spec() + "' was removed"@)
}

fn endpoint_change(e: &Endpoint, changes: Vec<String>, affected: Vec<String>) -> (c: EndpointChange)
    ensures
        c.key@ == e.key_spec(),
        c.path@ == e.path@,
        c.method == e.method,
        opt_view(c.operation_id) == opt_view(e.operation_id),
        views(c.tags@) == views(e.tags@),
        c.changes@ == changes@,
        c.affected_by_schemas@ == affected@,
{
    EndpointChange {
        key: e.key(),
        path: e.path.clone(),
        method: e.method,
        operation_id: copy_opt(&e.operation_id),
        tags: copy_strings(&e.tags),
        changes,
        affected_by_schemas: affected,
    }
}

/// Endpoints only in `new`.
fn added_endpoint_changes(old_spec: &ParsedSpec, new: &ParsedSpec) -> (r: Vec<EndpointChange>)
    requires
        old_spec.wf(),
    ensures
        r@.len() == added_endpoints_spec(old_spec, new).len(),
        forall|k: int| 0 <= k < r@.len() ==> plain_endpoint_change(
            #[trigger] r@[k],
            added_endpoints_spec(old_spec, new)[k],
            "New endpoint"@,
        ),
{
    let ghost pred = |e: Endpoint| !has_endpoint(old_spec.endpoints@, e.key_spec());
    let mut r: Vec<EndpointChange> = Vec::new();
    let mut i: usize = 0;
    while i < new.endpoints.len()
        invariant
            old_spec.wf(),
            i <= new.endpoints@.len(),
            pred == (|e: Endpoint| !has_endpoint(old_spec.endpoints@, e.key_spec())),
            r@.len() == new.endpoints@.subrange(0, i as int).filter(pred).len(),
            forall|k: int| 0 <= k < r@.len() ==> plain_endpoint_change(
                #[trigger] r@[k],
                new.endpoints@.subrange(0, i as int).filter(pred)[k],
                "New endpoint"@,
            ),
        decreases new.endpoints.len() - i,
    {
        proof {
            lemma_filter_step(new.endpoints@, i as int, pred);
        }
        let ep = &new.endpoints[i];
        let key = ep.key();
        if find_endpoint(&old_spec.endpoints, key.as_str()).is_none() {
            let c = endpoint_change(ep, one_note("New endpoint"), Vec::new());
            let ghost r0 = r@;
            r.push(c);
            assert forall|k: int| 0 <= k < r@.len() implies plain_endpoint_change(
                #[trigger] r@[k],
                new.endpoints@.subrange(0, i + 1).filter(pred)[k],
                "New endpoint"@,
            ) by {
                if k < r0.len() {
                    assert(r@[k] == r0[k]);
                }
            }
        }
        i += 1;
    }
    assert(new.endpoints@.subrange(0, i as int) =~= new.endpoints@);
    r
}

/// Endpoints only in `old`; records one breaking change for each.
fn removed_endpoint_changes(old_spec: &ParsedSpec, new: &ParsedSpec, breaking: &mut Vec<BreakingChange>) -> (r: Vec<
    EndpointChange,
>)
    requires
        new.wf(),
    ensures
        r@.len() == removed_endpoints_spec(old_spec, new).len(),
        forall|k: int| 0 <= k < r@.len() ==> plain_endpoint_change(
            #[trigger] r@[k],
            removed_endpoints_spec(old_spec, new)[k],
            "Endpoint removed"@,
        ),
        break_views(final(breaking)@) == break_views(old(breaking)@) + removed_endpoints_spec(old_spec, new).map_values(
            |e: Endpoint| endpoint_removed_break(e),
        ),
{
    let ghost pred = |e: Endpoint| !has_endpoint(new.endpoints@, e.key_spec());
    let ghost b0 = break_views(breaking@);
    let mut r: Vec<EndpointChange> = Vec::new();
    let mut i: usize = 0;
    while i < old_spec.endpoints.len()
        invariant
            new.wf(),
            i <= old_spec.endpoints@.len(),
            pred == (|e: Endpoint| !has_endpoint(new.endpoints@, e.key_spec())),
            r@.len() == old_spec.endpoints@.subrange(0, i as int).filter(pred).len(),
            forall|k: int| 0 <= k < r@.len() ==> plain_endpoint_change(
                #[trigger] r@[k],
                old_spec.endpoints@.subrange(0, i as int).filter(pred)[k],
                "Endpoint removed"@,
            ),
            break_views(breaking@) == b0 + old_spec.endpoints@.subrange(0, i as int).filter(pred).map_values(
                |e: Endpoint| endpoint_removed_break(e),
            ),
        decreases old_spec.endpoints.len() - i,
    {
        proof {
            lemma_filter_step(old_spec.endpoints@, i as int, pred);
        }
        let ep = &old_spec.endpoints[i];
        let key = ep.key();
        if find_endpoint(&new.endpoints, key.as_str()).is_none() {
            let c = endpoint_change(ep, one_note("Endpoint removed"), Vec::new());
            let mut message = String::from_str("Endpoint '");
            message.append(key.as_str());
            message.append("' was removed");
            let b = BreakingChange {
                category: BreakingChangeCategory::EndpointRemoved,
                message,
                location: ep.path.clone(),
            };
            proof {
                assert(break_views(breaking@.push(b)) =~= break_views(breaking@).push(break_view(b)));
                assert(old_spec.endpoints@.subrange(0, i as int).filter(pred).push(*ep).map_values(
                    |e: Endpoint| endpoint_removed_break(e),
                ) =~= old_spec.endpoints@.subrange(0, i as int).filter(pred).map_values(
                    |e: Endpoint| endpoint_removed_break(e),
                ).push(endpoint_removed_break(*ep)));
            }
            let ghost r0 = r@;
            r.push(c);
            breaking.push(b);
            assert forall|k: int| 0 <= k < r@.len() implies plain_endpoint_change(
                #[trigger] r@[k],
                old_spec.endpoints@.subrange(0, i + 1).filter(pred)[k],
                "Endpoint removed"@,
            ) by {
                if k < r0.len() {
                    assert(r@[k] == r0[k]);
                }
            }
        }
        i += 1;
    }
    assert(old_spec.endpoints@.subrange(0, i as int) =~= old_spec.endpoints@);
    r
}

/// Names of the schemas of `old` whose digest differs in `new`.
pub open spec fn modified_names(old: &ParsedSpec, new: &ParsedSpec) -> Seq<Seq<char>> {
    schema_names(modified_schemas_spec(old, new))
}

/// Schemas that endpoint `n` references and that are among `modified`.
pub open spec fn affected_by_spec(n: Endpoint, modified: Seq<Seq<char>>) -> Seq<Seq<char>> {
    kept_spec(views(n.schema_refs@), modified)
}

/// `o` stands in `new` under its key, and its digest differs there, or the
/// new version references a modified schema.
pub open spec fn endpoint_is_modified(o: Endpoint, new: Seq<Endpoint>, modified: Seq<Seq<char>>) -> bool {
    has_endpoint(new, o.key_spec()) && (endpoint_counterpart(o, new).hash@ != o.hash@ || affected_by_spec(
        endpoint_counterpart(o, new),
        modified,
    ).len() > 0)
}

/// `o` stands in `new` under its key and is not modified.
pub open spec fn endpoint_is_unchanged(o: Endpoint, new: Seq<Endpoint>, modified: Seq<Seq<char>>) -> bool {
    has_endpoint(new, o.key_spec()) && !endpoint_is_modified(o, new, modified)
}

/// Endpoints of `old` modified in `new`, in the order of `old`.
pub open spec fn modified_endpoints_spec(old: &ParsedSpec, new: &ParsedSpec) -> Seq<Endpoint> {
    old.endpoints@.filter(|o: Endpoint| endpoint_is_modified(o, new.endpoints@, modified_names(old, new)))
}

/// Number of endpoints in both documents and not modified.
pub open spec fn unchanged_endpoint_count(old: &ParsedSpec, new: &ParsedSpec) -> nat {
    old.endpoints@.filter(|o: Endpoint| endpoint_is_unchanged(o, new.endpoints@, modified_names(old, new))).len()
}

/// A change for an endpoint `o` that was modified: taken from its new
/// version, with the direct notes followed by one note per modified schema
/// that it references.
pub open spec fn modified_endpoint_ok(c: EndpointChange, o: Endpoint, new: Seq<Endpoint>, modified: Seq<Seq<char>>) -> bool {
    let n = endpoint_counterpart(o, new);
    &&& c.key@ == n.key_spec()
    &&& c.path@ == n.path@
    &&& c.method == n.method
    &&& opt_view(c.operation_id) == opt_view(n.operation_id)
    &&& views(c.tags@) == views(n.tags@)
    &&& views(c.changes@) == endpoint_notes_spec(o, n) + prefixed_spec(
        "Affected by schema change: "@,
        affected_by_spec(n, modified),
    )
    &&& views(c.affected_by_schemas@) == affected_by_spec(n, modified)
}

/// The breaking change recorded for a required parameter `name` new in `n`.
pub open spec fn param_added_break(name: Seq<char>, n: Endpoint) -> (BreakingChangeCategory, Seq<char>, Seq<char>) {
    (
        BreakingChangeCategory::ParameterAdded,
        n.path@,
        "Required parameter '"@ + name + "' was added to '"@ + n.key_spec() + "'"@,
    )
}

/// Breaking changes for the required parameters that the new version of `o`
/// adds, when its digest differs.
pub open spec fn endpoint_param_breaks(o: Endpoint, new: Seq<Endpoint>) -> Seq<
    (BreakingChangeCategory, Seq<char>, Seq<char>),
> {
    let n = endpoint_counterpart(o, new);
    if has_endpoint(new, o.key_spec()) && n.hash@ != o.hash@ {
        added_params_spec(o, n, true).map_values(|name: Seq<char>| param_added_break(name, n))
    } else {
        Seq::empty()
    }
}

/// Breaking changes for added required parameters, over `olds` in order.
pub open spec fn param_breaks(olds: Seq<Endpoint>, new: Seq<Endpoint>) -> Seq<
    (BreakingChangeCategory, Seq<char>, Seq<char>),
>
    decreases olds.len(),
{
    if olds.len() == 0 {
        Seq::empty()
    } else {
        param_breaks(olds.drop_last(), new) + endpoint_param_breaks(olds.last(), new)
    }
}

fn change_name_list(v: &Vec<SchemaChange>) -> (r: Vec<String>)
    ensures
        views(r@) == change_names(v@),
{
    let mut r: Vec<String> = Vec::new();
    let mut i: usize = 0;
    while i < v.len()
        invariant
            i <= v.len(),
            views(r@) == change_names(v@.subrange(0, i as int)),
        decreases v.len() - i,
    {
        let c = v[i].name.clone();
        proof {
            lemma_views_push(r@, c);
            assert(change_names(v@.subrange(0, i + 1)) =~= change_names(v@.subrange(0, i as int)).push(c@));
        }
        r.push(c);
        i += 1;
    }
    assert(v@.subrange(0, i as int) =~= v@);
    r
}

/// Endpoints in both documents: changes for the modified ones (directly, or
/// through a modified schema named in `modified`), the number of the
/// others, and a breaking change for each required parameter added.
fn common_endpoint_changes(
    old_spec: &ParsedSpec,
    new: &ParsedSpec,
    modified: &Vec<String>,
    breaking: &mut Vec<BreakingChange>,
) -> (r: (Vec<EndpointChange>, usize))
    requires
        new.wf(),
    ensures
        r.0@.len() == old_spec.endpoints@.filter(
            |o: Endpoint| endpoint_is_modified(o, new.endpoints@, views(modified@)),
        ).len(),
        forall|k: int| 0 <= k < r.0@.len() ==> modified_endpoint_ok(
            #[trigger] r.0@[k],
            old_spec.endpoints@.filter(|o: Endpoint| endpoint_is_modified(o, new.endpoints@, views(modified@)))[k],
            new.endpoints@,
            views(modified@),
        ),
        r.1 == old_spec.endpoints@.filter(
            |o: Endpoint| endpoint_is_unchanged(o, new.endpoints@, views(modified@)),
        ).len(),
        break_views(final(breaking)@) == break_views(old(breaking)@) + param_breaks(old_spec.endpoints@, new.endpoints@),
{
    let ghost mods = views(modified@);
    let ghost pm = |o: Endpoint| endpoint_is_modified(o, new.endpoints@, mods);
    let ghost pu = |o: Endpoint| endpoint_is_unchanged(o, new.endpoints@, mods);
    let ghost b0 = break_views(breaking@);
    let mut r: Vec<EndpointChange> = Vec::new();
    let mut unchanged: usize = 0;
    let mut i: usize = 0;
    while i < old_spec.endpoints.len()
        invariant
            new.wf(),
            i <= old_spec.endpoints@.len(),
            mods == views(modified@),
            pm == (|o: Endpoint| endpoint_is_modified(o, new.endpoints@, mods)),
            pu == (|o: Endpoint| endpoint_is_unchanged(o, new.endpoints@, mods)),
            r@.len() == old_spec.endpoints@.subrange(0, i as int).filter(pm).len(),
            forall|k: int| 0 <= k < r@.len() ==> modified_endpoint_ok(
                #[trigger] r@[k],
                old_spec.endpoints@.subrange(0, i as int).filter(pm)[k],
                new.endpoints@,
                mods,
            ),
            unchanged == old_spec.endpoints@.subrange(0, i as int).filter(pu).len(),
            unchanged <= i,
            break_views(breaking@) == b0 + param_breaks(old_spec.endpoints@.subrange(0, i as int), new.endpoints@),
        decreases old_spec.endpoints.len() - i,
    {
        proof {
            lemma_filter_step(old_spec.endpoints@, i as int, pm);
            lemma_filter_step(old_spec.endpoints@, i as int, pu);
            assert(old_spec.endpoints@.subrange(0, i + 1).drop_last() =~= old_spec.endpoints@.subrange(0, i as int));
        }
        let o = &old_spec.endpoints[i];
        let key = o.key();
        match find_endpoint(&new.endpoints, key.as_str()) {
            Some(j) => {
                let n = &new.endpoints[j];
                let direct = DiffEngine::compare_endpoints(o, n);
                let affected = kept_from(&n.schema_refs, modified);
                if direct.len() > 0 || affected.len() > 0 {
                    let mut changes = direct;
                    append_strings(&mut changes, prefixed("Affected by schema change: ", &affected));
                    let c = endpoint_change(n, changes, affected);
                    let ghost r0 = r@;
                    r.push(c);
                    assert forall|k: int| 0 <= k < r@.len() implies modified_endpoint_ok(
                        #[trigger] r@[k],
                        old_spec.endpoints@.subrange(0, i + 1).filter(pm)[k],
                        new.endpoints@,
                        mods,
                    ) by {
                        if k < r0.len() {
                            assert(r@[k] == r0[k]);
                        }
                    }
                } else {
                    unchanged += 1;
                }
                if !str_equal(o.hash.as_str(), n.hash.as_str()) {
                    let names = added_params(o, n, true);
                    let nkey = n.key();
                    let ghost bi = break_views(breaking@);
                    let mut k: usize = 0;
                    while k < names.len()
                        invariant
                            k <= names@.len(),
                            views(names@) == added_params_spec(*o, *n, true),
                            nkey@ == n.key_spec(),
                            break_views(breaking@) == bi + views(names@).subrange(0, k as int).map_values(
                                |name: Seq<char>| param_added_break(name, *n),
                            ),
                        decreases names.len() - k,
                    {
                        let mut message = String::from_str("Required parameter '");
                        message.append(names[k].as_str());
                        message.append("' was added to '");
                        message.append(nkey.as_str());
                        message.append("'");
                        let b = BreakingChange {
                            category: BreakingChangeCategory::ParameterAdded,
                            message,
                            location: n.path.clone(),
                        };
                        proof {
                            assert(break_views(breaking@.push(b)) =~= break_views(breaking@).push(break_view(b)));
                            assert(views(names@).subrange(0, k + 1).map_values(
                                |name: Seq<char>| param_added_break(name, *n),
                            ) =~= views(names@).subrange(0, k as int).map_values(
                                |name: Seq<char>| param_added_break(name, *n),
                            ).push(param_added_break(names@[k as int]@, *n)));
                        }
                        breaking.push(b);
                        k += 1;
                    }
                    assert(views(names@).subrange(0, k as int) =~= views(names@));
                    assert(break_views(breaking@) =~= bi + endpoint_param_breaks(*o, new.endpoints@));
                } else {
                    assert(endpoint_param_breaks(*o, new.endpoints@) =~= Seq::empty());
                    assert(break_views(breaking@) =~= break_views(breaking@) + endpoint_param_breaks(*o, new.endpoints@));
                }
            },
            None => {
                assert(endpoint_param_breaks(*o, new.endpoints@) =~= Seq::empty());
                assert(break_views(breaking@) =~= break_views(breaking@) + endpoint_param_breaks(*o, new.endpoints@));
            },
        }
        i += 1;
    }
    assert(old_spec.endpoints@.subrange(0, i as int) =~= old_spec.endpoints@);
    (r, unchanged)
}

/// The breaking changes of a diff: removed schemas, then removed
/// endpoints, then added required parameters.
pub open spec fn breaking_spec(old: &ParsedSpec, new: &ParsedSpec) -> Seq<(BreakingChangeCategory, Seq<char>, Seq<char>)> {
    removed_schemas_spec(old, new).map_values(|s: Schema| schema_removed_break(s)) + removed_endpoints_spec(
        old,
        new,
    ).map_values(|e: Endpoint| endpoint_removed_break(e)) + param_breaks(old.endpoints@, new.endpoints@)
}

impl DiffEngine {
    /// Compares `old_spec` with `new_spec`. `graph`, when given, is the
    /// dependency graph of `new_spec`; it supplies the endpoints impacted by
    /// each modified schema.
    pub fn diff(old_spec: &ParsedSpec, new_spec: &ParsedSpec, graph: Option<&DependencyGraph>) -> (r: SpecDiff)
        requires
            old_spec.wf(),
            new_spec.wf(),
            graph matches Some(g) ==> g.wf(),
        ensures
            change_names(r.added_schemas@) == added_schemas_spec(old_spec, new_spec),
            plain_changes(r.added_schemas@, "New schema"@),
            change_names(r.removed_schemas@) == schema_names(removed_schemas_spec(old_spec, new_spec)),
            plain_changes(r.removed_schemas@, "Schema removed"@),
            r.modified_schemas@.len() == modified_schemas_spec(old_spec, new_spec).len(),
            forall|k: int| 0 <= k < r.modified_schemas@.len() ==> modified_schema_change_ok(
                #[trigger] r.modified_schemas@[k],
                modified_schemas_spec(old_spec, new_spec)[k],
                new_spec.schemas@,
                graph,
            ),
            r.unchanged_schemas == unchanged_schema_count(old_spec, new_spec),
            r.added_endpoints@.len() == added_endpoints_spec(old_spec, new_spec).len(),
            forall|k: int| 0 <= k < r.added_endpoints@.len() ==> plain_endpoint_change(
                #[trigger] r.added_endpoints@[k],
                added_endpoints_spec(old_spec, new_spec)[k],
                "New endpoint"@,
            ),
            r.removed_endpoints@.len() == removed_endpoints_spec(old_spec, new_spec).len(),
            forall|k: int| 0 <= k < r.removed_endpoints@.len() ==> plain_endpoint_change(
                #[trigger] r.removed_endpoints@[k],
                removed_endpoints_spec(old_spec, new_spec)[k],
                "Endpoint removed"@,
            ),
            r.modified_endpoints@.len() == modified_endpoints_spec(old_spec, new_spec).len(),
            forall|k: int| 0 <= k < r.modified_endpoints@.len() ==> modified_endpoint_ok(
                #[trigger] r.modified_endpoints@[k],
                modified_endpoints_spec(old_spec, new_spec)[k],
                new_spec.endpoints@,
                modified_names(old_spec, new_spec),
            ),
            r.unchanged_endpoints == unchanged_endpoint_count(old_spec, new_spec),
            break_views(r.breaking_changes@) == breaking_spec(old_spec, new_spec),
    {
        let mut breaking: Vec<BreakingChange> = Vec::new();
        let added_schemas = added_schema_changes(old_spec, new_spec);
        let removed_schemas = removed_schema_changes(old_spec, new_spec, &mut breaking);
        let (modified_schemas, unchanged_schemas) = modified_schema_changes(old_spec, new_spec, graph);
        let modified = change_name_list(&modified_schemas);
        assert(views(modified@) =~= modified_names(old_spec, new_spec)) by {
            assert forall|k: int| 0 <= k < modified_schemas@.len() implies #[trigger] change_names(modified_schemas@)[k]
                == modified_names(old_spec, new_spec)[k] by {
                assert(modified_schema_change_ok(
                    modified_schemas@[k],
                    modified_schemas_spec(old_spec, new_spec)[k],
                    new_spec.schemas@,
                    graph,
                ));
            }
        }
        let added_endpoints = added_endpoint_changes(old_spec, new_spec);
        let removed_endpoints = removed_endpoint_changes(old_spec, new_spec, &mut breaking);
        let (modified_endpoints, unchanged_endpoints) = common_endpoint_changes(
            old_spec,
            new_spec,
            &modified,
            &mut breaking,
        );
        proof {
            assert(break_views(Seq::<BreakingChange>::empty()) =~= Seq::empty());
            assert(breaking_spec(old_spec, new_spec) =~= Seq::empty() + removed_schemas_spec(old_spec, new_spec).map_values(
                |s: Schema| schema_removed_break(s),
            ) + removed_endpoints_spec(old_spec, new_spec).map_values(|e: Endpoint| endpoint_removed_break(e))
                + param_breaks(old_spec.endpoints@, new_spec.endpoints@));
        }
        SpecDiff {
            added_endpoints,
            modified_endpoints,
            removed_endpoints,
            unchanged_endpoints,
            added_schemas,
            modified_schemas,
            removed_schemas,
            unchanged_schemas,
            breaking_changes: breaking,
        }
    }
}

proof fn lemma_schema_self(s: Seq<Schema>, i: int)
    requires
        schema_names(s).no_duplicates(),
        0 <= i < s.len(),
    ensures
        has_schema(s, s[i].name@),
        schema_counterpart(s[i], s) == s[i],
{
    assert(schema_names(s)[i] == s[i].name@);
    let j = choose|j: int| 0 <= j < s.len() && #[trigger] s[j].name@ == s[i].name@;
    assert(schema_names(s)[j] == schema_names(s)[i]);
}

proof fn lemma_endpoint_self(s: Seq<Endpoint>, i: int)
    requires
        endpoint_keys(s).no_duplicates(),
        0 <= i < s.len(),
    ensures
        has_endpoint(s, s[i].key_spec()),
        endpoint_counterpart(s[i], s) == s[i],
{
    assert(endpoint_keys(s)[i] == s[i].key_spec());
    let j = choose|j: int| 0 <= j < s.len() && #[trigger] s[j].key_spec() == s[i].key_spec();
    assert(endpoint_keys(s)[j] == endpoint_keys(s)[i]);
}

proof fn lemma_param_breaks_none(olds: Seq<Endpoint>, new: Seq<Endpoint>)
    requires
        forall|i: int| 0 <= i < olds.len() ==> (#[trigger] endpoint_param_breaks(olds[i], new)).len() == 0,
    ensures
        param_breaks(olds, new).len() == 0,
    decreases olds.len(),
{
    if olds.len() > 0 {
        assert forall|i: int| 0 <= i < olds.drop_last().len() implies (#[trigger] endpoint_param_breaks(
            olds.drop_last()[i],
            new,
        )).len() == 0 by {
            assert(olds.drop_last()[i] == olds[i]);
        }
        lemma_param_breaks_none(olds.drop_last(), new);
        assert(endpoint_param_breaks(olds[olds.len() - 1], new).len() == 0);
    }
}

/// Comparing a document with itself finds nothing added, removed or
/// modified, and no breaking change.
pub proof fn lemma_self_diff_is_empty(s: &ParsedSpec)
    requires
        s.wf(),
    ensures
        added_schemas_spec(s, s).len() == 0,
        removed_schemas_spec(s, s).len() == 0,
        modified_schemas_spec(s, s).len() == 0,
        added_endpoints_spec(s, s).len() == 0,
        removed_endpoints_spec(s, s).len() == 0,
        modified_endpoints_spec(s, s).len() == 0,
        breaking_spec(s, s).len() == 0,
{
    assert forall|i: int| 0 <= i < s.schemas@.len() implies has_schema(s.schemas@, (#[trigger] s.schemas@[i]).name@)
        && !schema_is_modified(s.schemas@[i], s.schemas@) by {
        lemma_schema_self(s.schemas@, i);
    }
    lemma_filter_none(s.schemas@, |x: Schema| !has_schema(s.schemas@, x.name@));
    lemma_filter_none(s.schemas@, |x: Schema| schema_is_modified(x, s.schemas@));
    assert(modified_names(s, s) =~= Seq::empty());
    assert forall|i: int| 0 <= i < s.endpoints@.len() implies has_endpoint(
        s.endpoints@,
        (#[trigger] s.endpoints@[i]).key_spec(),
    ) && !endpoint_is_modified(s.endpoints@[i], s.endpoints@, modified_names(s, s))
        && endpoint_param_breaks(s.endpoints@[i], s.endpoints@).len() == 0 by {
        lemma_endpoint_self(s.endpoints@, i);
        let e = s.endpoints@[i];
        lemma_filter_none(views(e.schema_refs@), |x: Seq<char>| modified_names(s, s).contains(x));
    }
    lemma_filter_none(s.endpoints@, |x: Endpoint| !has_endpoint(s.endpoints@, x.key_spec()));
    lemma_filter_none(s.endpoints@, |x: Endpoint| endpoint_is_modified(x, s.endpoints@, modified_names(s, s)));
    lemma_param_breaks_none(s.endpoints@, s.endpoints@);
}

/// Removing one endpoint, all else equal, yields exactly that endpoint as
/// removed and exactly one breaking change: its `EndpointRemoved`, at its
/// path.
pub proof fn lemma_endpoint_removal(old: &ParsedSpec, new: &ParsedSpec, k: int)
    requires
        old.wf(),
        new.wf(),
        0 <= k < old.endpoints@.len(),
        new.endpoints@ == old.endpoints@.remove(k),
        new.schemas@ == old.schemas@,
    ensures
        removed_endpoints_spec(old, new) == seq![old.endpoints@[k]],
        breaking_spec(old, new) == seq![endpoint_removed_break(old.endpoints@[k])],
{
    let olds = old.endpoints@;
    let news = new.endpoints@;
    assert forall|i: int| 0 <= i < olds.len() implies (i == k) == !has_endpoint(news, (#[trigger] olds[i]).key_spec())
        && (i != k ==> endpoint_counterpart(olds[i], news) == olds[i]) by {
        if i != k {
            let m = if i < k { i } else { i - 1 };
            assert(news[m] == olds[i]);
            lemma_endpoint_self(news, m);
        } else {
            if has_endpoint(news, olds[k].key_spec()) {
                let m = choose|m: int| 0 <= m < endpoint_keys(news).len() && endpoint_keys(news)[m] == olds[k].key_spec();
                let i2 = if m < k { m } else { m + 1 };
                assert(news[m] == olds[i2]);
                assert(endpoint_keys(olds)[i2] == endpoint_keys(olds)[k]);
            }
        }
    }
    lemma_filter_only(olds, |e: Endpoint| !has_endpoint(news, e.key_spec()), k);
    assert forall|i: int| 0 <= i < old.schemas@.len() implies has_schema(new.schemas@, (#[trigger] old.schemas@[i]).name@) by {
        lemma_schema_self(old.schemas@, i);
    }
    lemma_filter_none(old.schemas@, |x: Schema| !has_schema(new.schemas@, x.name@));
    assert forall|i: int| 0 <= i < olds.len() implies (#[trigger] endpoint_param_breaks(olds[i], news)).len() == 0 by {
    }
    lemma_param_breaks_none(olds, news);
    assert(breaking_spec(old, new) =~= seq![endpoint_removed_break(old.endpoints@[k])]);
}

/// Removing one schema, all else equal, yields exactly that schema as
/// removed and exactly one breaking change: its `SchemaRemoved`.
pub proof fn lemma_schema_removal(old: &ParsedSpec, new: &ParsedSpec, k: int)
    requires
        old.wf(),
        new.wf(),
        0 <= k < old.schemas@.len(),
        new.schemas@ == old.schemas@.remove(k),
        new.endpoints@ == old.endpoints@,
    ensures
        removed_schemas_spec(old, new) == seq![old.schemas@[k]],
        breaking_spec(old, new) == seq![schema_removed_break(old.schemas@[k])],
{
    let olds = old.schemas@;
    let news = new.schemas@;
    assert forall|i: int| 0 <= i < olds.len() implies (i == k) == !has_schema(news, (#[trigger] olds[i]).name@) by {
        if i != k {
            let m = if i < k { i } else { i - 1 };
            assert(news[m] == olds[i]);
            assert(schema_names(news)[m] == olds[i].name@);
        } else {
            if has_schema(news, olds[k].name@) {
                let m = choose|m: int| 0 <= m < schema_names(news).len() && schema_names(news)[m] == olds[k].name@;
                let i2 = if m < k { m } else { m + 1 };
                assert(news[m] == olds[i2]);
                assert(schema_names(olds)[i2] == schema_names(olds)[k]);
            }
        }
    }
    lemma_filter_only(olds, |x: Schema| !has_schema(news, x.name@), k);
    assert forall|i: int| 0 <= i < old.endpoints@.len() implies has_endpoint(
        new.endpoints@,
        (#[trigger] old.endpoints@[i]).key_spec(),
    ) && endpoint_param_breaks(old.endpoints@[i], new.endpoints@).len() == 0 by {
        lemma_endpoint_self(old.endpoints@, i);
    }
    lemma_filter_none(old.endpoints@, |e: Endpoint| !has_endpoint(new.endpoints@, e.key_spec()));
    lemma_param_breaks_none(old.endpoints@, new.endpoints@);
    assert(breaking_spec(old, new) =~= seq![schema_removed_break(old.schemas@[k])]);
}

/// A new version `n` of endpoint `o`, with one parameter `p` inserted
/// anywhere in its list: a required `p` gives one `ParameterAdded` breaking
/// change; an optional `p` gives none, only the note "Added parameter".
pub proof fn lemma_added_parameter(o: Endpoint, n: Endpoint, p: Parameter, pos: int, new: Seq<Endpoint>, j: int)
    requires
        0 <= pos <= o.parameters@.len(),
        n.parameters@ == o.parameters@.insert(pos, p),
        !param_names(o.parameters@).contains(p.name@),
        endpoint_keys(new).no_duplicates(),
        0 <= j < new.len(),
        new[j] == n,
        n.key_spec() == o.key_spec(),
        n.hash@ != o.hash@,
    ensures
        p.required ==> endpoint_param_breaks(o, new) == seq![param_added_break(p.name@, n)],
        !p.required ==> endpoint_param_breaks(o, new).len() == 0,
        !p.required ==> endpoint_notes_spec(o, n)[0] == "Added parameter: "@ + p.name@,
{
    lemma_endpoint_self(new, j);
    let names = param_names(o.parameters@);
    let ps = n.parameters@;
    assert forall|i: int| 0 <= i < ps.len() && i != pos implies names.contains((#[trigger] ps[i]).name@) by {
        let src = if i < pos { i } else { i - 1 };
        assert(ps[i] == o.parameters@[src]);
        assert(names[src] == o.parameters@[src].name@);
    }
    assert(ps[pos] == p);
    let pr = |q: Parameter| is_added_param(q, names, true);
    let po = |q: Parameter| is_added_param(q, names, false);
    if p.required {
        lemma_filter_only(ps, pr, pos);
        lemma_filter_none(ps, po);
        assert(added_params_spec(o, n, true) =~= seq![p.name@]);
        assert(endpoint_param_breaks(o, new) =~= seq![param_added_break(p.name@, n)]);
    } else {
        lemma_filter_none(ps, pr);
        lemma_filter_only(ps, po, pos);
        assert(added_params_spec(o, n, true) =~= Seq::<Seq<char>>::empty());
        assert(added_params_spec(o, n, false) =~= seq![p.name@]);
        assert(endpoint_deltas_spec(o, n)[0] == "Added parameter: "@ + p.name@);
    }
}

proof fn lemma_param_breaks_only(olds: Seq<Endpoint>, new: Seq<Endpoint>, k: int, m: int)
    requires
        0 <= k < olds.len(),
        0 <= m <= olds.len(),
        forall|i: int| 0 <= i < olds.len() && i != k ==> (#[trigger] endpoint_param_breaks(olds[i], new)).len() == 0,
    ensures
        param_breaks(olds.subrange(0, m), new) == if m > k {
            endpoint_param_breaks(olds[k], new)
        } else {
            Seq::empty()
        },
    decreases m,
{
    if m > 0 {
        lemma_param_breaks_only(olds, new, k, m - 1);
        assert(olds.subrange(0, m).drop_last() =~= olds.subrange(0, m - 1));
        assert(olds.subrange(0, m).last() == olds[m - 1]);
        if m - 1 != k {
            assert(endpoint_param_breaks(olds[m - 1], new) =~= Seq::empty());
        }
        assert(param_breaks(olds.subrange(0, m), new) =~= if m > k {
            endpoint_param_breaks(olds[k], new)
        } else {
            Seq::empty()
        });
    }
}

/// Two documents that differ only in endpoint `k`, whose new version adds
/// one parameter `p` anywhere in its list: the diff's breaking changes are
/// exactly one `ParameterAdded` for `p` when `p` is required, and none when
/// it is optional.
pub proof fn lemma_diff_added_parameter(old: &ParsedSpec, new: &ParsedSpec, k: int, pos: int, p: Parameter)
    requires
        old.wf(),
        new.wf(),
        0 <= k < old.endpoints@.len(),
        new.schemas@ == old.schemas@,
        new.endpoints@.len() == old.endpoints@.len(),
        forall|i: int| 0 <= i < old.endpoints@.len() && i != k ==> new.endpoints@[i] == old.endpoints@[i],
        new.endpoints@[k].key_spec() == old.endpoints@[k].key_spec(),
        new.endpoints@[k].hash@ != old.endpoints@[k].hash@,
        0 <= pos <= old.endpoints@[k].parameters@.len(),
        new.endpoints@[k].parameters@ == old.endpoints@[k].parameters@.insert(pos, p),
        !param_names(old.endpoints@[k].parameters@).contains(p.name@),
    ensures
        p.required ==> breaking_spec(old, new) == seq![param_added_break(p.name@, new.endpoints@[k])],
        !p.required ==> breaking_spec(old, new).len() == 0,
{
    let olds = old.endpoints@;
    let news = new.endpoints@;
    lemma_added_parameter(olds[k], news[k], p, pos, news, k);
    assert forall|i: int| 0 <= i < olds.len() implies has_endpoint(news, (#[trigger] olds[i]).key_spec()) && (i
        != k ==> endpoint_param_breaks(olds[i], news).len() == 0) by {
        lemma_endpoint_self(news, i);
    }
    assert forall|i: int| 0 <= i < old.schemas@.len() implies has_schema(new.schemas@, (#[trigger] old.schemas@[i]).name@) by {
        lemma_schema_self(old.schemas@, i);
    }
    lemma_filter_none(old.schemas@, |x: Schema| !has_schema(new.schemas@, x.name@));
    lemma_filter_none(olds, |e: Endpoint| !has_endpoint(news, e.key_spec()));
    assert forall|i: int| 0 <= i < olds.len() && i != k implies (#[trigger] endpoint_param_breaks(olds[i], news)).len()
        == 0 by {
        lemma_endpoint_self(news, i);
    }
    lemma_param_breaks_only(olds, news, k, olds.len() as int);
    assert(olds.subrange(0, olds.len() as int) =~= olds);
    if p.required {
        assert(breaking_spec(old, new) =~= seq![param_added_break(p.name@, news[k])]);
    } else {
        assert(breaking_spec(old, new) =~= Seq::empty());
    }
}

/// Counts of a diff.
#[derive(Debug)]
pub struct DiffSummary {
    pub added_endpoints: usize,
    pub modified_endpoints: usize,
    pub removed_endpoints: usize,
    pub added_schemas: usize,
    pub modified_schemas: usize,
    pub removed_schemas: usize,
    pub breaking_changes: usize,
    pub has_breaking_changes: bool,
}

impl DiffSummary {
    /// The counts of `d`.
    pub fn of(d: &SpecDiff) -> (r: DiffSummary)
        ensures
            r.added_endpoints == d.added_endpoints@.len(),
            r.modified_endpoints == d.modified_endpoints@.len(),
            r.removed_endpoints == d.removed_endpoints@.len(),
            r.added_schemas == d.added_schemas@.len(),
            r.modified_schemas == d.modified_schemas@.len(),
            r.removed_schemas == d.removed_schemas@.len(),
            r.breaking_changes == d.breaking_changes@.len(),
            r.has_breaking_changes == (d.breaking_changes@.len() > 0),
    {
        DiffSummary {
            added_endpoints: d.added_endpoints.len(),
            modified_endpoints: d.modified_endpoints.len(),
            removed_endpoints: d.removed_endpoints.len(),
            added_schemas: d.added_schemas.len(),
            modified_schemas: d.modified_schemas.len(),
            removed_schemas: d.removed_schemas.len(),
            breaking_changes: d.breaking_changes.len(),
            has_breaking_changes: d.breaking_changes.len() > 0,
        }
    }
}

impl SpecDiff {
    /// The breaking-only view: removals and breaking changes kept;
    /// additions, modifications and unchanged counts dropped.
    pub fn breaking_only(self) -> (r: SpecDiff)
        ensures
            r.removed_endpoints == self.removed_endpoints,
            r.removed_schemas == self.removed_schemas,
            r.breaking_changes == self.breaking_changes,
            r.added_endpoints@.len() == 0,
            r.modified_endpoints@.len() == 0,
            r.added_schemas@.len() == 0,
            r.modified_schemas@.len() == 0,
            r.unchanged_endpoints == 0,
            r.unchanged_schemas == 0,
    {
        SpecDiff {
            added_endpoints: Vec::new(),
            modified_endpoints: Vec::new(),
            removed_endpoints: self.removed_endpoints,
            unchanged_endpoints: 0,
            added_schemas: Vec::new(),
            modified_schemas: Vec::new(),
            removed_schemas: self.removed_schemas,
            unchanged_schemas: 0,
            breaking_changes: self.breaking_changes,
        }
    }
}

} // verus!
