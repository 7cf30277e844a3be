use oas::diff::{BreakingChangeCategory, DiffEngine, DiffSummary};
use oas::graph::GraphBuilder;
use oas::model::{
    Endpoint, HttpMethod, OpenApiVersion, Parameter, ParameterLocation, ParsedSpec, Schema, SchemaType,
    SpecMetadata,
};

fn schema(name: &str, refs: &[&str], hash: &str) -> Schema {
    Schema {
        name: name.to_string(),
        schema_type: SchemaType::Unknown,
        description: None,
        refs: refs.iter().map(|r| r.to_string()).collect(),
        hash: hash.to_string(),
    }
}

fn param(name: &str, required: bool) -> Parameter {
    Parameter {
        name: name.to_string(),
        location: ParameterLocation::Query,
        required,
        description: None,
        schema_ref: None,
        schema_type: Some("string".to_string()),
    }
}

fn endpoint(path: &str, refs: &[&str], params: Vec<Parameter>, hash: &str) -> Endpoint {
    Endpoint {
        path: path.to_string(),
        method: HttpMethod::Get,
        operation_id: None,
        summary: None,
        description: None,
        tags: vec![],
        parameters: params,
        request_body: None,
        responses: vec![],
        deprecated: false,
        hash: hash.to_string(),
        schema_refs: refs.iter().map(|r| r.to_string()).collect(),
    }
}

fn spec(endpoints: Vec<Endpoint>, schemas: Vec<Schema>) -> ParsedSpec {
    ParsedSpec {
        metadata: SpecMetadata {
            title: "T".to_string(),
            version: "1".to_string(),
            description: None,
            openapi_version: OpenApiVersion::OpenApi30,
            endpoint_count: endpoints.len(),
            schema_count: schemas.len(),
            tag_count: 0,
        },
        endpoints,
        schemas,
        tags: vec![],
        spec_hash: "h".to_string(),
        source: "s".to_string(),
    }
}

fn base() -> ParsedSpec {
    spec(
        vec![endpoint("/pets", &["Pet"], vec![], "e1"), endpoint("/users", &["User"], vec![], "e2")],
        vec![schema("Pet", &[], "pa"), schema("User", &[], "u1")],
    )
}

#[test]
fn test_breaking_change_detection() {
    let old = base();
    let new = spec(vec![endpoint("/users", &["User"], vec![], "e2")], vec![schema("User", &[], "u1")]);
    let d = DiffEngine::diff(&old, &new, None);
    assert_eq!(d.breaking_changes.len(), 2);
    assert!(matches!(d.breaking_changes[0].category, BreakingChangeCategory::SchemaRemoved));
    assert!(matches!(d.breaking_changes[1].category, BreakingChangeCategory::EndpointRemoved));
}

#[test]
fn self_diff_is_empty() {
    let s = base();
    let d = DiffEngine::diff(&s, &s, Some(&GraphBuilder::build(&s)));
    assert!(d.added_endpoints.is_empty() && d.modified_endpoints.is_empty() && d.removed_endpoints.is_empty());
    assert!(d.added_schemas.is_empty() && d.modified_schemas.is_empty() && d.removed_schemas.is_empty());
    assert!(d.breaking_changes.is_empty());
    assert_eq!(d.unchanged_endpoints, 2);
    assert_eq!(d.unchanged_schemas, 2);
}

#[test]
fn removed_endpoint_gives_one_breaking_change() {
    let old = base();
    let new = spec(vec![endpoint("/users", &["User"], vec![], "e2")], old_schemas());
    let d = DiffEngine::diff(&old, &new, None);
    assert_eq!(d.removed_endpoints.len(), 1);
    assert_eq!(d.removed_endpoints[0].key, "get:/pets");
    assert_eq!(d.removed_endpoints[0].changes, vec!["Endpoint removed".to_string()]);
    assert_eq!(d.breaking_changes.len(), 1);
    assert!(matches!(d.breaking_changes[0].category, BreakingChangeCategory::EndpointRemoved));
    assert_eq!(d.breaking_changes[0].location, "/pets");
    assert_eq!(d.breaking_changes[0].message, "Endpoint 'get:/pets' was removed");
}

fn old_schemas() -> Vec<Schema> {
    vec![schema("Pet", &[], "pa"), schema("User", &[], "u1")]
}

#[test]
fn removed_schema_gives_one_breaking_change() {
    let old = base();
    let new = spec(
        vec![endpoint("/pets", &["Pet"], vec![], "e1"), endpoint("/users", &["User"], vec![], "e2")],
        vec![schema("User", &[], "u1")],
    );
    let d = DiffEngine::diff(&old, &new, None);
    assert_eq!(d.removed_schemas.len(), 1);
    assert_eq!(d.removed_schemas[0].name, "Pet");
    assert_eq!(d.breaking_changes.len(), 1);
    assert!(matches!(d.breaking_changes[0].category, BreakingChangeCategory::SchemaRemoved));
    assert_eq!(d.breaking_changes[0].location, "#/components/schemas/Pet");
    assert_eq!(d.breaking_changes[0].message, "Schema 'Pet' was removed");
}

#[test]
fn added_required_parameter_is_breaking() {
    let old = base();
    let new = spec(
        vec![endpoint("/pets", &["Pet"], vec![param("limit", true)], "e1x"), endpoint("/users", &["User"], vec![], "e2")],
        old_schemas(),
    );
    let d = DiffEngine::diff(&old, &new, None);
    assert_eq!(d.breaking_changes.len(), 1);
    assert!(matches!(d.breaking_changes[0].category, BreakingChangeCategory::ParameterAdded));
    assert_eq!(d.breaking_changes[0].location, "/pets");
    assert_eq!(d.modified_endpoints.len(), 1);
    assert_eq!(d.modified_endpoints[0].changes, vec!["Added required parameter: limit".to_string()]);
}

#[test]
fn added_optional_parameter_is_a_note_only() {
    let old = base();
    let new = spec(
        vec![endpoint("/pets", &["Pet"], vec![param("limit", false)], "e1x"), endpoint("/users", &["User"], vec![], "e2")],
        old_schemas(),
    );
    let d = DiffEngine::diff(&old, &new, None);
    assert!(d.breaking_changes.is_empty());
    assert_eq!(d.modified_endpoints[0].changes, vec!["Added parameter: limit".to_string()]);
}

#[test]
fn modified_schema_marks_referencing_endpoints() {
    let old = spec(
        vec![endpoint("/orders", &["Order"], vec![], "o1")],
        vec![schema("Order", &["Customer"], "s1"), schema("Customer", &[], "c1")],
    );
    let new = spec(
        vec![endpoint("/orders", &["Order"], vec![], "o1")],
        vec![schema("Order", &["Customer"], "s1"), schema("Customer", &[], "c2")],
    );
    let g = GraphBuilder::build(&new);
    let d = DiffEngine::diff(&old, &new, Some(&g));
    assert_eq!(d.modified_schemas.len(), 1);
    assert_eq!(d.modified_schemas[0].name, "Customer");
    assert_eq!(d.modified_schemas[0].changes, vec!["Schema definition changed".to_string()]);
    assert_eq!(d.modified_schemas[0].affected_endpoints, vec!["get:/orders".to_string()]);
    assert_eq!(d.unchanged_schemas, 1);
    assert!(d.modified_endpoints.is_empty());
    assert_eq!(d.unchanged_endpoints, 1);

    let new2 = spec(
        vec![endpoint("/orders", &["Order", "Customer"], vec![], "o1")],
        vec![schema("Order", &[], "s2"), schema("Customer", &[], "c2")],
    );
    let d2 = DiffEngine::diff(&old, &new2, None);
    assert_eq!(d2.modified_endpoints.len(), 1);
    assert_eq!(
        d2.modified_endpoints[0].affected_by_schemas,
        vec!["Order".to_string(), "Customer".to_string()]
    );
    assert_eq!(
        d2.modified_endpoints[0].changes,
        vec!["Affected by schema change: Order".to_string(), "Affected by schema change: Customer".to_string()]
    );
    let order = d2.modified_schemas.iter().find(|c| c.name == "Order").unwrap();
    assert_eq!(order.changes, vec!["Removed reference to Customer".to_string()]);
}

#[test]
fn changed_digest_without_specific_delta_gives_generic_note() {
    let old = base();
    let new = spec(
        vec![endpoint("/pets", &["Pet"], vec![], "e1-changed"), endpoint("/users", &["User"], vec![], "e2")],
        old_schemas(),
    );
    let d = DiffEngine::diff(&old, &new, None);
    assert_eq!(d.modified_endpoints[0].changes, vec!["Endpoint definition changed".to_string()]);
    assert_eq!(d.added_endpoints.len(), 0);
}

#[test]
fn breaking_only_view_and_summary() {
    let old = base();
    let new = spec(
        vec![endpoint("/users", &["User"], vec![], "e2x"), endpoint("/new", &[], vec![], "n")],
        vec![schema("User", &[], "u1"), schema("Tag", &[], "t")],
    );
    let d = DiffEngine::diff(&old, &new, None);
    let s = DiffSummary::of(&d);
    assert_eq!((s.added_endpoints, s.modified_endpoints, s.removed_endpoints), (1, 1, 1));
    assert_eq!((s.added_schemas, s.modified_schemas, s.removed_schemas), (1, 0, 1));
    assert_eq!(s.breaking_changes, 2);
    assert!(s.has_breaking_changes);
    let b = d.breaking_only();
    assert!(b.added_endpoints.is_empty() && b.modified_endpoints.is_empty() && b.added_schemas.is_empty());
    assert_eq!(b.removed_endpoints.len(), 1);
    assert_eq!(b.removed_schemas.len(), 1);
    assert_eq!(b.breaking_changes.len(), 2);
    assert_eq!(b.unchanged_endpoints, 0);
}

#[test]
fn required_parameter_inserted_first_is_breaking() {
    let old = spec(vec![endpoint("/pets", &[], vec![param("page", false)], "e1")], vec![]);
    let new = spec(vec![endpoint("/pets", &[], vec![param("limit", true), param("page", false)], "e1x")], vec![]);
    let d = DiffEngine::diff(&old, &new, None);
    assert_eq!(d.breaking_changes.len(), 1);
    assert!(matches!(d.breaking_changes[0].category, BreakingChangeCategory::ParameterAdded));
    assert_eq!(d.breaking_changes[0].message, "Required parameter 'limit' was added to 'get:/pets'");
    let opt = spec(vec![endpoint("/pets", &[], vec![param("limit", false), param("page", false)], "e1x")], vec![]);
    let d = DiffEngine::diff(&old, &opt, None);
    assert!(d.breaking_changes.is_empty());
    assert_eq!(d.modified_endpoints[0].changes, vec!["Added parameter: limit".to_string()]);
}
