use oas::graph::{DependencyDirection, DependencyGraph, GraphBuilder};
use oas::model::{
    Endpoint, HttpMethod, OpenApiVersion, ParsedSpec, Schema, SchemaType, SpecMetadata,
};

fn schema(name: &str, refs: &[&str], hash: &str) -> Schema {
    Schema {
        name: name.to_string(),
        schema_type: SchemaType::Object { properties: vec![], required: vec![] },
        description: None,
        refs: refs.iter().map(|r| r.to_string()).collect(),
        hash: hash.to_string(),
    }
}

fn endpoint(path: &str, op_id: &str, tag: &str, refs: &[&str], hash: &str) -> Endpoint {
    Endpoint {
        path: path.to_string(),
        method: HttpMethod::Get,
        operation_id: Some(op_id.to_string()),
        summary: None,
        description: None,
        tags: vec![tag.to_string()],
        parameters: vec![],
        request_body: None,
        responses: vec![],
        deprecated: false,
        hash: hash.to_string(),
        schema_refs: refs.iter().map(|r| r.to_string()).collect(),
    }
}

fn create_test_spec() -> ParsedSpec {
    ParsedSpec {
        metadata: SpecMetadata {
            title: "Test API".to_string(),
            version: "1.0.0".to_string(),
            description: None,
            openapi_version: OpenApiVersion::OpenApi30,
            endpoint_count: 3,
            schema_count: 3,
            tag_count: 3,
        },
        endpoints: vec![
            endpoint("/users", "getUsers", "users", &["User"], "ep1"),
            endpoint("/posts", "getPosts", "posts", &["Post"], "ep2"),
            endpoint("/comments", "getComments", "comments", &["Comment"], "ep3"),
        ],
        schemas: vec![
            schema("User", &[], "abc123"),
            schema("Post", &["User"], "def456"),
            schema("Comment", &["User", "Post"], "ghi789"),
        ],
        tags: vec!["users".to_string(), "posts".to_string(), "comments".to_string()],
        spec_hash: "spec123".to_string(),
        source: "test.yaml".to_string(),
    }
}

fn has(v: &[String], x: &str) -> bool {
    v.iter().any(|s| s == x)
}

#[test]
fn test_graph_building() {
    let spec = create_test_spec();
    let graph = GraphBuilder::build(&spec);
    let affected = graph.get_affected_paths("User");
    assert!(has(&affected, "get:/users"));
    assert!(has(&affected, "get:/posts"));
    assert!(has(&affected, "get:/comments"));
}

#[test]
fn test_schema_dependents() {
    let spec = create_test_spec();
    let graph = GraphBuilder::build(&spec);
    let dependents = graph.get_schema_dependents("User");
    assert!(has(&dependents, "Post"));
    assert!(has(&dependents, "Comment"));
}

#[test]
fn test_affected_paths() {
    let mut graph = DependencyGraph::new();
    graph.add_path_schema_dep("GET:/users", "User");
    graph.add_path_schema_dep("GET:/users/{id}", "User");
    graph.add_path_schema_dep("GET:/posts/{id}", "Post");
    graph.add_schema_schema_dep("Post", "User");
    let affected = graph.get_affected_paths("User");
    assert!(has(&affected, "GET:/users"));
    assert!(has(&affected, "GET:/users/{id}"));
    assert!(has(&affected, "GET:/posts/{id}"));
}

#[test]
fn transitive_impact_reaches_endpoint() {
    let mut graph = DependencyGraph::new();
    graph.add_schema_schema_dep("B", "A");
    graph.add_path_schema_dep("get:/e", "B");
    assert_eq!(graph.get_affected_paths("A"), vec!["get:/e".to_string()]);
    assert!(graph.get_affected_paths("B").contains(&"get:/e".to_string()));
    assert!(graph.get_affected_paths("Unknown").is_empty());
}

#[test]
fn cyclic_references_terminate_without_repeats() {
    let mut graph = DependencyGraph::new();
    graph.add_schema_schema_dep("A", "B");
    graph.add_schema_schema_dep("B", "C");
    graph.add_schema_schema_dep("C", "A");
    graph.add_path_schema_dep("get:/a", "A");
    graph.add_path_schema_dep("get:/c", "C");
    let mut deps = graph.get_schema_dependents("A");
    deps.sort();
    assert_eq!(deps, vec!["A".to_string(), "B".to_string(), "C".to_string()]);
    let mut paths = graph.get_affected_paths("B");
    paths.sort();
    assert_eq!(paths, vec!["get:/a".to_string(), "get:/c".to_string()]);
    let mut used = graph.get_path_schemas("get:/a");
    used.sort();
    assert_eq!(used, vec!["A".to_string(), "B".to_string(), "C".to_string()]);
}

#[test]
fn duplicate_edges_are_stored_once() {
    let mut graph = DependencyGraph::new();
    graph.add_path_schema_dep("get:/a", "A");
    graph.add_path_schema_dep("get:/a", "A");
    graph.add_path_schema_dep("get:/b", "A");
    graph.add_schema_schema_dep("A", "B");
    graph.add_schema_schema_dep("A", "B");
    let stats = graph.stats();
    assert_eq!(stats.total_schemas, 1);
    assert_eq!(stats.total_paths, 2);
    assert_eq!(stats.schema_to_path_edges, 2);
    assert_eq!(stats.schema_to_schema_edges, 1);
}

#[test]
fn upstream_query_is_one_step() {
    let mut graph = DependencyGraph::new();
    graph.add_schema_schema_dep("A", "B");
    graph.add_schema_schema_dep("B", "C");
    graph.add_path_schema_dep("get:/x", "B");
    let up = graph.query("A", DependencyDirection::Upstream, true);
    assert_eq!(up.affected_schemas, vec!["B".to_string()]);
    assert!(up.affected_paths.is_empty());
    let down = graph.query("C", DependencyDirection::Downstream, true);
    let mut s = down.affected_schemas.clone();
    s.sort();
    assert_eq!(s, vec!["A".to_string(), "B".to_string()]);
    assert_eq!(down.affected_paths, vec!["get:/x".to_string()]);
    let both = graph.query("B", DependencyDirection::Both, true);
    let mut s = both.affected_schemas.clone();
    s.sort();
    assert_eq!(s, vec!["A".to_string(), "C".to_string()]);
    let by_path = graph.query("get:/x", DependencyDirection::Downstream, false);
    let mut s = by_path.affected_schemas.clone();
    s.sort();
    assert_eq!(s, vec!["B".to_string(), "C".to_string()]);
    assert!(graph.query("nothing", DependencyDirection::Both, true).affected_schemas.is_empty());
}
