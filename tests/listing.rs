use oas::listing::{eq_ignore_ascii_case, select_endpoints, Page};
use oas::parser::has_parent_segment;
use oas::model::{Endpoint, HttpMethod, OpenApiVersion, ParsedSpec, SpecMetadata};

fn endpoint(path: &str, tags: &[&str]) -> Endpoint {
    Endpoint {
        path: path.to_string(),
        method: HttpMethod::Get,
        operation_id: None,
        summary: None,
        description: None,
        tags: tags.iter().map(|t| t.to_string()).collect(),
        parameters: vec![],
        request_body: None,
        responses: vec![],
        deprecated: false,
        hash: String::new(),
        schema_refs: vec![],
    }
}

fn spec() -> ParsedSpec {
    ParsedSpec {
        metadata: SpecMetadata {
            title: "T".to_string(),
            version: "1".to_string(),
            description: None,
            openapi_version: OpenApiVersion::OpenApi30,
            endpoint_count: 3,
            schema_count: 0,
            tag_count: 2,
        },
        endpoints: vec![endpoint("/pets", &["Pets"]), endpoint("/pets/{id}", &["pets"]), endpoint("/users", &["users"])],
        schemas: vec![],
        tags: vec![],
        spec_hash: String::new(),
        source: String::new(),
    }
}

#[test]
fn selects_by_tag_ignoring_case_and_by_prefix() {
    let s = spec();
    assert_eq!(select_endpoints(&s, Some("PETS"), None), vec![0, 1]);
    assert_eq!(select_endpoints(&s, None, Some("/users")), vec![2]);
    assert_eq!(select_endpoints(&s, Some("pets"), Some("/pets/")), vec![1]);
    assert_eq!(select_endpoints(&s, None, None), vec![0, 1, 2]);
    assert!(select_endpoints(&s, Some("none"), None).is_empty());
    assert!(eq_ignore_ascii_case("GeT", "gEt"));
    assert!(!eq_ignore_ascii_case("get", "gets"));
}

#[test]
fn pages() {
    let p = Page::of(10, 4, 3);
    assert_eq!((p.start, p.end, p.has_more), (4, 7, true));
    let p = Page::of(10, 8, 5);
    assert_eq!((p.start, p.end, p.has_more), (8, 10, false));
    let p = Page::of(3, 9, 5);
    assert_eq!((p.start, p.end, p.has_more), (3, 3, false));
}

#[test]
fn effective_operation_id_from_path() {
    let e = endpoint("/users/{id}/posts", &[]);
    assert_eq!(e.effective_operation_id(), "get_users_posts");
    let mut named = endpoint("/x", &[]);
    named.operation_id = Some("listX".to_string());
    assert_eq!(named.effective_operation_id(), "listX");
}

#[test]
fn parent_segments_are_detected() {
    assert!(has_parent_segment("../spec.yaml"));
    assert!(has_parent_segment("specs/../../etc/passwd"));
    assert!(has_parent_segment("specs/.."));
    assert!(has_parent_segment("a\\..\\b"));
    assert!(!has_parent_segment("specs/v1..2/api.yaml"));
    assert!(!has_parent_segment("./api.yaml"));
    assert!(!has_parent_segment(""));
}
