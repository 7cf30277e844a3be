use oas::error::OasError;
use oas::graph::GraphBuilder;
use oas::json::{compute_hash, Json};
use oas::model::{HttpMethod, OpenApiVersion, SchemaType};
use oas::parser::OpenApiParser;

const PETS_YAML: &str = r#"swagger: "2.0"
info:
  title: Pets
  version: "1.0"
paths:
  /pets:
    get:
      responses:
        "200":
          description: ok
definitions:
  Pet:
    type: object
    properties:
      id:
        type: integer
"#;

const ORDERS_JSON: &str = r##"{
  "openapi": "3.1.0",
  "info": {"title": "Shop", "version": "2.0"},
  "paths": {
    "/orders": {
      "get": {
        "operationId": "listOrders",
        "tags": ["orders"],
        "parameters": [{"name": "limit", "in": "query", "schema": {"type": "integer"}}],
        "responses": {
          "200": {
            "description": "ok",
            "content": {"application/json": {"schema": {"$ref": "#/components/schemas/Order"}}}
          }
        }
      }
    }
  },
  "components": {
    "schemas": {
      "Order": {
        "type": "object",
        "properties": {"customer": {"$ref": "#/components/schemas/Customer"}, "id": {"type": "integer"}}
      },
      "Customer": {"type": "object", "properties": {"name": {"type": "string"}}}
    }
  }
}"##;

fn obj(members: Vec<(&str, Json)>) -> Json {
    Json::Object(members.into_iter().map(|(k, v)| (k.to_string(), v)).collect())
}

#[test]
fn test_extract_refs() {
    let json = obj(vec![
        ("schema", obj(vec![("$ref", Json::Str("#/components/schemas/User".to_string()))])),
        ("items", obj(vec![("$ref", Json::Str("#/components/schemas/Post".to_string()))])),
    ]);
    let refs = OpenApiParser::extract_refs(&json);
    assert!(refs.contains(&"User".to_string()));
    assert!(refs.contains(&"Post".to_string()));
}

#[test]
fn test_hash_consistency() {
    let hash1 = compute_hash("hello world");
    let hash2 = compute_hash("hello world");
    assert_eq!(hash1, hash2);
}

#[test]
fn test_hash_difference() {
    let hash1 = compute_hash("hello");
    let hash2 = compute_hash("world");
    assert_ne!(hash1, hash2);
}

#[test]
fn hash_is_sixteen_hex_digits_of_sha256() {
    assert_eq!(compute_hash("hello world"), "b94d27b9934d3e08");
}

#[test]
fn swagger_pets_document() {
    let spec = OpenApiParser::parse_content(PETS_YAML, "pets.yaml").unwrap();
    assert_eq!(spec.metadata.openapi_version, OpenApiVersion::Swagger2);
    assert_eq!(spec.metadata.endpoint_count, 1);
    assert_eq!(spec.metadata.schema_count, 1);
    assert_eq!(spec.metadata.title, "Pets");
    assert_eq!(spec.source, "pets.yaml");
    let pet = &spec.schemas[0];
    assert_eq!(pet.name, "Pet");
    assert!(pet.refs.is_empty());
    match &pet.schema_type {
        SchemaType::Object { properties, .. } => {
            assert_eq!(properties.len(), 1);
            assert_eq!(properties[0].0, "id");
            assert!(matches!(properties[0].1, SchemaType::Integer { .. }));
        }
        _ => panic!("Pet should be an object"),
    }
    assert_eq!(spec.endpoints[0].key(), "get:/pets");
    assert!(spec.endpoints[0].parameters.is_empty());
}

#[test]
fn openapi31_refs_are_direct_only() {
    let spec = OpenApiParser::parse_content(ORDERS_JSON, "shop.json").unwrap();
    assert_eq!(spec.metadata.openapi_version, OpenApiVersion::OpenApi31);
    let order = spec.schemas.iter().find(|s| s.name == "Order").unwrap();
    assert_eq!(order.refs, vec!["Customer".to_string()]);
    let ep = &spec.endpoints[0];
    assert_eq!(ep.method, HttpMethod::Get);
    assert!(ep.schema_refs.contains(&"Order".to_string()));
    assert!(!ep.schema_refs.contains(&"Customer".to_string()));
    assert_eq!(ep.responses.len(), 1);
    assert_eq!(ep.responses[0].schema_ref, Some("Order".to_string()));
    assert_eq!(ep.parameters.len(), 1);
    assert!(!ep.parameters[0].required);
    assert_eq!(spec.tags, vec!["orders".to_string()]);
    let graph = GraphBuilder::build(&spec);
    assert!(graph.get_affected_paths("Customer").contains(&"get:/orders".to_string()));
}

#[test]
fn parsing_twice_gives_equal_digests() {
    let a = OpenApiParser::parse_content(ORDERS_JSON, "a").unwrap();
    let b = OpenApiParser::parse_content(ORDERS_JSON, "a").unwrap();
    assert_eq!(a.spec_hash, b.spec_hash);
    for (x, y) in a.schemas.iter().zip(b.schemas.iter()) {
        assert_eq!(x.name, y.name);
        assert_eq!(x.hash, y.hash);
    }
    assert_eq!(a.endpoints[0].hash, b.endpoints[0].hash);
    assert_eq!(a.spec_hash.len(), 16);
}

#[test]
fn key_order_is_not_normalized_beyond_the_json_reader() {
    let one = r#"{"openapi": "3.0.0", "info": {"title": "A", "version": "1"}, "paths": {}}"#;
    let two = r#"{"paths": {}, "info": {"version": "1", "title": "A"}, "openapi": "3.0.0"}"#;
    let a = OpenApiParser::parse_content(one, "x").unwrap();
    let b = OpenApiParser::parse_content(two, "x").unwrap();
    // The JSON reader keeps object members sorted by key, so these agree.
    assert_eq!(a.spec_hash, b.spec_hash);
    let three = r#"{"openapi": "3.0.0", "info": {"title": "A", "version": "1"}, "paths": {}, "x-extra": 1}"#;
    let c = OpenApiParser::parse_content(three, "x").unwrap();
    assert_ne!(a.spec_hash, c.spec_hash);
}

#[test]
fn version_errors() {
    let unsupported = OpenApiParser::parse_content(r#"{"openapi": "4.0", "info": {}}"#, "x");
    match unsupported {
        Err(OasError::UnsupportedVersion(v)) => assert_eq!(v, "4.0"),
        _ => panic!("expected an unsupported version"),
    }
    assert!(matches!(OpenApiParser::parse_content("{\"info\": {}}", "x"), Err(OasError::InvalidOpenApi(_))));
    assert!(matches!(
        OpenApiParser::parse_content("{\"openapi\": \"3.0.1\"}", "x"),
        Err(OasError::InvalidOpenApi(_))
    ));
    assert!(matches!(OpenApiParser::parse_content("  { not json", "x"), Err(OasError::InvalidJson(_))));
    assert!(matches!(OpenApiParser::parse_content("a: [unclosed", "x"), Err(OasError::InvalidYaml(_))));
}

#[test]
fn defaults_for_missing_info_fields() {
    let spec = OpenApiParser::parse_content("openapi: 3.0.3\ninfo: {}\n", "x").unwrap();
    assert_eq!(spec.metadata.title, "Unknown API");
    assert_eq!(spec.metadata.version, "0.0.0");
    assert_eq!(spec.metadata.openapi_version, OpenApiVersion::OpenApi30);
    assert_eq!(spec.metadata.endpoint_count, 0);
}

#[test]
fn http_methods_ignore_case() {
    assert_eq!(OpenApiParser::parse_http_method("GET"), Some(HttpMethod::Get));
    assert_eq!(OpenApiParser::parse_http_method("Delete"), Some(HttpMethod::Delete));
    assert_eq!(OpenApiParser::parse_http_method("parameters"), None);
}

#[test]
fn swagger_body_parameter_becomes_request_body() {
    let doc = r##"{"swagger": "2.0", "info": {"title": "T", "version": "1"},
      "paths": {"/pets/{id}": {"put": {"parameters": [
          {"name": "id", "in": "path", "type": "string"},
          {"name": "body", "in": "body", "required": true, "schema": {"$ref": "#/definitions/Pet"}}
      ], "responses": {"204": {"description": "done"}}}}},
      "definitions": {"Pet": {"type": "object", "properties": {"tag": {"$ref": "#/definitions/Tag"}}}, "Tag": {"type": "string"}}}"##;
    let spec = OpenApiParser::parse_content(doc, "x").unwrap();
    let ep = &spec.endpoints[0];
    assert_eq!(ep.key(), "put:/pets/{id}");
    assert_eq!(ep.parameters.len(), 1);
    assert!(ep.parameters[0].required);
    let body = ep.request_body.as_ref().unwrap();
    assert!(body.required);
    assert_eq!(body.schema_ref, Some("Pet".to_string()));
    assert_eq!(body.content_types, vec!["application/json".to_string()]);
    assert_eq!(ep.schema_refs, vec!["Pet".to_string()]);
    let pet = spec.schemas.iter().find(|s| s.name == "Pet").unwrap();
    assert_eq!(pet.refs, vec!["Tag".to_string()]);
}

#[test]
fn unresolvable_references_are_errors() {
    let external = r#"{"openapi": "3.0.0", "info": {}, "paths": {"/a": {"get": {"responses": {"200": {
        "description": "ok", "content": {"application/json": {"schema": {"$ref": "other.yaml#/components/schemas/A"}}}}}}}}}"#;
    match OpenApiParser::parse_content(external, "x") {
        Err(OasError::UnresolvedRef(r)) => assert_eq!(r, "other.yaml#/components/schemas/A"),
        _ => panic!("expected an unresolved reference"),
    }
    let missing = r##"{"openapi": "3.0.0", "info": {}, "components": {"schemas": {"A": {"$ref": "#/components/schemas/B"}}}}"##;
    assert!(matches!(OpenApiParser::parse_content(missing, "x"), Err(OasError::UnresolvedRef(_))));
    let other_local = r##"{"openapi": "3.0.0", "info": {}, "paths": {"/a": {"get": {"responses": {
        "404": {"$ref": "#/components/responses/NotFound"}}}}}}"##;
    let spec = OpenApiParser::parse_content(other_local, "x").unwrap();
    assert_eq!(spec.endpoints[0].schema_refs, vec!["#/components/responses/NotFound".to_string()]);
    let described = r##"{"openapi": "3.0.0", "info": {"description": "see $ref other.yaml"}, "paths": {}}"##;
    assert!(OpenApiParser::parse_content(described, "x").is_ok());
}

#[test]
fn swagger_field_of_another_version_is_unsupported() {
    match OpenApiParser::parse_content(r#"{"swagger": "1.2", "info": {}}"#, "x") {
        Err(OasError::UnsupportedVersion(v)) => assert_eq!(v, "1.2"),
        _ => panic!("expected an unsupported version"),
    }
}

#[test]
fn extracted_refs_are_sorted() {
    let json = obj(vec![
        ("a", obj(vec![("$ref", Json::Str("#/components/schemas/Zebra".to_string()))])),
        ("b", Json::Array(vec![
            obj(vec![("$ref", Json::Str("#/definitions/Apple".to_string()))]),
            obj(vec![("$ref", Json::Str("#/components/schemas/Zebra".to_string()))]),
        ])),
    ]);
    assert_eq!(OpenApiParser::extract_refs(&json), vec!["Apple".to_string(), "Zebra".to_string()]);
}

#[test]
fn schema_shapes_are_read_in_full() {
    let doc = r##"{"openapi": "3.0.0", "info": {}, "components": {"schemas": {
        "Pet": {"type": "object", "required": ["id"], "properties": {
            "id": {"type": "integer", "format": "int64"},
            "tags": {"type": "array", "items": {"type": "string", "enum": ["a", "b"]}},
            "owner": {"oneOf": [{"$ref": "#/components/schemas/Owner"}, {"type": "boolean"}]}}},
        "Owner": {"type": "string"}}}}"##;
    let spec = OpenApiParser::parse_content(doc, "x").unwrap();
    let pet = spec.schemas.iter().find(|s| s.name == "Pet").unwrap();
    match &pet.schema_type {
        SchemaType::Object { properties, required } => {
            assert_eq!(required, &vec!["id".to_string()]);
            let names: Vec<&str> = properties.iter().map(|p| p.0.as_str()).collect();
            assert_eq!(names, vec!["id", "owner", "tags"]);
            assert!(matches!(&properties[0].1, SchemaType::Integer { format: Some(f) } if f == "int64"));
            match &properties[1].1 {
                SchemaType::OneOf { variants } => {
                    assert!(matches!(&variants[0], SchemaType::Ref { reference } if reference == "Owner"));
                    assert!(matches!(variants[1], SchemaType::Boolean));
                }
                _ => panic!("owner should be one-of"),
            }
            match &properties[2].1 {
                SchemaType::Array { items } => match items.as_ref() {
                    SchemaType::String { enum_values: Some(v), .. } => assert_eq!(v, &vec!["a".to_string(), "b".to_string()]),
                    _ => panic!("items should be an enum string"),
                },
                _ => panic!("tags should be an array"),
            }
        }
        _ => panic!("Pet should be an object"),
    }
    assert_eq!(pet.refs, vec!["Owner".to_string()]);
}

#[test]
fn last_operation_of_a_key_wins() {
    let doc = r#"{"openapi": "3.0.0", "info": {}, "paths": {"/a": {
        "GET": {"operationId": "upper", "responses": {}},
        "get": {"operationId": "lower", "responses": {}}}}}"#;
    let spec = OpenApiParser::parse_content(doc, "x").unwrap();
    assert_eq!(spec.endpoints.len(), 1);
    assert_eq!(spec.endpoints[0].operation_id, Some("lower".to_string()));
}
