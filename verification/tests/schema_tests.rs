use revql::schema::{
    get_schema_type_map, get_schema_types, get_schema_types_by_description, get_schema_types_by_field,
    get_schema_types_by_name, is_composite, is_relay, unwrap_type_name, FullType, FullTypeFields,
    FullTypeFieldsType, MatchConfig, Schema, SchemaTypes, TypeKind, TypeMap, TypeRef,
};

fn scalar_field(name: &str, target: &str) -> FullTypeFields {
    FullTypeFields {
        name: Some(name.to_owned()),
        description: None,
        type_: Some(FullTypeFieldsType {
            type_ref: TypeRef {
                kind: Some(TypeKind::Scalar),
                name: Some(target.to_owned()),
                of_type: None,
            },
        }),
    }
}

fn typed(kind: TypeKind, name: &str, fields: Vec<FullTypeFields>) -> FullType {
    FullType { kind: Some(kind), name: Some(name.to_owned()), description: None, fields: Some(fields) }
}

#[test]
fn test_unwrap_type_name() {
    let type_ref = TypeRef { kind: Some(TypeKind::Object), name: Some("User".to_owned()), of_type: None };
    assert_eq!(unwrap_type_name(&type_ref), Some("User"));
}

#[test]
fn test_unwrap_type_name_empty() {
    let type_ref = TypeRef { kind: Some(TypeKind::Object), name: None, of_type: None };
    assert_eq!(unwrap_type_name(&type_ref), None);
}

#[test]
fn test_unwrap_type_name_nested() {
    let type_ref = TypeRef {
        kind: Some(TypeKind::NonNull),
        name: None,
        of_type: Some(Box::new(TypeRef {
            kind: Some(TypeKind::List),
            name: None,
            of_type: Some(Box::new(TypeRef {
                kind: Some(TypeKind::NonNull),
                name: None,
                of_type: Some(Box::new(TypeRef {
                    kind: Some(TypeKind::Object),
                    name: Some("User".to_owned()),
                    of_type: None,
                })),
            })),
        })),
    };
    assert_eq!(unwrap_type_name(&type_ref), Some("User"));
}

#[test]
fn test_unwrap_type_name_prefers_outer_name() {
    let type_ref = TypeRef {
        kind: Some(TypeKind::Object),
        name: Some("Outer".to_owned()),
        of_type: Some(Box::new(TypeRef { kind: None, name: Some("Inner".to_owned()), of_type: None })),
    };
    assert_eq!(unwrap_type_name(&type_ref), Some("Outer"));
}

#[test]
fn test_is_composite() {
    let create = |kind| FullType { kind: Some(kind), name: None, description: None, fields: None };

    assert!(is_composite(&create(TypeKind::Object)));
    assert!(is_composite(&create(TypeKind::Interface)));
    assert!(is_composite(&create(TypeKind::Union)));
    assert!(!is_composite(&create(TypeKind::Scalar)));
    assert!(!is_composite(&create(TypeKind::Enum)));
    assert!(!is_composite(&create(TypeKind::InputObject)));
    assert!(!is_composite(&create(TypeKind::List)));
    assert!(!is_composite(&create(TypeKind::NonNull)));
    assert!(!is_composite(&create(TypeKind::Other("TestType".to_owned()))));
}

#[test]
fn test_is_composite_without_kind() {
    let t = FullType { kind: None, name: Some("User".to_owned()), description: None, fields: None };
    assert!(!is_composite(&t));
}

#[test]
fn test_is_relay_page_info() {
    let relay = typed(
        TypeKind::Object,
        "PageInfo",
        vec![scalar_field("hasNextPage", "Boolean"), scalar_field("hasPreviousPage", "Boolean")],
    );
    assert!(is_relay(&relay));
}

#[test]
fn test_is_relay_connection() {
    let relay = typed(
        TypeKind::Object,
        "UserConnection",
        vec![scalar_field("edges", "UserEdge"), scalar_field("pageInfo", "PageInfo")],
    );
    assert!(is_relay(&relay));
}

#[test]
fn test_is_relay_edge() {
    let relay = FullType {
        kind: Some(TypeKind::Object),
        name: Some("UserEdge".to_owned()),
        description: None,
        fields: Some(vec![
            scalar_field("cursor", "String"),
            FullTypeFields {
                name: Some("node".to_owned()),
                description: None,
                type_: Some(FullTypeFieldsType {
                    type_ref: TypeRef {
                        kind: Some(TypeKind::Object),
                        name: Some("User".to_owned()),
                        of_type: None,
                    },
                }),
            },
        ]),
    };
    assert!(is_relay(&relay));
}

#[test]
fn test_is_relay_rejects_incomplete_or_unrelated() {
    assert!(!is_relay(&typed(TypeKind::Object, "PageInfo", vec![scalar_field("hasNextPage", "Boolean")])));
    assert!(!is_relay(&typed(TypeKind::Object, "UserConnection", vec![scalar_field("edges", "UserEdge")])));
    assert!(!is_relay(&typed(TypeKind::Object, "User", vec![scalar_field("cursor", "String"), scalar_field("node", "User")])));
    let unnamed = FullType { kind: Some(TypeKind::Object), name: None, description: None, fields: None };
    assert!(!is_relay(&unnamed));
    assert!(!is_relay(&typed(TypeKind::Object, "UserEdge", vec![])));
}

fn sample_schema() -> Schema {
    let mut user = typed(TypeKind::Object, "User", vec![scalar_field("id", "ID"), scalar_field("userName", "String")]);
    user.description = Some("A user of the blog".to_owned());
    let mut blog = typed(TypeKind::Object, "Blog", vec![scalar_field("title", "String")]);
    if let Some(fields) = blog.fields.as_mut() {
        fields[0].description = Some("The title of the blog".to_owned());
    }
    let unnamed = FullType { kind: Some(TypeKind::Scalar), name: None, description: None, fields: None };
    Schema {
        types: Some(vec![
            Some(SchemaTypes { full_type: user }),
            None,
            Some(SchemaTypes { full_type: blog }),
            Some(SchemaTypes { full_type: unnamed }),
        ]),
    }
}

fn names(ts: &[&FullType]) -> Vec<Option<String>> {
    ts.iter().map(|t| t.name.clone()).collect()
}

#[test]
fn test_get_schema_types_skips_empty_entries() {
    let schema = sample_schema();
    let ts = get_schema_types(&schema);
    assert_eq!(names(&ts), vec![Some("User".to_owned()), Some("Blog".to_owned()), None]);
    let empty = Schema { types: None };
    assert!(get_schema_types(&empty).is_empty());
}

#[test]
fn test_get_schema_type_map_pairs_named_types() {
    let schema = sample_schema();
    let pairs = get_schema_type_map(&schema);
    let keys: Vec<&str> = pairs.iter().map(|p| p.0).collect();
    assert_eq!(keys, vec!["User", "Blog"]);
}

#[test]
fn test_type_map_later_pair_wins() {
    let first = typed(TypeKind::Object, "User", vec![]);
    let second = typed(TypeKind::Scalar, "User", vec![]);
    let blog = typed(TypeKind::Object, "Blog", vec![]);
    let map = TypeMap::from_pairs(vec![("User", &first), ("Blog", &blog), ("User", &second)]);
    assert_eq!(map.get("User").unwrap().kind, Some(TypeKind::Scalar));
    assert_eq!(map.get("Blog").unwrap().kind, Some(TypeKind::Object));
    assert!(map.get("Image").is_none());
}

#[test]
fn test_types_by_name() {
    let schema = sample_schema();
    let exact = MatchConfig { contains: false, ignore_case: false };
    assert_eq!(names(&get_schema_types_by_name(&schema, "User", exact)), vec![Some("User".to_owned())]);
    assert!(get_schema_types_by_name(&schema, "user", exact).is_empty());
    let loose = MatchConfig { contains: true, ignore_case: true };
    assert_eq!(names(&get_schema_types_by_name(&schema, "B", loose)), vec![Some("Blog".to_owned())]);
}

#[test]
fn test_types_by_field() {
    let schema = sample_schema();
    let exact = MatchConfig { contains: false, ignore_case: false };
    assert_eq!(names(&get_schema_types_by_field(&schema, "title", exact)), vec![Some("Blog".to_owned())]);
    let contains = MatchConfig { contains: true, ignore_case: false };
    assert_eq!(
        names(&get_schema_types_by_field(&schema, "i", contains)),
        vec![Some("User".to_owned()), Some("Blog".to_owned())]
    );
}

#[test]
fn test_types_by_description() {
    let schema = sample_schema();
    let contains = MatchConfig { contains: true, ignore_case: false };
    assert_eq!(names(&get_schema_types_by_description(&schema, "user of", contains)), vec![Some("User".to_owned())]);
    assert_eq!(names(&get_schema_types_by_description(&schema, "title of", contains)), vec![Some("Blog".to_owned())]);
    assert_eq!(
        names(&get_schema_types_by_description(&schema, "blog", contains)),
        vec![Some("User".to_owned()), Some("Blog".to_owned())]
    );
}
