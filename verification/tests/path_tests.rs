use revql::path::{find_all_paths, PathStep, MAX_DEPTH};
use revql::schema::{FullType, FullTypeFields, FullTypeFieldsType, TypeKind, TypeMap, TypeRef};

fn create_object_type(name: &str, fields: Vec<FullTypeFields>) -> FullType {
    FullType {
        kind: Some(TypeKind::Object),
        name: Some(name.to_owned()),
        description: None,
        fields: Some(fields),
    }
}

fn create_object_type_ref(name: &str) -> TypeRef {
    TypeRef { kind: Some(TypeKind::Object), name: Some(name.to_owned()), of_type: None }
}

fn make_field(name: &str, target: &str) -> FullTypeFields {
    FullTypeFields {
        name: Some(name.to_owned()),
        description: None,
        type_: Some(FullTypeFieldsType { type_ref: create_object_type_ref(target) }),
    }
}

#[test]
fn test_find_all_paths_single_path() {
    let user_type = create_object_type("User", vec![make_field("profile", "Profile")]);
    let profile_type = create_object_type("Profile", vec![make_field("avatar", "Image")]);
    let image_type = create_object_type("Image", vec![]);
    let type_map =
        TypeMap::from_pairs(vec![("User", &user_type), ("Profile", &profile_type), ("Image", &image_type)]);

    // User.profile -> Profile.avatar -> Image
    let paths = find_all_paths(&type_map, "User", "Image");
    assert_eq!(paths.len(), 1);
    assert!(paths.contains(&vec![PathStep::new("User", "profile"), PathStep::new("Profile", "avatar"),]));
}

#[test]
fn test_find_all_paths_multiple_routes() {
    let user_type = create_object_type("User", vec![make_field("profile", "Profile"), make_field("posts", "Post")]);
    let profile_type = create_object_type("Profile", vec![make_field("avatar", "Image")]);
    let post_type = create_object_type("Post", vec![make_field("image", "Image")]);
    let image_type = create_object_type("Image", vec![]);
    let type_map = TypeMap::from_pairs(vec![
        ("User", &user_type),
        ("Profile", &profile_type),
        ("Post", &post_type),
        ("Image", &image_type),
    ]);

    // User.profile -> Profile.avatar -> Image
    // User.posts -> Post.image -> Image
    let paths = find_all_paths(&type_map, "User", "Image");
    assert_eq!(paths.len(), 2);
    assert!(paths.contains(&vec![PathStep::new("User", "profile"), PathStep::new("Profile", "avatar"),]));
    assert!(paths.contains(&vec![PathStep::new("User", "posts"), PathStep::new("Post", "image"),]));
}

#[test]
fn test_find_all_paths_diamond_path() {
    let user_fields = vec![make_field("profile", "Profile"), make_field("company", "Company")];
    let user_type = create_object_type("User", user_fields);
    let profile_type = create_object_type("Profile", vec![make_field("country", "Country")]);
    let company_type = create_object_type("Company", vec![make_field("country", "Country")]);
    let country_type = create_object_type("Country", vec![make_field("currency", "Currency")]);
    let currency_type = create_object_type("Currency", vec![]);
    let type_map = TypeMap::from_pairs(vec![
        ("User", &user_type),
        ("Profile", &profile_type),
        ("Company", &company_type),
        ("Country", &country_type),
        ("Currency", &currency_type),
    ]);

    // User.profile -> Profile.country -> Country.currency -> Currency
    // User.company -> Company.country -> Country.currency -> Currency
    let paths = find_all_paths(&type_map, "User", "Currency");
    assert_eq!(paths.len(), 2);
    assert!(paths.contains(&vec![
        PathStep::new("User", "profile"),
        PathStep::new("Profile", "country"),
        PathStep::new("Country", "currency"),
    ]));
    assert!(paths.contains(&vec![
        PathStep::new("User", "company"),
        PathStep::new("Company", "country"),
        PathStep::new("Country", "currency"),
    ]));
}

#[test]
fn test_find_all_paths_with_cycles() {
    let user_type = create_object_type("User", vec![make_field("posts", "Post")]);
    let post_type = create_object_type("Post", vec![make_field("author", "User"), make_field("image", "Image")]);
    let image_type = create_object_type("Image", vec![]);
    let type_map =
        TypeMap::from_pairs(vec![("User", &user_type), ("Post", &post_type), ("Image", &image_type)]);

    // Post.image -> Image
    let paths = find_all_paths(&type_map, "User", "Image");
    assert_eq!(paths.len(), 1);
    assert!(paths.contains(&vec![PathStep::new("User", "posts"), PathStep::new("Post", "image"),]));
}

#[test]
fn test_find_all_paths_nested_type() {
    let image_type = create_object_type("Image", vec![]);
    let image_type_ref = FullTypeFields {
        name: Some("avatar".to_owned()),
        description: None,
        type_: Some(FullTypeFieldsType {
            type_ref: TypeRef {
                kind: Some(TypeKind::NonNull),
                name: None,
                of_type: Some(Box::new(TypeRef {
                    kind: Some(TypeKind::List),
                    name: None,
                    of_type: Some(Box::new(TypeRef {
                        kind: Some(TypeKind::Object),
                        name: Some("Image".to_owned()),
                        of_type: None,
                    })),
                })),
            },
        }),
    };
    let user_type = create_object_type("User", vec![make_field("profile", "Profile")]);
    let profile_type = create_object_type("Profile", vec![image_type_ref]);
    let type_map =
        TypeMap::from_pairs(vec![("User", &user_type), ("Profile", &profile_type), ("Image", &image_type)]);

    // User.profile -> Profile.avatar -> Image
    let paths = find_all_paths(&type_map, "User", "Image");
    assert_eq!(paths.len(), 1);
    assert!(paths.contains(&vec![PathStep::new("User", "profile"), PathStep::new("Profile", "avatar"),]));
}

#[test]
fn test_find_all_paths_instant_match() {
    let user_type = create_object_type("User", vec![]);
    let type_map = TypeMap::from_pairs(vec![("User", &user_type)]);
    let paths = find_all_paths(&type_map, "User", "User");
    assert_eq!(paths.len(), 1);
    assert!(paths[0].is_empty());
}

#[test]
fn test_find_all_paths_missing_types() {
    let user_type = create_object_type("User", vec![make_field("order", "Order")]);
    let type_map = TypeMap::from_pairs(vec![("User", &user_type)]);
    let paths = find_all_paths(&type_map, "User", "Image");
    assert!(paths.is_empty());
}

#[test]
fn test_find_all_paths_no_path() {
    let user_type = create_object_type("User", vec![]);
    let image_type = create_object_type("Image", vec![]);
    let type_map = TypeMap::from_pairs(vec![("User", &user_type), ("Image", &image_type)]);
    let paths = find_all_paths(&type_map, "User", "Image");
    assert!(paths.is_empty());
}

#[test]
fn test_find_all_paths_depth_limit() {
    // T0 -> T1 -> ... -> T11: the target is 11 steps away, beyond the limit.
    let types: Vec<FullType> = (0..12)
        .map(|i| create_object_type(&format!("T{i}"), if i < 11 { vec![make_field("next", &format!("T{}", i + 1))] } else { vec![] }))
        .collect();
    let names: Vec<String> = (0..12).map(|i| format!("T{i}")).collect();
    let pairs: Vec<(&str, &FullType)> = names.iter().map(|n| n.as_str()).zip(types.iter()).collect();
    let type_map = TypeMap::from_pairs(pairs);
    assert_eq!(MAX_DEPTH, 10);
    let within = find_all_paths(&type_map, "T0", "T10");
    assert_eq!(within.len(), 1);
    assert_eq!(within[0].len(), 10);
    assert!(find_all_paths(&type_map, "T0", "T11").is_empty());
}

#[test]
fn test_find_all_paths_skips_scalars_and_fieldless_types() {
    let user_type = create_object_type("User", vec![make_field("id", "ID"), make_field("profile", "Profile")]);
    let id_type = FullType { kind: Some(TypeKind::Scalar), name: Some("ID".to_owned()), description: None, fields: Some(vec![make_field("x", "Image")]) };
    let profile_type = FullType { kind: Some(TypeKind::Interface), name: Some("Profile".to_owned()), description: None, fields: None };
    let type_map = TypeMap::from_pairs(vec![("User", &user_type), ("ID", &id_type), ("Profile", &profile_type)]);
    assert!(find_all_paths(&type_map, "User", "Image").is_empty());
    let to_id = find_all_paths(&type_map, "User", "ID");
    assert_eq!(to_id, vec![vec![PathStep::new("User", "id")]]);
}

#[test]
fn test_find_all_paths_field_order_is_kept() {
    let root = create_object_type("Query", vec![make_field("b", "Target"), make_field("a", "Target")]);
    let target = create_object_type("Target", vec![]);
    let type_map = TypeMap::from_pairs(vec![("Query", &root), ("Target", &target)]);
    let paths = find_all_paths(&type_map, "Query", "Target");
    assert_eq!(paths, vec![vec![PathStep::new("Query", "b")], vec![PathStep::new("Query", "a")]]);
}

#[test]
fn test_path_step_as_string_plain() {
    let step = PathStep::new("User", "profile");
    assert_eq!(step.as_string(false), "User.profile");
    assert_eq!(step.from_type, "User");
    assert_eq!(step.from_field, "profile");
}

#[test]
fn test_path_step_as_string_colored_keeps_names() {
    let step = PathStep::new("User", "profile");
    let s = step.as_string(true);
    assert!(s.contains("User"));
    assert!(s.contains("profile"));
    assert!(s.contains('.'));
}

fn painted(s: &str, code: &str) -> Vec<String> {
    vec![s.to_owned(), format!("\u{1b}[{code}m{s}\u{1b}[0m")]
}

#[test]
fn test_path_step_as_string_colored_forms() {
    let step = PathStep::new("Blog", "author");
    let s = step.as_string(true);
    let mut forms = vec![];
    for a in painted("Blog", "31") {
        for b in painted("author", "34") {
            forms.push(format!("{a}.{b}"));
        }
    }
    assert!(forms.contains(&s), "unexpected colored step {s:?}");
    assert_ne!(s, "author.Blog");
}
