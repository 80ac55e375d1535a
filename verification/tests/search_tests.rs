use revql::args::SearchMode;
use revql::path::PathStep;
use revql::schema::{
    FullType, FullTypeFields, FullTypeFieldsType, MatchConfig, Schema, SchemaTypes, TypeKind, TypeRef,
};
use revql::search::{get_end_types, get_path_str, path_lines, search_schema};

fn field(name: &str, description: Option<&str>, type_ref: TypeRef) -> FullTypeFields {
    FullTypeFields {
        name: Some(name.to_owned()),
        description: description.map(|d| d.to_owned()),
        type_: Some(FullTypeFieldsType { type_ref }),
    }
}

fn named(kind: TypeKind, name: &str) -> TypeRef {
    TypeRef { kind: Some(kind), name: Some(name.to_owned()), of_type: None }
}

fn list_of(inner: TypeRef) -> TypeRef {
    TypeRef { kind: Some(TypeKind::List), name: None, of_type: Some(Box::new(inner)) }
}

fn object(name: &str, description: Option<&str>, fields: Vec<FullTypeFields>) -> SchemaTypes {
    SchemaTypes {
        full_type: FullType {
            kind: Some(TypeKind::Object),
            name: Some(name.to_owned()),
            description: description.map(|d| d.to_owned()),
            fields: Some(fields),
        },
    }
}

/// Users with blogs and images, reached from `Query`.
fn blog_schema() -> Schema {
    let query = object(
        "Query",
        None,
        vec![
            field("getUser", None, named(TypeKind::Object, "User")),
            field("getBlog", None, named(TypeKind::Object, "Blog")),
        ],
    );
    let user = object(
        "User",
        Some("Represents a user of the site"),
        vec![
            field("id", Some("The ID of the user"), named(TypeKind::Scalar, "ID")),
            field("profileImage", None, named(TypeKind::Object, "Image")),
            field("blogs", None, list_of(named(TypeKind::Object, "Blog"))),
        ],
    );
    let blog = object(
        "Blog",
        None,
        vec![
            field("id", None, named(TypeKind::Scalar, "ID")),
            field("coverImage", None, named(TypeKind::Object, "Image")),
            field("author", None, named(TypeKind::Object, "User")),
        ],
    );
    let image = object("Image", None, vec![field("id", None, named(TypeKind::Scalar, "ID"))]);
    let id = SchemaTypes {
        full_type: FullType { kind: Some(TypeKind::Scalar), name: Some("ID".to_owned()), description: None, fields: None },
    };
    Schema { types: Some(vec![Some(query), Some(user), Some(blog), Some(image), Some(id)]) }
}

fn all_lines(schema: &Schema, search: &str, mode: SearchMode, config: MatchConfig) -> Vec<String> {
    search_schema(schema, search, mode, config)
        .iter()
        .flat_map(|(end, paths)| path_lines(paths, end, false))
        .collect()
}

fn config(contains: bool, ignore_case: bool) -> MatchConfig {
    MatchConfig { contains, ignore_case }
}

#[test]
fn test_search_by_type_name() {
    let lines = all_lines(&blog_schema(), "Image", SearchMode::Type, config(false, false));
    assert!(lines.contains(&"Image: Query.getUser -> User.profileImage".to_owned()));
    assert!(lines.contains(&"Image: Query.getUser -> User.blogs -> Blog.coverImage".to_owned()));
    assert!(lines.contains(&"Image: Query.getBlog -> Blog.coverImage".to_owned()));
    assert!(lines.contains(&"Image: Query.getBlog -> Blog.author -> User.profileImage".to_owned()));
    assert_eq!(lines.len(), 4);
}

#[test]
fn test_search_ignore_case() {
    let lines = all_lines(&blog_schema(), "blog", SearchMode::Type, config(false, true));
    assert!(lines.contains(&"Blog: Query.getUser -> User.blogs".to_owned()));
    assert!(lines.contains(&"Blog: Query.getBlog".to_owned()));
}

#[test]
fn test_search_contains() {
    let lines = all_lines(&blog_schema(), "Us", SearchMode::Type, config(true, false));
    assert!(lines.contains(&"User: Query.getUser".to_owned()));
    assert!(lines.contains(&"User: Query.getBlog -> Blog.author".to_owned()));
    assert!(all_lines(&blog_schema(), "us", SearchMode::Type, config(true, false)).is_empty());
    let folded = all_lines(&blog_schema(), "us", SearchMode::Type, config(true, true));
    assert!(folded.contains(&"User: Query.getUser".to_owned()));
}

#[test]
fn test_search_by_field() {
    let lines = all_lines(&blog_schema(), "id", SearchMode::Field, config(false, false));
    assert!(lines.contains(&"User: Query.getUser".to_owned()));
    assert!(lines.contains(&"Image: Query.getBlog -> Blog.author -> User.profileImage".to_owned()));
    assert!(lines.contains(&"Blog: Query.getBlog".to_owned()));
}

#[test]
fn test_search_by_description() {
    let lines = all_lines(&blog_schema(), "a user", SearchMode::Description, config(true, false));
    assert!(lines.contains(&"User: Query.getUser".to_owned()));
    assert!(lines.contains(&"User: Query.getBlog -> Blog.author".to_owned()));
    let by_field = all_lines(&blog_schema(), "id of the", SearchMode::Description, config(true, true));
    assert!(by_field.contains(&"User: Query.getUser".to_owned()));
}

#[test]
fn test_search_without_mutation_type() {
    let schema = blog_schema();
    let results = search_schema(&schema, "User", SearchMode::Type, config(false, false));
    assert_eq!(results.len(), 2);
    assert_eq!(results[0].0, "User");
    assert_eq!(results[0].1.len(), 2);
    assert!(results[1].1.is_empty());
}

#[test]
fn test_get_end_types_modes() {
    let schema = blog_schema();
    assert_eq!(get_end_types(&schema, "User", SearchMode::Type, config(false, false)), vec!["User"]);
    assert_eq!(get_end_types(&schema, "id", SearchMode::Field, config(false, false)), vec!["User", "Blog", "Image"]);
    assert_eq!(get_end_types(&schema, "site", SearchMode::Description, config(true, false)), vec!["User"]);
}

#[test]
fn test_get_path_str() {
    let path = vec![PathStep::new("Query", "getUser"), PathStep::new("User", "blogs")];
    assert_eq!(get_path_str(&path, false), "Query.getUser -> User.blogs");
    assert_eq!(get_path_str(&vec![], false), "");
    assert_eq!(get_path_str(&vec![], true), "");
    assert!(!get_path_str(&path, true).is_empty());
}

#[test]
fn test_path_lines_skip_empty_paths() {
    let paths = vec![vec![], vec![PathStep::new("Query", "getUser")]];
    assert_eq!(path_lines(&paths, "User", false), vec!["User: Query.getUser".to_owned()]);
    assert_eq!(path_lines(&paths, "User", true).len(), 1);
}

#[test]
fn test_colored_path_lines_hold_the_steps_in_order() {
    let paths = vec![vec![PathStep::new("Query", "getBlog"), PathStep::new("Blog", "author")]];
    let lines = path_lines(&paths, "User", true);
    assert_eq!(lines.len(), 1);
    let line = &lines[0];
    assert!(line.starts_with("User: "));
    let rest = &line["User: ".len()..];
    let plain: String = rest.replace("\u{1b}[31m", "").replace("\u{1b}[34m", "").replace("\u{1b}[0m", "");
    assert_eq!(plain, "Query.getBlog -> Blog.author");
    assert_eq!(get_path_str(&paths[0], true), rest);
}
