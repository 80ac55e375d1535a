use revql::schema::MatchConfig;

fn create_config(contains: bool, ignore_case: bool) -> MatchConfig {
    MatchConfig { contains, ignore_case }
}

#[test]
fn test_match_str_exact_case_sensitive() {
    let config = create_config(false, false);
    assert!(config.match_str("GraphQL", "GraphQL"));
    assert!(!config.match_str("GraphQL", "graphql"));
    assert!(!config.match_str("GraphQL", "Graph"));
    assert!(!config.match_str("Graph", "GraphQL"));
}

#[test]
fn test_match_str_substring_case_sensitive() {
    let config = create_config(true, false);
    assert!(config.match_str("UserSchema", "Schema"));
    assert!(config.match_str("UserSchema", "User"));
    assert!(!config.match_str("UserSchema", "schema"));
    assert!(!config.match_str("UserSchema", "Admin"));
}

#[test]
fn test_match_str_exact_case_insensitive() {
    let config = create_config(false, true);
    assert!(config.match_str("GraphQL", "graphql"));
    assert!(config.match_str("graphql", "GRAPHQL"));
    assert!(!config.match_str("GraphQL", "graph"));
}

#[test]
fn test_match_str_substring_case_insensitive() {
    let config = create_config(true, true);
    assert!(config.match_str("UserSchema", "schema"));
    assert!(config.match_str("userschema", "SCHEMA"));
    assert!(config.match_str("UserSchema", "User"));
    assert!(!config.match_str("UserSchema", "Admin"));
}

#[test]
fn test_match_str_empty_strings() {
    assert!(create_config(true, false).match_str("User", ""));
    assert!(create_config(true, true).match_str("User", ""));
    assert!(create_config(false, false).match_str("", ""));
    assert!(create_config(false, true).match_str("", ""));
    assert!(!create_config(false, false).match_str("User", ""));
}

#[test]
fn test_match_plain_does_not_fold_case() {
    let exact = create_config(false, true);
    assert!(!exact.match_plain("GraphQL", "graphql"));
    assert!(exact.match_plain("GraphQL", "GraphQL"));
    let contains = create_config(true, true);
    assert!(contains.match_plain("UserSchema", "rSch"));
    assert!(!contains.match_plain("UserSchema", "rsch"));
}

#[test]
fn test_match_str_exact_implies_contains() {
    for ignore_case in [false, true] {
        for (a, b) in [("User", "User"), ("USER", "user"), ("Blog", "Blog")] {
            if create_config(false, ignore_case).match_str(a, b) {
                assert!(create_config(true, ignore_case).match_str(a, b));
            }
        }
    }
}

#[test]
fn test_match_str_unicode_case_folding() {
    let config = create_config(false, true);
    assert!(config.match_str("ÄRGER", "ärger"));
    assert!(!config.match_str("Ärger", "arger"));
    let contains = create_config(true, false);
    assert!(contains.match_str("naïve café", "é"));
    assert!(!contains.match_str("é", "naïve café"));
}

#[test]
fn test_case_sensitive_match_implies_insensitive() {
    for (a, b) in [("GraphQL", "GraphQL"), ("Ärger", "Ärger"), ("", "")] {
        assert!(create_config(false, false).match_str(a, b));
        assert!(create_config(false, true).match_str(a, b));
    }
}
