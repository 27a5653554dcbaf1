use std::collections::HashMap;

use page_query::query::extract_where_conditions;

fn as_map(conditions: Option<Vec<(String, String)>>) -> Option<HashMap<String, String>> {
    conditions.map(|pairs| pairs.into_iter().collect())
}

#[test]
fn test_extract_where_simple() {
    let cmd = vec!["select", "name", "from", "apples", "where", "color", "=", "'Yellow'"];
    let conditions = as_map(extract_where_conditions(&cmd));

    let mut expected = HashMap::new();
    expected.insert("color".to_string(), "Yellow".to_string());

    assert_eq!(conditions, Some(expected));
}

#[test]
fn test_extract_where_no_quotes() {
    let cmd = vec!["select", "name", "from", "apples", "where", "id", "=", "5"];
    let conditions = as_map(extract_where_conditions(&cmd));

    let mut expected = HashMap::new();
    expected.insert("id".to_string(), "5".to_string());

    assert_eq!(conditions, Some(expected));
}

#[test]
fn test_extract_where_multiple() {
    let cmd = vec![
        "select", "name", "from", "apples", "where", "color", "=", "'Yellow'", "and", "id", "=",
        "3",
    ];
    let conditions = as_map(extract_where_conditions(&cmd));

    let mut expected = HashMap::new();
    expected.insert("color".to_string(), "Yellow".to_string());
    expected.insert("id".to_string(), "3".to_string());

    assert_eq!(conditions, Some(expected));
}

#[test]
fn test_extract_where_none() {
    let cmd = vec!["select", "name", "from", "apples"];
    let conditions = as_map(extract_where_conditions(&cmd));
    assert_eq!(conditions, None);
}

#[test]
fn test_extract_where_double_quotes() {
    let cmd = vec!["select", "name", "from", "apples", "where", "color", "=", "\"Yellow\""];
    let conditions = as_map(extract_where_conditions(&cmd));

    let mut expected = HashMap::new();
    expected.insert("color".to_string(), "Yellow".to_string());

    assert_eq!(conditions, Some(expected));
}

#[test]
fn test_extract_where_with_order() {
    let cmd = vec![
        "select", "*", "from", "apples", "where", "color", "=", "'Red'", "order", "by", "name",
    ];
    let conditions = as_map(extract_where_conditions(&cmd));

    let mut expected = HashMap::new();
    expected.insert("color".to_string(), "Red".to_string());

    assert_eq!(conditions, Some(expected));
}

#[test]
fn where_clause_without_pattern_gives_none() {
    let cmd = vec!["select", "name", "from", "apples", "where", "color"];
    assert_eq!(extract_where_conditions(&cmd), None);
    let cmd = vec!["select", "name", "from", "apples", "where"];
    assert_eq!(extract_where_conditions(&cmd), None);
}

#[test]
fn where_keywords_ignore_case_and_later_condition_wins() {
    let cmd = vec!["SELECT", "name", "FROM", "apples", "WHERE", "id", "=", "1", "AND", "id", "=", "2"];
    assert_eq!(
        extract_where_conditions(&cmd),
        Some(vec![("id".to_string(), "2".to_string())])
    );
}

#[test]
fn where_strips_only_matching_quotes() {
    let cmd = vec!["select", "a", "from", "t", "where", "a", "=", "'x\""];
    assert_eq!(
        extract_where_conditions(&cmd),
        Some(vec![("a".to_string(), "'x\"".to_string())])
    );
}

#[test]
fn where_clause_after_an_early_end_word() {
    let cmd = vec!["select", "limit", "from", "t", "where", "a", "=", "1"];
    assert_eq!(
        extract_where_conditions(&cmd),
        Some(vec![("a".to_string(), "1".to_string())])
    );
}
