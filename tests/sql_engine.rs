use page_query::query::{extract_columns, extract_tables};

#[test]
fn test_extract_columns() {
    let cmd = vec!["SELECT", "name,", "color", "FROM", "apples"];
    let cols = extract_columns(&cmd);
    assert_eq!(cols, vec!["name", "color"]);
}

#[test]
fn test_extract_columns_single() {
    let cmd = vec!["SELECT", "name", "FROM", "apples"];
    let cols = extract_columns(&cmd);
    assert_eq!(cols, vec!["name"]);
}

#[test]
fn test_extract_columns_count() {
    let cmd = vec!["SELECT", "COUNT(*)", "FROM", "apples"];
    let cols = extract_columns(&cmd);
    assert_eq!(cols, vec!["COUNT(*)"]);
}

#[test]
fn test_extract_tables() {
    let cmd = vec!["SELECT", "name", "FROM", "apples"];
    let tables = extract_tables(&cmd);
    assert_eq!(tables, vec!["apples"]);
}

#[test]
fn test_extract_tables_multiple() {
    let cmd = vec!["SELECT", "name", "FROM", "apples,", "oranges"];
    let tables = extract_tables(&cmd);
    assert_eq!(tables, vec!["apples", "oranges"]);
}

#[test]
fn columns_in_lower_case_stop_at_where() {
    let cmd = vec!["select", "name", ",", "color,", "where", "x"];
    assert_eq!(extract_columns(&cmd), vec!["name", "color"]);
}

#[test]
fn columns_drop_one_trailing_comma_only() {
    let cmd = vec!["select", "name,,", "from", "t"];
    assert_eq!(extract_columns(&cmd), vec!["name,"]);
}

#[test]
fn tables_stop_at_limit_and_join() {
    let cmd = vec!["select", "a", "from", "t1", "join", "t2"];
    assert_eq!(extract_tables(&cmd), vec!["t1"]);
    let cmd = vec!["select", "a", "from", "t1", "LIMIT", "3"];
    assert_eq!(extract_tables(&cmd), vec!["t1"]);
    let cmd: Vec<&str> = vec![];
    assert!(extract_tables(&cmd).is_empty());
}

#[test]
fn end_words_before_the_list_do_not_end_it() {
    let cmd = vec!["FROM", "SELECT", "a"];
    assert_eq!(extract_columns(&cmd), vec!["a"]);
    let cmd = vec!["select", "limit", "from", "t"];
    assert_eq!(extract_tables(&cmd), vec!["t"]);
}

#[test]
fn repeated_opening_word_is_an_item() {
    let cmd = vec!["select", "a", "select", "from", "t"];
    assert_eq!(extract_columns(&cmd), vec!["a", "select"]);
}
