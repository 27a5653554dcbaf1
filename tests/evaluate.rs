use page_query::engine::{evaluate_rows, evaluate_table, parse_page_number, plan_query, tables_to_read, Query};
use page_query::error::DbError;
use page_query::schema::{schema_tables, SqliteRead, TableMeta};

const APPLES_SQL: &str = "CREATE TABLE apples (id integer primary key, name text, color text)";

/// A table page holding the rows (1, Fuji, Red) and (2, Gala, Yellow).
fn apples_page() -> Vec<u8> {
    let mut page = vec![0u8; 64];
    page[0] = 13;
    page[4] = 2;
    page[8..12].copy_from_slice(&[0, 20, 0, 40]);
    let mut fuji = vec![12, 1, 4, 1, 21, 19, 1];
    fuji.extend_from_slice(b"FujiRed");
    let mut gala = vec![15, 2, 4, 1, 21, 25, 2];
    gala.extend_from_slice(b"GalaYellow");
    page[20..20 + fuji.len()].copy_from_slice(&fuji);
    page[40..40 + gala.len()].copy_from_slice(&gala);
    page
}

fn run(sql: &str, page: &Vec<u8>) -> Result<Vec<String>, DbError> {
    let query = plan_query(sql).expect("a select statement");
    evaluate_table(page, APPLES_SQL, &query)
}

#[test]
fn select_with_condition_emits_matching_row() {
    let lines = run("select name from apples where color = 'Yellow'", &apples_page()).unwrap();
    assert_eq!(lines, vec!["Gala"]);
}

#[test]
fn condition_compares_without_case() {
    let lines = run("select name from apples where color = 'yellow'", &apples_page()).unwrap();
    assert_eq!(lines, vec!["Gala"]);
}

#[test]
fn count_reads_only_the_header() {
    let mut page = apples_page();
    assert_eq!(run("select count(*) from apples", &page).unwrap(), vec!["2"]);
    for b in page[20..].iter_mut() {
        *b = 0xFF;
    }
    assert_eq!(run("SELECT COUNT(*) FROM apples", &page).unwrap(), vec!["2"]);
}

#[test]
fn condition_on_absent_column_filters_nothing() {
    let lines = run("select name from apples where shape = 'round'", &apples_page()).unwrap();
    assert_eq!(lines, vec!["Fuji", "Gala"]);
}

#[test]
fn projection_keeps_requested_order() {
    let lines = run("select color, id, missing from apples", &apples_page()).unwrap();
    assert_eq!(lines, vec!["Red|1", "Yellow|2"]);
}

#[test]
fn non_select_statement_plans_nothing() {
    assert!(plan_query("delete from apples").is_none());
    assert!(plan_query("").is_none());
}

#[test]
fn schema_mismatch_is_an_error() {
    let query = plan_query("select name from apples").unwrap();
    let columns = vec!["id".to_string(), "name".to_string()];
    assert_eq!(
        evaluate_rows(&apples_page(), &columns, &query),
        Err(DbError::ColumnCountMismatch { expected: 2, got: 3 })
    );
    assert_eq!(
        evaluate_table(&apples_page(), "nonsense", &query),
        Err(DbError::BadCreateTable)
    );
}

#[test]
fn short_page_is_an_error() {
    let query = plan_query("select name from apples").unwrap();
    let page = vec![0, 0, 0, 0, 9, 0, 0, 0];
    assert_eq!(evaluate_table(&page, APPLES_SQL, &query), Err(DbError::NotEnoughData));
}

fn meta(name: &str) -> TableMeta {
    TableMeta { name: name.to_string(), root_page: "2".to_string(), sql: String::new() }
}

#[test]
fn only_named_tables_are_read() {
    let tables = vec![meta("apples"), meta("pears"), meta("oranges")];
    let query: Query = plan_query("select name from apples, oranges").unwrap();
    assert_eq!(tables_to_read(&tables, &query.tables), vec![0, 2]);
    let query: Query = plan_query("select name from plums").unwrap();
    assert!(tables_to_read(&tables, &query.tables).is_empty());
}

#[test]
fn page_numbers() {
    assert_eq!(parse_page_number("2"), Some(2));
    assert_eq!(parse_page_number("65535"), Some(65535));
    assert_eq!(parse_page_number("65536"), None);
    assert_eq!(parse_page_number(""), None);
    assert_eq!(parse_page_number("1a"), None);
}

#[test]
fn header_fields_and_page_offsets() {
    let mut header = vec![0u8; 105];
    header[16] = 0x10;
    header[103] = 0x01;
    header[104] = 0x02;
    assert_eq!(SqliteRead::page_size_field(&header), Ok(4096));
    assert_eq!(SqliteRead::table_count_field(&header), Ok(258));
    assert_eq!(SqliteRead::table_count_field(&header[..50]), Err(DbError::NotEnoughData));
    assert_eq!(SqliteRead::page_offset(1, 4096), 100);
    assert_eq!(SqliteRead::page_offset(3, 4096), 8192);
    assert_eq!(SqliteRead::page_offset(65535, 65535), 65535 * 65534);
    assert_eq!(SqliteRead::row_count(&apples_page()), Ok(2));
    assert_eq!(SqliteRead::row_count(&vec![0, 0]), Err(DbError::NotEnoughData));
}

fn schema_cell(name: &str, root: u8, sql: &str) -> Vec<u8> {
    let codes = [
        13 + 2 * 5,
        13 + 2 * name.len() as u8,
        13 + 2 * name.len() as u8,
        1,
        13 + 2 * sql.len() as u8,
    ];
    let mut cell = vec![0, 1, 6];
    cell.extend_from_slice(&codes);
    cell.extend_from_slice(b"table");
    cell.extend_from_slice(name.as_bytes());
    cell.extend_from_slice(name.as_bytes());
    cell.push(root);
    cell.extend_from_slice(sql.as_bytes());
    cell
}

#[test]
fn schema_lists_user_tables() {
    let mut page0 = vec![0u8; 300];
    page0[4] = 2;
    let apples = schema_cell("apples", 2, "CREATE TABLE apples (id integer)");
    let seq = schema_cell("sqlite_sequence", 3, "CREATE TABLE sqlite_sequence(name,seq)");
    page0[8..12].copy_from_slice(&[0, 120, 0, 200]);
    page0[20..20 + apples.len()].copy_from_slice(&apples);
    page0[100..100 + seq.len()].copy_from_slice(&seq);
    let tables = schema_tables(&page0, 2).unwrap();
    assert_eq!(tables.len(), 1);
    assert_eq!(tables[0].name, "apples");
    assert_eq!(tables[0].root_page, "2");
    assert_eq!(tables[0].sql, "CREATE TABLE apples (id integer)");
    assert_eq!(schema_tables(&page0[..10], 2).err(), Some(DbError::NotEnoughData));
    page0[9] = 50;
    assert_eq!(schema_tables(&page0, 2).err(), Some(DbError::BadCellPointer));
}

#[test]
fn statement_words_split_on_any_whitespace() {
    let lines = run("select  name\tfrom apples\n where color  =  'Yellow'", &apples_page()).unwrap();
    assert_eq!(lines, vec!["Gala"]);
}

/// A table page holding the single row (1, name, color).
fn one_row_page(name: &str, color: &str) -> Vec<u8> {
    let mut page = vec![0u8; 80];
    page[4] = 1;
    page[8..10].copy_from_slice(&[0, 20]);
    let name_code = 13 + 2 * name.len() as u8;
    let color_code = 13 + 2 * color.len() as u8;
    let mut cell = vec![0, 1, 4, 1, name_code, color_code, 1];
    cell.extend_from_slice(name.as_bytes());
    cell.extend_from_slice(color.as_bytes());
    page[20..20 + cell.len()].copy_from_slice(&cell);
    page
}

#[test]
fn condition_folds_unicode_case() {
    let page = one_row_page("Émile", "Rouge");
    let lines = run("select name from apples where name = 'émile'", &page).unwrap();
    assert_eq!(lines, vec!["Émile"]);
    let lines = run("select name from apples where name = 'emile'", &page).unwrap();
    assert!(lines.is_empty());
}
