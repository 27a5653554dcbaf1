use page_query::error::DbError;
use page_query::page::Cell;
use page_query::serial::SerialCode;
use page_query::varint::read_varint;

#[test]
fn varint_one_two_and_nine_bytes() {
    assert_eq!(read_varint(&[0x05, 0xFF]), Ok((5, 1)));
    assert_eq!(read_varint(&[0x81, 0x00]), Ok((128, 2)));
    assert_eq!(read_varint(&[0x82, 0x2C]), Ok((300, 2)));
    assert_eq!(read_varint(&[0xFF; 9]), Ok((u64::MAX, 9)));
    assert_eq!(read_varint(&[0x80, 0x80, 0x80, 0x80, 0x80, 0x80, 0x80, 0x80, 0x01]), Ok((1, 9)));
}

#[test]
fn varint_out_of_data() {
    assert_eq!(read_varint(&[]), Err(DbError::UnexpectedEnd));
    assert_eq!(read_varint(&[0x80, 0x81]), Err(DbError::UnexpectedEnd));
}

#[test]
fn serial_widths() {
    let expected: [(u64, usize); 14] = [
        (0, 0), (1, 1), (2, 2), (3, 3), (4, 4), (5, 6), (6, 8), (7, 8), (8, 0), (9, 0),
        (10, 0), (12, 0), (13, 0), (21, 4),
    ];
    for (code, width) in expected {
        assert_eq!(SerialCode::value_size(code), width);
    }
    assert_eq!(SerialCode::value_size(30), 9);
}

#[test]
fn serial_width_matches_decoded_bytes() {
    let data: Vec<u8> = (1..=40).collect();
    for code in 0u64..60 {
        let width = SerialCode::value_size(code);
        assert!(SerialCode::read_value_by_serial_type(&data[..width], code).is_ok());
        assert_eq!(
            SerialCode::read_value_by_serial_type(&data[..width], code),
            SerialCode::read_value_by_serial_type(&data, code)
        );
        if width > 0 {
            assert_eq!(
                SerialCode::read_value_by_serial_type(&data[..width - 1], code),
                Err(DbError::NotEnoughData)
            );
        }
    }
}

#[test]
fn serial_integer_values() {
    let read = |d: &[u8], t: u64| SerialCode::read_value_by_serial_type(d, t).unwrap();
    assert_eq!(read(&[], 0), "NULL");
    assert_eq!(read(&[0xFF], 1), "-1");
    assert_eq!(read(&[0x7F], 1), "127");
    assert_eq!(read(&[0x01, 0x00], 2), "256");
    assert_eq!(read(&[0xFF, 0xFF, 0xFE], 3), "-2");
    assert_eq!(read(&[0x00, 0x80, 0x00], 3), "32768");
    assert_eq!(read(&[0x80, 0x00, 0x00, 0x00], 4), "-2147483648");
    assert_eq!(read(&[0x00, 0x00, 0x00, 0x01, 0x00, 0x00], 5), "65536");
    assert_eq!(read(&[0x80, 0, 0, 0, 0, 0, 0, 0], 6), "-9223372036854775808");
    assert_eq!(read(&[0x7F, 0xFF, 0xFF, 0xFF, 0xFF, 0xFF, 0xFF, 0xFF], 6), "9223372036854775807");
    assert_eq!(read(&[], 8), "0");
    assert_eq!(read(&[], 9), "1");
}

#[test]
fn serial_text_blob_and_placeholders() {
    let read = |d: &[u8], t: u64| SerialCode::read_value_by_serial_type(d, t).unwrap();
    assert_eq!(read(b"Fuji!", 21), "Fuji");
    assert_eq!(read("é".as_bytes(), 17), "é");
    assert_eq!(read(&[0xFF, 0x41], 17), "Invalid UTF-8: [255, 65]");
    assert_eq!(read(&[1, 2, 3], 16), "BLOB(2 bytes): [1, 2]");
    assert_eq!(read(&[], 12), "BLOB(0 bytes): []");
    assert_eq!(read(&[], 10), "Unknown serial type: 10");
    assert_eq!(read(&[0, 0, 0, 0, 0, 0, 0, 42], 7), "REAL(42)");
}

#[test]
fn serial_not_enough_data() {
    assert_eq!(
        SerialCode::read_value_by_serial_type(&[1, 2], 4),
        Err(DbError::NotEnoughData)
    );
    assert_eq!(
        SerialCode::read_value_by_serial_type(b"abc", 21),
        Err(DbError::NotEnoughData)
    );
}

fn apple_cell() -> Vec<u8> {
    let mut cell = vec![12, 1, 4, 1, 21, 19, 1];
    cell.extend_from_slice(b"FujiRed");
    cell
}

#[test]
fn cell_decodes_values_in_order() {
    let mut data = vec![0u8; 3];
    data.extend(apple_cell());
    assert_eq!(Cell::parse_cell(&data, 3).unwrap(), vec!["1", "Fuji", "Red"]);
}

#[test]
fn cell_decoding_is_repeatable() {
    let data = apple_cell();
    let first = Cell::parse_cell(&data, 0);
    let second = Cell::parse_cell(&data, 0);
    assert_eq!(first, second);
    assert_eq!(data, apple_cell());
}

#[test]
fn cell_errors() {
    let data = apple_cell();
    assert_eq!(Cell::parse_cell(&data, 100), Err(DbError::UnexpectedEnd));
    assert_eq!(Cell::parse_cell(&data[..9], 0), Err(DbError::NotEnoughData));
    assert_eq!(Cell::parse_cell(&[12, 1, 4, 1], 0), Err(DbError::UnexpectedEnd));
}

#[test]
fn cell_as_map_pairs_names_and_values() {
    let data = apple_cell();
    let names = vec!["id".to_string(), "name".to_string(), "color".to_string()];
    let row = Cell::parse_cell_as_map(&data, 0, &names).unwrap();
    assert_eq!(
        row,
        vec![
            ("id".to_string(), "1".to_string()),
            ("name".to_string(), "Fuji".to_string()),
            ("color".to_string(), "Red".to_string()),
        ]
    );
    assert_eq!(
        Cell::parse_cell_as_map(&data, 0, &names[..2]),
        Err(DbError::ColumnCountMismatch { expected: 2, got: 3 })
    );
}

#[test]
fn cell_pointer_array_reads_big_endian_offsets() {
    let page = vec![0, 0, 0, 0, 2, 0, 0, 0, 0x01, 0x02, 0x00, 0x40];
    assert_eq!(Cell::read_cell_pointer_array(&page, 2), vec![0x0102, 0x0040]);
    assert_eq!(Cell::read_cell_pointer_array(&page, 0), Vec::<u16>::new());
}

#[test]
fn create_table_columns() {
    let cols = Cell::parse_create_table(
        "CREATE TABLE apples (id integer primary key, name text, color text)",
    )
    .unwrap();
    assert_eq!(cols, vec!["id", "name", "color"]);
}

#[test]
fn create_table_skips_constraints() {
    let cols = Cell::parse_create_table(
        "CREATE TABLE t\n(\n\ta integer,\n\tb text,\n\tunique b, constraint c\n)",
    )
    .unwrap();
    assert_eq!(cols, vec!["a", "b"]);
    let cols = Cell::parse_create_table("CREATE TABLE t (a int, PRIMARY KEY (a))").unwrap();
    assert_eq!(cols, vec!["a"]);
}

#[test]
fn create_table_rejects_other_statements() {
    assert_eq!(Cell::parse_create_table("SELECT 1"), Err(DbError::BadCreateTable));
    assert_eq!(Cell::parse_create_table("create table t (a)"), Err(DbError::BadCreateTable));
    assert_eq!(Cell::parse_create_table("CREATE TABLE t (a int, b text"), Err(DbError::BadCreateTable));
}

#[test]
fn create_table_keeps_columns_named_like_keywords() {
    let cols = Cell::parse_create_table("CREATE TABLE t (id integer, checksum text, uniqueness int)")
        .unwrap();
    assert_eq!(cols, vec!["id", "checksum", "uniqueness"]);
    let cols = Cell::parse_create_table("CREATE TABLE t (primary_key int, constrained text)").unwrap();
    assert_eq!(cols, vec!["primary_key", "constrained"]);
}

#[test]
fn create_table_splits_only_top_level_commas() {
    let cols = Cell::parse_create_table("CREATE TABLE t (a varchar(10), b text)").unwrap();
    assert_eq!(cols, vec!["a", "b"]);
    let cols = Cell::parse_create_table("CREATE TABLE t (a int, b decimal(10,2), c text)").unwrap();
    assert_eq!(cols, vec!["a", "b", "c"]);
    let cols = Cell::parse_create_table(
        "CREATE TABLE t (a int CHECK(a > 0), b int, UNIQUE(a, b), CHECK(b < 9)) WITHOUT ROWID",
    )
    .unwrap();
    assert_eq!(cols, vec!["a", "b"]);
}

#[test]
fn column_list_of_captured_text() {
    assert_eq!(Cell::parse_column_list(" x int , ,y) tail"), Some(vec!["x".to_string(), "y".to_string()]));
    assert_eq!(Cell::parse_column_list(")"), Some(vec![]));
    assert_eq!(Cell::parse_column_list(" x int"), None);
    assert_eq!(Cell::parse_column_list(""), None);
}
