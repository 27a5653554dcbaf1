use vstd::prelude::*;

use crate::error::DbError;
use crate::page::{Cell, be16, cell_values, prepend, POINTER_ARRAY_START};
use crate::text::{texts, same_text};

verus! {

broadcast use vstd::string::group_string_axioms;

/// Where the first page's own content begins in the file: the file header comes first.
pub const FILE_HEADER_LEN: u16 = 100;

/// Reading the header fields of the file and of a page.
pub struct SqliteRead {}

impl SqliteRead {
    /// The cell count of a page, in its two bytes at offset 3. On the first
    /// page those bytes belong to the file header, so it does not apply there.
    pub fn row_count(page: &Vec<u8>) -> (r: Result<u16, DbError>)
        ensures
            page@.len() >= 5 ==> r == Ok::<u16, DbError>(be16(page@, 3) as u16),
            page@.len() < 5 ==> r == Err::<u16, DbError>(DbError::NotEnoughData),
    {
        if page.len() < 5 {
            return Err(DbError::NotEnoughData);
        }
        Ok(page[3] as u16 * 256 + page[4] as u16)
    }

    /// The page size, in the two bytes at offset 16 of the file header.
    pub fn page_size_field(header: &[u8]) -> (r: Result<u16, DbError>)
        ensures
            header@.len() >= 18 ==> r == Ok::<u16, DbError>(be16(header@, 16) as u16),
            header@.len() < 18 ==> r == Err::<u16, DbError>(DbError::NotEnoughData),
    {
        if header.len() < 18 {
            return Err(DbError::NotEnoughData);
        }
        Ok(header[16] as u16 * 256 + header[17] as u16)
    }

    /// The number of schema entries, in the two bytes at offset 103 of the file:
    /// the cell count of the first page, behind the file header.
    pub fn table_count_field(header: &[u8]) -> (r: Result<u16, DbError>)
        ensures
            header@.len() >= 105 ==> r == Ok::<u16, DbError>(be16(header@, 103) as u16),
            header@.len() < 105 ==> r == Err::<u16, DbError>(DbError::NotEnoughData),
    {
        if header.len() < 105 {
            return Err(DbError::NotEnoughData);
        }
        Ok(header[103] as u16 * 256 + header[104] as u16)
    }

    /// Where page `n` (counted from 1) begins in the file: the first page's
    /// content right after the file header, page `n` at `page_size * (n - 1)`.
    pub fn page_offset(n: u16, page_size: u16) -> (r: u64)
        requires
            n >= 1,
        ensures
            n == 1 ==> r == FILE_HEADER_LEN,
            n > 1 ==> r == page_size * (n - 1),
    {
        if n == 1 {
            FILE_HEADER_LEN as u64
        } else {
            assert(page_size * (n - 1) <= 65535 * 65535) by (nonlinear_arith)
                requires page_size <= 65535, n - 1 <= 65535;
            page_size as u64 * (n as u64 - 1)
        }
    }
}

/// One table of the schema: its name, its root page as written in the schema,
/// and its `CREATE TABLE` statement.
pub struct TableMeta {
    pub name: String,
    pub root_page: String,
    pub sql: String,
}

impl View for TableMeta {
    type V = (Seq<char>, Seq<char>, Seq<char>);

    open spec fn view(&self) -> (Seq<char>, Seq<char>, Seq<char>) {
        (self.name@, self.root_page@, self.sql@)
    }
}

/// The views of a sequence of tables.
pub open spec fn metas(v: Seq<TableMeta>) -> Seq<(Seq<char>, Seq<char>, Seq<char>)> {
    v.map_values(|m: TableMeta| m@)
}

/// The name of the table in which the engine tracks row-id sequences.
pub open spec fn sequence_table() -> Seq<char> {
    "sqlite_sequence"@
}

/// The tables described by the schema cells `i..count` of the first page
/// (which starts behind the file header, so cell pointers are shifted by its
/// length). A schema row holds type, name, table name, root page and SQL; the
/// sequence-tracking table is left out.
pub open spec fn schema_from(page: Seq<u8>, i: int, count: int) -> Result<
    Seq<(Seq<char>, Seq<char>, Seq<char>)>,
    DbError,
>
    decreases count - i,
{
    if i >= count {
        Ok(Seq::empty())
    } else {
        let ptr = be16(page, POINTER_ARRAY_START + 2 * i);
        if ptr < FILE_HEADER_LEN {
            Err(DbError::BadCellPointer)
        } else {
            match cell_values(page, ptr - FILE_HEADER_LEN) {
                Err(e) => Err(e),
                Ok(vals) => if vals.len() < 5 {
                    Err(DbError::ColumnCountMismatch { expected: 5, got: vals.len() as usize })
                } else {
                    prepend(
                        if vals[1] == sequence_table() {
                            Seq::empty()
                        } else {
                            seq![(vals[1], vals[3], vals[4])]
                        },
                        schema_from(page, i + 1, count),
                    )
                },
            }
        }
    }
}

/// The user tables of the schema held in the first page's content `page0`,
/// whose cell count is `table_count`.
pub fn schema_tables(page0: &[u8], table_count: u16) -> (r: Result<Vec<TableMeta>, DbError>)
    ensures
        POINTER_ARRAY_START + 2 * table_count > page0@.len() ==> r == Err::<
            Vec<TableMeta>,
            DbError,
        >(DbError::NotEnoughData),
        POINTER_ARRAY_START + 2 * table_count <= page0@.len() ==> match r {
            Ok(v) => schema_from(page0@, 0, table_count as int) == Ok::<
                Seq<(Seq<char>, Seq<char>, Seq<char>)>,
                DbError,
            >(metas(v@)),
            Err(e) => schema_from(page0@, 0, table_count as int) == Err::<
                Seq<(Seq<char>, Seq<char>, Seq<char>)>,
                DbError,
            >(e),
        },
{
    if page0.len() < POINTER_ARRAY_START || (page0.len() - POINTER_ARRAY_START) / 2
        < table_count as usize {
        return Err(DbError::NotEnoughData);
    }
    let ptrs = Cell::read_cell_pointer_array(page0, table_count);
    let mut out: Vec<TableMeta> = Vec::new();
    let mut i: usize = 0;
    let ghost count = table_count as int;
    while i < ptrs.len()
        invariant
            ptrs@.len() == table_count,
            POINTER_ARRAY_START + 2 * table_count <= page0@.len(),
            count == table_count,
            i <= count,
            forall|k: int|
                0 <= k < table_count ==> #[trigger] ptrs@[k] == be16(
                    page0@,
                    POINTER_ARRAY_START + 2 * k,
                ),
            schema_from(page0@, 0, count) == prepend(metas(out@), schema_from(page0@, i as int, count)),
        decreases count - i,
    {
        let ptr = ptrs[i];
        assert(ptr == be16(page0@, POINTER_ARRAY_START + 2 * i));
        if ptr < FILE_HEADER_LEN {
            return Err(DbError::BadCellPointer);
        }
        let vals = Cell::parse_cell(page0, (ptr - FILE_HEADER_LEN) as usize)?;
        if vals.len() < 5 {
            return Err(DbError::ColumnCountMismatch { expected: 5, got: vals.len() });
        }
        let ghost tv = texts(vals@);
        assert(tv[1] == vals@[1]@ && tv[3] == vals@[3]@ && tv[4] == vals@[4]@);
        let ghost before = out@;
        let ghost next = schema_from(page0@, i + 1, count);
        if same_text(vals[1].as_str(), "sqlite_sequence") {
            assert(tv[1] == sequence_table());
            assert(prepend(metas(before), prepend(Seq::empty(), next)) == prepend(metas(out@), next)) by {
                assert(metas(before) + Seq::empty() == metas(before));
                match next {
                    Ok(rest) => {
                        assert(Seq::<(Seq<char>, Seq<char>, Seq<char>)>::empty() + rest == rest);
                    },
                    Err(_) => {},
                }
            }
        } else {
            assert(tv[1] != sequence_table());
            let meta = TableMeta {
                name: vals[1].clone(),
                root_page: vals[3].clone(),
                sql: vals[4].clone(),
            };
            out.push(meta);
            assert(metas(out@) == metas(before).push((tv[1], tv[3], tv[4])));
            proof {
                match next {
                    Ok(rest) => {
                        assert(metas(before) + (seq![(tv[1], tv[3], tv[4])] + rest) == metas(out@)
                            + rest);
                    },
                    Err(_) => {},
                }
            }
        }
        i = i + 1;
    }
    assert(metas(out@) + Seq::empty() == metas(out@));
    Ok(out)
}

} // verus!
