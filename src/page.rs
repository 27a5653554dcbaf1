use vstd::prelude::*;

use crate::error::DbError;
use crate::serial::{serial_width, value_text, read_value_at, width_of};
use crate::text::{
    texts, strs, trim, trim_str, first_word, first_word_str, same_word, is_word, leading_word,
    leading_word_str,
};
use crate::varint::{varint, read_varint_at, lemma_varint_bounds};

verus! {

/// The bytes of `data` from `pos` on; none when `pos` lies past its end.
pub open spec fn tail(data: Seq<u8>, pos: int) -> Seq<u8> {
    if 0 <= pos <= data.len() {
        data.subrange(pos, data.len() as int)
    } else {
        Seq::empty()
    }
}

/// The serial types of a record header whose `size` bytes begin at `start`,
/// read from `pos` on, and the position just after them.
pub open spec fn header_types(data: Seq<u8>, start: int, size: int, pos: int) -> Result<
    (Seq<u64>, int),
    DbError,
>
    decreases data.len() - pos,
{
    if pos - start >= size {
        Ok((Seq::empty(), pos))
    } else {
        match varint(tail(data, pos)) {
            None => Err(DbError::UnexpectedEnd),
            Some((t, n)) => {
                // a decoded varint always takes between 1 and the remaining bytes
                if n < 1 || pos + n > data.len() {
                    Err(DbError::UnexpectedEnd)
                } else {
                    match header_types(data, start, size, pos + n) {
                        Ok((ts, p)) => Ok((seq![t as u64] + ts, p)),
                        Err(e) => Err(e),
                    }
                }
            },
        }
    }
}

/// The texts of columns with serial types `types` whose bytes begin at `pos`.
pub open spec fn column_values(data: Seq<u8>, pos: int, types: Seq<u64>) -> Result<
    Seq<Seq<char>>,
    DbError,
>
    decreases types.len(),
{
    if types.len() == 0 {
        Ok(Seq::empty())
    } else {
        match value_text(tail(data, pos), types[0]) {
            Err(e) => Err(e),
            Ok(s) => match column_values(data, pos + serial_width(types[0]), types.drop_first()) {
                Ok(rest) => Ok(seq![s] + rest),
                Err(e) => Err(e),
            },
        }
    }
}

/// `pre` put in front of a successful result; an error is kept.
pub open spec fn prepend<T>(pre: Seq<T>, r: Result<Seq<T>, DbError>) -> Result<Seq<T>, DbError> {
    match r {
        Ok(rest) => Ok(pre + rest),
        Err(e) => Err(e),
    }
}

/// The column texts of the cell at `offset`: a payload-length varint, a row-id
/// varint, then a record header (its size as a varint, counting itself, and one
/// serial type per column) followed by the columns' bytes.
pub open spec fn cell_values(data: Seq<u8>, offset: int) -> Result<Seq<Seq<char>>, DbError> {
    match varint(tail(data, offset)) {
        None => Err(DbError::UnexpectedEnd),
        Some((_, n1)) => match varint(tail(data, offset + n1)) {
            None => Err(DbError::UnexpectedEnd),
            Some((_, n2)) => {
                let start = offset + n1 + n2;
                match varint(tail(data, start)) {
                    None => Err(DbError::UnexpectedEnd),
                    Some((size, n3)) => match header_types(data, start, size, start + n3) {
                        Err(e) => Err(e),
                        Ok((types, p)) => column_values(data, p, types),
                    },
                }
            },
        },
    }
}

/// Decoding reads the buffer and nothing else: the same bytes and offset
/// always give the same values, and decoding leaves the bytes as they were
/// (the decoder only borrows them).
pub proof fn lemma_cell_decoding_repeatable(a: Seq<u8>, b: Seq<u8>, offset: int)
    requires
        a == b,
    ensures
        cell_values(a, offset) == cell_values(b, offset),
{
}

/// The big-endian 16-bit number in the two bytes at `pos`.
pub open spec fn be16(data: Seq<u8>, pos: int) -> int {
    data[pos] * 256 + data[pos + 1]
}

/// Where the cell-pointer directory begins within a page.
pub const POINTER_ARRAY_START: usize = 8;

/// Decoding of the cells (rows) of a page.
pub struct Cell {}

impl Cell {
    /// The `cell_count` offsets of the page's cell-pointer directory, in order.
    pub fn read_cell_pointer_array(page_start: &[u8], cell_count: u16) -> (r: Vec<u16>)
        requires
            POINTER_ARRAY_START + 2 * cell_count <= page_start@.len(),
        ensures
            r@.len() == cell_count,
            forall|i: int|
                0 <= i < cell_count ==> #[trigger] r@[i] == be16(
                    page_start@,
                    POINTER_ARRAY_START + 2 * i,
                ),
    {
        let mut pointers: Vec<u16> = Vec::new();
        let mut i: u16 = 0;
        while i < cell_count
            invariant
                i <= cell_count,
                POINTER_ARRAY_START + 2 * cell_count <= page_start@.len(),
                pointers@.len() == i,
                forall|k: int|
                    0 <= k < i ==> #[trigger] pointers@[k] == be16(
                        page_start@,
                        POINTER_ARRAY_START + 2 * k,
                    ),
            decreases cell_count - i,
        {
            let pos = POINTER_ARRAY_START + 2 * (i as usize);
            let pointer = page_start[pos] as u16 * 256 + page_start[pos + 1] as u16;
            pointers.push(pointer);
            i = i + 1;
        }
        pointers
    }

    /// Decodes the cell at `offset` of `data` into the texts of its columns.
    pub fn parse_cell(data: &[u8], offset: usize) -> (r: Result<Vec<String>, DbError>)
        ensures
            match r {
                Ok(v) => cell_values(data@, offset as int) == Ok::<Seq<Seq<char>>, DbError>(
                    texts(v@),
                ),
                Err(e) => cell_values(data@, offset as int) == Err::<Seq<Seq<char>>, DbError>(e),
            },
    {
        let len = data.len();
        let (_, n1) = read_at(data, offset)?;
        let (_, n2) = read_at(data, offset + n1)?;
        let start = offset + n1 + n2;
        let (size, n3) = read_at(data, start)?;
        let mut pos = start + n3;
        let mut types: Vec<u64> = Vec::new();
        let ghost full = header_types(data@, start as int, size as int, pos as int);
        while ((pos - start) as u64) < size
            invariant
                len == data@.len(),
                start <= pos <= len,
                full == header_types(data@, start as int, size as int, start + n3),
                cell_values(data@, offset as int) == match full {
                    Ok((ts, p)) => column_values(data@, p, ts),
                    Err(e) => Err(e),
                },
                full == match header_types(data@, start as int, size as int, pos as int) {
                    Ok((ts, p)) => Ok((types@ + ts, p)),
                    Err(e) => Err(e),
                },
            decreases len - pos,
        {
            let (t, n) = read_at(data, pos)?;
            proof {
                lemma_varint_bounds(tail(data@, pos as int));
                match header_types(data@, start as int, size as int, pos + n) {
                    Ok((ts, p)) => {
                        assert(types@.push(t) + ts == types@ + (seq![t] + ts));
                    },
                    Err(e) => {},
                }
            }
            types.push(t);
            pos = pos + n;
        }
        assert(header_types(data@, start as int, size as int, pos as int) == Ok::<
            (Seq<u64>, int),
            DbError,
        >((Seq::<u64>::empty(), pos as int)));
        assert(types@ + Seq::<u64>::empty() == types@);
        let ghost values_start = pos;
        let mut values: Vec<String> = Vec::new();
        let mut i: usize = 0;
        assert(types@.subrange(0, types@.len() as int) == types@);
        while i < types.len()
            invariant
                len == data@.len(),
                pos <= len,
                i <= types@.len(),
                cell_values(data@, offset as int) == column_values(data@, values_start as int, types@),
                column_values(data@, values_start as int, types@) == prepend(
                    texts(values@),
                    column_values(data@, pos as int, types@.subrange(i as int, types@.len() as int)),
                ),
            decreases types@.len() - i,
        {
            let t = types[i];
            let ghost rest = types@.subrange(i as int, types@.len() as int);
            assert(rest[0] == t);
            assert(rest.drop_first() == types@.subrange(i + 1, types@.len() as int));
            let v = read_value_at(data, pos, t)?;
            let w = width_of(t);
            assert(w <= len - pos);
            proof {
                let next = column_values(data@, pos + w, rest.drop_first());
                match next {
                    Ok(more) => {
                        assert(texts(values@.push(v)) == texts(values@).push(v@));
                        assert(texts(values@) + (seq![v@] + more) == texts(values@).push(v@)
                            + more);
                    },
                    Err(e) => {},
                }
            }
            values.push(v);
            pos = pos + w as usize;
            i = i + 1;
        }
        assert(column_values(data@, pos as int, types@.subrange(i as int, types@.len() as int))
            == Ok::<Seq<Seq<char>>, DbError>(Seq::empty()));
        assert(texts(values@) + Seq::<Seq<char>>::empty() == texts(values@));
        Ok(values)
    }

    /// Decodes the cell at `offset` and pairs each value with the column name
    /// at its position; fails when the counts differ.
    pub fn parse_cell_as_map(data: &[u8], offset: usize, column_names: &[String]) -> (r: Result<
        Vec<(String, String)>,
        DbError,
    >)
        ensures
            match r {
                Ok(row) => cell_values(data@, offset as int) is Ok && pair_texts(row@) == zip_row(
                    texts(column_names@),
                    cell_values(data@, offset as int)->Ok_0,
                ) && cell_values(data@, offset as int)->Ok_0.len() == column_names@.len(),
                Err(e) => match cell_values(data@, offset as int) {
                    Err(e2) => e == e2,
                    Ok(vals) => vals.len() != column_names@.len() && e
                        == DbError::ColumnCountMismatch {
                        expected: column_names@.len() as usize,
                        got: vals.len() as usize,
                    },
                },
            },
    {
        let values = Self::parse_cell(data, offset)?;
        if values.len() != column_names.len() {
            return Err(
                DbError::ColumnCountMismatch { expected: column_names.len(), got: values.len() },
            );
        }
        let ghost vals = texts(values@);
        let mut row: Vec<(String, String)> = Vec::new();
        let mut i: usize = 0;
        while i < values.len()
            invariant
                i <= values@.len(),
                values@.len() == column_names@.len(),
                vals == texts(values@),
                pair_texts(row@) == zip_row(texts(column_names@), vals).subrange(0, i as int),
            decreases values@.len() - i,
        {
            let name = column_names[i].clone();
            let value = values[i].clone();
            let ghost before = row@;
            assert(name@ == texts(column_names@)[i as int]);
            assert(value@ == vals[i as int]);
            row.push((name, value));
            assert(pair_texts(row@) == pair_texts(before).push((name@, value@)));
            assert(pair_texts(row@) =~= zip_row(texts(column_names@), vals).subrange(
                0,
                i + 1,
            ));
            i = i + 1;
        }
        assert(zip_row(texts(column_names@), vals).subrange(0, i as int) =~= zip_row(
            texts(column_names@),
            vals,
        ));
        Ok(row)
    }

    /// The column names of a `CREATE TABLE` statement, in order; fails when
    /// the statement does not have that shape or its column list is never closed.
    pub fn parse_create_table(sql: &str) -> (r: Result<Vec<String>, DbError>)
        ensures
            match create_table_tail(sql@) {
                None => r == Err::<Vec<String>, DbError>(DbError::BadCreateTable),
                Some(tail) => match column_names(tail) {
                    None => r == Err::<Vec<String>, DbError>(DbError::BadCreateTable),
                    Some(cols) => r matches Ok(v) && texts(v@) == cols,
                },
            },
    {
        match first_group(CREATE_TABLE_PATTERN, sql) {
            None => Err(DbError::BadCreateTable),
            Some(tail) => match Self::parse_column_list(tail.as_str()) {
                None => Err(DbError::BadCreateTable),
                Some(names) => Ok(names),
            },
        }
    }

    /// The column names of a column list, given the text that follows its
    /// opening parenthesis: the first word of each item at the top level of
    /// the list, leaving out empty items and table constraints; `None` when
    /// the list is never closed.
    pub fn parse_column_list(tail: &str) -> (r: Option<Vec<String>>)
        ensures
            match column_names(tail@) {
                None => r is None,
                Some(cols) => r matches Some(v) && texts(v@) == cols,
            },
    {
        let n = tail.unicode_len();
        let mut items: Vec<&str> = Vec::new();
        let mut depth: usize = 0;
        let mut start: usize = 0;
        let mut i: usize = 0;
        assert(strs(items@) =~= Seq::<Seq<char>>::empty());
        while i < n
            invariant
                n == tail@.len(),
                start <= i <= n,
                depth <= i,
                top_level_items(tail@) == list_items(
                    tail@,
                    i as int,
                    depth as nat,
                    start as int,
                    strs(items@),
                ),
            decreases n - i,
        {
            let c = tail.get_char(i);
            if c == ')' && depth == 0 {
                let ghost before = items@;
                items.push(tail.substring_char(start, i));
                assert(strs(items@) =~= strs(before).push(tail@.subrange(start as int, i as int)));
                return Some(names_of(&items));
            } else if c == ')' {
                depth = depth - 1;
            } else if c == '(' {
                depth = depth + 1;
            } else if c == ',' && depth == 0 {
                let ghost before = items@;
                items.push(tail.substring_char(start, i));
                assert(strs(items@) =~= strs(before).push(tail@.subrange(start as int, i as int)));
                start = i + 1;
            }
            i = i + 1;
        }
        None
    }
}

/// The column names of a sequence of column-list items.
fn names_of(pieces: &Vec<&str>) -> (r: Vec<String>)
    ensures
        texts(r@) == column_list(strs(pieces@)),
{
    let mut names: Vec<String> = Vec::new();
    let mut i: usize = 0;
    while i < pieces.len()
        invariant
            i <= pieces@.len(),
            texts(names@) == column_list(strs(pieces@).subrange(0, i as int)),
        decreases pieces@.len() - i,
    {
        let ghost done = strs(pieces@).subrange(0, i as int);
        assert(strs(pieces@).subrange(0, i + 1).drop_last() == done);
        let ghost before = names@;
        match column_of(pieces[i]) {
            Some(name) => {
                names.push(name);
                assert(texts(names@) =~= texts(before) + seq![name@]);
            },
            None => {},
        }
        i = i + 1;
    }
    assert(strs(pieces@).subrange(0, i as int) == strs(pieces@));
    names
}

/// The name of one item of a column list, if it names a column.
fn column_of(piece: &str) -> (r: Option<String>)
    ensures
        match column_item(piece@) {
            None => r is None,
            Some(c) => r matches Some(s) && s@ == c,
        },
{
    let t = trim_str(piece);
    if t.unicode_len() == 0 {
        None
    } else if is_constraint_word(leading_word_str(t)) {
        None
    } else {
        Some(first_word_str(t).to_string())
    }
}

/// Whether a word opens a table constraint (`PRIMARY KEY`, `FOREIGN KEY`,
/// `UNIQUE`, `CHECK`, `CONSTRAINT`), ASCII letters compared without regard to case.
pub open spec fn constraint_word(w: Seq<char>) -> bool {
    same_word(w, "PRIMARY"@) || same_word(w, "FOREIGN"@) || same_word(w, "UNIQUE"@) || same_word(
        w,
        "CHECK"@,
    ) || same_word(w, "CONSTRAINT"@)
}

/// Whether a word opens a table constraint.
fn is_constraint_word(w: &str) -> (r: bool)
    ensures
        r == constraint_word(w@),
{
    is_word(w, "PRIMARY") || is_word(w, "FOREIGN") || is_word(w, "UNIQUE") || is_word(w, "CHECK")
        || is_word(w, "CONSTRAINT")
}

/// Whether a trimmed column-list item is a table constraint rather than a
/// column: its first word, up to whitespace or `(`, opens a constraint. A
/// column whose name merely begins with such a word (`checksum`) is no constraint.
pub open spec fn is_constraint(t: Seq<char>) -> bool {
    constraint_word(leading_word(t))
}

/// The column named by one item of a column list: its first word, unless the
/// item is empty or a table constraint.
pub open spec fn column_item(piece: Seq<char>) -> Option<Seq<char>> {
    let t = trim(piece);
    if t.len() == 0 || is_constraint(t) {
        None
    } else {
        Some(first_word(t))
    }
}

/// The columns named by a sequence of column-list items.
pub open spec fn column_list(pieces: Seq<Seq<char>>) -> Seq<Seq<char>>
    decreases pieces.len(),
{
    if pieces.len() == 0 {
        Seq::empty()
    } else {
        column_list(pieces.drop_last()) + match column_item(pieces.last()) {
            Some(c) => seq![c],
            None => Seq::empty(),
        }
    }
}

/// The items of a column list, scanned from position `i` of the text after
/// its opening parenthesis, at parenthesis nesting `depth`, with the current
/// item begun at `start` and the items `done` before it. An item ends at a
/// comma outside nested parentheses; the list ends at the `)` that closes it;
/// `None` when the text ends first.
pub open spec fn list_items(
    s: Seq<char>,
    i: int,
    depth: nat,
    start: int,
    done: Seq<Seq<char>>,
) -> Option<Seq<Seq<char>>>
    decreases s.len() - i,
{
    if i < 0 || i >= s.len() {
        None
    } else if s[i] == ')' && depth == 0 {
        Some(done.push(s.subrange(start, i)))
    } else if s[i] == ')' {
        list_items(s, i + 1, (depth - 1) as nat, start, done)
    } else if s[i] == '(' {
        list_items(s, i + 1, depth + 1, start, done)
    } else if s[i] == ',' && depth == 0 {
        list_items(s, i + 1, 0, i + 1, done.push(s.subrange(start, i)))
    } else {
        list_items(s, i + 1, depth, start, done)
    }
}

/// The top-level items of the column list whose text follows its opening
/// parenthesis, or `None` when the list is never closed.
pub open spec fn top_level_items(tail: Seq<char>) -> Option<Seq<Seq<char>>> {
    list_items(tail, 0, 0, 0, Seq::empty())
}

/// The columns of the column list whose text follows its opening parenthesis,
/// or `None` when the list is never closed.
pub open spec fn column_names(tail: Seq<char>) -> Option<Seq<Seq<char>>> {
    match top_level_items(tail) {
        None => None,
        Some(items) => Some(column_list(items)),
    }
}

/// The head of a `CREATE TABLE` statement; its group is all that follows the
/// opening parenthesis of the column list.
pub const CREATE_TABLE_PATTERN: &'static str = r"(?s)CREATE TABLE \w+\s*\((.*)";

/// The text that the first group of the regular expression `pattern` captures
/// at its leftmost match in `text`; `None` where `pattern` is not a valid
/// expression, does not match, or its first group takes no part in the match.
pub uninterp spec fn regex_first_group(pattern: Seq<char>, text: Seq<char>) -> Option<Seq<char>>;

/// The text after the opening parenthesis of a `CREATE TABLE` statement's
/// column list, as the statement pattern captures it; `None` when the
/// statement has no such head.
pub open spec fn create_table_tail(sql: Seq<char>) -> Option<Seq<char>> {
    regex_first_group(CREATE_TABLE_PATTERN@, sql)
}

/// Relies on `regex::Regex::new` to compile `pattern` and on
/// `regex::Regex::captures` for the groups of its leftmost match in `text`.
#[verifier::external_body]
fn first_group(pattern: &str, text: &str) -> (r: Option<String>)
    ensures
        match r {
            Some(s) => regex_first_group(pattern@, text@) == Some(s@),
            None => regex_first_group(pattern@, text@) is None,
        },
{
    let re = match regex::Regex::new(pattern) {
        Ok(re) => re,
        Err(_) => return None,
    };
    match re.captures(text) {
        Some(caps) => match caps.get(1) {
            Some(m) => Some(m.as_str().to_string()),
            None => None,
        },
        None => None,
    }
}

/// The texts of the (name, value) pairs of a decoded row.
pub open spec fn pair_texts(v: Seq<(String, String)>) -> Seq<(Seq<char>, Seq<char>)> {
    v.map_values(|p: (String, String)| (p.0@, p.1@))
}

/// Each column name paired with the value at its position.
pub open spec fn zip_row(names: Seq<Seq<char>>, vals: Seq<Seq<char>>) -> Seq<
    (Seq<char>, Seq<char>),
> {
    Seq::new(names.len(), |i: int| (names[i], vals[i]))
}

/// Decodes the varint at `pos`, as `tail` describes the bytes from there.
fn read_at(data: &[u8], pos: usize) -> (r: Result<(u64, usize), DbError>)
    ensures
        match r {
            Ok((v, n)) => varint(tail(data@, pos as int)) == Some((v as int, n as int)) && 1
                <= n && pos + n <= data@.len(),
            Err(e) => e == DbError::UnexpectedEnd && varint(tail(data@, pos as int)) is None,
        },
{
    proof {
        lemma_varint_bounds(tail(data@, pos as int));
    }
    read_varint_at(data, pos)
}

} // verus!
