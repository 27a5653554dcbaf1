use vstd::prelude::*;

use crate::error::DbError;
use crate::page::{
    Cell, be16, cell_values, prepend, zip_row, pair_texts, create_table_tail, column_names,
    POINTER_ARRAY_START,
};
use crate::query::{
    extract_columns, extract_tables, extract_where_conditions, selected_columns, selected_tables,
    query_conditions, pairs_map, unique_keys,
};
use crate::schema::{SqliteRead, TableMeta, metas};
use crate::text::{
    same_word, is_word, same_text, texts, strs, words, split_words, decimal, push_digits,
};

verus! {

broadcast use vstd::string::group_string_axioms;

/// What a `SELECT` statement asks for: the columns to show (or `COUNT(*)`),
/// the tables to read, and the equality conditions of its `WHERE` clause.
pub struct Query {
    pub columns: Vec<String>,
    pub tables: Vec<String>,
    pub conditions: Option<Vec<(String, String)>>,
}

/// The conditions of a query as (column, literal) pairs, if it has any.
pub open spec fn conds_view(c: Option<Vec<(String, String)>>) -> Option<
    Seq<(Seq<char>, Seq<char>)>,
> {
    match c {
        None => None,
        Some(v) => Some(pair_texts(v@)),
    }
}

/// Tokenizes a statement into its whitespace-separated words and, when the
/// first word is `select`, extracts what it asks for; any other statement
/// asks nothing.
pub fn plan_query(sql: &str) -> (r: Option<Query>)
    ensures
        words(sql@).len() == 0 || !same_word(words(sql@)[0], "select"@) ==> r is None,
        words(sql@).len() > 0 && same_word(words(sql@)[0], "select"@) ==> r is Some,
        r matches Some(q) ==> {
            let t = words(sql@);
            &&& texts(q.columns@) == selected_columns(t)
            &&& texts(q.tables@) == selected_tables(t)
            &&& (query_conditions(t).len() == 0 <==> q.conditions is None)
            &&& (q.conditions matches Some(v) ==> unique_keys(pair_texts(v@)) && pairs_map(
                pair_texts(v@),
            ) == pairs_map(query_conditions(t)))
        },
{
    let tokens = split_words(sql);
    assert(strs(tokens@).len() == tokens@.len());
    if tokens.len() == 0 {
        return None;
    }
    assert(strs(tokens@)[0] == tokens@[0]@);
    if !is_word(tokens[0], "select") {
        return None;
    }
    Some(
        Query {
            columns: extract_columns(&tokens),
            tables: extract_tables(&tokens),
            conditions: extract_where_conditions(&tokens),
        },
    )
}

/// The positions, in order, of the tables whose name is one of `froms`.
pub open spec fn chosen(names: Seq<Seq<char>>, froms: Seq<Seq<char>>) -> Seq<int>
    decreases names.len(),
{
    if names.len() == 0 {
        Seq::empty()
    } else {
        chosen(names.drop_last(), froms) + if froms.contains(names.last()) {
            seq![names.len() - 1]
        } else {
            Seq::empty()
        }
    }
}

/// Whether `name` is one of `froms`.
fn named_in(name: &String, froms: &Vec<String>) -> (r: bool)
    ensures
        r == texts(froms@).contains(name@),
{
    let mut i: usize = 0;
    while i < froms.len()
        invariant
            i <= froms@.len(),
            forall|k: int| 0 <= k < i ==> texts(froms@)[k] != name@,
        decreases froms@.len() - i,
    {
        if same_text(froms[i].as_str(), name.as_str()) {
            assert(texts(froms@)[i as int] == name@);
            return true;
        }
        i = i + 1;
    }
    false
}

/// The positions, in order, of the tables that `froms` names; each is read
/// on its own, with no join.
pub fn tables_to_read(tables: &Vec<TableMeta>, froms: &Vec<String>) -> (r: Vec<usize>)
    ensures
        r@.map_values(|i: usize| i as int) == chosen(
            metas(tables@).map_values(|m: (Seq<char>, Seq<char>, Seq<char>)| m.0),
            texts(froms@),
        ),
{
    let ghost names = metas(tables@).map_values(|m: (Seq<char>, Seq<char>, Seq<char>)| m.0);
    let mut out: Vec<usize> = Vec::new();
    let mut i: usize = 0;
    while i < tables.len()
        invariant
            i <= tables@.len(),
            names == metas(tables@).map_values(|m: (Seq<char>, Seq<char>, Seq<char>)| m.0),
            out@.map_values(|k: usize| k as int) == chosen(names.subrange(0, i as int), texts(froms@)),
        decreases tables@.len() - i,
    {
        assert(names.subrange(0, i + 1).drop_last() == names.subrange(0, i as int));
        assert(names[i as int] == tables@[i as int].name@);
        let ghost before = out@;
        if named_in(&tables[i].name, froms) {
            out.push(i);
            assert(out@.map_values(|k: usize| k as int) =~= before.map_values(|k: usize| k as int)
                + seq![i as int]);
        } else {
            assert(out@.map_values(|k: usize| k as int) =~= before.map_values(|k: usize| k as int)
                + Seq::<int>::empty());
        }
        i = i + 1;
    }
    assert(names.subrange(0, i as int) == names);
    out
}

/// The value of a string of decimal digits.
pub open spec fn digits_value(s: Seq<char>) -> int
    decreases s.len(),
{
    if s.len() == 0 {
        0
    } else {
        digits_value(s.drop_last()) * 10 + (s.last() as u32 - '0' as u32)
    }
}

/// Whether every character of `s` is a decimal digit.
pub open spec fn all_digits(s: Seq<char>) -> bool {
    forall|i: int| 0 <= i < s.len() ==> '0' <= #[trigger] s[i] <= '9'
}

/// The page number written in `s`: one or more decimal digits, at most 65535.
pub open spec fn page_number(s: Seq<char>) -> Option<int> {
    if s.len() > 0 && all_digits(s) && digits_value(s) <= 65535 {
        Some(digits_value(s))
    } else {
        None
    }
}

proof fn lemma_digits_value_grows(s: Seq<char>, i: int)
    requires
        0 <= i <= s.len(),
        all_digits(s),
    ensures
        0 <= digits_value(s.subrange(0, i)) <= digits_value(s),
    decreases s.len(),
{
    if i == s.len() {
        assert(s.subrange(0, i) == s);
        if s.len() > 0 {
            assert(all_digits(s.drop_last()));
            lemma_digits_value_grows(s.drop_last(), 0);
        }
    } else {
        assert(all_digits(s.drop_last()));
        assert(s.drop_last().subrange(0, i) == s.subrange(0, i));
        lemma_digits_value_grows(s.drop_last(), i);
        lemma_digits_value_grows(s.drop_last(), s.len() - 1);
        assert(s.drop_last().subrange(0, s.len() - 1) == s.drop_last());
    }
}

/// The page number written in `s`, if it is one.
pub fn parse_page_number(s: &str) -> (r: Option<u16>)
    ensures
        match page_number(s@) {
            Some(n) => r == Some(n as u16),
            None => r is None,
        },
{
    let n = s.unicode_len();
    if n == 0 {
        return None;
    }
    let mut acc: u32 = 0;
    let mut i: usize = 0;
    assert(s@.subrange(0, 0) == Seq::<char>::empty());
    while i < n
        invariant
            n == s@.len(),
            i <= n,
            acc == digits_value(s@.subrange(0, i as int)),
            acc <= 65535,
            forall|k: int| 0 <= k < i ==> '0' <= #[trigger] s@[k] <= '9',
        decreases n - i,
    {
        let c = s.get_char(i);
        if c < '0' || c > '9' {
            assert(!all_digits(s@));
            return None;
        }
        assert(s@.subrange(0, i + 1).drop_last() == s@.subrange(0, i as int));
        let next = acc * 10 + (c as u32 - '0' as u32);
        i = i + 1;
        if next > 65535 {
            proof {
                if all_digits(s@) {
                    lemma_digits_value_grows(s@, i as int);
                }
            }
            return None;
        }
        acc = next;
    }
    assert(s@.subrange(0, n as int) == s@);
    assert(all_digits(s@));
    Some(acc as u16)
}

/// The value of column `k` in a decoded row; where a name occurs twice the
/// later column counts.
pub open spec fn row_get(row: Seq<(Seq<char>, Seq<char>)>, k: Seq<char>) -> Option<Seq<char>>
    decreases row.len(),
{
    if row.len() == 0 {
        None
    } else if row.last().0 == k {
        Some(row.last().1)
    } else {
        row_get(row.drop_last(), k)
    }
}

/// The lowercase form of a text: each character replaced by its Unicode
/// lowercase mapping.
pub uninterp spec fn lower_of(s: Seq<char>) -> Seq<char>;

/// Relies on `str::to_lowercase`: the result depends on the characters alone.
#[verifier::external_body]
fn lowercase(s: &str) -> (r: String)
    ensures
        r@ == lower_of(s@),
{
    s.to_lowercase()
}

/// Whether a row meets one condition: its column is not in the row, or its
/// value equals the literal once both are lowercased.
pub open spec fn meets(row: Seq<(Seq<char>, Seq<char>)>, c: (Seq<char>, Seq<char>)) -> bool {
    match row_get(row, c.0) {
        None => true,
        Some(v) => lower_of(v) == lower_of(c.1),
    }
}

/// Whether a row meets every condition; with no conditions every row does.
pub open spec fn row_matches(
    row: Seq<(Seq<char>, Seq<char>)>,
    conds: Option<Seq<(Seq<char>, Seq<char>)>>,
) -> bool {
    match conds {
        None => true,
        Some(cs) => meets_all(row, cs),
    }
}

/// Whether a row meets each of the conditions `cs`.
pub open spec fn meets_all(row: Seq<(Seq<char>, Seq<char>)>, cs: Seq<(Seq<char>, Seq<char>)>) -> bool {
    forall|i: int| 0 <= i < cs.len() ==> #[trigger] meets(row, cs[i])
}

/// The values of the requested columns that the row has, in the requested order.
pub open spec fn projection(row: Seq<(Seq<char>, Seq<char>)>, targets: Seq<Seq<char>>) -> Seq<
    Seq<char>,
>
    decreases targets.len(),
{
    if targets.len() == 0 {
        Seq::empty()
    } else {
        projection(row, targets.drop_last()) + match row_get(row, targets.last()) {
            Some(v) => seq![v],
            None => Seq::empty(),
        }
    }
}

/// The parts joined by `|`.
pub open spec fn join_bar(parts: Seq<Seq<char>>) -> Seq<char>
    decreases parts.len(),
{
    if parts.len() == 0 {
        Seq::empty()
    } else if parts.len() == 1 {
        parts[0]
    } else {
        join_bar(parts.drop_last()) + "|"@ + parts.last()
    }
}

/// Whether the requested columns ask for the row count.
pub open spec fn is_count(targets: Seq<Seq<char>>) -> bool {
    targets.len() == 1 && same_word(targets[0], "COUNT(*)"@)
}

/// The output lines of cells `i..count` of a table page: each row that meets
/// the conditions, projected to the requested columns and joined by `|`.
pub open spec fn table_rows(
    page: Seq<u8>,
    i: int,
    count: int,
    columns: Seq<Seq<char>>,
    targets: Seq<Seq<char>>,
    conds: Option<Seq<(Seq<char>, Seq<char>)>>,
) -> Result<Seq<Seq<char>>, DbError>
    decreases count - i,
{
    if i >= count {
        Ok(Seq::empty())
    } else {
        match cell_values(page, be16(page, POINTER_ARRAY_START + 2 * i)) {
            Err(e) => Err(e),
            Ok(vals) => if vals.len() != columns.len() {
                Err(
                    DbError::ColumnCountMismatch {
                        expected: columns.len() as usize,
                        got: vals.len() as usize,
                    },
                )
            } else {
                let row = zip_row(columns, vals);
                prepend(
                    if row_matches(row, conds) {
                        seq![join_bar(projection(row, targets))]
                    } else {
                        Seq::empty()
                    },
                    table_rows(page, i + 1, count, columns, targets, conds),
                )
            },
        }
    }
}

/// The output lines of a query on one table page whose schema has `columns`:
/// the row count alone for `COUNT(*)`, read from the page header without
/// decoding any cell; otherwise one line per matching row.
pub open spec fn table_output(
    page: Seq<u8>,
    columns: Seq<Seq<char>>,
    targets: Seq<Seq<char>>,
    conds: Option<Seq<(Seq<char>, Seq<char>)>>,
) -> Result<Seq<Seq<char>>, DbError> {
    if page.len() < 5 {
        Err(DbError::NotEnoughData)
    } else if is_count(targets) {
        Ok(seq![decimal(be16(page, 3))])
    } else if POINTER_ARRAY_START + 2 * be16(page, 3) > page.len() {
        Err(DbError::NotEnoughData)
    } else {
        table_rows(page, 0, be16(page, 3), columns, targets, conds)
    }
}

/// The lines of a result, or its error.
pub open spec fn lines_result(r: Result<Vec<String>, DbError>) -> Result<Seq<Seq<char>>, DbError> {
    match r {
        Ok(v) => Ok(texts(v@)),
        Err(e) => Err(e),
    }
}

/// A condition on a column that the row does not have never filters the row
/// out: the row matches with it exactly when it matches without it.
pub proof fn lemma_absent_condition_ignored(
    row: Seq<(Seq<char>, Seq<char>)>,
    cs: Seq<(Seq<char>, Seq<char>)>,
    j: int,
)
    requires
        0 <= j < cs.len(),
        row_get(row, cs[j].0) is None,
    ensures
        row_matches(row, Some(cs)) == row_matches(row, Some(cs.remove(j))),
{
    let rest = cs.remove(j);
    assert(meets(row, cs[j]));
    if meets_all(row, rest) {
        assert forall|i: int| 0 <= i < cs.len() implies #[trigger] meets(row, cs[i]) by {
            if i < j {
                assert(rest[i] == cs[i]);
                assert(meets(row, rest[i]));
            } else if i > j {
                assert(rest[i - 1] == cs[i]);
                assert(meets(row, rest[i - 1]));
            }
        }
    }
    if meets_all(row, cs) {
        assert forall|i: int| 0 <= i < rest.len() implies #[trigger] meets(row, rest[i]) by {
            if i < j {
                assert(rest[i] == cs[i]);
                assert(meets(row, cs[i]));
            } else {
                assert(rest[i] == cs[i + 1]);
                assert(meets(row, cs[i + 1]));
            }
        }
    }
}

proof fn lemma_row_get_absent(columns: Seq<Seq<char>>, vals: Seq<Seq<char>>, k: Seq<char>)
    requires
        vals.len() == columns.len(),
        !columns.contains(k),
    ensures
        row_get(zip_row(columns, vals), k) is None,
    decreases columns.len(),
{
    if columns.len() > 0 {
        let row = zip_row(columns, vals);
        assert(row.drop_last() =~= zip_row(columns.drop_last(), vals.drop_last()));
        assert(row.last().0 == columns.last());
        assert(!columns.drop_last().contains(k)) by {
            if columns.drop_last().contains(k) {
                let j = choose|j: int| 0 <= j < columns.drop_last().len() && columns.drop_last()[j] == k;
                assert(columns[j] == k);
            }
        }
        assert(columns.last() != k) by {
            if columns.last() == k {
                assert(columns[columns.len() - 1] == k);
            }
        }
        lemma_row_get_absent(columns.drop_last(), vals.drop_last(), k);
    }
}

proof fn lemma_absent_rows(
    page: Seq<u8>,
    i: int,
    count: int,
    columns: Seq<Seq<char>>,
    targets: Seq<Seq<char>>,
    cs: Seq<(Seq<char>, Seq<char>)>,
)
    requires
        forall|k: int| 0 <= k < cs.len() ==> !columns.contains(#[trigger] cs[k].0),
    ensures
        table_rows(page, i, count, columns, targets, Some(cs)) == table_rows(
            page,
            i,
            count,
            columns,
            targets,
            None,
        ),
    decreases count - i,
{
    if i < count {
        lemma_absent_rows(page, i + 1, count, columns, targets, cs);
        match cell_values(page, be16(page, POINTER_ARRAY_START + 2 * i)) {
            Ok(vals) => {
                if vals.len() == columns.len() {
                    let row = zip_row(columns, vals);
                    assert forall|k: int| 0 <= k < cs.len() implies #[trigger] meets(row, cs[k]) by {
                        lemma_row_get_absent(columns, vals, cs[k].0);
                    }
                    assert(row_matches(row, Some(cs)));
                }
            },
            Err(_) => {},
        }
    }
}

/// Conditions that name no column of the table's schema filter nothing out:
/// the query yields exactly what it yields without them.
pub proof fn lemma_absent_columns_filter_nothing(
    page: Seq<u8>,
    columns: Seq<Seq<char>>,
    targets: Seq<Seq<char>>,
    cs: Seq<(Seq<char>, Seq<char>)>,
)
    requires
        forall|k: int| 0 <= k < cs.len() ==> !columns.contains(#[trigger] cs[k].0),
    ensures
        table_output(page, columns, targets, Some(cs)) == table_output(page, columns, targets, None),
{
    if page.len() >= 5 {
        lemma_absent_rows(page, 0, be16(page, 3), columns, targets, cs);
    }
}

/// A `COUNT(*)` query answers with the page's cell count alone: it reads the
/// page header and no cell, so pages that agree on their first five bytes
/// give the same answer, whatever their cells hold.
pub proof fn lemma_count_reads_no_cell(
    a: Seq<u8>,
    b: Seq<u8>,
    columns: Seq<Seq<char>>,
    targets: Seq<Seq<char>>,
    conds: Option<Seq<(Seq<char>, Seq<char>)>>,
)
    requires
        is_count(targets),
        a.len() >= 5,
        b.len() >= 5,
        a.subrange(0, 5) == b.subrange(0, 5),
    ensures
        table_output(a, columns, targets, conds) == Ok::<Seq<Seq<char>>, DbError>(
            seq![decimal(be16(a, 3))],
        ),
        table_output(a, columns, targets, conds) == table_output(b, columns, targets, conds),
{
    assert(a[3] == a.subrange(0, 5)[3] && a[4] == a.subrange(0, 5)[4]);
    assert(b[3] == b.subrange(0, 5)[3] && b[4] == b.subrange(0, 5)[4]);
}

/// The position of the value of column `k` in a row, as `row_get` finds it.
fn lookup(row: &Vec<(String, String)>, k: &str) -> (r: Option<usize>)
    ensures
        match row_get(pair_texts(row@), k@) {
            None => r is None,
            Some(v) => r matches Some(j) && j < row@.len() && row@[j as int].1@ == v,
        },
{
    let ghost ps = pair_texts(row@);
    let mut j: usize = row.len();
    assert(ps.subrange(0, j as int) == ps);
    while j > 0
        invariant
            j <= row@.len(),
            ps == pair_texts(row@),
            row_get(ps, k@) == row_get(ps.subrange(0, j as int), k@),
        decreases j,
    {
        let ghost pre = ps.subrange(0, j as int);
        assert(pre.last() == ps[j - 1]);
        assert(pre.drop_last() == ps.subrange(0, j - 1));
        assert(ps[j - 1] == (row@[j - 1].0@, row@[j - 1].1@));
        if same_text(row[j - 1].0.as_str(), k) {
            return Some(j - 1);
        }
        j = j - 1;
    }
    None
}

/// Whether a decoded row meets every condition.
fn matches_conditions(row: &Vec<(String, String)>, conds: &Option<Vec<(String, String)>>) -> (r:
    bool)
    ensures
        r == row_matches(pair_texts(row@), conds_view(*conds)),
{
    match conds {
        None => true,
        Some(cs) => {
            let ghost cv = pair_texts(cs@);
            assert(conds_view(*conds) == Some(cv));
            let mut i: usize = 0;
            while i < cs.len()
                invariant
                    i <= cs@.len(),
                    cv == pair_texts(cs@),
                    conds_view(*conds) == Some(cv),
                    forall|k: int| 0 <= k < i ==> #[trigger] meets(pair_texts(row@), cv[k]),
                decreases cs@.len() - i,
            {
                assert(cv[i as int] == (cs@[i as int].0@, cs@[i as int].1@));
                match lookup(row, cs[i].0.as_str()) {
                    None => {},
                    Some(j) => {
                        let value = lowercase(row[j].1.as_str());
                        let literal = lowercase(cs[i].1.as_str());
                        if !same_text(value.as_str(), literal.as_str()) {
                            assert(!meets(pair_texts(row@), cv[i as int]));
                            assert(conds_view(*conds) == Some(cv));
                            assert(!meets_all(pair_texts(row@), cv));
                            return false;
                        }
                    },
                }
                i = i + 1;
            }
            true
        },
    }
}

/// The requested columns of a row, joined by `|`.
fn project(row: &Vec<(String, String)>, targets: &Vec<String>) -> (r: String)
    ensures
        r@ == join_bar(projection(pair_texts(row@), texts(targets@))),
{
    let ghost ps = pair_texts(row@);
    let ghost ts = texts(targets@);
    let mut out = String::new();
    let mut any = false;
    let mut i: usize = 0;
    while i < targets.len()
        invariant
            i <= targets@.len(),
            ps == pair_texts(row@),
            ts == texts(targets@),
            out@ == join_bar(projection(ps, ts.subrange(0, i as int))),
            any == (projection(ps, ts.subrange(0, i as int)).len() > 0),
        decreases targets@.len() - i,
    {
        let ghost pre = projection(ps, ts.subrange(0, i as int));
        assert(ts.subrange(0, i + 1).drop_last() == ts.subrange(0, i as int));
        assert(ts.subrange(0, i + 1).last() == targets@[i as int]@);
        match lookup(row, targets[i].as_str()) {
            None => {
                assert(pre + Seq::<Seq<char>>::empty() == pre);
            },
            Some(j) => {
                let ghost v = row@[j as int].1@;
                let ghost post = pre + seq![v];
                assert(post.drop_last() == pre);
                if any {
                    out.append("|");
                }
                out.append(row[j].1.as_str());
                any = true;
                proof {
                    if pre.len() == 0 {
                        assert(post.len() == 1 && post[0] == v);
                    }
                }
            },
        }
        i = i + 1;
    }
    assert(ts.subrange(0, i as int) == ts);
    out
}

/// Whether the requested columns ask for the row count.
fn asks_count(targets: &Vec<String>) -> (r: bool)
    ensures
        r == is_count(texts(targets@)),
{
    targets.len() == 1 && is_word(targets[0].as_str(), "COUNT(*)")
}

/// The output lines of `query` on a table page whose schema has `columns`.
pub fn evaluate_rows(page: &Vec<u8>, columns: &Vec<String>, query: &Query) -> (r: Result<
    Vec<String>,
    DbError,
>)
    ensures
        lines_result(r) == table_output(
            page@,
            texts(columns@),
            texts(query.columns@),
            conds_view(query.conditions),
        ),
{
    let ghost cols = texts(columns@);
    let ghost targets = texts(query.columns@);
    let ghost conds = conds_view(query.conditions);
    let count = SqliteRead::row_count(page)?;
    if asks_count(&query.columns) {
        let mut line = String::new();
        push_digits(&mut line, count as u64);
        let lines = vec![line];
        assert(texts(lines@) == seq![line@]);
        return Ok(lines);
    }
    if page.len() < POINTER_ARRAY_START || (page.len() - POINTER_ARRAY_START) / 2 < count as usize {
        return Err(DbError::NotEnoughData);
    }
    let ptrs = Cell::read_cell_pointer_array(page.as_slice(), count);
    let mut out: Vec<String> = Vec::new();
    let mut i: usize = 0;
    let ghost n = count as int;
    while i < ptrs.len()
        invariant
            ptrs@.len() == count,
            n == count,
            i <= n,
            cols == texts(columns@),
            targets == texts(query.columns@),
            conds == conds_view(query.conditions),
            columns@.len() == cols.len(),
            table_output(page@, cols, targets, conds) == table_rows(page@, 0, n, cols, targets, conds),
            forall|k: int|
                0 <= k < count ==> #[trigger] ptrs@[k] == be16(page@, POINTER_ARRAY_START + 2 * k),
            table_rows(page@, 0, n, cols, targets, conds) == prepend(
                texts(out@),
                table_rows(page@, i as int, n, cols, targets, conds),
            ),
        decreases n - i,
    {
        assert(ptrs@[i as int] == be16(page@, POINTER_ARRAY_START + 2 * i));
        let names = columns.as_slice();
        let row = Cell::parse_cell_as_map(page.as_slice(), ptrs[i] as usize, names)?;
        let ghost next = table_rows(page@, i + 1, n, cols, targets, conds);
        let ghost before = out@;
        if matches_conditions(&row, &query.conditions) {
            let line = project(&row, &query.columns);
            out.push(line);
            proof {
                assert(texts(out@) == texts(before).push(line@));
                match next {
                    Ok(rest) => {
                        assert(texts(before) + (seq![line@] + rest) == texts(out@) + rest);
                    },
                    Err(_) => {},
                }
            }
        } else {
            proof {
                match next {
                    Ok(rest) => {
                        assert(Seq::<Seq<char>>::empty() + rest == rest);
                    },
                    Err(_) => {},
                }
            }
        }
        i = i + 1;
    }
    assert(texts(out@) + Seq::<Seq<char>>::empty() == texts(out@));
    Ok(out)
}

/// The output lines of `query` on a table page whose `CREATE TABLE`
/// statement is `create_sql`.
pub fn evaluate_table(page: &Vec<u8>, create_sql: &str, query: &Query) -> (r: Result<
    Vec<String>,
    DbError,
>)
    ensures
        match create_table_tail(create_sql@) {
            None => r == Err::<Vec<String>, DbError>(DbError::BadCreateTable),
            Some(tail) => match column_names(tail) {
                None => r == Err::<Vec<String>, DbError>(DbError::BadCreateTable),
                Some(cols) => lines_result(r) == table_output(
                    page@,
                    cols,
                    texts(query.columns@),
                    conds_view(query.conditions),
                ),
            },
        },
{
    let columns = Cell::parse_create_table(create_sql)?;
    evaluate_rows(page, &columns, query)
}

} // verus!
