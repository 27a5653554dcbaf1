//! What a tokenized `SELECT` asks for: its columns, its tables and the
//! equality conditions of its `WHERE` clause. The keywords are all ASCII, and
//! a token names a keyword when it spells it in any mix of ASCII upper and
//! lower case; the values in conditions are compared elsewhere, by their
//! Unicode lowercase forms.

use vstd::prelude::*;

use crate::page::pair_texts;
use crate::text::{same_word, is_word, same_text, strs, texts, trim, trim_str};
use vstd::pervasive::VecAdditionalExecFns;

verus! {

broadcast use vstd::string::group_string_axioms;

/// `s` without one trailing comma.
pub open spec fn drop_comma(s: Seq<char>) -> Seq<char> {
    if s.len() > 0 && s.last() == ',' {
        s.drop_last()
    } else {
        s
    }
}

/// A list item as written in a query: trimmed, one trailing comma dropped, trimmed again.
pub open spec fn clean(w: Seq<char>) -> Seq<char> {
    trim(drop_comma(trim(w)))
}

/// The cleaned token, unless cleaning leaves nothing.
pub open spec fn kept(w: Seq<char>) -> Seq<Seq<char>> {
    if clean(w).len() > 0 {
        seq![clean(w)]
    } else {
        Seq::empty()
    }
}

/// Whether the token ends the list of selected columns.
pub open spec fn ends_columns(w: Seq<char>) -> bool {
    same_word(w, "from"@) || same_word(w, "where"@) || same_word(w, "order"@)
}

/// Whether the token ends the list of tables.
pub open spec fn ends_tables(w: Seq<char>) -> bool {
    same_word(w, "where"@) || same_word(w, "order"@) || same_word(w, "group"@) || same_word(
        w,
        "limit"@,
    ) || same_word(w, "join"@)
}

/// Whether the token ends the `WHERE` clause.
pub open spec fn ends_where(w: Seq<char>) -> bool {
    same_word(w, "order"@) || same_word(w, "group"@) || same_word(w, "limit"@) || same_word(
        w,
        ";"@,
    )
}

/// The items of the list that the first `start` token opens, up to the first
/// later token that `ends` the list (`on` tells whether the list is open
/// already). Before the list opens no token ends it; once it is open, `start`
/// is an ordinary item.
pub open spec fn list_after(
    t: Seq<Seq<char>>,
    start: Seq<char>,
    ends: spec_fn(Seq<char>) -> bool,
    on: bool,
) -> Seq<Seq<char>>
    decreases t.len(),
{
    if t.len() == 0 {
        Seq::empty()
    } else if on {
        if ends(t[0]) {
            Seq::empty()
        } else {
            kept(t[0]) + list_after(t.drop_first(), start, ends, true)
        }
    } else if same_word(t[0], start) {
        list_after(t.drop_first(), start, ends, true)
    } else {
        list_after(t.drop_first(), start, ends, false)
    }
}

/// The selected columns of a tokenized query.
pub open spec fn selected_columns(t: Seq<Seq<char>>) -> Seq<Seq<char>> {
    list_after(t, "select"@, |w: Seq<char>| ends_columns(w), false)
}

/// The tables of a tokenized query.
pub open spec fn selected_tables(t: Seq<Seq<char>>) -> Seq<Seq<char>> {
    list_after(t, "from"@, |w: Seq<char>| ends_tables(w), false)
}

/// A token cleaned as a list item.
fn clean_str(w: &str) -> (r: &str)
    ensures
        r@ == clean(w@),
{
    let t = trim_str(w);
    let n = t.unicode_len();
    if n > 0 && t.get_char(n - 1) == ',' {
        trim_str(t.substring_char(0, n - 1))
    } else {
        trim_str(t)
    }
}

/// Which list a scan collects.
enum ListKind {
    Columns,
    Tables,
}

fn ends_list(kind: &ListKind, w: &str) -> (r: bool)
    ensures
        r == match kind {
            ListKind::Columns => ends_columns(w@),
            ListKind::Tables => ends_tables(w@),
        },
{
    match kind {
        ListKind::Columns => is_word(w, "from") || is_word(w, "where") || is_word(w, "order"),
        ListKind::Tables => is_word(w, "where") || is_word(w, "order") || is_word(w, "group")
            || is_word(w, "limit") || is_word(w, "join"),
    }
}

/// Collects the items of the list that `start` opens.
fn collect_list(commands: &Vec<&str>, start: &str, kind: ListKind) -> (r: Vec<String>)
    ensures
        texts(r@) == list_after(
            strs(commands@),
            start@,
            match kind {
                ListKind::Columns => |w: Seq<char>| ends_columns(w),
                ListKind::Tables => |w: Seq<char>| ends_tables(w),
            },
            false,
        ),
{
    let ghost ends = match kind {
        ListKind::Columns => |w: Seq<char>| ends_columns(w),
        ListKind::Tables => |w: Seq<char>| ends_tables(w),
    };
    let ghost t = strs(commands@);
    let n = commands.len();
    let mut out: Vec<String> = Vec::new();
    let mut on = false;
    let mut i: usize = 0;
    assert(t.subrange(0, n as int) == t);
    while i < n
        invariant
            n == commands@.len(),
            t == strs(commands@),
            i <= n,
            ends == match kind {
                ListKind::Columns => |w: Seq<char>| ends_columns(w),
                ListKind::Tables => |w: Seq<char>| ends_tables(w),
            },
            list_after(t, start@, ends, false) == texts(out@) + list_after(
                t.subrange(i as int, n as int),
                start@,
                ends,
                on,
            ),
        decreases n - i,
    {
        let w = commands[i];
        let ghost rest = t.subrange(i as int, n as int);
        assert(rest[0] == w@);
        assert(rest.drop_first() == t.subrange(i + 1, n as int));
        if !on {
            if is_word(w, start) {
                on = true;
            }
        } else if ends_list(&kind, w) {
            assert(list_after(rest, start@, ends, on) == Seq::<Seq<char>>::empty());
            assert(texts(out@) + Seq::<Seq<char>>::empty() == texts(out@));
            return out;
        } else {
            let c = clean_str(w);
            let ghost before = out@;
            if c.unicode_len() > 0 {
                out.push(c.to_string());
                assert(texts(out@) == texts(before).push(c@));
                assert(texts(before) + (kept(w@) + list_after(rest.drop_first(), start@, ends, true))
                    == texts(out@) + list_after(rest.drop_first(), start@, ends, true));
            } else {
                assert(kept(w@) == Seq::<Seq<char>>::empty());
                assert(kept(w@) + list_after(rest.drop_first(), start@, ends, true) == list_after(
                    rest.drop_first(),
                    start@,
                    ends,
                    true,
                ));
            }
        }
        i = i + 1;
    }
    assert(texts(out@) + Seq::<Seq<char>>::empty() == texts(out@));
    out
}

/// The columns that a tokenized `SELECT` names, from `select` up to `from`,
/// `where` or `order`; `COUNT(*)` is kept as it stands.
pub fn extract_columns(commands: &Vec<&str>) -> (r: Vec<String>)
    ensures
        texts(r@) == selected_columns(strs(commands@)),
{
    collect_list(commands, "select", ListKind::Columns)
}

/// The tables that a tokenized `SELECT` names, from `from` up to `where`,
/// `order`, `group`, `limit` or `join`.
pub fn extract_tables(commands: &Vec<&str>) -> (r: Vec<String>)
    ensures
        texts(r@) == selected_tables(strs(commands@)),
{
    collect_list(commands, "from", ListKind::Tables)
}

/// The tokens of the `WHERE` clause: those after the first `where`, up to the
/// first later `order`, `group`, `limit` or `;` (`on` tells whether the clause
/// is open already).
pub open spec fn where_tokens(t: Seq<Seq<char>>, on: bool) -> Seq<Seq<char>>
    decreases t.len(),
{
    if t.len() == 0 {
        Seq::empty()
    } else if on {
        if ends_where(t[0]) {
            Seq::empty()
        } else {
            seq![t[0]] + where_tokens(t.drop_first(), true)
        }
    } else if same_word(t[0], "where"@) {
        where_tokens(t.drop_first(), true)
    } else {
        where_tokens(t.drop_first(), false)
    }
}

/// `s` without one layer of matching single or double quotes.
pub open spec fn unquote(s: Seq<char>) -> Seq<char> {
    if s.len() >= 2 && (s[0] == '\'' || s[0] == '"') && s.last() == s[0] {
        s.subrange(1, s.len() - 1)
    } else {
        s
    }
}

/// The `column = literal` patterns of a `WHERE` clause, left to right: `and`
/// and `or` are skipped, and a token that starts no pattern is skipped alone.
pub open spec fn conditions(t: Seq<Seq<char>>) -> Seq<(Seq<char>, Seq<char>)>
    decreases t.len(),
{
    if t.len() == 0 {
        Seq::empty()
    } else if same_word(t[0], "and"@) || same_word(t[0], "or"@) {
        conditions(t.drop_first())
    } else if t.len() > 2 && t[1] == "="@ {
        seq![(trim(t[0]), unquote(trim(t[2])))] + conditions(t.subrange(3, t.len() as int))
    } else {
        conditions(t.drop_first())
    }
}

/// The mapping that a sequence of (key, value) pairs builds, a later pair
/// replacing an earlier one with the same key.
pub open spec fn pairs_map(ps: Seq<(Seq<char>, Seq<char>)>) -> Map<Seq<char>, Seq<char>>
    decreases ps.len(),
{
    if ps.len() == 0 {
        Map::empty()
    } else {
        pairs_map(ps.drop_last()).insert(ps.last().0, ps.last().1)
    }
}

/// No key occurs twice.
pub open spec fn unique_keys(ps: Seq<(Seq<char>, Seq<char>)>) -> bool {
    forall|i: int, j: int| 0 <= i < j < ps.len() ==> #[trigger] ps[i].0 != #[trigger] ps[j].0
}

/// The equality conditions of a tokenized query.
pub open spec fn query_conditions(t: Seq<Seq<char>>) -> Seq<(Seq<char>, Seq<char>)> {
    conditions(where_tokens(t, false))
}

proof fn lemma_pairs_map_update(ps: Seq<(Seq<char>, Seq<char>)>, j: int, v: Seq<char>)
    requires
        0 <= j < ps.len(),
        unique_keys(ps),
    ensures
        pairs_map(ps.update(j, (ps[j].0, v))) == pairs_map(ps).insert(ps[j].0, v),
    decreases ps.len(),
{
    let k = ps[j].0;
    let u = ps.update(j, (k, v));
    if j == ps.len() - 1 {
        assert(u.drop_last() == ps.drop_last());
        assert(pairs_map(u) =~= pairs_map(ps).insert(k, v));
    } else {
        assert(u.drop_last() == ps.drop_last().update(j, (k, v)));
        lemma_pairs_map_update(ps.drop_last(), j, v);
        assert(ps.last().0 != k);
        assert(pairs_map(u) =~= pairs_map(ps).insert(k, v));
    }
}

proof fn lemma_pairs_map_absent(ps: Seq<(Seq<char>, Seq<char>)>, k: Seq<char>)
    requires
        forall|i: int| 0 <= i < ps.len() ==> #[trigger] ps[i].0 != k,
    ensures
        !pairs_map(ps).contains_key(k),
    decreases ps.len(),
{
    if ps.len() > 0 {
        lemma_pairs_map_absent(ps.drop_last(), k);
    }
}

/// `s` without one layer of matching single or double quotes.
fn unquote_str(s: &str) -> (r: &str)
    ensures
        r@ == unquote(s@),
{
    let n = s.unicode_len();
    if n >= 2 {
        let first = s.get_char(0);
        if (first == '\'' || first == '"') && s.get_char(n - 1) == first {
            return s.substring_char(1, n - 1);
        }
    }
    s
}

/// The tokens of the `WHERE` clause.
fn collect_where<'a>(commands: &Vec<&'a str>) -> (r: Vec<&'a str>)
    ensures
        strs(r@) == where_tokens(strs(commands@), false),
{
    let ghost t = strs(commands@);
    let n = commands.len();
    let mut out: Vec<&str> = Vec::new();
    let mut on = false;
    let mut i: usize = 0;
    assert(t.subrange(0, n as int) == t);
    while i < n
        invariant
            n == commands@.len(),
            t == strs(commands@),
            i <= n,
            where_tokens(t, false) == strs(out@) + where_tokens(t.subrange(i as int, n as int), on),
        decreases n - i,
    {
        let w = commands[i];
        let ghost rest = t.subrange(i as int, n as int);
        assert(rest[0] == w@);
        assert(rest.drop_first() == t.subrange(i + 1, n as int));
        if !on {
            if is_word(w, "where") {
                on = true;
            }
        } else if is_word(w, "order") || is_word(w, "group") || is_word(w, "limit") || is_word(
            w,
            ";",
        ) {
            assert(strs(out@) + Seq::<Seq<char>>::empty() == strs(out@));
            return out;
        } else {
            let ghost before = out@;
            out.push(w);
            assert(strs(out@) == strs(before).push(w@));
            assert(strs(before) + (seq![w@] + where_tokens(rest.drop_first(), true)) == strs(
                out@,
            ) + where_tokens(rest.drop_first(), true));
        }
        i = i + 1;
    }
    assert(strs(out@) + Seq::<Seq<char>>::empty() == strs(out@));
    out
}

/// Sets `key` to `value` in a list of pairs whose keys are unique.
fn put(pairs: &mut Vec<(String, String)>, key: String, value: String)
    requires
        unique_keys(pair_texts(old(pairs)@)),
    ensures
        final(pairs)@.len() > 0,
        unique_keys(pair_texts(final(pairs)@)),
        pairs_map(pair_texts(final(pairs)@)) == pairs_map(pair_texts(old(pairs)@)).insert(
            key@,
            value@,
        ),
{
    let ghost ps = pair_texts(pairs@);
    let ghost k = key@;
    let ghost v = value@;
    let mut j: usize = 0;
    while j < pairs.len()
        invariant
            ps == pair_texts(pairs@),
            ps == pair_texts(old(pairs)@),
            k == key@,
            v == value@,
            unique_keys(ps),
            j <= pairs@.len(),
            forall|i: int| 0 <= i < j ==> #[trigger] ps[i].0 != key@,
        decreases pairs@.len() - j,
    {
        assert(ps[j as int] == (pairs@[j as int].0@, pairs@[j as int].1@));
        if same_text(pairs[j].0.as_str(), key.as_str()) {
            assert(ps[j as int].0 == k);
            let ghost u = ps.update(j as int, (k, v));
            proof {
                lemma_pairs_map_update(ps, j as int, v);
            }
            assert(pairs_map(u) == pairs_map(ps).insert(k, v));
            pairs.set(j, (key, value));
            assert(pair_texts(pairs@) =~= u);
            assert forall|a: int| 0 <= a < ps.len() implies #[trigger] pair_texts(pairs@)[a].0
                == ps[a].0 by {}
            return;
        }
        j = j + 1;
    }
    proof {
        lemma_pairs_map_absent(ps, key@);
    }
    pairs.push((key, value));
    assert(pair_texts(pairs@) =~= ps.push((key@, value@)));
    assert(pair_texts(pairs@).drop_last() == ps);
}

/// The equality conditions of the `WHERE` clause of a tokenized query, as a
/// mapping from column to literal (a later condition on a column replaces an
/// earlier one); `None` when there is no `WHERE` clause or it holds no
/// `column = literal` pattern.
pub fn extract_where_conditions(commands: &Vec<&str>) -> (r: Option<Vec<(String, String)>>)
    ensures
        query_conditions(strs(commands@)).len() == 0 <==> r is None,
        r matches Some(v) ==> unique_keys(pair_texts(v@)) && pairs_map(pair_texts(v@))
            == pairs_map(query_conditions(strs(commands@))),
{
    let tokens = collect_where(commands);
    let ghost t = strs(tokens@);
    let n = tokens.len();
    let mut found: Vec<(String, String)> = Vec::new();
    let ghost mut seen: Seq<(Seq<char>, Seq<char>)> = Seq::empty();
    let mut i: usize = 0;
    assert(t.subrange(0, n as int) == t);
    while i < n
        invariant
            n == tokens@.len(),
            t == strs(tokens@),
            i <= n,
            conditions(t) == seen + conditions(t.subrange(i as int, n as int)),
            unique_keys(pair_texts(found@)),
            pairs_map(pair_texts(found@)) == pairs_map(seen),
            found@.len() == 0 ==> seen.len() == 0,
            seen.len() == 0 ==> found@.len() == 0,
        decreases n - i,
    {
        let ghost rest = t.subrange(i as int, n as int);
        assert(rest[0] == t[i as int]);
        assert(rest.drop_first() == t.subrange(i + 1, n as int));
        if is_word(tokens[i], "and") || is_word(tokens[i], "or") {
            i = i + 1;
        } else if n - i > 2 && same_text(tokens[i + 1], "=") {
            assert(rest[1] == t[i + 1]);
            assert(rest[2] == t[i + 2]);
            assert(rest.subrange(3, rest.len() as int) == t.subrange(i + 3, n as int));
            let key = trim_str(tokens[i]).to_string();
            let value = unquote_str(trim_str(tokens[i + 2])).to_string();
            put(&mut found, key, value);
            proof {
                let p = (key@, value@);
                assert(seen + (seq![p] + conditions(t.subrange(i + 3, n as int))) == seen.push(p)
                    + conditions(t.subrange(i + 3, n as int)));
                assert(seen.push(p).drop_last() == seen);
                seen = seen.push(p);
            }
            i = i + 3;
        } else {
            i = i + 1;
        }
    }
    assert(seen + Seq::<(Seq<char>, Seq<char>)>::empty() == seen);
    if found.len() == 0 {
        None
    } else {
        Some(found)
    }
}

} // verus!
