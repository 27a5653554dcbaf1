use vstd::prelude::*;

verus! {

broadcast use vstd::string::group_string_axioms;

/// The character of a decimal digit.
pub open spec fn digit_char(d: nat) -> char {
    seq!['0', '1', '2', '3', '4', '5', '6', '7', '8', '9'][d as int]
}

/// The decimal digits of `n`, most significant first, without leading zeros.
pub open spec fn digits(n: nat) -> Seq<char>
    decreases n,
{
    if n < 10 {
        seq![digit_char(n)]
    } else {
        digits(n / 10).push(digit_char(n % 10))
    }
}

/// The decimal text of an integer, with a leading `-` when it is negative.
pub open spec fn decimal(v: int) -> Seq<char> {
    if v < 0 {
        seq!['-'] + digits((-v) as nat)
    } else {
        digits(v as nat)
    }
}

/// Appends the decimal digits of `n` to `out`.
pub fn push_digits(out: &mut String, n: u64)
    ensures
        final(out)@ == old(out)@ + digits(n as nat),
    decreases n,
{
    if n >= 10 {
        push_digits(out, n / 10);
    }
    let d = n % 10;
    let s: &str = if d == 0 {
        "0"
    } else if d == 1 {
        "1"
    } else if d == 2 {
        "2"
    } else if d == 3 {
        "3"
    } else if d == 4 {
        "4"
    } else if d == 5 {
        "5"
    } else if d == 6 {
        "6"
    } else if d == 7 {
        "7"
    } else if d == 8 {
        "8"
    } else {
        "9"
    };
    proof {
        reveal_strlit("0");
        reveal_strlit("1");
        reveal_strlit("2");
        reveal_strlit("3");
        reveal_strlit("4");
        reveal_strlit("5");
        reveal_strlit("6");
        reveal_strlit("7");
        reveal_strlit("8");
        reveal_strlit("9");
    }
    assert(s@ == seq![digit_char(d as nat)]);
    out.append(s);
    proof {
        if n >= 10 {
            assert(digits(n as nat) == digits((n / 10) as nat).push(digit_char((n % 10) as nat)));
        }
    }
    assert(final(out)@ == old(out)@ + digits(n as nat));
}

/// Appends the decimal text of `v` to `out`.
pub fn push_decimal(out: &mut String, v: i64)
    ensures
        final(out)@ == old(out)@ + decimal(v as int),
{
    if v < 0 {
        out.append("-");
        let m: u64 = (0i128 - v as i128) as u64;
        push_digits(out, m);
        proof {
            reveal_strlit("-");
        }
        assert(final(out)@ == old(out)@ + decimal(v as int));
    } else {
        push_digits(out, v as u64);
    }
}

/// Whether `c` has the Unicode `White_Space` property.
pub open spec fn white(c: char) -> bool {
    let u = c as u32;
    (0x09 <= u <= 0x0D) || u == 0x20 || u == 0x85 || u == 0xA0 || u == 0x1680 || (0x2000 <= u
        <= 0x200A) || u == 0x2028 || u == 0x2029 || u == 0x202F || u == 0x205F || u == 0x3000
}

/// Whether `c` is whitespace.
pub fn is_white(c: char) -> (r: bool)
    ensures
        r == white(c),
{
    let u = c as u32;
    (0x09 <= u && u <= 0x0D) || u == 0x20 || u == 0x85 || u == 0xA0 || u == 0x1680 || (0x2000
        <= u && u <= 0x200A) || u == 0x2028 || u == 0x2029 || u == 0x202F || u == 0x205F || u
        == 0x3000
}

/// `s` without its leading whitespace.
pub open spec fn trim_front(s: Seq<char>) -> Seq<char>
    decreases s.len(),
{
    if s.len() > 0 && white(s[0]) {
        trim_front(s.drop_first())
    } else {
        s
    }
}

/// `s` without its trailing whitespace.
pub open spec fn trim_back(s: Seq<char>) -> Seq<char>
    decreases s.len(),
{
    if s.len() > 0 && white(s.last()) {
        trim_back(s.drop_last())
    } else {
        s
    }
}

/// `s` without leading and trailing whitespace.
pub open spec fn trim(s: Seq<char>) -> Seq<char> {
    trim_back(trim_front(s))
}

/// The part of `s` between its leading and its trailing whitespace.
pub fn trim_str(s: &str) -> (r: &str)
    ensures
        r@ == trim(s@),
{
    let n = s.unicode_len();
    let mut a: usize = 0;
    assert(s@.subrange(0, n as int) == s@);
    while a < n && is_white(s.get_char(a))
        invariant
            n == s@.len(),
            a <= n,
            trim_front(s@) == trim_front(s@.subrange(a as int, n as int)),
        decreases n - a,
    {
        assert(s@.subrange(a as int, n as int).drop_first() == s@.subrange(a + 1, n as int));
        a = a + 1;
    }
    assert(trim_front(s@) == s@.subrange(a as int, n as int));
    let mut b: usize = n;
    while b > a && is_white(s.get_char(b - 1))
        invariant
            n == s@.len(),
            a <= b <= n,
            trim(s@) == trim_back(s@.subrange(a as int, b as int)),
        decreases b - a,
    {
        assert(s@.subrange(a as int, b as int).drop_last() == s@.subrange(a as int, b - 1));
        b = b - 1;
    }
    s.substring_char(a, b)
}

/// `c` with an ASCII capital letter turned into its small letter.
pub open spec fn ascii_lower(c: char) -> int {
    if 'A' <= c <= 'Z' {
        c as u32 + 32
    } else {
        c as u32 as int
    }
}

/// Whether `s` spells the word `w`, ASCII letters compared without regard to case.
pub open spec fn same_word(s: Seq<char>, w: Seq<char>) -> bool {
    s.len() == w.len() && forall|i: int| 0 <= i < s.len() ==> ascii_lower(#[trigger] s[i])
        == ascii_lower(w[i])
}

fn lower_code(c: char) -> (r: u32)
    ensures
        r == ascii_lower(c),
{
    if 'A' <= c && c <= 'Z' {
        c as u32 + 32
    } else {
        c as u32
    }
}

/// Whether `s` spells the word `w`, ASCII letters compared without regard to case.
pub fn is_word(s: &str, w: &str) -> (r: bool)
    ensures
        r == same_word(s@, w@),
{
    let n = s.unicode_len();
    if n != w.unicode_len() {
        return false;
    }
    let mut i: usize = 0;
    while i < n
        invariant
            n == s@.len(),
            n == w@.len(),
            i <= n,
            forall|k: int| 0 <= k < i ==> ascii_lower(#[trigger] s@[k]) == ascii_lower(w@[k]),
        decreases n - i,
    {
        if lower_code(s.get_char(i)) != lower_code(w.get_char(i)) {
            return false;
        }
        i = i + 1;
    }
    true
}


/// The texts held by a sequence of strings.
pub open spec fn texts(v: Seq<String>) -> Seq<Seq<char>> {
    v.map_values(|s: String| s@)
}


/// The texts held by a sequence of string slices.
pub open spec fn strs(v: Seq<&str>) -> Seq<Seq<char>> {
    v.map_values(|s: &str| s@)
}

/// The characters of `s` before its first whitespace.
pub open spec fn first_word(s: Seq<char>) -> Seq<char>
    decreases s.len(),
{
    if s.len() == 0 || white(s[0]) {
        Seq::empty()
    } else {
        seq![s[0]] + first_word(s.drop_first())
    }
}

/// The characters of `s` before its first whitespace.
pub fn first_word_str(s: &str) -> (r: &str)
    ensures
        r@ == first_word(s@),
{
    let n = s.unicode_len();
    let mut j: usize = 0;
    assert(s@.subrange(0, 0) + s@.subrange(0, n as int) == s@);
    while j < n && !is_white(s.get_char(j))
        invariant
            n == s@.len(),
            j <= n,
            first_word(s@) == s@.subrange(0, j as int) + first_word(
                s@.subrange(j as int, n as int),
            ),
        decreases n - j,
    {
        let ghost rest = s@.subrange(j as int, n as int);
        assert(rest.drop_first() == s@.subrange(j + 1, n as int));
        assert(s@.subrange(0, j as int) + (seq![rest[0]] + first_word(rest.drop_first()))
            == s@.subrange(0, j + 1) + first_word(rest.drop_first()));
        j = j + 1;
    }
    assert(s@.subrange(0, j as int) + Seq::<char>::empty() == s@.subrange(0, j as int));
    s.substring_char(0, j)
}

/// Whether two strings hold the same characters.
pub fn same_text(a: &str, b: &str) -> (r: bool)
    ensures
        r == (a@ == b@),
{
    let n = a.unicode_len();
    if n != b.unicode_len() {
        return false;
    }
    let mut i: usize = 0;
    while i < n
        invariant
            n == a@.len(),
            n == b@.len(),
            i <= n,
            forall|k: int| 0 <= k < i ==> a@[k] == b@[k],
        decreases n - i,
    {
        if a.get_char(i) != b.get_char(i) {
            return false;
        }
        i = i + 1;
    }
    assert(a@ =~= b@);
    true
}

/// The characters of `s` before its first whitespace or `(`.
pub open spec fn leading_word(s: Seq<char>) -> Seq<char>
    decreases s.len(),
{
    if s.len() == 0 || white(s[0]) || s[0] == '(' {
        Seq::empty()
    } else {
        seq![s[0]] + leading_word(s.drop_first())
    }
}

/// The characters of `s` before its first whitespace or `(`.
pub fn leading_word_str(s: &str) -> (r: &str)
    ensures
        r@ == leading_word(s@),
{
    let n = s.unicode_len();
    let mut j: usize = 0;
    assert(s@.subrange(0, 0) + s@.subrange(0, n as int) == s@);
    while j < n && !is_white(s.get_char(j)) && s.get_char(j) != '('
        invariant
            n == s@.len(),
            j <= n,
            leading_word(s@) == s@.subrange(0, j as int) + leading_word(
                s@.subrange(j as int, n as int),
            ),
        decreases n - j,
    {
        let ghost rest = s@.subrange(j as int, n as int);
        assert(rest.drop_first() == s@.subrange(j + 1, n as int));
        assert(s@.subrange(0, j as int) + (seq![rest[0]] + leading_word(rest.drop_first()))
            == s@.subrange(0, j + 1) + leading_word(rest.drop_first()));
        j = j + 1;
    }
    assert(s@.subrange(0, j as int) + Seq::<char>::empty() == s@.subrange(0, j as int));
    s.substring_char(0, j)
}

/// The words of `s`: its maximal runs of characters other than whitespace,
/// in order.
pub open spec fn words(s: Seq<char>) -> Seq<Seq<char>>
    decreases s.len(),
{
    if s.len() == 0 {
        Seq::empty()
    } else {
        let w = words(s.drop_last());
        if white(s.last()) {
            w
        } else if s.len() >= 2 && !white(s[s.len() - 2]) {
            w.update(w.len() - 1, w.last().push(s.last()))
        } else {
            w.push(seq![s.last()])
        }
    }
}

/// The words of `s`: its maximal runs of characters other than whitespace.
pub fn split_words(s: &str) -> (r: Vec<&str>)
    ensures
        strs(r@) == words(s@),
{
    let n = s.unicode_len();
    let mut out: Vec<&str> = Vec::new();
    let mut start: usize = 0;
    let mut in_word = false;
    let mut i: usize = 0;
    assert(s@.subrange(0, 0) =~= Seq::<char>::empty());
    assert(strs(out@) =~= Seq::<Seq<char>>::empty());
    while i < n
        invariant
            n == s@.len(),
            start <= i <= n,
            in_word == (i > 0 && !white(s@[i - 1])),
            in_word ==> start < i,
            words(s@.subrange(0, i as int)) == if in_word {
                strs(out@).push(s@.subrange(start as int, i as int))
            } else {
                strs(out@)
            },
        decreases n - i,
    {
        let c = s.get_char(i);
        let ghost p = s@.subrange(0, i + 1);
        let ghost cur = s@.subrange(start as int, i as int);
        assert(p.drop_last() =~= s@.subrange(0, i as int));
        assert(p.last() == c);
        if i > 0 {
            assert(p[p.len() - 2] == s@[i - 1]);
        }
        if is_white(c) {
            if in_word {
                let ghost before = out@;
                out.push(s.substring_char(start, i));
                assert(strs(out@) =~= strs(before).push(cur));
            }
            in_word = false;
        } else if in_word {
            assert(s@.subrange(start as int, i + 1) =~= cur.push(c));
            assert(words(p) =~= strs(out@).push(s@.subrange(start as int, i + 1)));
        } else {
            start = i;
            in_word = true;
            assert(s@.subrange(start as int, i + 1) =~= seq![c]);
        }
        i = i + 1;
    }
    assert(s@.subrange(0, n as int) == s@);
    if in_word {
        let ghost before = out@;
        out.push(s.substring_char(start, n));
        assert(strs(out@) =~= strs(before).push(s@.subrange(start as int, n as int)));
    }
    out
}

} // verus!
