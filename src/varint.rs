use vstd::prelude::*;
use vstd::arithmetic::power2::{
    pow2, lemma2_to64, lemma2_to64_rest, lemma_pow2_adds, lemma_pow2_strictly_increases,
};

use crate::error::DbError;

verus! {

/// Decoding state after `i` bytes: `acc` holds the bits gathered so far.
/// The first eight bytes give their low seven bits and stop the varint when
/// their high bit is clear; a ninth byte gives all eight bits and always stops it.
pub open spec fn varint_from(data: Seq<u8>, i: int, acc: int) -> Option<(int, int)>
    decreases 9 - i,
{
    if i < 0 || i > 8 || i >= data.len() {
        None
    } else if i == 8 {
        Some((acc * 256 + data[8], 9))
    } else if data[i] < 128 {
        Some((acc * 128 + data[i], i + 1))
    } else {
        varint_from(data, i + 1, acc * 128 + (data[i] - 128))
    }
}

/// The varint at the start of `data`: its value and the number of bytes it takes,
/// or `None` when `data` ends before its terminal byte.
pub open spec fn varint(data: Seq<u8>) -> Option<(int, int)> {
    varint_from(data, 0, 0)
}

proof fn lemma_varint_from_bounds(data: Seq<u8>, i: int, acc: int)
    requires
        0 <= i <= 8,
        0 <= acc < pow2((7 * i) as nat),
    ensures
        varint_from(data, i, acc) matches Some((v, n)) ==> i < n <= 9 && n <= data.len() && 0
            <= v < pow2(64),
    decreases 9 - i,
{
    lemma2_to64();
    lemma2_to64_rest();
    if i < data.len() && i < 8 {
        lemma_pow2_adds((7 * i) as nat, 7);
        assert(acc * 128 + 127 < pow2((7 * i) as nat) * 128) by (nonlinear_arith)
            requires acc < pow2((7 * i) as nat);
        if data[i] >= 128 {
            lemma_varint_from_bounds(data, i + 1, acc * 128 + (data[i] - 128));
        }
    } else if i == 8 && i < data.len() {
        assert(acc * 256 + 255 < pow2(56) * 256) by (nonlinear_arith)
            requires acc < pow2(56);
    }
}

/// A decoded varint takes between one and nine bytes, all inside `data`,
/// and its value fits in 64 bits.
pub proof fn lemma_varint_bounds(data: Seq<u8>)
    ensures
        varint(data) matches Some((v, n)) ==> 1 <= n <= 9 && n <= data.len() && 0 <= v
            <= u64::MAX,
{
    lemma2_to64();
    lemma_varint_from_bounds(data, 0, 0);
}

/// A single byte with a clear high bit is a whole varint: its own value.
pub proof fn lemma_varint_one_byte(b: u8, rest: Seq<u8>)
    requires
        b < 128,
    ensures
        varint(seq![b] + rest) == Some((b as int, 1int)),
{
    assert((seq![b] + rest)[0] == b);
}

/// Two bytes, the first with its high bit set and the second without, form a
/// varint of two bytes whose value is the fourteen bits they carry.
pub proof fn lemma_varint_two_bytes(b0: u8, b1: u8, rest: Seq<u8>)
    requires
        b0 >= 128,
        b1 < 128,
    ensures
        varint(seq![b0, b1] + rest) == Some(((b0 - 128) * 128 + b1, 2int)),
{
    let s = seq![b0, b1] + rest;
    assert(s[0] == b0 && s[1] == b1);
    assert(varint_from(s, 2 - 1, (b0 - 128) as int) == Some(((b0 - 128) * 128 + b1, 2int)));
}

/// The low `j` seven-bit groups of `w`, most significant first, each with its
/// high bit set.
pub open spec fn continued_groups(w: nat, j: nat) -> Seq<u8>
    decreases j,
{
    if j == 0 {
        Seq::empty()
    } else {
        continued_groups(w / 128, (j - 1) as nat).push((w % 128 + 128) as u8)
    }
}

/// `v` written in `k` bytes of seven bits each, most significant first, every
/// byte but the last with its high bit set: the varint form of a value below
/// `2^(7k)` for `k` from one to eight.
pub open spec fn seven_bit_groups(v: nat, k: nat) -> Seq<u8> {
    continued_groups(v / 128, (k - 1) as nat).push((v % 128) as u8)
}

proof fn lemma_continued_groups(data: Seq<u8>, i: int, acc: int, w: nat, j: nat)
    requires
        0 <= i,
        i + j < 8,
        i + j < data.len(),
        data.subrange(i, i + j) == continued_groups(w, j),
    ensures
        continued_groups(w, j).len() == j,
        varint_from(data, i, acc) == varint_from(data, i + j, acc * pow2((7 * j) as nat) + w % pow2(
            (7 * j) as nat,
        )),
    decreases j,
{
    lemma2_to64();
    if j == 0 {
        assert((7 * j) as nat == 0);
        assert(pow2(0) == 1);
        assert(w % 1 == 0);
        assert(acc * 1 == acc);
    } else {
        let g = continued_groups(w, j);
        let h = continued_groups(w / 128, (j - 1) as nat);
        lemma_groups_len(w, j);
        assert(g == h.push((w % 128 + 128) as u8));
        assert(g.drop_last() =~= h);
        assert(data.subrange(i, i + j - 1) =~= g.drop_last());
        lemma_continued_groups(data, i, acc, w / 128, (j - 1) as nat);
        let e = (7 * (j - 1)) as nat;
        let m = pow2(e);
        let acc1 = acc * m + (w / 128) % m;
        assert(((j - 1) as nat) == j - 1);
        assert(varint_from(data, i, acc) == varint_from(data, i + j - 1, acc1));
        assert(data[i + j - 1] == g.last());
        assert(data[i + j - 1] == w % 128 + 128);
        assert(varint_from(data, i + j - 1, acc1) == varint_from(data, i + j, acc1 * 128 + w % 128));
        lemma_pow2_adds(e, 7);
        assert((7 * j) as nat == e + 7);
        vstd::arithmetic::power2::lemma_pow2_pos(e);
        // w % (128 m) == ((w / 128) % m) * 128 + w % 128
        vstd::arithmetic::div_mod::lemma_breakdown(w as int, 128, m as int);
        assert(pow2((7 * j) as nat) == 128 * m);
        assert(w % pow2((7 * j) as nat) == w % (128 * m));
        let p = pow2((7 * j) as nat);
        let a = w % 128;
        let b = (w / 128) % m;
        let rem = w % p;
        assert(rem == 128 * b + a);
        assert(acc1 * 128 + a == acc * p + rem) by (nonlinear_arith)
            requires
                acc1 == acc * m + b,
                p == 128 * m,
                rem == 128 * b + a,
        ;
        assert(varint_from(data, i + j, acc1 * 128 + a) == varint_from(data, i + j, acc * p + rem));
    }
}

/// Every value below `2^(7k)`, written in `k` seven-bit groups (`k` from one to
/// eight), decodes back to itself and takes exactly those `k` bytes, whatever
/// follows them.
pub proof fn lemma_varint_round_trip(v: nat, k: nat, rest: Seq<u8>)
    requires
        1 <= k <= 8,
        v < pow2((7 * k) as nat),
    ensures
        seven_bit_groups(v, k).len() == k,
        varint(seven_bit_groups(v, k) + rest) == Some((v as int, k as int)),
{
    lemma2_to64();
    let j = (k - 1) as nat;
    let g = seven_bit_groups(v, k);
    let d = g + rest;
    let lead = continued_groups(v / 128, j);
    lemma_groups_len(v / 128, j);
    assert(d.subrange(0, j as int) =~= lead);
    lemma_continued_groups(d, 0, 0, v / 128, j);
    let e = (7 * j) as nat;
    let m = pow2(e);
    lemma_pow2_adds(e, 7);
    assert((7 * k) as nat == e + 7);
    vstd::arithmetic::power2::lemma_pow2_pos(e);
    assert(d[j as int] == v % 128);
    assert(v / 128 < m) by {
        vstd::arithmetic::div_mod::lemma_multiply_divide_lt(v as int, 128, m as int);
    }
    vstd::arithmetic::div_mod::lemma_small_mod(v / 128, m);
    vstd::arithmetic::div_mod::lemma_fundamental_div_mod(v as int, 128);
    assert(0 * m + (v / 128) % m == v / 128);
}

proof fn lemma_groups_len(w: nat, j: nat)
    ensures
        continued_groups(w, j).len() == j,
    decreases j,
{
    if j > 0 {
        lemma_groups_len(w / 128, (j - 1) as nat);
    }
}

/// The value of nine bytes read as a full-length varint: seven bits from each
/// of the first eight and all eight bits of the last.
pub open spec fn nine_byte_value(s: Seq<u8>) -> int {
    (s[0] - 128) * pow2(57) + (s[1] - 128) * pow2(50) + (s[2] - 128) * pow2(43) + (s[3] - 128)
        * pow2(36) + (s[4] - 128) * pow2(29) + (s[5] - 128) * pow2(22) + (s[6] - 128) * pow2(15)
        + (s[7] - 128) * pow2(8) + s[8]
}

/// Eight bytes with their high bit set followed by any ninth byte form a
/// varint of nine bytes, whatever follows them.
pub proof fn lemma_varint_nine_bytes(s: Seq<u8>, rest: Seq<u8>)
    requires
        s.len() == 9,
        forall|k: int| 0 <= k < 8 ==> s[k] >= 128,
    ensures
        varint(s + rest) == Some((nine_byte_value(s), 9int)),
{
    let d = s + rest;
    assert forall|k: int| 0 <= k < 9 implies d[k] == s[k] by {}
    lemma2_to64();
    lemma2_to64_rest();
    let a1 = (s[0] - 128) as int;
    let a2 = a1 * 128 + (s[1] - 128);
    let a3 = a2 * 128 + (s[2] - 128);
    let a4 = a3 * 128 + (s[3] - 128);
    let a5 = a4 * 128 + (s[4] - 128);
    let a6 = a5 * 128 + (s[5] - 128);
    let a7 = a6 * 128 + (s[6] - 128);
    let a8 = a7 * 128 + (s[7] - 128);
    assert(varint_from(d, 8, a8) == Some((a8 * 256 + s[8], 9int)));
    assert(varint_from(d, 7, a7) == varint_from(d, 8, a8));
    assert(varint_from(d, 6, a6) == varint_from(d, 7, a7));
    assert(varint_from(d, 5, a5) == varint_from(d, 6, a6));
    assert(varint_from(d, 4, a4) == varint_from(d, 5, a5));
    assert(varint_from(d, 3, a3) == varint_from(d, 4, a4));
    assert(varint_from(d, 2, a2) == varint_from(d, 3, a3));
    assert(varint_from(d, 1, a1) == varint_from(d, 2, a2));
    assert(varint_from(d, 0, 0) == varint_from(d, 1, a1));
    assert(a8 * 256 + s[8] == nine_byte_value(s)) by (nonlinear_arith)
        requires
            a8 == a7 * 128 + (s[7] - 128),
            a7 == a6 * 128 + (s[6] - 128),
            a6 == a5 * 128 + (s[5] - 128),
            a5 == a4 * 128 + (s[4] - 128),
            a4 == a3 * 128 + (s[3] - 128),
            a3 == a2 * 128 + (s[2] - 128),
            a2 == a1 * 128 + (s[1] - 128),
            a1 == s[0] - 128,
            pow2(8) == 256,
            pow2(15) == 32768,
            pow2(22) == 4194304,
            pow2(29) == 536870912,
            pow2(36) == 68719476736,
            pow2(43) == 8796093022208,
            pow2(50) == 1125899906842624,
            pow2(57) == 144115188075855872,
    ;
}

/// Decodes the varint at `pos` in `data`: its value and the number of bytes it takes.
pub fn read_varint_at(data: &[u8], pos: usize) -> (r: Result<(u64, usize), DbError>)
    ensures
        pos <= data@.len() ==> match r {
            Ok((v, n)) => varint(data@.subrange(pos as int, data@.len() as int)) == Some(
                (v as int, n as int),
            ),
            Err(e) => e == DbError::UnexpectedEnd && varint(
                data@.subrange(pos as int, data@.len() as int),
            ) is None,
        },
        pos > data@.len() ==> r == Err::<(u64, usize), DbError>(DbError::UnexpectedEnd),
{
    if pos > data.len() {
        return Err(DbError::UnexpectedEnd);
    }
    let ghost s = data@.subrange(pos as int, data@.len() as int);
    let mut result: u64 = 0;
    let mut i: usize = 0;
    proof {
        lemma2_to64();
    }
    loop
        invariant
            s == data@.subrange(pos as int, data@.len() as int),
            pos <= data@.len(),
            0 <= i <= 8,
            result < pow2((7 * i) as nat),
            varint(s) == varint_from(s, i as int, result as int),
        decreases 9 - i,
    {
        if i >= data.len() - pos {
            return Err(DbError::UnexpectedEnd);
        }
        let byte = data[pos + i];
        assert(byte == s[i as int]);
        proof {
            lemma2_to64();
            lemma2_to64_rest();
        }
        let low = byte & 0x7f;
        assert(low == byte % 128) by (bit_vector)
            requires low == byte & 0x7f;
        if i == 8 {
            assert(result * 256 + 255 < pow2(56) * 256) by (nonlinear_arith)
                requires result < pow2(56);
            return Ok((result * 256 + byte as u64, 9));
        }
        let ghost e: nat = (7 * i) as nat;
        proof {
            lemma_pow2_adds(e, 7);
            assert(result * 128 + 127 < pow2(e) * 128) by (nonlinear_arith)
                requires result < pow2(e);
            assert((7 * (i + 1)) as nat == e + 7);
            if e + 7 < 56 {
                lemma_pow2_strictly_increases(e + 7, 56);
            }
            assert(pow2(e + 7) <= pow2(56));
        }
        result = result * 128 + low as u64;
        i = i + 1;
        if byte < 128 {
            return Ok((result, i));
        }
    }
}

/// Decodes the varint at the start of `data`: its value and the number of bytes it takes.
pub fn read_varint(data: &[u8]) -> (r: Result<(u64, usize), DbError>)
    ensures
        match r {
            Ok((v, n)) => varint(data@) == Some((v as int, n as int)),
            Err(e) => e == DbError::UnexpectedEnd && varint(data@) is None,
        },
{
    assert(data@.subrange(0, data@.len() as int) == data@);
    read_varint_at(data, 0)
}

} // verus!
