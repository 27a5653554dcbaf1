use vstd::prelude::*;
use vstd::arithmetic::power2::{
    pow2, lemma2_to64, lemma2_to64_rest, lemma_pow2_adds, lemma_pow2_strictly_increases,
};
use vstd::slice::slice_subrange;
use vstd::utf8::{valid_utf8, decode_utf8};

use crate::error::DbError;
use crate::text::{digits, decimal, push_digits, push_decimal};

verus! {

broadcast use vstd::string::group_string_axioms;

/// The number of bytes that a column of serial type `t` takes in a record.
pub open spec fn serial_width(t: u64) -> int {
    if t <= 4 {
        t as int
    } else if t == 5 {
        6
    } else if t == 6 || t == 7 {
        8
    } else if t >= 12 && t % 2 == 0 {
        (t - 12) / 2
    } else if t >= 13 && t % 2 == 1 {
        (t - 13) / 2
    } else {
        0
    }
}

/// The bytes of `s` read as an unsigned big-endian integer.
pub open spec fn be_unsigned(s: Seq<u8>) -> int
    decreases s.len(),
{
    if s.len() == 0 {
        0
    } else {
        be_unsigned(s.drop_last()) * 256 + s.last()
    }
}

/// The bytes of `s` read as a two's-complement big-endian integer of `s.len()` bytes.
pub open spec fn be_signed(s: Seq<u8>) -> int {
    let u = be_unsigned(s);
    if s.len() > 0 && u >= pow2((8 * s.len() - 1) as nat) {
        u - pow2((8 * s.len()) as nat)
    } else {
        u
    }
}

/// The items of a byte list as Rust's `Debug` writes them: decimals joined by `", "`.
pub open spec fn byte_items(s: Seq<u8>) -> Seq<char>
    decreases s.len(),
{
    if s.len() == 0 {
        Seq::empty()
    } else if s.len() == 1 {
        digits(s[0] as nat)
    } else {
        byte_items(s.drop_last()) + ", "@ + digits(s.last() as nat)
    }
}

/// A byte list in brackets, as Rust's `Debug` writes it.
pub open spec fn byte_list(s: Seq<u8>) -> Seq<char> {
    "["@ + byte_items(s) + "]"@
}

/// The text of one column of serial type `t` whose bytes start at the front of `d`.
/// Integers are written in decimal; a real is shown by its raw bits; a blob and
/// text that is not UTF-8 are shown by their bytes; codes without a meaning are
/// named. It fails when `d` holds fewer bytes than the type's width.
pub open spec fn value_text(d: Seq<u8>, t: u64) -> Result<Seq<char>, DbError> {
    let w = serial_width(t);
    let b = d.subrange(0, w);
    if d.len() < w {
        Err(DbError::NotEnoughData)
    } else if t == 0 {
        Ok("NULL"@)
    } else if t <= 6 {
        Ok(decimal(be_signed(b)))
    } else if t == 7 {
        Ok("REAL("@ + digits(be_unsigned(b) as nat) + ")"@)
    } else if t == 8 {
        Ok("0"@)
    } else if t == 9 {
        Ok("1"@)
    } else if t < 12 {
        Ok("Unknown serial type: "@ + digits(t as nat))
    } else if t % 2 == 0 {
        Ok("BLOB("@ + digits(w as nat) + " bytes): "@ + byte_list(b))
    } else if valid_utf8(b) {
        Ok(decode_utf8(b))
    } else {
        Ok("Invalid UTF-8: "@ + byte_list(b))
    }
}

/// Relies on `std::str::from_utf8`: it accepts exactly the well-formed UTF-8
/// byte sequences, and the text it returns is what they encode.
#[verifier::external_body]
fn utf8_text(b: &[u8]) -> (r: Option<String>)
    ensures
        match r {
            Some(s) => valid_utf8(b@) && s@ == decode_utf8(b@),
            None => !valid_utf8(b@),
        },
{
    match std::str::from_utf8(b) {
        Ok(s) => Some(s.to_string()),
        Err(_) => None,
    }
}

/// Reads the `w` bytes at `pos` as an unsigned big-endian integer.
fn read_be(data: &[u8], pos: usize, w: usize) -> (r: u64)
    requires
        1 <= w <= 8,
        pos + w <= data@.len(),
    ensures
        r == be_unsigned(data@.subrange(pos as int, pos + w)),
        r < pow2((8 * w) as nat),
{
    let n = data.len();
    let mut acc: u64 = 0;
    let mut i: usize = 0;
    proof {
        lemma2_to64();
        assert(data@.subrange(pos as int, pos as int).len() == 0);
    }
    while i < w
        invariant
            i <= w <= 8,
            pos + w <= data@.len(),
            n == data@.len(),
            acc == be_unsigned(data@.subrange(pos as int, pos + i)),
            acc < pow2((8 * i) as nat),
        decreases w - i,
    {
        let ghost e: nat = (8 * i) as nat;
        proof {
            lemma2_to64();
            lemma2_to64_rest();
            lemma_pow2_adds(e, 8);
            assert(acc * 256 + 255 < pow2(e) * 256) by (nonlinear_arith)
                requires acc < pow2(e);
            if e + 8 < 64 {
                lemma_pow2_strictly_increases(e + 8, 64);
            }
            assert(data@.subrange(pos as int, pos + i + 1).drop_last() == data@.subrange(
                pos as int,
                pos + i,
            ));
            assert((8 * (i + 1)) as nat == e + 8);
        }
        acc = acc * 256 + data[pos + i] as u64;
        i = i + 1;
    }
    acc
}

/// Reads the `w` bytes at `pos` as a two's-complement big-endian integer.
fn read_signed(data: &[u8], pos: usize, w: usize) -> (r: i64)
    requires
        1 <= w <= 8,
        pos + w <= data@.len(),
    ensures
        r == be_signed(data@.subrange(pos as int, pos + w)),
{
    let u = read_be(data, pos, w);
    let ghost b = data@.subrange(pos as int, pos + w);
    proof {
        lemma2_to64();
        lemma2_to64_rest();
        assert(b.len() == w);
    }
    if w == 8 {
        if u >= 0x8000000000000000 {
            let r = (u - 0x8000000000000000) as i64 - 0x7fffffffffffffff - 1;
            r
        } else {
            u as i64
        }
    } else {
        let mut full: u64 = 1;
        let mut k: usize = 0;
        while k < w
            invariant
                k <= w < 8,
                full == pow2((8 * k) as nat),
            decreases w - k,
        {
            proof {
                lemma2_to64();
                lemma2_to64_rest();
                lemma_pow2_adds((8 * k) as nat, 8);
                lemma_pow2_strictly_increases((8 * k + 8) as nat, 64);
                assert((8 * (k + 1)) as nat == (8 * k) as nat + 8);
            }
            full = full * 256;
            k = k + 1;
        }
        proof {
            lemma_pow2_adds((8 * w - 1) as nat, 1);
            assert((8 * w - 1) as nat + 1 == (8 * w) as nat);
            assert(pow2((8 * w) as nat) <= pow2(56)) by {
                if w < 7 {
                    lemma_pow2_strictly_increases((8 * w) as nat, 56);
                }
            }
        }
        if u >= full / 2 {
            u as i64 - full as i64
        } else {
            u as i64
        }
    }
}

/// Appends `[b0, b1, ...]` for the `w` bytes at `pos` to `out`.
fn push_byte_list(out: &mut String, data: &[u8], pos: usize, w: usize)
    requires
        pos + w <= data@.len(),
    ensures
        final(out)@ == old(out)@ + byte_list(data@.subrange(pos as int, pos + w)),
{
    out.append("[");
    let n = data.len();
    let mut i: usize = 0;
    while i < w
        invariant
            i <= w,
            pos + w <= data@.len(),
            n == data@.len(),
            out@ == old(out)@ + "["@ + byte_items(data@.subrange(pos as int, pos + i)),
        decreases w - i,
    {
        let ghost before = out@;
        assert(data@.subrange(pos as int, pos + i + 1).drop_last() == data@.subrange(
            pos as int,
            pos + i,
        ));
        if i > 0 {
            out.append(", ");
        }
        push_digits(out, data[pos + i] as u64);
        i = i + 1;
    }
    out.append("]");
}

/// The width of serial type `t` in bytes.
pub fn width_of(t: u64) -> (r: u64)
    ensures
        r == serial_width(t),
{
    if t <= 4 {
        t
    } else if t == 5 {
        6
    } else if t == 6 || t == 7 {
        8
    } else if t >= 12 && t % 2 == 0 {
        (t - 12) / 2
    } else if t >= 13 && t % 2 == 1 {
        (t - 13) / 2
    } else {
        0
    }
}

/// Decodes the column of serial type `t` whose bytes start at `pos`.
pub fn read_value_at(data: &[u8], pos: usize, t: u64) -> (r: Result<String, DbError>)
    requires
        pos <= data@.len(),
    ensures
        match r {
            Ok(s) => value_text(data@.subrange(pos as int, data@.len() as int), t) == Ok::<
                Seq<char>,
                DbError,
            >(s@),
            Err(e) => value_text(data@.subrange(pos as int, data@.len() as int), t) == Err::<
                Seq<char>,
                DbError,
            >(e),
        },
{
    let ghost d = data@.subrange(pos as int, data@.len() as int);
    let wide = width_of(t);
    if ((data.len() - pos) as u64) < wide {
        return Err(DbError::NotEnoughData);
    }
    let w = wide as usize;
    assert(d.subrange(0, w as int) == data@.subrange(pos as int, pos + w));
    if t == 0 {
        Ok("NULL".to_string())
    } else if t <= 6 {
        let v = read_signed(data, pos, w);
        let mut s = String::new();
        push_decimal(&mut s, v);
        Ok(s)
    } else if t == 7 {
        let bits = read_be(data, pos, w);
        let mut s = "REAL(".to_string();
        push_digits(&mut s, bits);
        s.append(")");
        Ok(s)
    } else if t == 8 {
        Ok("0".to_string())
    } else if t == 9 {
        Ok("1".to_string())
    } else if t < 12 {
        let mut s = "Unknown serial type: ".to_string();
        push_digits(&mut s, t);
        Ok(s)
    } else if t % 2 == 0 {
        let mut s = "BLOB(".to_string();
        push_digits(&mut s, wide);
        s.append(" bytes): ");
        push_byte_list(&mut s, data, pos, w);
        Ok(s)
    } else {
        let bytes = slice_subrange(data, pos, pos + w);
        match utf8_text(bytes) {
            Some(s) => Ok(s),
            None => {
                let mut s = "Invalid UTF-8: ".to_string();
                push_byte_list(&mut s, data, pos, w);
                Ok(s)
            },
        }
    }
}

/// The width of a serial type is exactly what its decoder reads: decoding
/// succeeds if and only if that many bytes remain, and its result depends on
/// those bytes alone.
pub proof fn lemma_width_coherence(d: Seq<u8>, t: u64)
    ensures
        serial_width(t) >= 0,
        value_text(d, t) is Ok <==> d.len() >= serial_width(t),
        d.len() >= serial_width(t) ==> value_text(d, t) == value_text(
            d.subrange(0, serial_width(t)),
            t,
        ),
{
    let w = serial_width(t);
    if d.len() >= w {
        assert(d.subrange(0, w).subrange(0, w) == d.subrange(0, w));
    }
}

/// Decoding rules for the serial types of a record's columns.
pub struct SerialCode {}

impl SerialCode {
    /// The number of bytes that a column of serial type `serial_type` takes.
    pub fn value_size(serial_type: u64) -> (r: usize)
        requires
            serial_width(serial_type) <= usize::MAX,
        ensures
            r == serial_width(serial_type),
    {
        width_of(serial_type) as usize
    }

    /// Decodes one column of serial type `serial_type` from the front of `data`.
    pub fn read_value_by_serial_type(data: &[u8], serial_type: u64) -> (r: Result<
        String,
        DbError,
    >)
        ensures
            match r {
                Ok(s) => value_text(data@, serial_type) == Ok::<Seq<char>, DbError>(s@),
                Err(e) => value_text(data@, serial_type) == Err::<Seq<char>, DbError>(e),
            },
    {
        assert(data@.subrange(0, data@.len() as int) == data@);
        read_value_at(data, 0, serial_type)
    }
}

} // verus!
