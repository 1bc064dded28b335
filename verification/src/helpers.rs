//! Arithmetic shared by the decoders.

use vstd::prelude::*;
use vstd::arithmetic::div_mod::{lemma_fundamental_div_mod, lemma_fundamental_div_mod_converse_mod};
use crate::error::Error;
use crate::grammar::{agrees, take_i32, take_text};
use crate::reader::ByteReader;
use crate::text::text_from_bytes;

verus! {

/// The remainder of `a` by `b` that has the sign of `b` (zero included).
pub open spec fn floor_mod(a: int, b: int) -> int {
    if b > 0 {
        a % b
    } else {
        -((-a) % (-b))
    }
}

/// The number of bytes that follow a field of `n` bytes so that the next field
/// starts on a multiple of four.
pub open spec fn spec_padding_for(n: int) -> int {
    (4 - n % 4) % 4
}

/// The remainder of `-x` in terms of the remainder of `x`.
pub proof fn lemma_mod_of_negation(x: int, m: int)
    requires
        m > 0,
    ensures
        (-x) % m == if x % m == 0 { 0 } else { m - x % m },
{
    lemma_fundamental_div_mod(x, m);
    let q = x / m;
    let r = x % m;
    if r == 0 {
        assert(-x == (-q) * m + 0) by (nonlinear_arith)
            requires x == m * q + r, r == 0;
        lemma_fundamental_div_mod_converse_mod(-x, m, -q, 0);
    } else {
        assert(-x == (-q - 1) * m + (m - r)) by (nonlinear_arith)
            requires x == m * q + r;
        lemma_fundamental_div_mod_converse_mod(-x, m, -q - 1, m - r);
    }
}

/// Computes `a` modulo `b` with the sign of the divisor.
pub fn modulo(a: i32, b: i32) -> (r: i32)
    requires
        b != 0,
    ensures
        r == floor_mod(a as int, b as int),
        b > 0 ==> 0 <= r < b,
        b < 0 ==> b < r <= 0,
{
    let size: i64 = if b > 0 { b as i64 } else { -(b as i64) };
    let kept: i64 = (a as i64) % size;
    let low: i64 = if kept < 0 { kept + size } else { kept };
    proof {
        lemma_mod_of_negation(a as int, size as int);
        lemma_mod_of_negation(-(a as int), size as int);
    }
    assert(low == (a as int) % (size as int));
    if b > 0 {
        low as i32
    } else if low == 0 {
        0
    } else {
        (low - size) as i32
    }
}

/// Computes the padding after a field of `n` bytes.
pub fn padding_for(n: u64) -> (pad: u64)
    ensures
        pad == spec_padding_for(n as int),
        0 <= pad < 4,
        (n + pad) % 4 == 0,
{
    (4 - n % 4) % 4
}

/// Padding brings every length to a multiple of four and is less than four.
pub proof fn lemma_padding(n: int)
    requires
        n >= 0,
    ensures
        0 <= spec_padding_for(n) < 4,
        (n + spec_padding_for(n)) % 4 == 0,
{
}

/// The padding after `n` bytes is what `modulo` gives for `-n` and 4.
pub proof fn lemma_padding_is_modulo(n: int)
    requires
        n >= 0,
    ensures
        spec_padding_for(n) == floor_mod(-n, 4),
{
    lemma_mod_of_negation(n, 4);
}

/// Reads a signed 32-bit integer, most significant byte first.
pub fn unpack_int(fp: &mut ByteReader) -> (r: Result<i32, Error>)
    ensures
        final(fp).bytes() == old(fp).bytes(),
        agrees(r, final(fp).cursor(), take_i32(old(fp).bytes(), old(fp).cursor())),
        r is Err ==> final(fp).cursor() == old(fp).cursor(),
{
    fp.read_i32()
}

/// Reads `length` bytes as UTF-8 text. Bytes that are not valid UTF-8 are
/// rejected, not replaced.
pub fn unpack_string(fp: &mut ByteReader, length: usize) -> (r: Result<String, Error>)
    ensures
        final(fp).bytes() == old(fp).bytes(),
        agrees(r, final(fp).cursor(), take_text(old(fp).bytes(), old(fp).cursor(), length as int)),
{
    match fp.read_bytes(length as u64) {
        Err(e) => Err(e),
        Ok(raw) => text_from_bytes(raw),
    }
}

} // verus!
