//! Unsigned LEB128 numbers, as the WebAssembly container writes its section
//! ids and lengths.

use crate::error::ReaderError;
use vstd::prelude::*;

verus! {

/// 128 to the power `k`.
pub open spec fn pow128(k: nat) -> nat
    decreases k,
{
    if k == 0 {
        1
    } else {
        128 * pow128((k - 1) as nat)
    }
}

/// The unsigned LEB128 number that starts at `pos` and ends before `end`,
/// with the position after its last byte. `group` counts the bytes of the
/// number that came before `pos`.
///
/// Each byte holds seven bits of the number, lowest first; its top bit says
/// that another byte follows. The tenth byte may hold only the number's last
/// bit.
pub open spec fn uleb128_at(bytes: Seq<u8>, pos: int, end: int, group: nat) -> Result<
    (nat, int),
    ReaderError,
>
    decreases end - pos,
{
    if pos < 0 || pos >= end || end > bytes.len() {
        Err(ReaderError::UnexpectedEof)
    } else if group >= 9 && bytes[pos] > 1 {
        Err(ReaderError::BadUnsignedLeb128)
    } else if bytes[pos] < 0x80 {
        Ok((bytes[pos] as nat, pos + 1))
    } else {
        match uleb128_at(bytes, pos + 1, end, group + 1) {
            Ok((rest, next)) => Ok(((bytes[pos] - 0x80 + 128 * rest) as nat, next)),
            Err(e) => Err(e),
        }
    }
}

/// The unsigned LEB128 number at `pos`, read from its first byte.
pub open spec fn uleb128(bytes: Seq<u8>, pos: int, end: int) -> Result<(nat, int), ReaderError> {
    uleb128_at(bytes, pos, end, 0)
}

/// A number read from byte `group` on is below 2 * 128^(9 - group), and ends
/// after `pos` and not after `end`.
pub proof fn lemma_uleb128_bounds(bytes: Seq<u8>, pos: int, end: int, group: nat)
    requires
        group <= 9,
    ensures
        uleb128_at(bytes, pos, end, group) matches Ok((value, next)) ==> {
            &&& value < 2 * pow128((9 - group) as nat)
            &&& pos < next <= end
            &&& 0 <= pos
            &&& end <= bytes.len()
        },
    decreases end - pos,
{
    if pos < 0 || pos >= end || end > bytes.len() {
    } else if group >= 9 && bytes[pos] > 1 {
    } else if bytes[pos] < 0x80 {
        if group < 9 {
            assert(pow128((9 - group) as nat) >= 128) by {
                lemma_pow128_positive((9 - group - 1) as nat);
            }
        } else {
            assert(pow128(0) == 1);
        }
    } else {
        lemma_uleb128_bounds(bytes, pos + 1, end, group + 1);
        assert(pow128((9 - group) as nat) == 128 * pow128((9 - group - 1) as nat));
    }
}

pub proof fn lemma_pow128_positive(k: nat)
    ensures
        pow128(k) >= 1,
    decreases k,
{
    if k > 0 {
        lemma_pow128_positive((k - 1) as nat);
    }
}

/// 2 * 128^9 is 2^64: a number read from its first byte fits 64 bits.
pub proof fn lemma_pow128_nine()
    ensures
        pow128(9) == 0x8000_0000_0000_0000,
{
    reveal_with_fuel(pow128, 10);
}

/// Reads the unsigned LEB128 number that starts at `pos` and ends before
/// `end`. Returns the number and the position after its last byte.
pub fn read_uleb128(bytes: &[u8], pos: usize, end: usize) -> (r: Result<(u64, usize), ReaderError>)
    ensures
        match r {
            Ok((value, next)) => uleb128(bytes@, pos as int, end as int) == Ok::<
                (nat, int),
                ReaderError,
            >((value as nat, next as int)),
            Err(e) => uleb128(bytes@, pos as int, end as int) == Err::<(nat, int), ReaderError>(e),
        },
        r matches Ok((_, next)) ==> pos < next <= end <= bytes.len(),
{
    if end > bytes.len() {
        return Err(ReaderError::UnexpectedEof);
    }
    let mut value: u64 = 0;
    let mut scale: u64 = 1;
    let mut group: usize = 0;
    let mut at: usize = pos;
    proof {
        lemma_pow128_nine();
    }
    loop
        invariant
            end <= bytes.len(),
            pos <= at,
            group <= 9,
            at - pos == group,
            scale == pow128(group as nat),
            value < scale,
            pow128(9) == 0x8000_0000_0000_0000,
            match uleb128_at(bytes@, at as int, end as int, group as nat) {
                Ok((rest, next)) => uleb128(bytes@, pos as int, end as int) == Ok::<
                    (nat, int),
                    ReaderError,
                >(((value + scale * rest) as nat, next)),
                Err(e) => uleb128(bytes@, pos as int, end as int) == Err::<(nat, int), ReaderError>(
                    e,
                ),
            },
        decreases 10 - group,
    {
        if at >= end {
            return Err(ReaderError::UnexpectedEof);
        }
        let byte: u8 = bytes[at];
        if group == 9 && byte > 1 {
            return Err(ReaderError::BadUnsignedLeb128);
        }
        proof {
            lemma_uleb128_bounds(bytes@, at as int, end as int, group as nat);
            lemma_pow128_monotonic(group as nat, 9);
        }
        if byte < 0x80 {
            proof {
                assert(scale * byte <= scale * 127) by (nonlinear_arith)
                    requires
                        byte <= 127,
                        scale >= 0,
                ;
                if group == 9 {
                    assert(scale * byte <= scale) by (nonlinear_arith)
                        requires
                            byte <= 1,
                            scale >= 0,
                    ;
                }
                assert(group < 9 ==> scale * 128 <= 0x8000_0000_0000_0000) by {
                    if group < 9 {
                        lemma_pow128_monotonic((group + 1) as nat, 9);
                    }
                }
            }
            return Ok((value + scale * (byte as u64), at + 1));
        }
        let low: u64 = (byte - 0x80) as u64;
        proof {
            let ghost rest = uleb128_at(bytes@, at as int + 1, end as int, (group + 1) as nat);
            lemma_pow128_monotonic((group + 1) as nat, 9);
            assert(scale * low <= scale * 127) by (nonlinear_arith)
                requires
                    low <= 127,
                    scale >= 0,
            ;
            assert(pow128((group + 1) as nat) == 128 * scale);
            if let Ok((r, n)) = rest {
                assert(value + scale * (low + 128 * r) == (value + scale * low) + (scale * 128) * r)
                    by (nonlinear_arith);
            }
        }
        value = value + scale * low;
        scale = scale * 128;
        group = group + 1;
        at = at + 1;
    }
}

pub proof fn lemma_pow128_monotonic(i: nat, j: nat)
    requires
        i <= j,
    ensures
        pow128(i) <= pow128(j),
    decreases j,
{
    if i < j {
        lemma_pow128_monotonic(i, (j - 1) as nat);
    }
}

} // verus!
