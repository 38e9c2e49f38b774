//! Little-endian integers and byte comparisons over a byte source.

use vstd::prelude::*;

verus! {

/// The little-endian 32-bit integer stored in `s` at `pos`.
pub open spec fn u32_at(s: Seq<u8>, pos: int) -> int
    recommends
        0 <= pos,
        pos + 4 <= s.len(),
{
    s[pos] as int + 256 * (s[pos + 1] as int) + 65536 * (s[pos + 2] as int) + 16777216 * (s[pos
        + 3] as int)
}

/// The little-endian 64-bit integer stored in `s` at `pos`.
pub open spec fn u64_at(s: Seq<u8>, pos: int) -> int
    recommends
        0 <= pos,
        pos + 8 <= s.len(),
{
    u32_at(s, pos) + 4294967296 * u32_at(s, pos + 4)
}

/// Whether `n` bytes starting at `pos` lie inside a source of length `len`.
pub open spec fn in_bounds(len: int, pos: int, n: int) -> bool {
    0 <= pos && 0 <= n && pos + n <= len
}

/// Reads the little-endian `u32` at `pos`; `None` when it does not fit.
pub fn read_u32(data: &[u8], pos: usize) -> (r: Option<u32>)
    ensures
        match r {
            Some(v) => in_bounds(data@.len() as int, pos as int, 4) && v as int == u32_at(
                data@,
                pos as int,
            ),
            None => !in_bounds(data@.len() as int, pos as int, 4),
        },
{
    if data.len() < 4 || pos > data.len() - 4 {
        return None;
    }
    let b0: u32 = data[pos] as u32;
    let b1: u32 = data[pos + 1] as u32;
    let b2: u32 = data[pos + 2] as u32;
    let b3: u32 = data[pos + 3] as u32;
    Some(b0 + 256 * b1 + 65536 * b2 + 16777216 * b3)
}

/// Reads the little-endian `u64` at `pos`; `None` when it does not fit.
pub fn read_u64(data: &[u8], pos: usize) -> (r: Option<u64>)
    ensures
        match r {
            Some(v) => in_bounds(data@.len() as int, pos as int, 8) && v as int == u64_at(
                data@,
                pos as int,
            ),
            None => !in_bounds(data@.len() as int, pos as int, 8),
        },
{
    if data.len() < 8 || pos > data.len() - 8 {
        return None;
    }
    let lo: Option<u32> = read_u32(data, pos);
    let hi: Option<u32> = read_u32(data, pos + 4);
    match (lo, hi) {
        (Some(l), Some(h)) => Some(l as u64 + 4294967296 * (h as u64)),
        _ => None,
    }
}

/// Whether the bytes of `data` between `start` and `end` spell `word`.
pub fn span_is(data: &[u8], start: usize, end: usize, word: &[u8]) -> (r: bool)
    requires
        start <= end <= data@.len(),
    ensures
        r == (data@.subrange(start as int, end as int) == word@),
{
    if end - start != word.len() {
        return false;
    }
    let mut i: usize = 0;
    while i < word.len()
        invariant
            start <= end <= data@.len(),
            end - start == word@.len(),
            0 <= i <= word@.len(),
            forall|k: int| 0 <= k < i ==> data@[start + k] == word@[k],
        decreases word@.len() - i,
    {
        if data[start + i] != word[i] {
            assert(data@.subrange(start as int, end as int)[i as int] != word@[i as int]);
            return false;
        }
        i += 1;
    }
    assert(data@.subrange(start as int, end as int) =~= word@);
    true
}

/// Narrows a 64-bit file offset to an index, when the machine can hold it.
pub fn to_index(x: u64) -> (r: Option<usize>)
    ensures
        r == if x <= usize::MAX {
            Some(x as usize)
        } else {
            None::<usize>
        },
{
    if x <= usize::MAX as u64 {
        Some(x as usize)
    } else {
        None
    }
}

} // verus!
