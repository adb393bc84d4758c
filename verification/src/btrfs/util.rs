//! Little-endian integers, hex rendering and the fault-injection range.

use vstd::prelude::*;

use crate::text;

verus! {

/// The little-endian 16-bit value at `pos`.
pub open spec fn le16(buf: Seq<u8>, pos: int) -> u16 {
    (buf[pos] + 0x100 * buf[pos + 1]) as u16
}

/// The little-endian 32-bit value at `pos`.
pub open spec fn le32(buf: Seq<u8>, pos: int) -> u32 {
    (buf[pos] + 0x100 * buf[pos + 1] + 0x1_0000 * buf[pos + 2] + 0x100_0000 * buf[pos + 3]) as u32
}

/// The little-endian 64-bit value at `pos`.
pub open spec fn le64(buf: Seq<u8>, pos: int) -> u64 {
    (le32(buf, pos) + 0x1_0000_0000 * le32(buf, pos + 4)) as u64
}

/// Reads a little-endian `u16` at `pos`.
pub fn le_u16(buf: &[u8], pos: usize) -> (r: u16)
    requires
        pos + 2 <= buf@.len(),
    ensures
        r == le16(buf@, pos as int),
{
    buf[pos] as u16 + 0x100 * (buf[pos + 1] as u16)
}

/// Reads a little-endian `u32` at `pos`.
pub fn le_u32(buf: &[u8], pos: usize) -> (r: u32)
    requires
        pos + 4 <= buf@.len(),
    ensures
        r == le32(buf@, pos as int),
{
    buf[pos] as u32 + 0x100 * (buf[pos + 1] as u32) + 0x1_0000 * (buf[pos + 2] as u32) + 0x100_0000
        * (buf[pos + 3] as u32)
}

/// Reads a little-endian `u64` at `pos`.
pub fn le_u64(buf: &[u8], pos: usize) -> (r: u64)
    requires
        pos + 8 <= buf@.len(),
    ensures
        r == le64(buf@, pos as int),
{
    assert(pos + 8 <= buf.len());
    let low: u32 = le_u32(buf, pos);
    let high: u32 = le_u32(buf, pos + 4);
    low as u64 + 0x1_0000_0000 * (high as u64)
}

/// The bytes `buf[from..from + N]` as an array.
pub(crate) fn array_at<const N: usize>(buf: &[u8], from: usize) -> (r: [u8; N])
    requires
        from + N <= buf@.len(),
    ensures
        r@ == buf@.subrange(from as int, from + N),
{
    assert(from + N <= buf.len());
    let mut out: [u8; N] = [0u8; N];
    let mut i: usize = 0;
    while i < N
        invariant
            i <= N,
            from + N <= buf@.len(),
            from + N <= usize::MAX,
            forall|k: int| 0 <= k < i ==> #[trigger] out@[k] == buf@[from + k],
        decreases N - i,
    {
        out[i] = buf[from + i];
        i = i + 1;
    }
    assert(out@ =~= buf@.subrange(from as int, from + N));
    out
}

/// Two lower-case hex digits per byte.
pub open spec fn hex_of(bytes: Seq<u8>) -> Seq<char>
    decreases bytes.len(),
{
    if bytes.len() == 0 {
        Seq::empty()
    } else {
        hex_of(bytes.drop_last()).push(text::digit(bytes.last() as nat / 16)).push(
            text::digit(bytes.last() as nat % 16),
        )
    }
}

/// Renders bytes as lower-case hex, two digits per byte.
pub fn hex(bytes: &[u8]) -> (s: String)
    ensures
        s@ == hex_of(bytes@),
{
    let mut s = String::new();
    let n: usize = bytes.len();
    let mut i: usize = 0;
    while i < n
        invariant
            i <= n,
            n == bytes@.len(),
            s@ == hex_of(bytes@.take(i as int)),
        decreases n - i,
    {
        let b: u8 = bytes[i];
        proof {
            assert(bytes@.take(i + 1).drop_last() =~= bytes@.take(i as int));
            assert(bytes@.take(i + 1).last() == b);
        }
        s.push(text::digit_char((b / 16) as u32));
        s.push(text::digit_char((b % 16) as u32));
        i = i + 1;
    }
    assert(bytes@.take(n as int) =~= bytes@);
    s
}

// ---------------------------------------------------------------------------
// Fault injection
// ---------------------------------------------------------------------------

/// The byte range that a fault setting names: `<start>` or `<start>,<len>`, each
/// trimmed; the length is 4096 where it is not given, and at least 1.
pub open spec fn is_fault_range(s: Seq<char>, r: Option<(u64, u64)>) -> bool {
    if s.contains(',') {
        exists|i: int|
            {
                &&& #[trigger] text::first_at(s, ',', i)
                &&& r == range_of(
                    text::parsed(text::trimmed(s.take(i)), 10, u64::MAX as nat),
                    text::parsed(text::trimmed(s.skip(i + 1)), 10, u64::MAX as nat),
                )
            }
    } else {
        r == range_of(text::parsed(text::trimmed(s), 10, u64::MAX as nat), Ok(4096))
    }
}

/// The range, where both numbers are there.
pub open spec fn range_of(
    start: Result<nat, text::IntError>,
    len: Result<nat, text::IntError>,
) -> Option<(u64, u64)> {
    match (start, len) {
        (Ok(s), Ok(l)) => Some((s as u64, if l == 0 { 1 } else { l as u64 })),
        _ => None,
    }
}

fn number(s: &[char]) -> (r: Option<u64>)
    ensures
        match r {
            Some(v) => text::parsed(text::trimmed(s@), 10, u64::MAX as nat) == Ok::<
                nat,
                text::IntError,
            >(v as nat),
            None => text::parsed(text::trimmed(s@), 10, u64::MAX as nat) is Err,
        },
{
    match text::parse_uint(text::trim(s), 10, u64::MAX) {
        Ok(v) => Some(v),
        Err(_) => None,
    }
}

/// Reads a fault setting.
pub fn fault_range(raw: &str) -> (r: Option<(u64, u64)>)
    ensures
        is_fault_range(raw@, r),
{
    let chars = text::chars_of(raw);
    let s = chars.as_slice();
    let (start, len): (Option<u64>, Option<u64>) = match text::find_char(s, ',') {
        None => (number(s), Some(4096)),
        Some(i) => {
            let n: usize = s.len();
            let front = vstd::slice::slice_subrange(s, 0, i);
            let back = vstd::slice::slice_subrange(s, i + 1, n);
            assert(front@ =~= raw@.take(i as int));
            assert(back@ =~= raw@.skip(i + 1));
            assert(text::first_at(raw@, ',', i as int));
            assert(raw@[i as int] == ',');
            (number(front), number(back))
        },
    };
    match (start, len) {
        (Some(s), Some(l)) => Some((s, if l == 0 {
            1
        } else {
            l
        })),
        _ => None,
    }
}

/// Whether a read of `n` bytes at `offset` touches the faulty range.
pub fn fault_hits(fault: (u64, u64), offset: u64, n: u64) -> (r: bool)
    ensures
        r == (offset < sat_add(fault.0, fault.1) && sat_add(offset, n) > fault.0),
{
    let end: u64 = fault.0.saturating_add(fault.1);
    let read_end: u64 = offset.saturating_add(n);
    offset < end && read_end > fault.0
}

/// A sum, cut at the largest address.
pub open spec fn sat_add(a: u64, b: u64) -> int {
    if a + b <= u64::MAX { a + b } else { u64::MAX as int }
}

} // verus!
