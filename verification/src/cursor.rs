//! Cursor movement over the UTF-8 bytes of one line of the script.
//!
//! A cursor is a byte offset into a line; it is meant to rest on a character
//! boundary: the start of a character's encoding, or the end of the line.

use vstd::prelude::*;
use vstd::string::StringSliceAdditionalSpecFns;
use vstd::utf8::*;

verus! {

broadcast use vstd::utf8::group_utf8_lib;

/// The greatest character boundary of `bytes` at or below `k`
/// (0 when `k` is not positive).
pub open spec fn boundary_at_or_below(bytes: Seq<u8>, k: int) -> int
    decreases k,
{
    if k <= 0 {
        0
    } else if is_char_boundary(bytes, k) {
        k
    } else {
        boundary_at_or_below(bytes, k - 1)
    }
}

/// The least character boundary of `bytes` at or above `k`
/// (the length when `k` is past the end).
pub open spec fn boundary_at_or_above(bytes: Seq<u8>, k: int) -> int
    decreases bytes.len() - k,
{
    if k >= bytes.len() {
        bytes.len() as int
    } else if is_char_boundary(bytes, k) {
        k
    } else {
        boundary_at_or_above(bytes, k + 1)
    }
}

/// Where the cursor goes when it steps one character to the left.
pub open spec fn spec_previous(bytes: Seq<u8>, cursor: int) -> int {
    if cursor <= 0 {
        0
    } else {
        boundary_at_or_below(bytes, cursor - 1)
    }
}

/// Where the cursor goes when it steps one character to the right.
pub open spec fn spec_next(bytes: Seq<u8>, cursor: int) -> int {
    if cursor >= bytes.len() {
        cursor
    } else {
        boundary_at_or_above(bytes, cursor + 1)
    }
}

/// Where a cursor lands on a line that may be shorter than it, or on
/// a byte inside a character.
pub open spec fn spec_snap(bytes: Seq<u8>, cursor: int) -> int {
    if cursor <= bytes.len() {
        boundary_at_or_below(bytes, cursor)
    } else {
        boundary_at_or_below(bytes, bytes.len() as int)
    }
}

/// A character boundary lies within the byte sequence.
pub proof fn lemma_boundary_in_range(bytes: Seq<u8>, k: int)
    requires
        valid_utf8(bytes),
        is_char_boundary(bytes, k),
    ensures
        0 <= k <= bytes.len(),
{
    reveal_with_fuel(is_char_boundary, 1);
}

/// The greatest boundary at or below `k` is a boundary, lies in `0..=k`,
/// and no boundary lies above it up to `k`.
pub proof fn lemma_at_or_below(bytes: Seq<u8>, k: int)
    requires
        valid_utf8(bytes),
        k <= bytes.len(),
    ensures
        is_char_boundary(bytes, boundary_at_or_below(bytes, k)),
        0 <= boundary_at_or_below(bytes, k),
        k >= 0 ==> boundary_at_or_below(bytes, k) <= k,
        forall|j: int|
            boundary_at_or_below(bytes, k) < j <= k ==> !is_char_boundary(bytes, j),
    decreases k,
{
    is_char_boundary_start_end_of_seq(bytes);
    if k > 0 && !is_char_boundary(bytes, k) {
        lemma_at_or_below(bytes, k - 1);
    }
}

/// The least boundary at or above `k` is a boundary, lies in `k..=len`,
/// and no boundary lies below it down to `k`.
pub proof fn lemma_at_or_above(bytes: Seq<u8>, k: int)
    requires
        valid_utf8(bytes),
        0 <= k,
    ensures
        is_char_boundary(bytes, boundary_at_or_above(bytes, k)),
        boundary_at_or_above(bytes, k) <= bytes.len(),
        k <= bytes.len() ==> k <= boundary_at_or_above(bytes, k),
        forall|j: int|
            k <= j < boundary_at_or_above(bytes, k) ==> !is_char_boundary(bytes, j),
    decreases bytes.len() - k,
{
    is_char_boundary_start_end_of_seq(bytes);
    if k < bytes.len() && !is_char_boundary(bytes, k) {
        lemma_at_or_above(bytes, k + 1);
    }
}

/// A boundary `b` at or below `k` with no boundary between them is the
/// greatest boundary at or below `k`.
pub proof fn lemma_at_or_below_unique(bytes: Seq<u8>, k: int, b: int)
    requires
        0 <= b <= k,
        is_char_boundary(bytes, b),
        forall|j: int| b < j <= k ==> !is_char_boundary(bytes, j),
    ensures
        boundary_at_or_below(bytes, k) == b,
    decreases k,
{
    if k > b {
        lemma_at_or_below_unique(bytes, k - 1, b);
    }
}

/// A boundary `b` at or above `k` with no boundary between them is the
/// least boundary at or above `k`.
pub proof fn lemma_at_or_above_unique(bytes: Seq<u8>, k: int, b: int)
    requires
        k <= b <= bytes.len(),
        is_char_boundary(bytes, b),
        forall|j: int| k <= j < b ==> !is_char_boundary(bytes, j),
    ensures
        boundary_at_or_above(bytes, k) == b,
    decreases bytes.len() - k,
{
    if k < b {
        lemma_at_or_above_unique(bytes, k + 1, b);
    }
}

/// Stepping right and then left returns a cursor to where it was, for every
/// boundary before the end of the line.
pub proof fn law_previous_undoes_next(bytes: Seq<u8>, cursor: int)
    requires
        valid_utf8(bytes),
        is_char_boundary(bytes, cursor),
        cursor < bytes.len(),
    ensures
        spec_previous(bytes, spec_next(bytes, cursor)) == cursor,
{
    let b = bytes;
    lemma_boundary_in_range(b, cursor);
    lemma_at_or_above(b, cursor + 1);
    let n = spec_next(b, cursor);
    lemma_at_or_below_unique(b, n - 1, cursor);
}

/// Stepping left and then right returns a cursor to where it was, for every
/// boundary after the start of the line.
pub proof fn law_next_undoes_previous(bytes: Seq<u8>, cursor: int)
    requires
        valid_utf8(bytes),
        is_char_boundary(bytes, cursor),
        cursor > 0,
    ensures
        spec_next(bytes, spec_previous(bytes, cursor)) == cursor,
{
    let b = bytes;
    lemma_boundary_in_range(b, cursor);
    lemma_at_or_below(b, cursor - 1);
    let p = spec_previous(b, cursor);
    lemma_at_or_above_unique(b, p + 1, cursor);
}

/// Every cursor that the three moves produce rests on a character boundary
/// of the line, and a step never leaves the line.
pub proof fn law_moves_land_on_boundaries(bytes: Seq<u8>, cursor: int)
    requires
        valid_utf8(bytes),
        0 <= cursor,
    ensures
        is_char_boundary(bytes, spec_snap(bytes, cursor)),
        spec_snap(bytes, cursor) <= cursor,
        is_char_boundary(bytes, cursor) ==> {
            &&& is_char_boundary(bytes, spec_previous(bytes, cursor))
            &&& is_char_boundary(bytes, spec_next(bytes, cursor))
            &&& spec_previous(bytes, cursor) <= cursor
            &&& cursor <= spec_next(bytes, cursor)
        },
{
    let b = bytes;
    is_char_boundary_start_end_of_seq(b);
    if cursor <= b.len() {
        lemma_at_or_below(b, cursor);
    } else {
        lemma_at_or_below(b, b.len() as int);
    }
    if is_char_boundary(b, cursor) {
        lemma_boundary_in_range(b, cursor);
        lemma_at_or_below(b, cursor - 1);
        lemma_at_or_above(b, cursor + 1);
    }
}

/// A cursor that already rests on a boundary is left where it is, so
/// snapping twice is snapping once.
pub proof fn law_snap_keeps_boundaries(bytes: Seq<u8>, cursor: int)
    requires
        valid_utf8(bytes),
        0 <= cursor,
    ensures
        is_char_boundary(bytes, cursor) ==> spec_snap(bytes, cursor)
            == cursor,
        spec_snap(bytes, spec_snap(bytes, cursor)) == spec_snap(
            bytes,
            cursor,
        ),
{
    let b = bytes;
    if is_char_boundary(b, cursor) {
        lemma_boundary_in_range(b, cursor);
        lemma_at_or_below_unique(b, cursor, cursor);
    }
    law_moves_land_on_boundaries(bytes, cursor);
    let s = spec_snap(b, cursor);
    lemma_boundary_in_range(b, s);
    lemma_at_or_below_unique(b, s, s);
}

fn is_continuation(byte: u8) -> (r: bool)
    ensures
        r == is_continuation_byte(byte),
{
    0x80 <= byte && byte <= 0xbf
}

/// The character boundary just before `cursor` (0 at the start of the line).
pub fn previous_boundary(line: &str, cursor: usize) -> (r: usize)
    requires
        is_char_boundary(line.spec_bytes(), cursor as int),
    ensures
        r == spec_previous(line.spec_bytes(), cursor as int),
{
    let bytes = line.as_bytes();
    let ghost b = line.spec_bytes();
    proof {
        lemma_boundary_in_range(b, cursor as int);
    }
    if cursor == 0 {
        return 0;
    }
    let mut i: usize = cursor - 1;
    while i > 0 && is_continuation(bytes[i])
        invariant
            b == bytes@,
            valid_utf8(b),
            0 <= i < cursor <= b.len(),
            forall|j: int| i < j < cursor ==> !is_char_boundary(b, j),
        decreases i,
    {
        i = i - 1;
    }
    proof {
        is_char_boundary_start_end_of_seq(b);
        lemma_at_or_below_unique(b, cursor - 1, i as int);
    }
    i
}

/// The character boundary just after `cursor` (the cursor itself at the end
/// of the line).
pub fn next_boundary(line: &str, cursor: usize) -> (r: usize)
    requires
        is_char_boundary(line.spec_bytes(), cursor as int),
    ensures
        r == spec_next(line.spec_bytes(), cursor as int),
{
    let bytes = line.as_bytes();
    let ghost b = line.spec_bytes();
    proof {
        lemma_boundary_in_range(b, cursor as int);
    }
    let len = bytes.len();
    if cursor == len {
        return cursor;
    }
    let mut i: usize = cursor + 1;
    while i < len && is_continuation(bytes[i])
        invariant
            b == bytes@,
            len == b.len(),
            valid_utf8(b),
            cursor < i <= len,
            forall|j: int| cursor < j < i ==> !is_char_boundary(b, j),
        decreases len - i,
    {
        i = i + 1;
    }
    proof {
        is_char_boundary_start_end_of_seq(b);
        lemma_at_or_above_unique(b, cursor + 1, i as int);
    }
    i
}

/// The cursor moved onto the line: clamped to its length, then back to the
/// nearest character boundary at or before it.
pub fn snap_boundary(line: &str, cursor: usize) -> (r: usize)
    ensures
        r == spec_snap(line.spec_bytes(), cursor as int),
{
    let bytes = line.as_bytes();
    let ghost b = line.spec_bytes();
    let c: usize = if cursor < bytes.len() { cursor } else { bytes.len() };
    if line.is_char_boundary(c) {
        proof {
            lemma_at_or_below_unique(b, c as int, c as int);
        }
        return c;
    }
    let mut i: usize = c;
    while i > 0 && (i == c || is_continuation(bytes[i]))
        invariant
            b == bytes@,
            valid_utf8(b),
            0 <= i <= c <= b.len(),
            !is_char_boundary(b, c as int),
            forall|j: int| i < j <= c ==> !is_char_boundary(b, j),
        decreases i,
    {
        i = i - 1;
    }
    proof {
        is_char_boundary_start_end_of_seq(b);
        lemma_at_or_below_unique(b, c as int, i as int);
    }
    i
}

} // verus!
