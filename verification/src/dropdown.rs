//! The pure parts of the terminal rendering protocol: parsing the
//! cursor-position report, and the geometry of the dropdown (its origin
//! row and its clamped height). The raw-mode handle and the byte-level
//! reads and writes live outside the library; they hand the bytes and the
//! measurements in and take the decisions back.

use vstd::prelude::*;

verus! {

/// The fewest rows the dropdown ever uses.
pub const MIN_HEIGHT: u16 = 5;

/// The value of a run of decimal digits, most significant first.
pub open spec fn digits_value(ds: Seq<u8>) -> int
    decreases ds.len(),
{
    if ds.len() == 0 {
        0
    } else {
        digits_value(ds.drop_last()) * 10 + (ds.last() - 48)
    }
}

/// Every byte is a decimal digit.
pub open spec fn all_digits(ds: Seq<u8>) -> bool {
    forall|i: int| 0 <= i < ds.len() ==> 48 <= #[trigger] ds[i] <= 57
}

/// A non-empty, all-digit run whose value fits; anything else does not
/// parse.
pub open spec fn spec_parse_u16(ds: Seq<u8>) -> Option<u16> {
    if ds.len() > 0 && all_digits(ds) && digits_value(ds) <= 65535 {
        Some(digits_value(ds) as u16)
    } else {
        None
    }
}

/// The index of the last occurrence of `b`, or -1 when there is none.
pub open spec fn last_index_of(s: Seq<u8>, b: u8) -> int
    decreases s.len(),
{
    if s.len() == 0 {
        -1
    } else if s.last() == b {
        s.len() - 1
    } else {
        last_index_of(s.drop_last(), b)
    }
}

/// The index of the first occurrence of `b` at or after `j`, or the length
/// when there is none.
pub open spec fn first_index_from(s: Seq<u8>, b: u8, j: int) -> int
    decreases s.len() - j,
{
    if 0 <= j < s.len() {
        if s[j] == b {
            j
        } else {
            first_index_from(s, b, j + 1)
        }
    } else {
        s.len() as int
    }
}

/// What the cursor-position report means. The raw reply (everything read
/// up to and including the terminating byte) is taken apart as the
/// status-report exchange defines it: the final byte dropped, the bracket
/// located from the end, the two numbers between it and the end split at a
/// semicolon, read as row then column. The answer comes back as (column,
/// row); a reply with no bracket, no semicolon, or malformed numbers does
/// not parse.
pub open spec fn spec_parse_cursor(bytes: Seq<u8>) -> Option<(u16, u16)> {
    if bytes.len() == 0 {
        None
    } else {
        let body = bytes.drop_last();
        let bracket = last_index_of(body, 91);
        if bracket < 0 {
            None
        } else {
            let coords = body.skip(bracket + 1);
            let semi = first_index_from(coords, 59, 0);
            if semi >= coords.len() {
                None
            } else {
                let row_digits = coords.take(semi);
                let col_digits = coords.skip(semi + 1).take(
                    first_index_from(coords.skip(semi + 1), 59, 0),
                );
                match (spec_parse_u16(row_digits), spec_parse_u16(col_digits)) {
                    (Some(row), Some(col)) => Some((col, row)),
                    _ => None,
                }
            }
        }
    }
}

/// A prefix of an all-digit run never exceeds the whole run's value.
proof fn lemma_digits_prefix(ds: Seq<u8>, j: int)
    requires
        0 <= j <= ds.len(),
        all_digits(ds),
    ensures
        digits_value(ds.take(j)) <= digits_value(ds),
        digits_value(ds) >= 0,
    decreases ds.len() - j,
{
    if j == ds.len() {
        assert(ds.take(j) =~= ds);
        lemma_digits_nonneg(ds);
    } else {
        lemma_digits_prefix(ds, j + 1);
        assert(ds.take(j + 1).drop_last() =~= ds.take(j));
        assert(ds.take(j + 1).last() == ds[j]);
        lemma_digits_nonneg(ds.take(j));
    }
}

proof fn lemma_digits_nonneg(ds: Seq<u8>)
    requires
        all_digits(ds.take(ds.len() as int)) || all_digits(ds),
    ensures
        all_digits(ds) ==> digits_value(ds) >= 0,
    decreases ds.len(),
{
    if ds.len() > 0 && all_digits(ds) {
        assert(all_digits(ds.drop_last())) by {
            assert(forall|i: int|
                0 <= i < ds.drop_last().len() ==> ds.drop_last()[i] == ds[i]);
        }
        lemma_digits_nonneg(ds.drop_last());
    }
}

/// Reads a run of digits as a number that must fit in sixteen bits.
fn parse_u16(bytes: &Vec<u8>, from: usize, to: usize) -> (r: Option<u16>)
    requires
        from <= to <= bytes@.len(),
    ensures
        r == spec_parse_u16(bytes@.subrange(from as int, to as int)),
{
    let ghost ds = bytes@.subrange(from as int, to as int);
    if from == to {
        return None;
    }
    let mut acc: u32 = 0;
    let mut j = from;
    while j < to
        invariant
            from <= j <= to,
            to <= bytes@.len(),
            ds == bytes@.subrange(from as int, to as int),
            all_digits(ds.take(j - from)),
            acc <= 65535,
            acc as int == digits_value(ds.take(j - from)),
        decreases to - j,
    {
        let b = bytes[j];
        if !(48 <= b && b <= 57) {
            proof {
                assert(ds[j - from] == b);
            }
            return None;
        }
        let d: u32 = (b - 48) as u32;
        let next: u32 = acc * 10 + d;
        proof {
            assert(ds.take(j - from + 1).drop_last() =~= ds.take(j - from));
            assert(ds.take(j - from + 1).last() == ds[j - from]);
            assert(all_digits(ds.take(j - from + 1)));
        }
        if next > 65535 {
            proof {
                if all_digits(ds) {
                    lemma_digits_prefix(ds, j - from + 1);
                    assert(digits_value(ds) >= digits_value(ds.take(j - from + 1)));
                }
            }
            return None;
        }
        acc = next;
        j = j + 1;
    }
    proof {
        assert(ds.take(to - from) =~= ds);
    }
    Some(acc as u16)
}

/// Takes the row and column out of a raw cursor-position reply, as
/// (column, row); `None` when the reply is malformed.
pub fn parse_cursor_report(bytes: &Vec<u8>) -> (r: Option<(u16, u16)>)
    ensures
        r == spec_parse_cursor(bytes@),
{
    let n = bytes.len();
    if n == 0 {
        return None;
    }
    let body_len = n - 1;
    let ghost body = bytes@.drop_last();
    proof {
        assert(body =~= bytes@.take(body_len as int));
    }
    // the bracket, scanning from the end of the body
    let mut bi = body_len;
    proof {
        assert(body.take(bi as int) =~= body);
    }
    while bi > 0 && bytes[bi - 1] != 91
        invariant
            bi <= body_len,
            body_len < bytes@.len(),
            body == bytes@.take(body_len as int),
            last_index_of(body, 91) == last_index_of(body.take(bi as int), 91),
            forall|k: int| bi <= k < body_len ==> bytes@[k] != 91,
        decreases bi,
    {
        proof {
            assert(body.take(bi as int).last() == bytes@[bi - 1]);
            assert(body.take(bi as int).drop_last() =~= body.take(bi - 1 as int));
        }
        bi = bi - 1;
    }
    if bi == 0 {
        proof {
            assert(body.take(0int) =~= Seq::<u8>::empty());
        }
        return None;
    }
    proof {
        assert(body.take(bi as int).last() == bytes@[bi - 1]);
        assert(last_index_of(body, 91) == bi - 1);
    }
    let coords_start = bi;
    let ghost coords = body.skip(bi as int);
    proof {
        assert(coords.len() == body_len - bi);
    }
    // the semicolon between the two numbers
    let mut si = coords_start;
    while si < body_len && bytes[si] != 59
        invariant
            coords_start <= si <= body_len,
            body_len < bytes@.len(),
            body == bytes@.take(body_len as int),
            coords == body.skip(coords_start as int),
            first_index_from(coords, 59, 0) == first_index_from(coords, 59, si - coords_start),
        decreases body_len - si,
    {
        proof {
            assert(coords[si - coords_start] == bytes@[si as int]);
        }
        si = si + 1;
    }
    if si == body_len {
        proof {
            assert(first_index_from(coords, 59, si - coords_start) == coords.len());
        }
        return None;
    }
    proof {
        assert(coords[si - coords_start] == bytes@[si as int]);
        assert(first_index_from(coords, 59, 0) == si - coords_start);
    }
    // the end of the column digits: the next semicolon, or the body's end
    let ghost tail = coords.skip(si - coords_start + 1);
    let mut ei = si + 1;
    while ei < body_len && bytes[ei] != 59
        invariant
            si + 1 <= ei <= body_len,
            body_len < bytes@.len(),
            body == bytes@.take(body_len as int),
            coords == body.skip(coords_start as int),
            coords_start <= si,
            tail == coords.skip(si - coords_start + 1),
            first_index_from(tail, 59, 0) == first_index_from(tail, 59, ei - si - 1),
        decreases body_len - ei,
    {
        proof {
            assert(tail[ei - si - 1] == bytes@[ei as int]);
        }
        ei = ei + 1;
    }
    proof {
        if ei < body_len {
            assert(tail[ei - si - 1] == bytes@[ei as int]);
        }
        assert(first_index_from(tail, 59, 0) == ei - si - 1);
    }
    let row = parse_u16(bytes, coords_start, si);
    let col = parse_u16(bytes, si + 1, ei);
    proof {
        assert(coords.take(si - coords_start) =~= bytes@.subrange(coords_start as int, si as int));
        assert(tail.take(ei - si - 1) =~= bytes@.subrange(si + 1 as int, ei as int));
    }
    match (row, col) {
        (Some(r0), Some(c0)) => Some((c0, r0)),
        _ => None,
    }
}

/// The visible row count for a render pass: the configured maximum,
/// clamped above by the rows left under the origin and below by the
/// minimum.
pub open spec fn spec_clamp_height(max_height: u16, start_row: u16, window: u16) -> int {
    let avail = window - start_row;
    let capped = if avail < max_height {
        avail as int
    } else {
        max_height as int
    };
    if capped < MIN_HEIGHT {
        MIN_HEIGHT as int
    } else {
        capped
    }
}

/// Recomputes the visible height from the current window size.
pub fn clamp_height(max_height: u16, start_row: u16, window: u16) -> (r: u16)
    requires
        start_row <= window,
    ensures
        r as int == spec_clamp_height(max_height, start_row, window),
{
    let avail = window - start_row;
    let capped = if avail < max_height {
        avail
    } else {
        max_height
    };
    if capped < MIN_HEIGHT {
        MIN_HEIGHT
    } else {
        capped
    }
}

/// The dropdown's origin row: the row the cursor was found on when the
/// column was 1, else the next row down.
pub fn origin_row(cursor_col: u16, cursor_row: u16) -> (r: u16)
    requires
        cursor_row < u16::MAX,
    ensures
        r == if cursor_col == 1 {
            cursor_row as int
        } else {
            cursor_row + 1
        },
{
    if cursor_col == 1 {
        cursor_row
    } else {
        cursor_row + 1
    }
}

/// Pulls the origin up so the dropdown fits on the screen.
pub fn clamp_origin(origin_row: u16, window: u16, height: u16) -> (r: u16)
    requires
        height <= window,
    ensures
        r == if origin_row <= window - height {
            origin_row as int
        } else {
            (window - height) as int
        },
{
    let limit = window - height;
    if origin_row <= limit {
        origin_row
    } else {
        limit
    }
}

} // verus!
