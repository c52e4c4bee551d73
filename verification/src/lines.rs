//! What a line count is, as a function of the bytes of a stream.
//!
//! Two counts are defined. The raw count is the number of newline bytes. The
//! count of lines with content skips every line that holds nothing but
//! whitespace, and counts a last line that no newline ends if it holds
//! content.

use vstd::prelude::*;

verus! {

/// The line terminator, `\n`.
pub const NEWLINE: u8 = 0x0a;

/// Carriage return, `\r`: whitespace inside a line.
pub const CARRIAGE_RETURN: u8 = 0x0d;

/// The space character: whitespace inside a line.
pub const SPACE: u8 = 0x20;

/// Tab, `\t`: whitespace inside a line.
pub const TAB: u8 = 0x09;

/// Whitespace that may stand inside a line without making it a line with
/// content.
pub open spec fn is_blank(b: u8) -> bool {
    b == CARRIAGE_RETURN || b == SPACE || b == TAB
}

/// A byte that gives its line content: neither the terminator nor whitespace.
pub open spec fn is_data(b: u8) -> bool {
    b != NEWLINE && !is_blank(b)
}

/// Whether `line` holds a byte with content.
pub open spec fn has_content(line: Seq<u8>) -> bool {
    exists|i: int| 0 <= i < line.len() && is_data(#[trigger] line[i])
}

/// How often `needle` occurs in `bytes`.
pub open spec fn occurrences(bytes: Seq<u8>, needle: u8) -> nat
    decreases bytes.len(),
{
    if bytes.len() == 0 {
        0
    } else {
        occurrences(bytes.drop_last(), needle) + if bytes.last() == needle {
            1nat
        } else {
            0nat
        }
    }
}

/// The raw count: the number of newline bytes in `bytes`.
pub open spec fn newline_count(bytes: Seq<u8>) -> nat {
    occurrences(bytes, NEWLINE)
}

/// Whether the line that is open after `bytes` holds content. `carry` says
/// whether the line that `bytes` continues held content already; for a whole
/// stream it is `false`.
pub open spec fn pending_after(carry: bool, bytes: Seq<u8>) -> bool
    decreases bytes.len(),
{
    if bytes.len() == 0 {
        carry
    } else if bytes.last() == NEWLINE {
        false
    } else {
        is_data(bytes.last()) || pending_after(carry, bytes.drop_last())
    }
}

/// The number of newlines in `bytes` that end a line with content. `carry` is
/// as in [`pending_after`].
pub open spec fn closed_lines(carry: bool, bytes: Seq<u8>) -> nat
    decreases bytes.len(),
{
    if bytes.len() == 0 {
        0
    } else {
        closed_lines(carry, bytes.drop_last()) + if bytes.last() == NEWLINE && pending_after(
            carry,
            bytes.drop_last(),
        ) {
            1nat
        } else {
            0nat
        }
    }
}

/// Whether position `i` of `bytes` holds content and no newline follows it.
pub open spec fn is_open_content(bytes: Seq<u8>, i: int) -> bool {
    0 <= i < bytes.len() && is_data(bytes[i]) && newline_count(bytes.skip(i)) == 0
}

/// The count of lines with content in a whole stream: the terminated ones,
/// and the last one where content follows the final newline.
pub open spec fn nonempty_lines(bytes: Seq<u8>) -> nat {
    closed_lines(false, bytes) + if pending_after(false, bytes) {
        1nat
    } else {
        0nat
    }
}

/// The count of a whole stream in either mode.
pub open spec fn line_count(skip_empty: bool, bytes: Seq<u8>) -> nat {
    if skip_empty {
        nonempty_lines(bytes)
    } else {
        newline_count(bytes)
    }
}

/// What has been counted once `bytes` were read and the stream has not ended:
/// in the raw mode every newline, otherwise every terminated line with
/// content.
pub open spec fn counted_so_far(skip_empty: bool, bytes: Seq<u8>) -> nat {
    if skip_empty {
        closed_lines(false, bytes)
    } else {
        newline_count(bytes)
    }
}

/// What is counted of `data` when it is read through a buffer of
/// `buffer_size` bytes. A buffer that holds nothing takes no byte in: the
/// first read brings nothing, which is how the end of a stream shows, and
/// nothing is counted. With any other buffer the count is that of `data`.
pub open spec fn buffered_count(skip_empty: bool, data: Seq<u8>, buffer_size: usize) -> nat {
    if buffer_size == 0 {
        0
    } else {
        line_count(skip_empty, data)
    }
}

/// A count as a result of 32 bits with sign: the count itself where it is at
/// most `i32::MAX`, and `None` where it is more.
pub open spec fn fitting(count: nat) -> Option<i32> {
    if count <= i32::MAX {
        Some(count as i32)
    } else {
        None
    }
}

/// Occurrences add up over a split.
pub proof fn lemma_occurrences_concat(a: Seq<u8>, b: Seq<u8>, needle: u8)
    ensures
        occurrences(a + b, needle) == occurrences(a, needle) + occurrences(b, needle),
    decreases b.len(),
{
    if b.len() == 0 {
        assert(a + b =~= a);
    } else {
        assert((a + b).drop_last() =~= a + b.drop_last());
        lemma_occurrences_concat(a, b.drop_last(), needle);
    }
}

/// A stream may be split anywhere: the second part is scanned with what the
/// first part left open.
pub proof fn lemma_scan_concat(carry: bool, a: Seq<u8>, b: Seq<u8>)
    ensures
        pending_after(carry, a + b) == pending_after(pending_after(carry, a), b),
        closed_lines(carry, a + b) == closed_lines(carry, a) + closed_lines(
            pending_after(carry, a),
            b,
        ),
    decreases b.len(),
{
    if b.len() == 0 {
        assert(a + b =~= a);
    } else {
        assert((a + b).drop_last() =~= a + b.drop_last());
        lemma_scan_concat(carry, a, b.drop_last());
    }
}

/// What is counted before the end of a stream is at most the count of the
/// stream, and no count exceeds the number of bytes.
pub proof fn lemma_count_bounds(skip_empty: bool, bytes: Seq<u8>)
    ensures
        counted_so_far(skip_empty, bytes) <= line_count(skip_empty, bytes) <= bytes.len(),
{
    lemma_occurrences_at_most_len(bytes, NEWLINE);
    lemma_nonempty_at_most_len(false, bytes);
}

/// A byte occurs at most once at each position.
proof fn lemma_occurrences_at_most_len(bytes: Seq<u8>, needle: u8)
    ensures
        occurrences(bytes, needle) <= bytes.len(),
    decreases bytes.len(),
{
    if bytes.len() > 0 {
        lemma_occurrences_at_most_len(bytes.drop_last(), needle);
    }
}

/// Each line with content holds a byte, but for the one that carried content
/// into `bytes`.
proof fn lemma_nonempty_at_most_len(carry: bool, bytes: Seq<u8>)
    ensures
        closed_lines(carry, bytes) + (if pending_after(carry, bytes) {
            1nat
        } else {
            0nat
        }) <= bytes.len() + (if carry {
            1nat
        } else {
            0nat
        }),
    decreases bytes.len(),
{
    if bytes.len() > 0 {
        lemma_nonempty_at_most_len(carry, bytes.drop_last());
    }
}

/// What has been counted never shrinks as more bytes arrive.
pub proof fn lemma_counted_monotone(skip_empty: bool, a: Seq<u8>, b: Seq<u8>)
    ensures
        counted_so_far(skip_empty, a) <= counted_so_far(skip_empty, a + b),
{
    lemma_occurrences_concat(a, b, NEWLINE);
    lemma_scan_concat(false, a, b);
}

/// A stream of newlines alone has as many lines as bytes in the raw count.
pub proof fn lemma_only_newlines(bytes: Seq<u8>, buffer_size: usize)
    requires
        forall|i: int| 0 <= i < bytes.len() ==> bytes[i] == NEWLINE,
        buffer_size > 0,
    ensures
        newline_count(bytes) == bytes.len(),
        buffered_count(false, bytes, buffer_size) == bytes.len(),
    decreases bytes.len(),
{
    if bytes.len() > 0 {
        lemma_only_newlines(bytes.drop_last(), buffer_size);
    }
}

/// A stream without bytes has no lines, in either mode and with any buffer.
pub proof fn lemma_empty_stream(skip_empty: bool, buffer_size: usize)
    ensures
        line_count(skip_empty, Seq::empty()) == 0,
        buffered_count(skip_empty, Seq::empty(), buffer_size) == 0,
{
}

/// A stream of whitespace and newlines alone has no line with content,
/// however many newlines it holds.
pub proof fn lemma_blank_only(bytes: Seq<u8>, buffer_size: usize)
    requires
        forall|i: int| 0 <= i < bytes.len() ==> !is_data(#[trigger] bytes[i]),
    ensures
        nonempty_lines(bytes) == 0,
        buffered_count(true, bytes, buffer_size) == 0,
    decreases bytes.len(),
{
    if bytes.len() > 0 {
        lemma_blank_only(bytes.drop_last(), buffer_size);
    }
}

/// The count is the same for every buffer that holds at least one byte.
pub proof fn lemma_buffer_size_irrelevant(
    skip_empty: bool,
    data: Seq<u8>,
    size_a: usize,
    size_b: usize,
)
    requires
        size_a > 0,
        size_b > 0,
    ensures
        buffered_count(skip_empty, data, size_a) == buffered_count(skip_empty, data, size_b),
{
}

/// The line that is open after `bytes` holds content exactly if a byte with
/// content stands in `bytes` with no newline behind it, or the line carried
/// content into `bytes` and `bytes` holds no newline.
pub proof fn lemma_pending_after_iff(carry: bool, bytes: Seq<u8>)
    ensures
        pending_after(carry, bytes) <==> (carry && newline_count(bytes) == 0) || exists|i: int|
            is_open_content(bytes, i),
    decreases bytes.len(),
{
    if bytes.len() > 0 {
        let front = bytes.drop_last();
        let last = bytes.len() - 1;
        lemma_pending_after_iff(carry, front);
        if pending_after(carry, bytes) {
            if is_data(bytes.last()) {
                lemma_open_content_grows(bytes, last);
                assert(is_open_content(bytes, last));
            } else if !(carry && newline_count(front) == 0) {
                let i = choose|i: int| is_open_content(front, i);
                lemma_open_content_grows(bytes, i);
                assert(is_open_content(bytes, i));
            }
        } else {
            assert forall|i: int| !is_open_content(bytes, i) by {
                if 0 <= i <= last {
                    lemma_open_content_grows(bytes, i);
                }
            }
        }
    } else {
        assert forall|i: int| !is_open_content(bytes, i) by {}
    }
}

/// With one more byte, content is open where it was open before and the new
/// byte is no newline, and at the new byte itself where that is content.
proof fn lemma_open_content_grows(bytes: Seq<u8>, i: int)
    requires
        0 <= i < bytes.len(),
    ensures
        is_open_content(bytes, i) <==> bytes.last() != NEWLINE && if i == bytes.len() - 1 {
            is_data(bytes.last())
        } else {
            is_open_content(bytes.drop_last(), i)
        },
{
    assert(bytes.skip(i).drop_last() =~= bytes.drop_last().skip(i));
    if i == bytes.len() - 1 {
        assert(newline_count(bytes.drop_last().skip(i)) == 0);
    }
}

/// Where content follows the final newline, the count of lines with content
/// includes that last line, and the raw count does not.
pub proof fn lemma_unterminated_last_line(head: Seq<u8>, tail: Seq<u8>, buffer_size: usize)
    requires
        head.len() == 0 || head.last() == NEWLINE,
        newline_count(tail) == 0,
        has_content(tail),
        buffer_size > 0,
    ensures
        nonempty_lines(head + tail) == nonempty_lines(head) + 1,
        newline_count(head + tail) == newline_count(head),
        buffered_count(true, head + tail, buffer_size) == buffered_count(true, head, buffer_size)
            + 1,
        buffered_count(false, head + tail, buffer_size) == buffered_count(
            false,
            head,
            buffer_size,
        ),
{
    lemma_occurrences_concat(head, tail, NEWLINE);
    lemma_scan_concat(false, head, tail);
    lemma_no_newline_closes_nothing(false, tail);
    assert(!pending_after(false, head));
    assert(pending_after(false, tail)) by {
        let i = choose|i: int| 0 <= i < tail.len() && is_data(#[trigger] tail[i]);
        lemma_occurrences_concat(tail.take(i), tail.skip(i), NEWLINE);
        assert(tail.take(i) + tail.skip(i) =~= tail);
        assert(is_open_content(tail, i));
        lemma_pending_after_iff(false, tail);
    }
}

/// The counts go line by line: a stream that begins with `line` and the
/// newline that ends it has one newline more than what follows, and one line
/// with content more if `line` holds content.
pub proof fn lemma_first_line(line: Seq<u8>, rest: Seq<u8>)
    requires
        newline_count(line) == 0,
    ensures
        newline_count(line.push(NEWLINE) + rest) == 1 + newline_count(rest),
        nonempty_lines(line.push(NEWLINE) + rest) == nonempty_lines(rest) + if has_content(line) {
            1nat
        } else {
            0nat
        },
{
    let first = line.push(NEWLINE);
    assert(first.drop_last() =~= line);
    lemma_occurrences_concat(first, rest, NEWLINE);
    lemma_scan_concat(false, first, rest);
    lemma_no_newline_closes_nothing(false, line);
    lemma_pending_after_iff(false, line);
    if has_content(line) {
        let i = choose|i: int| 0 <= i < line.len() && is_data(#[trigger] line[i]);
        lemma_occurrences_concat(line.take(i), line.skip(i), NEWLINE);
        assert(line.take(i) + line.skip(i) =~= line);
        assert(is_open_content(line, i));
    } else {
        assert forall|i: int| !is_open_content(line, i) by {}
    }
}

/// Without a newline no line is closed.
proof fn lemma_no_newline_closes_nothing(carry: bool, bytes: Seq<u8>)
    requires
        newline_count(bytes) == 0,
    ensures
        closed_lines(carry, bytes) == 0,
    decreases bytes.len(),
{
    if bytes.len() > 0 {
        lemma_no_newline_closes_nothing(carry, bytes.drop_last());
    }
}

} // verus!
