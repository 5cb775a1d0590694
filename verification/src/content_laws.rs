//! What holds of the content blocks: lock files, the limit of summary mode,
//! and text that is shown as it is.

use vstd::prelude::*;
use vstd::utf8::*;
use crate::content::{
    block_rows, body_rows, ellipsis_row, header_row, is_lockfile, lemma_line_break_bounds,
    line_break, line_text_end, next_line, skipped_row, summary_rows_from, SUMMARY_LINES,
};
use crate::text::{lemma_lines_text_concat, lemma_lines_text_one, lines_text};

verus! {

/// The content of a lock file is never shown, whatever it holds and whether
/// or not summary mode is on.
pub proof fn lemma_lockfile_content_skipped(summary: bool, name: Seq<char>, bytes: Seq<u8>)
    requires
        is_lockfile(name),
    ensures
        body_rows(summary, name, bytes) == seq![skipped_row()],
{
}

/// Summary mode shows at most as many lines as its limit allows, and where
/// it stops at the limit the line behind them is the ellipsis.
pub proof fn lemma_summary_is_capped(bytes: Seq<u8>, start: int, printed: int)
    requires
        0 <= start,
        0 <= printed <= SUMMARY_LINES,
    ensures
        summary_rows_from(bytes, start, printed).len() <= SUMMARY_LINES - printed + 1,
        summary_rows_from(bytes, start, printed).len() == SUMMARY_LINES - printed + 1
            ==> summary_rows_from(bytes, start, printed).last() == ellipsis_row(),
    decreases bytes.len() - start,
{
    if start < bytes.len() && printed < SUMMARY_LINES {
        let brk = line_break(bytes, start);
        let line = bytes.subrange(start, line_text_end(bytes, start, brk));
        lemma_line_break_bounds(bytes, start);
        if valid_utf8(line) {
            lemma_summary_is_capped(bytes, next_line(bytes, brk), printed + 1);
        }
    }
}

/// How many lines `bytes` hold from the line that starts at `start` on. A
/// last line counts whether or not a line break ends it.
pub open spec fn line_count_from(bytes: Seq<u8>, start: int) -> nat
    decreases bytes.len() - start,
    via line_count_from_decreases
{
    if start < 0 || start >= bytes.len() {
        0
    } else {
        1 + line_count_from(bytes, next_line(bytes, line_break(bytes, start)))
    }
}

#[via_fn]
proof fn line_count_from_decreases(bytes: Seq<u8>, start: int) {
    if 0 <= start < bytes.len() {
        lemma_line_break_bounds(bytes, start);
    }
}

/// Whether the first `n` lines from the line that starts at `start` on are
/// valid UTF-8, as far as there are that many.
pub open spec fn lines_are_text(bytes: Seq<u8>, start: int, n: nat) -> bool
    decreases n,
{
    n == 0 || start < 0 || start >= bytes.len() || {
        let brk = line_break(bytes, start);
        &&& valid_utf8(bytes.subrange(start, line_text_end(bytes, start, brk)))
        &&& lines_are_text(bytes, next_line(bytes, brk), (n - 1) as nat)
    }
}

/// Of a file whose first lines are text, summary mode shows every line
/// where the file has no more lines than the limit, and else as many lines
/// as the limit and then the ellipsis.
pub proof fn lemma_summary_of_text(bytes: Seq<u8>, start: int, printed: int)
    requires
        0 <= start,
        0 <= printed <= SUMMARY_LINES,
        lines_are_text(bytes, start, (SUMMARY_LINES - printed) as nat),
    ensures
        line_count_from(bytes, start) <= SUMMARY_LINES - printed ==> summary_rows_from(
            bytes,
            start,
            printed,
        ).len() == line_count_from(bytes, start),
        line_count_from(bytes, start) > SUMMARY_LINES - printed ==> {
            &&& summary_rows_from(bytes, start, printed).len() == SUMMARY_LINES - printed + 1
            &&& summary_rows_from(bytes, start, printed).last() == ellipsis_row()
        },
    decreases bytes.len() - start,
{
    if start < bytes.len() && printed < SUMMARY_LINES {
        lemma_line_break_bounds(bytes, start);
        lemma_summary_of_text(bytes, next_line(bytes, line_break(bytes, start)), printed + 1);
    }
}

/// Without summary mode a text file is shown as it is: the content of a
/// file that holds the UTF-8 encoding of `text` is the one line `text`, and
/// its block is the header, `text`, and an empty line.
pub proof fn lemma_full_mode_reproduces_text(path: Seq<char>, name: Seq<char>, text: Seq<char>)
    requires
        !is_lockfile(name),
    ensures
        body_rows(false, name, encode_utf8(text)) == seq![text],
        lines_text(block_rows(false, path, name, encode_utf8(text))) == header_row(path) + "\n"@
            + text + "\n"@ + "\n"@,
{
    encode_utf8_valid_utf8(text);
    encode_utf8_decode_utf8(text);
    let head = seq![header_row(path)];
    let body = seq![text];
    let foot = seq![Seq::<char>::empty()];
    lemma_lines_text_one(header_row(path));
    lemma_lines_text_one(text);
    lemma_lines_text_one(Seq::<char>::empty());
    lemma_lines_text_concat(head, body);
    lemma_lines_text_concat(head + body, foot);
}

} // verus!
