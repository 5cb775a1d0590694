//! The content blocks: one per file, in the order of the tree.

use vstd::prelude::*;
use vstd::slice::*;
use vstd::string::*;
use vstd::utf8::*;
use crate::entry::{lemma_nodes_of, node_of, nodes_of, Entry, Node, Payload, Shape};
use crate::order::same_text;
use crate::text::{lemma_lines_text_concat, lemma_lines_text_one, lines_text, write_line};

verus! {

/// How many lines of a file summary mode shows.
pub const SUMMARY_LINES: usize = 10;

/// The names of the dependency lock files, whose content is never shown.
pub open spec fn is_lockfile(name: Seq<char>) -> bool {
    name == "Cargo.lock"@ || name == "package-lock.json"@
}

/// The line that announces the file at `path`.
pub open spec fn header_row(path: Seq<char>) -> Seq<char> {
    "/////////////////////// The following file is: "@ + path + " ///////////////////////"@
}

/// The line that stands for the content of a lock file.
pub open spec fn skipped_row() -> Seq<char> {
    "(File contents skipped)"@
}

/// The line that stands for content that is not text.
pub open spec fn binary_row() -> Seq<char> {
    "(Binary file, not printed)"@
}

/// The line that stands for the lines that summary mode leaves out.
pub open spec fn ellipsis_row() -> Seq<char> {
    "..."@
}

/// The position of the first line feed at or behind `from`, or the length of
/// `bytes` where there is none.
pub open spec fn line_break(bytes: Seq<u8>, from: int) -> int
    decreases bytes.len() - from,
{
    if from >= bytes.len() {
        bytes.len() as int
    } else if bytes[from] == 0x0a {
        from
    } else {
        line_break(bytes, from + 1)
    }
}

/// Where the text of the line that starts at `start` and breaks at `brk`
/// ends: a carriage return directly in front of the line feed is part of the
/// line break.
pub open spec fn line_text_end(bytes: Seq<u8>, start: int, brk: int) -> int {
    if brk < bytes.len() && start < brk && bytes[brk - 1] == 0x0d {
        brk - 1
    } else {
        brk
    }
}

/// Where the line behind the break at `brk` starts: behind the line feed, or
/// at the end of `bytes` where the last line has none.
pub open spec fn next_line(bytes: Seq<u8>, brk: int) -> int {
    if brk < bytes.len() {
        brk + 1
    } else {
        brk
    }
}

/// `line_break` lies between `from` and the end of `bytes`.
pub proof fn lemma_line_break_bounds(bytes: Seq<u8>, from: int)
    requires
        0 <= from <= bytes.len(),
    ensures
        from <= line_break(bytes, from) <= bytes.len(),
        line_break(bytes, from) < bytes.len() ==> bytes[line_break(bytes, from)] == 0x0a,
        forall|k: int| from <= k < line_break(bytes, from) ==> bytes[k] != 0x0a,
    decreases bytes.len() - from,
{
    if from < bytes.len() && bytes[from] != 0x0a {
        lemma_line_break_bounds(bytes, from + 1);
    }
}

/// What summary mode shows of `bytes` from the line that starts at `start`
/// on, after `printed` lines: nothing at the end of the file; the ellipsis
/// once the limit is reached; else the line, and then the rest. A line that
/// is not valid UTF-8 gives the notice for binary content and ends it.
pub open spec fn summary_rows_from(bytes: Seq<u8>, start: int, printed: int) -> Seq<Seq<char>>
    decreases bytes.len() - start,
    via summary_rows_from_decreases
{
    if start < 0 || start >= bytes.len() {
        Seq::empty()
    } else if printed >= SUMMARY_LINES {
        seq![ellipsis_row()]
    } else {
        let brk = line_break(bytes, start);
        let line = bytes.subrange(start, line_text_end(bytes, start, brk));
        if valid_utf8(line) {
            seq![decode_utf8(line)] + summary_rows_from(bytes, next_line(bytes, brk), printed + 1)
        } else {
            seq![binary_row()]
        }
    }
}

#[via_fn]
proof fn summary_rows_from_decreases(bytes: Seq<u8>, start: int, printed: int) {
    if 0 <= start < bytes.len() {
        lemma_line_break_bounds(bytes, start);
    }
}

/// The lines that stand for the content of the file called `name` with the
/// bytes `bytes`.
pub open spec fn body_rows(summary: bool, name: Seq<char>, bytes: Seq<u8>) -> Seq<Seq<char>> {
    if is_lockfile(name) {
        seq![skipped_row()]
    } else if summary {
        summary_rows_from(bytes, 0, 0)
    } else if valid_utf8(bytes) {
        seq![decode_utf8(bytes)]
    } else {
        seq![binary_row()]
    }
}

/// The block of one file: its header, its content, and an empty line.
pub open spec fn block_rows(summary: bool, path: Seq<char>, name: Seq<char>, bytes: Seq<u8>) -> Seq<
    Seq<char>,
> {
    seq![header_row(path)] + body_rows(summary, name, bytes) + seq![Seq::<char>::empty()]
}

/// The blocks of the files among the entries of `s` from position `i` on and
/// below them, depth first. `dir` is the path of the directory from the
/// root, empty for the root itself and ending in `/` otherwise.
pub open spec fn dump_rows_from(summary: bool, s: Seq<Node>, i: int, dir: Seq<char>) -> Seq<
    Seq<char>,
>
    decreases s, s.len() - i,
{
    if 0 <= i < s.len() {
        let here = match s[i].shape {
            Shape::File(bytes) => block_rows(summary, dir + s[i].name, s[i].name, bytes),
            Shape::Directory(children) => dump_rows_from(
                summary,
                children,
                0,
                dir + s[i].name + "/"@,
            ),
            Shape::Other => Seq::empty(),
        };
        here + dump_rows_from(summary, s, i + 1, dir)
    } else {
        Seq::empty()
    }
}

/// The content blocks of a directory whose entries are `s`.
pub open spec fn dump_rows(summary: bool, s: Seq<Node>, dir: Seq<char>) -> Seq<Seq<char>> {
    dump_rows_from(summary, s, 0, dir)
}

/// Decodes `bytes` with `core::str::from_utf8`. The contract is taken on
/// trust, not proved: the call gives a text exactly where `bytes` are
/// well-formed UTF-8, and the UTF-8 encoding of that text is `bytes` again.
#[verifier::external_body]
fn text_of(bytes: &[u8]) -> (r: Option<&str>)
    ensures
        r is Some <==> valid_utf8(bytes@),
        r matches Some(text) ==> encode_utf8(text@) == bytes@,
{
    match core::str::from_utf8(bytes) {
        Ok(text) => Some(text),
        Err(_) => None,
    }
}

/// Whether `name` is the name of a dependency lock file.
pub fn names_lockfile(name: &str) -> (r: bool)
    ensures
        r == is_lockfile(name@),
{
    same_text(name, "Cargo.lock") || same_text(name, "package-lock.json")
}

/// The position of the first line feed at or behind `from`.
fn find_line_break(bytes: &[u8], from: usize) -> (brk: usize)
    requires
        from <= bytes@.len(),
    ensures
        brk == line_break(bytes@, from as int),
        from <= brk <= bytes@.len(),
{
    let mut at: usize = from;
    while at < bytes.len() && bytes[at] != 0x0a
        invariant
            from <= at <= bytes@.len(),
            line_break(bytes@, from as int) == line_break(bytes@, at as int),
        decreases bytes@.len() - at,
    {
        at += 1;
    }
    at
}

/// Appends what summary mode shows of `bytes` to `out`.
fn write_summary(bytes: &[u8], out: &mut String)
    ensures
        final(out)@ == old(out)@ + lines_text(summary_rows_from(bytes@, 0, 0)),
{
    let mut start: usize = 0;
    let mut printed: usize = 0;
    while start < bytes.len()
        invariant
            start <= bytes@.len(),
            printed <= SUMMARY_LINES,
            old(out)@ + lines_text(summary_rows_from(bytes@, 0, 0)) == out@ + lines_text(
                summary_rows_from(bytes@, start as int, printed as int),
            ),
        decreases bytes@.len() - start,
    {
        let ghost before = out@;
        let ghost rows = summary_rows_from(bytes@, start as int, printed as int);
        if printed >= SUMMARY_LINES {
            write_line(out, "...");
            proof {
                lemma_lines_text_one(ellipsis_row());
            }
            return;
        }
        let brk: usize = find_line_break(bytes, start);
        let end: usize = if brk < bytes.len() && start < brk && bytes[brk - 1] == 0x0d {
            brk - 1
        } else {
            brk
        };
        match text_of(slice_subrange(bytes, start, end)) {
            Some(text) => {
                write_line(out, text);
                proof {
                    let next = next_line(bytes@, brk as int);
                    let rest = summary_rows_from(bytes@, next, printed + 1);
                    encode_utf8_decode_utf8(text@);
                    lemma_lines_text_one(text@);
                    lemma_lines_text_concat(seq![text@], rest);
                }
            },
            None => {
                write_line(out, "(Binary file, not printed)");
                proof {
                    lemma_lines_text_one(binary_row());
                }
                return;
            },
        }
        printed += 1;
        start = if brk < bytes.len() {
            brk + 1
        } else {
            brk
        };
    }
    proof {
        assert(lines_text(summary_rows_from(bytes@, start as int, printed as int)) =~= Seq::<
            char,
        >::empty());
    }
}

/// Appends the lines that stand for a file's content to `out`.
pub fn write_body(summary: bool, name: &str, bytes: &[u8], out: &mut String)
    ensures
        final(out)@ == old(out)@ + lines_text(body_rows(summary, name@, bytes@)),
{
    if names_lockfile(name) {
        write_line(out, "(File contents skipped)");
        proof {
            lemma_lines_text_one(skipped_row());
        }
    } else if summary {
        write_summary(bytes, out);
    } else {
        match text_of(bytes) {
            Some(text) => {
                write_line(out, text);
                proof {
                    encode_utf8_decode_utf8(text@);
                    lemma_lines_text_one(text@);
                }
            },
            None => {
                write_line(out, "(Binary file, not printed)");
                proof {
                    lemma_lines_text_one(binary_row());
                }
            },
        }
    }
}

/// Appends the block of the file at `path` to `out`.
pub fn write_block(summary: bool, path: &str, name: &str, bytes: &[u8], out: &mut String)
    ensures
        final(out)@ == old(out)@ + lines_text(block_rows(summary, path@, name@, bytes@)),
{
    out.append("/////////////////////// The following file is: ");
    out.append(path);
    write_line(out, " ///////////////////////");
    let ghost headed = out@;
    write_body(summary, name, bytes, out);
    write_line(out, "");
    proof {
        reveal_strlit("");
        let head = seq![header_row(path@)];
        let body = body_rows(summary, name@, bytes@);
        let foot = seq![Seq::<char>::empty()];
        lemma_lines_text_one(header_row(path@));
        lemma_lines_text_one(Seq::<char>::empty());
        lemma_lines_text_concat(head, body);
        lemma_lines_text_concat(head + body, foot);
    }
}

/// Appends the content blocks of `entries` to `out`. `dir` is the path of
/// their directory from the root: empty for the root, else ending in `/`.
pub fn cat_files_buffer(entries: &Vec<Entry>, dir: &str, summary: bool, out: &mut String)
    ensures
        final(out)@ == old(out)@ + lines_text(dump_rows(summary, nodes_of(entries@), dir@)),
    decreases entries,
{
    let ghost s = nodes_of(entries@);
    proof {
        lemma_nodes_of(entries@);
    }
    let mut i: usize = 0;
    while i < entries.len()
        invariant
            i <= entries.len(),
            s == nodes_of(entries@),
            s.len() == entries.len(),
            forall|k: int| 0 <= k < entries.len() ==> #[trigger] s[k] == node_of(entries@[k]),
            old(out)@ + lines_text(dump_rows_from(summary, s, 0, dir@)) == out@ + lines_text(
                dump_rows_from(summary, s, i as int, dir@),
            ),
        decreases entries.len() - i,
    {
        let entry = &entries[i];
        let ghost before = out@;
        let ghost here = match s[i as int].shape {
            Shape::File(bytes) => block_rows(
                summary,
                dir@ + s[i as int].name,
                s[i as int].name,
                bytes,
            ),
            Shape::Directory(children) => dump_rows_from(
                summary,
                children,
                0,
                dir@ + s[i as int].name + "/"@,
            ),
            Shape::Other => Seq::empty(),
        };
        match &entry.payload {
            Payload::File(bytes) => {
                let mut path = dir.to_owned();
                path.append(entry.name.as_str());
                write_block(summary, path.as_str(), entry.name.as_str(), bytes.as_slice(), out);
            },
            Payload::Directory(children) => {
                let mut deeper = dir.to_owned();
                deeper.append(entry.name.as_str());
                deeper.append("/");
                cat_files_buffer(children, deeper.as_str(), summary, out);
            },
            Payload::Other => {},
        }
        proof {
            let rest = dump_rows_from(summary, s, i + 1, dir@);
            lemma_lines_text_concat(here, rest);
            assert(out@ + lines_text(rest) =~= before + lines_text(
                dump_rows_from(summary, s, i as int, dir@),
            ));
        }
        i += 1;
    }
}

} // verus!
