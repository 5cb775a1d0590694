//! The result as a sequence of lines.

use vstd::prelude::*;
use vstd::string::*;

verus! {

/// The text made of `rows`, each followed by a line break.
pub open spec fn lines_text(rows: Seq<Seq<char>>) -> Seq<char>
    decreases rows.len(),
{
    if rows.len() == 0 {
        Seq::empty()
    } else {
        lines_text(rows.drop_last()) + rows.last() + "\n"@
    }
}

/// The text of two runs of lines is the text of the first followed by the
/// text of the second.
pub proof fn lemma_lines_text_concat(a: Seq<Seq<char>>, b: Seq<Seq<char>>)
    ensures
        lines_text(a + b) == lines_text(a) + lines_text(b),
    decreases b.len(),
{
    if b.len() > 0 {
        lemma_lines_text_concat(a, b.drop_last());
        assert((a + b).drop_last() =~= a + b.drop_last());
    }
}

/// The text of a single line.
pub proof fn lemma_lines_text_one(row: Seq<char>)
    ensures
        lines_text(seq![row]) == row + "\n"@,
{
    assert(seq![row].drop_last() =~= Seq::<Seq<char>>::empty());
    assert(lines_text(Seq::<Seq<char>>::empty()) =~= Seq::<char>::empty());
}

/// Appends `row` and a line break to `out`.
pub fn write_line(out: &mut String, row: &str)
    ensures
        final(out)@ == old(out)@ + row@ + "\n"@,
{
    out.append(row);
    out.append("\n");
}

} // verus!
