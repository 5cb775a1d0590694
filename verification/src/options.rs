//! The command line.

use vstd::prelude::*;
use vstd::string::*;
use crate::entry::TraversalContext;
use crate::order::same_text;

verus! {

/// What the command line asks for.
#[derive(Debug, PartialEq, Eq)]
pub struct Options {
    /// `-a`: show hidden entries too.
    pub include_hidden: bool,
    /// `-s`: show only the first lines of each file.
    pub summary: bool,
    /// `-l`: write the result to standard output.
    pub list_output: bool,
    /// `-t`: show the tree only, on standard output.
    pub tree_only: bool,
    /// The directory to show.
    pub directory: String,
}

/// The arguments as texts.
pub open spec fn texts(args: Seq<String>) -> Seq<Seq<char>> {
    Seq::new(args.len(), |i: int| args[i]@)
}

/// Whether an argument is one of the flags.
pub open spec fn is_flag(arg: Seq<char>) -> bool {
    arg == "-a"@ || arg == "-s"@ || arg == "-l"@ || arg == "-t"@
}

/// The directory that the arguments name: the last argument that is no
/// flag, and `.` where there is none.
pub open spec fn target_of(args: Seq<Seq<char>>) -> Seq<char>
    decreases args.len(),
{
    if args.len() == 0 {
        "."@
    } else if is_flag(args.last()) {
        target_of(args.drop_last())
    } else {
        args.last()
    }
}

/// A sequence with one more item holds what it held before, and the item.
proof fn lemma_contains_push(seen: Seq<Seq<char>>, item: Seq<char>, wanted: Seq<char>)
    ensures
        seen.push(item).contains(wanted) == (seen.contains(wanted) || wanted == item),
{
    let next = seen.push(item);
    if seen.contains(wanted) {
        let k = choose|k: int| 0 <= k < seen.len() && seen[k] == wanted;
        assert(next[k] == wanted);
    }
    if wanted == item {
        assert(next[seen.len() as int] == wanted);
    }
}

/// The four flags are four different texts.
proof fn lemma_flags_differ()
    ensures
        "-a"@ != "-s"@,
        "-a"@ != "-l"@,
        "-a"@ != "-t"@,
        "-s"@ != "-l"@,
        "-s"@ != "-t"@,
        "-l"@ != "-t"@,
{
    reveal_strlit("-a");
    reveal_strlit("-s");
    reveal_strlit("-l");
    reveal_strlit("-t");
    assert("-a"@[1] == 'a');
    assert("-s"@[1] == 's');
    assert("-l"@[1] == 'l');
    assert("-t"@[1] == 't');
}

/// Reads the arguments that follow the program's name. The flags may stand
/// in any order and more than once.
pub fn parse_args(args: &[String]) -> (r: Options)
    ensures
        r.include_hidden == texts(args@).contains("-a"@),
        r.summary == texts(args@).contains("-s"@),
        r.list_output == texts(args@).contains("-l"@),
        r.tree_only == texts(args@).contains("-t"@),
        r.directory@ == target_of(texts(args@)),
{
    let mut include_hidden = false;
    let mut summary = false;
    let mut list_output = false;
    let mut tree_only = false;
    let mut directory = ".".to_owned();
    let ghost all = texts(args@);
    let mut i: usize = 0;
    while i < args.len()
        invariant
            i <= args.len(),
            all == texts(args@),
            include_hidden == all.take(i as int).contains("-a"@),
            summary == all.take(i as int).contains("-s"@),
            list_output == all.take(i as int).contains("-l"@),
            tree_only == all.take(i as int).contains("-t"@),
            directory@ == target_of(all.take(i as int)),
        decreases args.len() - i,
    {
        let arg = &args[i];
        proof {
            let seen = all.take(i as int);
            let next = all.take(i + 1);
            assert(next.drop_last() =~= seen);
            assert(next.last() == arg@);
            lemma_contains_push(seen, arg@, "-a"@);
            lemma_contains_push(seen, arg@, "-s"@);
            lemma_contains_push(seen, arg@, "-l"@);
            lemma_contains_push(seen, arg@, "-t"@);
            lemma_flags_differ();
        }
        if same_text(arg.as_str(), "-a") {
            include_hidden = true;
        } else if same_text(arg.as_str(), "-s") {
            summary = true;
        } else if same_text(arg.as_str(), "-l") {
            list_output = true;
        } else if same_text(arg.as_str(), "-t") {
            tree_only = true;
        } else {
            directory = arg.clone();
        }
        i += 1;
    }
    proof {
        assert(all.take(args.len() as int) =~= all);
    }
    Options { include_hidden, summary, list_output, tree_only, directory }
}

/// The settings of a run with these options.
pub open spec fn context_of(options: Options, honor_ignore: bool) -> TraversalContext {
    TraversalContext {
        root: options.directory,
        include_hidden: options.include_hidden,
        honor_ignore,
        summary: options.summary,
    }
}

impl Options {
    /// Whether the result goes to standard output rather than to the
    /// clipboard.
    pub fn to_stdout(&self) -> (r: bool)
        ensures
            r == (self.tree_only || self.list_output),
    {
        self.tree_only || self.list_output
    }

    /// The settings of the run, given whether the root holds the marker of a
    /// version-control system.
    pub fn context(&self, honor_ignore: bool) -> (r: TraversalContext)
        ensures
            r == context_of(*self, honor_ignore),
    {
        TraversalContext {
            root: self.directory.clone(),
            include_hidden: self.include_hidden,
            honor_ignore,
            summary: self.summary,
        }
    }
}

} // verus!
