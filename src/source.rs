//! Where a tool reads its input from.
use vstd::prelude::*;
use vstd::string::StringExecFns;

verus! {

/// An input source: the process's standard input, or a named file.
pub enum Source {
    Stdin,
    Path(String),
}

/// The identifier `-` stands for standard input.
pub open spec fn is_stdin_name(id: Seq<char>) -> bool {
    id == seq!['-']
}

/// Resolves a source identifier: `-` is standard input, anything else a path.
pub fn resolve_source(id: &String) -> (r: Source)
    ensures
        is_stdin_name(id@) ==> r is Stdin,
        !is_stdin_name(id@) ==> (r matches Source::Path(p) && p@ == id@),
{
    proof { reveal_strlit("-"); }
    let dash = String::from_str("-");
    assert(dash@ =~= seq!['-']);
    if *id == dash {
        Source::Stdin
    } else {
        Source::Path(id.clone())
    }
}

} // verus!
