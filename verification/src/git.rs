use vstd::prelude::*;
use crate::text::{trim, trim_exec};

verus! {

/// `git rev-parse --is-inside-work-tree` says yes: it succeeded and printed `true`.
pub open spec fn says_inside_work_tree(succeeded: bool, stdout: Seq<char>) -> bool {
    succeeded && trim(stdout) == seq!['t', 'r', 'u', 'e']
}

/// The branch that `git rev-parse --abbrev-ref HEAD` names: its trimmed
/// output when it succeeded, else nothing.
pub open spec fn branch_named(succeeded: bool, stdout: Seq<char>) -> Seq<char> {
    if succeeded {
        trim(stdout)
    } else {
        Seq::empty()
    }
}

/// Reads the answer of `git rev-parse --is-inside-work-tree`.
pub fn inside_work_tree(succeeded: bool, stdout: &str) -> (b: bool)
    ensures
        b == says_inside_work_tree(succeeded, stdout@),
{
    if !succeeded {
        return false;
    }
    let t = trim_exec(stdout);
    let ts = t.as_str();
    let b = ts.unicode_len() == 4 && ts.get_char(0) == 't' && ts.get_char(1) == 'r'
        && ts.get_char(2) == 'u' && ts.get_char(3) == 'e';
    proof {
        if b {
            assert(ts@ =~= seq!['t', 'r', 'u', 'e']);
        }
    }
    b
}

/// Reads the answer of `git rev-parse --abbrev-ref HEAD`.
pub fn branch_from_output(succeeded: bool, stdout: &str) -> (r: String)
    ensures
        r@ == branch_named(succeeded, stdout@),
{
    if succeeded {
        trim_exec(stdout)
    } else {
        String::new()
    }
}

} // verus!
