//! The rule that ties a task's stage to its status.
//!
//! A task is `Pending`, `InProgress` or `Done`, and a task in progress is at
//! some stage. A move to `Done` or back to `Pending` wipes the stage.

use vstd::prelude::*;
use vstd::string::StringExecFns;
use crate::text::{copy_opt, opt_text};

verus! {

/// The status every task starts in.
pub open spec fn pending() -> Seq<char> {
    "Pending"@
}

/// The status of a finished task.
pub open spec fn done() -> Seq<char> {
    "Done"@
}

/// Whether a move to `status` wipes the stage.
pub open spec fn clears_stage(status: Seq<char>) -> bool {
    status == done() || status == pending()
}

/// The stage a task has once it was moved to `status` and `asked` was asked
/// for.
pub open spec fn resolved_stage(status: Seq<char>, asked: Option<Seq<char>>) -> Option<Seq<char>> {
    if clears_stage(status) {
        None
    } else {
        asked
    }
}

/// The status every task starts in, as an owned string.
pub fn initial_status() -> (r: String)
    ensures
        r@ == pending(),
{
    String::from_str("Pending")
}

/// Whether a move to `status` wipes the stage.
pub fn status_clears_stage(status: &String) -> (r: bool)
    ensures
        r == clears_stage(status@),
{
    let done = String::from_str("Done");
    let pending = String::from_str("Pending");
    *status == done || *status == pending
}

/// The stage that goes with `status` when the caller asks for `asked`:
/// none for `Done` and `Pending`, and what was asked for otherwise.
pub fn resolve_stage(status: &String, asked: &Option<String>) -> (r: Option<String>)
    ensures
        opt_text(r) == resolved_stage(status@, opt_text(*asked)),
        status@ == done() ==> r is None,
{
    if status_clears_stage(status) {
        None
    } else {
        copy_opt(asked)
    }
}

} // verus!
