//! Noticing that nobody reads the output any more.

use vstd::prelude::*;

verus! {

/// What to do after waiting for the reader of the output to go away.
#[derive(Clone, Copy, PartialEq, Eq, Structural)]
pub enum Watch {
    /// Wait again.
    Again,
    /// Stop watching.
    End,
    /// Give up the search, and leave the program.
    Exit,
}

/// Decides what to do after waiting. `polled` is `Err` where the wait failed,
/// with whether a signal interrupted it; else whether the end of the search woke
/// the watcher, and whether the reader is gone. Where the search is over, a
/// reader that is gone no longer matters.
pub fn watch_step(polled: Result<(bool, bool), bool>) -> (r: Watch)
    ensures
        r == match polled {
            Err(interrupted) => if interrupted {
                Watch::Again
            } else {
                Watch::End
            },
            Ok((woken, hung_up)) => if woken {
                Watch::End
            } else if hung_up {
                Watch::Exit
            } else {
                Watch::Again
            },
        },
{
    match polled {
        Err(true) => Watch::Again,
        Err(false) => Watch::End,
        Ok((true, _)) => Watch::End,
        Ok((false, true)) => Watch::Exit,
        Ok((false, false)) => Watch::Again,
    }
}

} // verus!
