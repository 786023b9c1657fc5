use vstd::prelude::*;

verus! {

/// How the target child process ended: with an exit code, or killed by a
/// signal (so no exit code exists).
pub enum ChildExit {
    Code(i32),
    Signal,
}

/// The exit code this tool terminates with after running the target
/// command: the child's own exit code, forwarded exactly, or 1 when the
/// child was killed by a signal.
pub fn forward_exit_code(e: &ChildExit) -> (r: i32)
    ensures
        match *e {
            ChildExit::Code(c) => r == c,
            ChildExit::Signal => r == 1,
        },
{
    match e {
        ChildExit::Code(c) => *c,
        ChildExit::Signal => 1,
    }
}

} // verus!
