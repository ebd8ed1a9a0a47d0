//! The lock file that guards a target path.
use vstd::prelude::*;

verus! {

/// The path of the lock file for `target`: the target's path with `.lock`
/// appended, a file beside the target that locking may create and never the
/// target itself.
pub fn lock_path_for(target: &String) -> (r: String)
    ensures
        r@ == target@ + ".lock"@,
{
    let mut p = target.clone();
    p.append(".lock");
    p
}

} // verus!
