//! The payload carried by the jump editing mode.

use vstd::prelude::*;

verus! {

/// The state a fresh jump-mode session starts from. Jump targets live with
/// the rendering side; the mode marker itself carries no further data.
#[derive(PartialEq, Eq, Structural, Debug)]
pub struct JumpMode {}

/// A fresh jump-mode payload.
pub fn new() -> (m: JumpMode)
    ensures
        m == (JumpMode {  }),
{
    JumpMode {  }
}

} // verus!
