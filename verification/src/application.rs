//! Editor mode switching commands: each one sets the application's mode
//! marker in response to a key press.

use vstd::prelude::*;

use crate::jump_mode;
use crate::jump_mode::JumpMode;

verus! {

/// The editing modes the application can sit in.
pub enum Mode {
    Normal,
    Insert,
    Jump(JumpMode),
    Exit,
}

/// The application state the mode commands act on.
pub struct Application {
    pub mode: Mode,
}

/// Puts the application back into normal mode.
pub fn switch_to_normal_mode(app: &mut Application, _c: &char)
    ensures
        final(app).mode == Mode::Normal,
{
    app.mode = Mode::Normal;
}

/// Puts the application into insert mode.
pub fn switch_to_insert_mode(app: &mut Application, _c: &char)
    ensures
        final(app).mode == Mode::Insert,
{
    app.mode = Mode::Insert;
}

/// Puts the application into jump mode with a fresh jump payload.
pub fn switch_to_jump_mode(app: &mut Application, _c: &char)
    ensures
        final(app).mode == Mode::Jump(JumpMode {  }),
{
    app.mode = Mode::Jump(jump_mode::new());
}

/// Asks the application to exit.
pub fn exit(app: &mut Application, _c: &char)
    ensures
        final(app).mode == Mode::Exit,
{
    app.mode = Mode::Exit;
}

} // verus!
