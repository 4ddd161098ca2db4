use vstd::prelude::*;

verus! {

/// The editing mode of the modal input state machine.
#[derive(Clone, Copy, PartialEq, Eq, Structural, Debug)]
pub enum Mode {
    Normal,
    Insert,
    Visual,
}

impl Mode {
    /// The lower-case name under which the mode is shown to the user.
    pub fn name(&self) -> (r: &'static str)
        ensures
            r@ == mode_name(*self)@,
    {
        match self {
            Mode::Normal => "normal",
            Mode::Insert => "insert",
            Mode::Visual => "visual",
        }
    }
}

/// The displayed name of each mode.
pub open spec fn mode_name(m: Mode) -> &'static str {
    match m {
        Mode::Normal => "normal",
        Mode::Insert => "insert",
        Mode::Visual => "visual",
    }
}

} // verus!
