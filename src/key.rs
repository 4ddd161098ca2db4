use vstd::prelude::*;

verus! {

/// A key event, as the dispatcher sees it: a printable symbol or escape.
#[derive(Clone, Copy, PartialEq, Eq, Structural, Debug)]
pub enum Key {
    Char(char),
    Esc,
}

} // verus!
