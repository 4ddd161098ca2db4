use vstd::prelude::*;

pub mod banner;
pub mod chain;
pub mod chars;
pub mod commander;
pub mod key;
pub mod laws;
pub mod vim_mode;

verus! {

} // verus!
