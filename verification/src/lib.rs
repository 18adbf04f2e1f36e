use vstd::prelude::*;

pub mod bracket;
pub mod sim;
pub mod text;
pub mod model;
pub mod standings;
pub mod analysis;
pub mod tournament;
pub mod history;
pub mod report;
pub mod settled;

verus! {

} // verus!
