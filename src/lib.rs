//! A fixed-size pool of workers fed by one shared job queue, with the
//! dispatch rules proved: every submitted unit of work is claimed by exactly
//! one worker, in submission order, and runs once. Also the small request
//! router and response framing that the bundled web server runs as its units
//! of work.
use vstd::prelude::*;

pub mod pool;
pub mod response;

pub use pool::{Claim, PoolError, PoolState, WorkerState};
pub use response::{render_response, route};

verus! {

} // verus!
