//! A user-space TCP subset: sequence-space arithmetic, a per-connection
//! state machine, and a connection manager that dispatches decoded segments
//! to connections and hands accepted connections to listeners.

use vstd::prelude::*;

pub mod seqspace;
pub mod wire;
pub mod codec;
pub mod conn;
pub mod manager;

verus! {

} // verus!
