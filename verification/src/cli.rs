//! Command-line arguments of the server.
use vstd::prelude::*;

verus! {

/// The arguments the server accepts: the port to listen on.
#[derive(Debug, Clone, Copy, PartialEq, Eq, Structural)]
pub struct Args {
    pub port: u16,
}

} // verus!
