use vstd::prelude::*;

verus! {

/// How every generated test procedure of one tree is marked: as an ordinary
/// test, or as a test that runs inside an asynchronous runtime.
#[derive(Debug, Clone, Copy, PartialEq, Eq)]
pub enum CatchrMode {
    Sync,
    Tokio,
}

} // verus!
