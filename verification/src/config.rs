use vstd::prelude::*;

verus! {

/// The server's startup settings: the directory the database lives in.
#[derive(Clone, Debug)]
pub struct Config {
    pub path: String,
}

} // verus!
