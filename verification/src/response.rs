use vstd::prelude::*;

verus! {

/// The outcome of one executed statement.
#[derive(Debug)]
pub enum Response {
    Record { key: Vec<u8>, value: Vec<u8> },
    Okay,
    Error { msg: String },
}

} // verus!
