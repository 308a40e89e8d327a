use vstd::prelude::*;

verus! {

/// The error classes of the surrounding process: engine failures plus the
/// client, network and file-system failures of the host itself.
#[derive(Clone, Copy, Debug)]
pub enum Error {
    Db(crate::error::Error),
    Repl,
    Network,
    Fs,
}

} // verus!
