use vstd::prelude::*;

verus! {

/// The verb of a parsed request line.
#[derive(Clone, Copy, Debug, PartialEq, Eq, Structural)]
pub enum Keyword {
    Clear,
    MoveFile,
    AttachFile,
    SetValue,
    Get,
}

/// One parsed request: a verb and its operands.  `key` carries the key, or
/// the path of a directory statement; `value` is empty except for `set`.
#[derive(Debug)]
pub struct Statement {
    pub verb: Keyword,
    pub key: String,
    pub value: String,
}

/// The mathematical content of a `Statement`.
pub struct StatementView {
    pub verb: Keyword,
    pub key: Seq<char>,
    pub value: Seq<char>,
}

impl View for Statement {
    type V = StatementView;

    open spec fn view(&self) -> StatementView {
        StatementView { verb: self.verb, key: self.key@, value: self.value@ }
    }
}

} // verus!
