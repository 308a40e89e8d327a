use vstd::prelude::*;

use crate::error::{Error, ErrorKind};
use crate::statement::{Keyword, Statement, StatementView};
use crate::utils::str_eq;

verus! {

// The request grammar is line oriented: a line is split at whitespace into
// tokens, and the first token must be one of the five case-sensitive verbs.

/// The whitespace characters that separate tokens.
pub open spec fn is_ws(c: char) -> bool {
    c == ' ' || c == '\t' || c == '\r' || c == '\n'
}

/// The length of the token at the head of `s`: the run of characters before
/// the first whitespace.
pub open spec fn tok_len(s: Seq<char>) -> nat
    decreases s.len(),
{
    if s.len() == 0 || is_ws(s[0]) {
        0
    } else {
        (1 + tok_len(s.drop_first())) as nat
    }
}

/// The head token is never longer than the line.
pub proof fn lemma_tok_len_le(s: Seq<char>)
    ensures
        tok_len(s) <= s.len(),
    decreases s.len(),
{
    if s.len() > 0 && !is_ws(s[0]) {
        lemma_tok_len_le(s.drop_first());
    }
}

/// The whitespace-separated tokens of a line, in order.
pub open spec fn tokens_of(s: Seq<char>) -> Seq<Seq<char>>
    decreases s.len(),
    via tokens_of_decreases
{
    if s.len() == 0 {
        seq![]
    } else if is_ws(s[0]) {
        tokens_of(s.drop_first())
    } else {
        seq![s.take(tok_len(s) as int)] + tokens_of(s.skip(tok_len(s) as int))
    }
}

#[via_fn]
proof fn tokens_of_decreases(s: Seq<char>) {
    if s.len() > 0 && !is_ws(s[0]) {
        lemma_tok_len_le(s);
        assert(tok_len(s) >= 1);
    }
}

/// What a request line means, if anything: `clear` alone, `set` with a key
/// and a value, and `get`, `mv-to`, `attach-to` with one operand each.
pub open spec fn spec_parse(s: Seq<char>) -> Option<StatementView> {
    let ts = tokens_of(s);
    if ts.len() == 1 && ts[0] == "clear"@ {
        Some(
            StatementView {
                verb: Keyword::Clear,
                key: Seq::<char>::empty(),
                value: Seq::<char>::empty(),
            },
        )
    } else if ts.len() == 3 && ts[0] == "set"@ {
        Some(StatementView { verb: Keyword::SetValue, key: ts[1], value: ts[2] })
    } else if ts.len() == 2 && ts[0] == "get"@ {
        Some(StatementView { verb: Keyword::Get, key: ts[1], value: Seq::<char>::empty() })
    } else if ts.len() == 2 && ts[0] == "mv-to"@ {
        Some(StatementView { verb: Keyword::MoveFile, key: ts[1], value: Seq::<char>::empty() })
    } else if ts.len() == 2 && ts[0] == "attach-to"@ {
        Some(StatementView { verb: Keyword::AttachFile, key: ts[1], value: Seq::<char>::empty() })
    } else {
        None
    }
}

/// A block of non-whitespace characters ending at `j` is the head token of
/// the line's tail from `i`.
proof fn lemma_token_block(s: Seq<char>, i: int, j: int)
    requires
        0 <= i <= j <= s.len(),
        forall|p: int| i <= p < j ==> !is_ws(#[trigger] s[p]),
        j == s.len() || is_ws(s[j]),
    ensures
        tok_len(s.skip(i)) == j - i,
    decreases j - i,
{
    if i == j {
        if i < s.len() {
            assert(s.skip(i)[0] == s[i]);
        }
    } else {
        lemma_token_block(s, i + 1, j);
        assert(s.skip(i)[0] == s[i]);
        assert(s.skip(i).drop_first() =~= s.skip(i + 1));
    }
}

/// True when the character separates tokens.
fn is_ws_char(c: char) -> (r: bool)
    ensures
        r == is_ws(c),
{
    c == ' ' || c == '\t' || c == '\r' || c == '\n'
}

/// Splits a line into its whitespace-separated tokens.
pub fn tokenize(line: &str) -> (r: Vec<String>)
    ensures
        r@.len() == tokens_of(line@).len(),
        forall|i: int| 0 <= i < r@.len() ==> #[trigger] r@[i]@ == tokens_of(line@)[i],
{
    let n = line.unicode_len();
    let mut toks: Vec<String> = Vec::new();
    let mut i: usize = 0;
    proof {
        assert(line@.skip(0) =~= line@);
        assert(toks@.map_values(|t: String| t@) =~= Seq::<Seq<char>>::empty());
    }
    while i < n
        invariant
            0 <= i <= n,
            n == line@.len(),
            tokens_of(line@) == toks@.map_values(|t: String| t@) + tokens_of(line@.skip(i as int)),
        decreases n - i,
    {
        let c = line.get_char(i);
        if is_ws_char(c) {
            proof {
                assert(line@.skip(i as int)[0] == line@[i as int]);
                assert(line@.skip(i as int).drop_first() =~= line@.skip(i + 1));
            }
            i += 1;
        } else {
            let start = i;
            let mut j = i;
            while j < n
                invariant
                    i <= j <= n,
                    n == line@.len(),
                    forall|p: int| i <= p < j ==> !is_ws(#[trigger] line@[p]),
                ensures
                    i <= j <= n,
                    forall|p: int| i <= p < j ==> !is_ws(#[trigger] line@[p]),
                    j == n || is_ws(line@[j as int]),
                decreases n - j,
            {
                if is_ws_char(line.get_char(j)) {
                    break ;
                }
                j += 1;
            }
            let tok = line.substring_char(start, j).to_owned();
            let ghost toks0 = toks@.map_values(|t: String| t@);
            toks.push(tok);
            proof {
                lemma_token_block(line@, i as int, j as int);
                let tail = line@.skip(i as int);
                assert(tail[0] == line@[i as int]);
                assert(tokens_of(tail) == seq![tail.take(tok_len(tail) as int)] + tokens_of(
                    tail.skip(tok_len(tail) as int),
                ));
                assert(tail.take(j - i) =~= line@.subrange(i as int, j as int));
                assert(tail.skip(j - i) =~= line@.skip(j as int));
                assert(toks@.map_values(|t: String| t@) =~= toks0 + seq![
                    line@.subrange(i as int, j as int),
                ]);
                assert(toks@.map_values(|t: String| t@) + tokens_of(line@.skip(j as int))
                    =~= tokens_of(line@));
            }
            i = j;
        }
    }
    proof {
        assert(line@.skip(n as int) =~= Seq::<char>::empty());
        assert(toks@.map_values(|t: String| t@) + tokens_of(line@.skip(n as int)) =~= toks@.map_values(
            |t: String| t@,
        ));
    }
    toks
}

/// Reads the token at the head of the input, as `set` and `get` read their
/// operands: one or more characters up to the first whitespace.  An input
/// that is empty or starts with whitespace holds no token and is refused.
pub fn literal(input: &str) -> (r: Result<String, Error>)
    ensures
        match r {
            Ok(t) => tok_len(input@) > 0 && t@ == input@.take(tok_len(input@) as int),
            Err(e) => tok_len(input@) == 0 && e.kind == ErrorKind::Parser,
        },
{
    let n = input.unicode_len();
    if n == 0 {
        return Err(Error { kind: ErrorKind::Parser });
    }
    if is_ws_char(input.get_char(0)) {
        return Err(Error { kind: ErrorKind::Parser });
    }
    let mut j: usize = 0;
    while j < n
        invariant
            0 <= j <= n,
            n == input@.len(),
            forall|p: int| 0 <= p < j ==> !is_ws(#[trigger] input@[p]),
        ensures
            0 <= j <= n,
            forall|p: int| 0 <= p < j ==> !is_ws(#[trigger] input@[p]),
            j == n || is_ws(input@[j as int]),
        decreases n - j,
    {
        if is_ws_char(input.get_char(j)) {
            break ;
        }
        j += 1;
    }
    proof {
        lemma_token_block(input@, 0, j as int);
        assert(input@.skip(0) =~= input@);
        assert(input@.take(j as int) =~= input@.subrange(0, j as int));
    }
    Ok(input.substring_char(0, j).to_owned())
}

/// Parses one request line against the grammar, or refuses it as a parser
/// error.
pub fn parse_sql(line: &str) -> (r: Result<Statement, Error>)
    ensures
        match spec_parse(line@) {
            Some(st) => r matches Ok(out) && out@ == st,
            None => r matches Err(e) && e.kind == ErrorKind::Parser,
        },
{
    let toks = tokenize(line);
    let nt = toks.len();
    if nt == 1 && str_eq(toks[0].as_str(), "clear") {
        return Ok(
            Statement { verb: Keyword::Clear, key: String::new(), value: String::new() },
        );
    }
    if nt == 3 && str_eq(toks[0].as_str(), "set") {
        return Ok(
            Statement { verb: Keyword::SetValue, key: toks[1].clone(), value: toks[2].clone() },
        );
    }
    if nt == 2 && str_eq(toks[0].as_str(), "get") {
        return Ok(Statement { verb: Keyword::Get, key: toks[1].clone(), value: String::new() });
    }
    if nt == 2 && str_eq(toks[0].as_str(), "mv-to") {
        return Ok(
            Statement { verb: Keyword::MoveFile, key: toks[1].clone(), value: String::new() },
        );
    }
    if nt == 2 && str_eq(toks[0].as_str(), "attach-to") {
        return Ok(
            Statement { verb: Keyword::AttachFile, key: toks[1].clone(), value: String::new() },
        );
    }
    Err(Error { kind: ErrorKind::Parser })
}

} // verus!
