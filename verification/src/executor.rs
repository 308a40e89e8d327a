use vstd::prelude::*;

use crate::error::{Error, ErrorKind};
use crate::parser::{parse_sql, spec_parse};
use crate::report::Report;
use crate::response::Response;
use crate::statement::Keyword;
use crate::storage::fs::{seg_suffix, FileView};
use crate::storage::{set_flushes, spec_get_outcome, value_of, Storage};
use vstd::string::StringSliceAdditionalSpecFns;
use vstd::utf8::encode_utf8;

verus! {

/// Relies on std's SystemTime: one reading of the wall clock, in
/// nanoseconds since the epoch, saturated to 64 bits.  Nothing is promised
/// of the value; consecutive readings may even decrease.
#[verifier::external_body]
fn clock_ns() -> u64 {
    match std::time::SystemTime::now().duration_since(std::time::UNIX_EPOCH) {
        Ok(d) => u64::try_from(d.as_nanos()).unwrap_or(u64::MAX),
        Err(_) => 0,
    }
}

/// What `execute_internal` must do to the store and report back, for each
/// form the request line can take.
pub open spec fn executed(
    pre: crate::storage::StorageView,
    post: crate::storage::StorageView,
    line: Seq<char>,
    r: Result<Response, Error>,
) -> bool {
    match spec_parse(line) {
        None => {
            &&& r matches Err(e) && e.kind == ErrorKind::Parser
            &&& post == pre
        },
        Some(st) => match st.verb {
            Keyword::Clear => {
                &&& r matches Ok(resp) && resp is Okay
                &&& post.fs.segments == Seq::<FileView>::empty()
                &&& post.memtable == Seq::<(Seq<u8>, Seq<u8>)>::empty()
                &&& post.fs.dir == pre.fs.dir
                &&& post.fs.wal == pre.fs.wal
            },
            Keyword::SetValue => {
                let kb = encode_utf8(st.key);
                let vb = encode_utf8(st.value);
                &&& post.fs.wal == pre.fs.wal + encode_utf8(line) + seq![10u8]
                &&& (r is Err <==> (set_flushes(pre, kb, vb) && pre.fs.segments.len() > 0
                    && seg_suffix(pre.fs.segments.last().name) == u64::MAX))
                &&& (r matches Ok(resp) ==> resp matches Response::Record { key: rk, value: rv }
                    && rk@ == kb && rv@ == vb && value_of(post, kb) == Some(vb))
                &&& (r matches Err(e) ==> e.kind == ErrorKind::IO)
            },
            Keyword::Get => {
                let kb = encode_utf8(st.key);
                &&& post.fs == pre.fs
                &&& post.memtable == pre.memtable
                &&& match r {
                    Ok(resp) => resp matches Response::Record { key: rk, value: rv } && rk@ == kb
                        && spec_get_outcome(pre, kb) == Ok::<Seq<u8>, ErrorKind>(rv@),
                    Err(e) => spec_get_outcome(pre, kb) == Err::<Seq<u8>, ErrorKind>(e.kind),
                }
            },
            Keyword::MoveFile => {
                &&& r matches Ok(resp) && resp is Okay
                &&& post.fs.dir == st.key
                &&& post.fs.segments == pre.fs.segments
                &&& post.memtable == Seq::<(Seq<u8>, Seq<u8>)>::empty()
            },
            Keyword::AttachFile => {
                &&& r matches Ok(resp) && resp is Okay
                &&& post.fs.dir == st.key
                &&& post.fs.segments == Seq::<FileView>::empty()
                &&& post.memtable == Seq::<(Seq<u8>, Seq<u8>)>::empty()
            },
        },
    }
}

/// What a wrapped report says of the store: an `error:` body reports some
/// failure of the statement, with that failure's wording, and any other
/// body is the statement's own outcome.
pub open spec fn reported(
    pre: crate::storage::StorageView,
    post: crate::storage::StorageView,
    line: Seq<char>,
    resp: Response,
) -> bool {
    match resp {
        Response::Error { msg } => exists|e: Error|
            #![auto]
            executed(pre, post, line, Err(e)) && msg@ == e.spec_message(),
        _ => executed(pre, post, line, Ok(resp)),
    }
}

/// The thin layer between a request line and the store: parses the line,
/// runs the statement, and wraps the outcome with the time it took.
pub struct Executor {
    pub storage: Storage,
}

impl Executor {
    /// The engine's invariant, carried through every statement.
    pub open spec fn inv(&self) -> bool {
        self.storage.inv()
    }

    /// Creates an executor over a fresh, empty store bound to `path`.  A
    /// host reattaches the directory's real contents with
    /// `Storage::attach_dir` before serving from an existing database.
    pub fn new(path: &str) -> (r: Result<Self, Error>)
        ensures
            r is Ok,
            r matches Ok(ex) ==> ex.inv() && ex.storage@.fs.dir == path@,
    {
        let storage = match Storage::new(path) {
            Ok(s) => s,
            Err(e) => {
                proof {
                    assert(false);
                }
                return Err(e);
            },
        };
        Ok(Executor { storage })
    }

    /// Parses and runs one request line against the store.  A `set` line is
    /// appended to the write-ahead log before it touches the store; the
    /// host must have forced the same bytes to stable storage for the write
    /// to count as durable.
    pub fn execute_internal(&mut self, line: &str) -> (r: Result<Response, Error>)
        requires
            old(self).inv(),
        ensures
            final(self).inv(),
            executed(old(self).storage@, final(self).storage@, line@, r),
    {
        let statement = match parse_sql(line) {
            Ok(statement) => statement,
            Err(e) => {
                return Err(e);
            },
        };
        match statement.verb {
            Keyword::Clear => {
                match self.storage.clear() {
                    Ok(resp) => Ok(resp),
                    Err(e) => {
                        proof {
                            assert(false);
                        }
                        Err(e)
                    },
                }
            },
            Keyword::SetValue => {
                let ghost pre = self.storage@;
                match self.storage.wal(line) {
                    Ok(_) => (),
                    Err(e) => {
                        proof {
                            assert(false);
                        }
                        return Err(e);
                    },
                };
                let ghost mid = self.storage@;
                let r = self.storage.set(statement.key.as_str().as_bytes(), statement.value.as_str().as_bytes());
                proof {
                    if r is Ok {
                        let kb = encode_utf8(spec_parse(line@).unwrap().key);
                        let vb = encode_utf8(spec_parse(line@).unwrap().value);
                        let base = if set_flushes(mid, kb, vb) {
                            Seq::<(Seq<u8>, Seq<u8>)>::empty()
                        } else {
                            mid.memtable
                        };
                        crate::laws::law_write_visibility(self.storage@, base, kb, vb);
                    }
                }
                r
            },
            Keyword::Get => self.storage.get(statement.key.as_str().as_bytes()),
            Keyword::MoveFile => {
                match self.storage.move_dir(statement.key.as_str()) {
                    Ok(_) => Ok(Response::Okay),
                    Err(e) => {
                        proof {
                            assert(false);
                        }
                        Err(e)
                    },
                }
            },
            Keyword::AttachFile => {
                let files: Vec<crate::storage::fs::NamedFile> = Vec::new();
                proof {
                    assert(files@.map_values(|g: crate::storage::fs::NamedFile| g@) =~= Seq::<
                        FileView,
                    >::empty());
                }
                match self.storage.attach_dir(statement.key.as_str(), files) {
                    Ok(_) => {
                        proof {
                            broadcast use vstd::seq_lib::group_to_multiset_ensures;

                            assert(self.storage@.fs.segments.len()
                                == self.storage@.fs.segments.to_multiset().len());
                            assert(self.storage@.fs.segments =~= Seq::<FileView>::empty());
                        }
                        Ok(Response::Okay)
                    },
                    Err(e) => {
                        proof {
                            assert(false);
                        }
                        Err(e)
                    },
                }
            },
        }
    }

    /// Runs one request line and wraps the outcome, successful or not, in a
    /// timed report; a failure becomes an `error:` body rather than
    /// escaping to the caller.
    pub fn execute(&mut self, line: &str) -> (report: Report)
        requires
            old(self).inv(),
        ensures
            final(self).inv(),
            reported(old(self).storage@, final(self).storage@, line@, report.response),
    {
        let start = clock_ns();
        let res = self.execute_internal(line);
        let end = clock_ns();
        let time_elapsed = if end >= start {
            end - start
        } else {
            0
        };
        Report {
            time_elapsed,
            response: match res {
                Ok(response) => response,
                Err(e) => Response::Error { msg: e.message() },
            },
        }
    }

    /// Compaction of older segment files into one; named as future work and
    /// not performed yet.
    pub fn merge(&mut self) {
    }
}

/// Parses one request line and runs it, handing back the timed report, or
/// the parse failure if the line matches no statement form.
pub fn handle_statement(executor: &mut Executor, line: &str) -> (r: Result<Report, Error>)
    requires
        old(executor).inv(),
    ensures
        final(executor).inv(),
        r is Err <==> spec_parse(line@) is None,
        r matches Err(e) ==> e.kind == ErrorKind::Parser && final(executor).storage@ == old(
            executor,
        ).storage@,
        r matches Ok(report) ==> reported(
            old(executor).storage@,
            final(executor).storage@,
            line@,
            report.response,
        ),
{
    match parse_sql(line) {
        Ok(_) => (),
        Err(e) => {
            return Err(e);
        },
    };
    Ok(executor.execute(line))
}

} // verus!
