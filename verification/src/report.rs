use vstd::prelude::*;

use crate::error::{Error, ErrorKind};
use crate::response::Response;
use crate::utils::{dec_digits, u64_to_dec};
use vstd::utf8::{decode_utf8, valid_utf8};

verus! {

/// Relies on std's str::from_utf8: a byte string decodes as text exactly
/// when it is a valid UTF-8 encoding, and then decodes to the characters
/// that encoding spells.
#[verifier::external_body]
fn utf8_to_string(bytes: &[u8]) -> (r: Option<String>)
    ensures
        r is Some <==> valid_utf8(bytes@),
        r matches Some(s) ==> s@ == decode_utf8(bytes@),
{
    match core::str::from_utf8(bytes) {
        Ok(s) => Some(s.to_owned()),
        Err(_) => None,
    }
}

/// The body line of a framed response: `key: value` for a record (when both
/// decode as text), `Ok` for a plain success, `error: message` for a
/// failure.
pub open spec fn spec_body(resp: Response) -> Option<Seq<char>> {
    match resp {
        Response::Record { key, value } => if valid_utf8(key@) && valid_utf8(value@) {
            Some(decode_utf8(key@) + ": "@ + decode_utf8(value@))
        } else {
            None
        },
        Response::Okay => Some("Ok"@),
        Response::Error { msg } => Some("error: "@ + msg@),
    }
}

/// The full wire frame around a body: begin marker, body, elapsed time in
/// nanoseconds, end marker, each on its own line.
pub open spec fn spec_frame(body: Seq<char>, nanos: u64) -> Seq<char> {
    "<BEGIN>\r\n"@ + body + "\r\n"@ + dec_digits(nanos as nat) + "ns\r\n<END>"@
}

/// One executed statement's outcome, with how long it took, ready to frame
/// for the wire.
#[derive(Debug)]
pub struct Report {
    pub time_elapsed: u64,
    pub response: Response,
}

impl Report {
    /// Renders the report as its wire frame.  A record whose key or value
    /// is not valid text cannot be rendered and is a display error.
    pub fn serialize(&self) -> (r: Result<String, Error>)
        ensures
            match spec_body(self.response) {
                Some(b) => r matches Ok(s) && s@ == spec_frame(b, self.time_elapsed),
                None => r matches Err(e) && e.kind == ErrorKind::Display,
            },
    {
        let body: String = match &self.response {
            Response::Record { key, value } => {
                let ks = match utf8_to_string(key.as_slice()) {
                    Some(ks) => ks,
                    None => {
                        return Err(Error { kind: ErrorKind::Display });
                    },
                };
                let vs = match utf8_to_string(value.as_slice()) {
                    Some(vs) => vs,
                    None => {
                        return Err(Error { kind: ErrorKind::Display });
                    },
                };
                let mut b = ks;
                b.append(": ");
                b.append(vs.as_str());
                b
            },
            Response::Okay => "Ok".to_owned(),
            Response::Error { msg } => {
                let mut b = "error: ".to_owned();
                b.append(msg.as_str());
                b
            },
        };
        let mut out = "<BEGIN>\r\n".to_owned();
        out.append(body.as_str());
        out.append("\r\n");
        let digits = u64_to_dec(self.time_elapsed);
        out.append(digits.as_str());
        out.append("ns\r\n<END>");
        Ok(out)
    }
}

} // verus!
