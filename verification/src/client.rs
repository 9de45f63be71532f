//! What a gemini client needs around its connection: the address to reach,
//! the request to send, and the parts of what comes back.

use crate::timeago::{decimal, push_decimal};
use vstd::prelude::*;
use vstd::slice::slice_subrange;
use vstd::string::*;

verus! {

/// The port of gemini servers.
pub const GEMINI_PORT: u16 = 1965;

/// Whether a carriage return and a line feed stand at `i` in `data`.
pub open spec fn crlf_at(data: Seq<u8>, i: int) -> bool {
    0 <= i && i + 1 < data.len() && data[i] == 0x0d && data[i + 1] == 0x0a
}

/// Index of the first carriage return of `data` that a line feed follows.
pub fn find_clrf(data: &[u8]) -> (r: Option<usize>)
    ensures
        match r {
            Some(i) => i + 2 <= data@.len() && crlf_at(data@, i as int) && forall|j: int|
                0 <= j < i ==> !crlf_at(data@, j),
            None => forall|j: int| !crlf_at(data@, j),
        },
{
    let n = data.len();
    if n < 2 {
        return None;
    }
    let mut i: usize = 0;
    while i < n - 1
        invariant
            n == data@.len(),
            n >= 2,
            i <= n - 1,
            forall|j: int| 0 <= j < i ==> !crlf_at(data@, j),
        decreases n - i,
    {
        if data[i] == 0x0d && data[i + 1] == 0x0a {
            return Some(i);
        }
        i = i + 1;
    }
    None
}

/// Splits a response after its first line: the header with the carriage
/// return and line feed that end it, and the content. `None` where no line
/// ends in the response.
pub fn split_response(response: &[u8]) -> (r: Option<(&[u8], &[u8])>)
    ensures
        match r {
            Some((header, content)) => {
                &&& header@ + content@ == response@
                &&& header@.len() >= 2
                &&& crlf_at(response@, header@.len() - 2)
                &&& forall|j: int| 0 <= j < header@.len() - 2 ==> !crlf_at(response@, j)
            },
            None => forall|j: int| !crlf_at(response@, j),
        },
{
    let n = response.len();
    match find_clrf(response) {
        Some(i) => {
            let header = slice_subrange(response, 0, i + 2);
            let content = slice_subrange(response, i + 2, n);
            proof {
                assert(header@ + content@ =~= response@);
            }
            Some((header, content))
        },
        None => None,
    }
}

/// The address of a server: its host, `:` and its port, which is that of
/// gemini where none is given.
pub open spec fn address_text(host: Seq<char>, port: Option<u16>) -> Seq<char> {
    host + ":"@ + decimal(
        match port {
            Some(p) => p as nat,
            None => GEMINI_PORT as nat,
        },
    )
}

/// The address of a server.
pub fn address(host: &str, port: Option<u16>) -> (r: String)
    ensures
        r@ == address_text(host@, port),
{
    let mut out = String::from_str(host);
    out.append(":");
    let p = match port {
        Some(p) => p,
        None => GEMINI_PORT,
    };
    push_decimal(&mut out, p as u64);
    out
}

/// The request for `url`: the URL, a carriage return and a line feed.
pub fn request_line(url: &str) -> (r: String)
    ensures
        r@ == url@ + "\r\n"@,
{
    let mut out = String::from_str(url);
    out.append("\r\n");
    out
}

} // verus!
