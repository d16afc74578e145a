//! Plain-value models of HTTP requests and responses.
//!
//! The wire codec and its types live with the driving task; the library works
//! on these plain values, so that every rule about them can be verified.
//! Header names are kept lower-case, as the wire codecs normalise them.
//! Typed extension maps, being opaque grab-bags, have no counterpart here:
//! a driver that needs per-request extras carries them in the handle's
//! metadata instead.

use vstd::prelude::*;
use vstd::string::StringExecFns;

verus! {

#[derive(Copy, Clone, Debug, PartialEq, Eq, Structural)]
pub enum HttpVersion {
    Http09,
    Http10,
    Http11,
    Http2,
    Http3,
}

/// One header field, name lower-case.
#[derive(Debug)]
pub struct Header {
    pub name: String,
    pub value: String,
}

/// What a response head declares about the body that follows: a byte count,
/// or no usable count (chunked or close-delimited framing).
#[derive(Copy, Clone, Debug, PartialEq, Eq, Structural)]
pub enum DeclaredLength {
    Length(u64),
    Unbounded,
}

/// Progress through a response body: for a counted body, the declared total
/// and the bytes still to read; otherwise unbounded.
#[derive(Copy, Clone, Debug, PartialEq, Eq, Structural)]
pub enum BodyProgress {
    Counted { total: u64, remaining: u64 },
    Unbounded,
}

/// An HTTP request, body supplied whole.  The URI must carry an authority
/// component; the `host` header is overwritten from it on submission.
#[derive(Debug)]
pub struct Request {
    pub method: String,
    pub uri: String,
    pub authority: Option<String>,
    pub version: HttpVersion,
    pub headers: Vec<Header>,
    pub body: bytes::Bytes,
}

/// The start line and headers of a response, as the wire codec parsed them.
#[derive(Debug)]
pub struct ResponseHead {
    pub version: HttpVersion,
    pub status: u16,
    pub headers: Vec<Header>,
}

/// A complete response, body buffered whole.
#[derive(Debug)]
pub struct Response {
    pub version: HttpVersion,
    pub status: u16,
    pub headers: Vec<Header>,
    pub body: bytes::Bytes,
}

pub open spec fn is_host_name(s: Seq<char>) -> bool {
    s == "host"@
}

/// The headers of `hs` that are not a `host` header, in order.
pub open spec fn non_host(hs: Seq<Header>) -> Seq<Header>
    decreases hs.len(),
{
    if hs.len() == 0 {
        Seq::empty()
    } else if is_host_name(hs[0].name@) {
        non_host(hs.drop_first())
    } else {
        seq![hs[0]] + non_host(hs.drop_first())
    }
}

/// `wire` is `req` with its `host` header rewritten from the URI's authority:
/// every other part is kept, every prior `host` header is dropped, and one
/// `host` header holding the authority stands last.
pub open spec fn host_rewritten(wire: Request, req: Request) -> bool {
    &&& wire.method == req.method
    &&& wire.uri == req.uri
    &&& wire.authority == req.authority
    &&& wire.version == req.version
    &&& wire.body == req.body
    &&& wire.headers@.len() == non_host(req.headers@).len() + 1
    &&& wire.headers@.drop_last() == non_host(req.headers@)
    &&& is_host_name(wire.headers@.last().name@)
    &&& wire.headers@.last().value@ == req.authority->0@
}

impl Request {
    /// A request can be put on the wire only if its URI names an authority.
    pub open spec fn wf(&self) -> bool {
        self.authority is Some
    }

    /// Overwrites the `host` header from the URI's authority.
    pub fn with_host_header(self) -> (r: Request)
        requires
            self.wf(),
        ensures
            host_rewritten(r, self),
            r.wf(),
    {
        let host_name: String = String::from_str("host");
        let authority: String = match &self.authority {
            Some(a) => a.clone(),
            None => String::new(),
        };
        let mut rest = self.headers;
        let ghost orig: Seq<Header> = rest@;
        let mut kept: Vec<Header> = Vec::new();
        proof {
            assert(kept@ + non_host(rest@) =~= non_host(orig));
        }
        while rest.len() > 0
            invariant
                host_name@ == "host"@,
                non_host(orig) == kept@ + non_host(rest@),
            decreases rest.len(),
        {
            let ghost pre = rest@;
            let ghost kept_pre = kept@;
            let h = rest.remove(0);
            proof {
                assert(pre.remove(0) =~= pre.drop_first());
            }
            if h.name == host_name {
                proof {
                    assert(non_host(pre) == non_host(pre.drop_first()));
                }
            } else {
                kept.push(h);
                proof {
                    assert(non_host(pre) == seq![h] + non_host(pre.drop_first()));
                    assert(kept_pre + (seq![h] + non_host(rest@)) =~= kept_pre.push(h)
                        + non_host(rest@));
                }
            }
        }
        proof {
            assert(kept@ + non_host(rest@) =~= kept@);
        }
        let host_header = Header { name: host_name, value: authority };
        let ghost before_host = kept@;
        kept.push(host_header);
        proof {
            assert(kept@.drop_last() =~= before_host);
        }
        Request {
            method: self.method,
            uri: self.uri,
            authority: self.authority,
            version: self.version,
            headers: kept,
            body: self.body,
        }
    }
}

} // verus!
