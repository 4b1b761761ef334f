//! Request serialization: method, path and a fixed set of three headers,
//! written out in wire format with CRLF line endings and a blank line marking
//! the end of the headers. Requests carry no body.

use vstd::prelude::*;
use vstd::string::{StrSliceExecFns, StringExecFns};
use vstd::utf8::encode_utf8;

use crate::url::Url;

verus! {

/// The wire text of a request: the request line, then `Host`,
/// `Connection: close` and the fixed `User-Agent`, each line ended by CRLF,
/// with a final blank line and no body.
pub open spec fn request_text(method: Seq<char>, path: Seq<char>, host: Seq<char>) -> Seq<char> {
    method + " "@ + path + " HTTP/1.1\r\nHost: "@ + host
        + "\r\nConnection: close\r\nUser-Agent: BrowserVoy\r\n\r\n"@
}

/// A request to be serialized: a method and the URL it addresses. It lives
/// only long enough to be written out.
pub struct Request<'a> {
    pub method: &'a str,
    pub url: &'a Url,
}

impl<'a> Request<'a> {
    pub fn new(url: &'a Url, method: &'a str) -> (r: Self)
        ensures
            r.method == method,
            r.url == url,
    {
        Request { method, url }
    }

    /// The request in wire format, as text.
    pub fn as_text(&self) -> (r: String)
        ensures
            r@ == request_text(self.method@, self.url.path@, self.url.host@),
    {
        let mut s = String::new();
        s.append(self.method);
        s.append(" ");
        s.append(self.url.path.as_str());
        s.append(" HTTP/1.1\r\nHost: ");
        s.append(self.url.host.as_str());
        s.append("\r\nConnection: close\r\nUser-Agent: BrowserVoy\r\n\r\n");
        proof {
            assert(s@ =~= request_text(self.method@, self.url.path@, self.url.host@));
        }
        s
    }

    /// The request in wire format, as the UTF-8 bytes that go on the wire.
    pub fn as_bytes(&self) -> (r: Vec<u8>)
        ensures
            r@ == encode_utf8(request_text(self.method@, self.url.path@, self.url.host@)),
    {
        let s = self.as_text();
        s.as_str().as_bytes_vec()
    }
}

} // verus!
