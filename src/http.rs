//! Outbound HTTP requests as plain values: what the library decides to
//! send, and what the caller's HTTP client carries out.

use vstd::prelude::*;

verus! {

#[derive(PartialEq, Eq, Structural, Clone, Copy, Debug)]
pub enum HttpMethod {
    Get,
    Post,
}

/// A request to send: method, address, headers, optional HTTP Basic
/// credentials (user, password) and optional body.
pub struct OutboundRequest {
    pub method: HttpMethod,
    pub url: String,
    pub headers: Vec<(String, String)>,
    pub basic_auth: Option<(String, String)>,
    pub body: Option<String>,
}

pub ghost struct RequestView {
    pub method: HttpMethod,
    pub url: Seq<char>,
    pub headers: Seq<(Seq<char>, Seq<char>)>,
    pub basic_auth: Option<(Seq<char>, Seq<char>)>,
    pub body: Option<Seq<char>>,
}

pub open spec fn pair_view(p: (String, String)) -> (Seq<char>, Seq<char>) {
    (p.0@, p.1@)
}

impl View for OutboundRequest {
    type V = RequestView;

    open spec fn view(&self) -> RequestView {
        RequestView {
            method: self.method,
            url: self.url@,
            headers: self.headers@.map_values(|h: (String, String)| pair_view(h)),
            basic_auth: match self.basic_auth {
                Some(p) => Some(pair_view(p)),
                None => None,
            },
            body: match self.body {
                Some(b) => Some(b@),
                None => None,
            },
        }
    }
}

impl OutboundRequest {
    /// A request with no header, credentials or body.
    pub fn new(method: HttpMethod, url: String) -> (r: OutboundRequest)
        ensures
            r@ == (RequestView {
                method,
                url: url@,
                headers: Seq::empty(),
                basic_auth: None,
                body: None,
            }),
    {
        let r = OutboundRequest {
            method,
            url,
            headers: Vec::new(),
            basic_auth: None,
            body: None,
        };
        assert(r@.headers =~= Seq::empty());
        r
    }

    /// Adds one header.
    pub fn add_header(&mut self, name: String, value: String)
        ensures
            final(self)@ == (RequestView {
                headers: old(self)@.headers.push((name@, value@)),
                ..old(self)@
            }),
    {
        self.headers.push((name, value));
        assert(self@.headers =~= old(self)@.headers.push((name@, value@)));
    }
}

} // verus!
