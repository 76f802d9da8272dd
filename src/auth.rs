//! Credentials that outgoing requests carry.

use vstd::prelude::*;
use crate::http::{OutboundRequest, RequestView};

verus! {

/// HTTP Basic credentials: a user name and an API token.
#[derive(Clone)]
pub struct BasicAuth {
    pub user: String,
    pub api_token: String,
}

/// A bearer token, kept as the full `Authorization` header value.
#[derive(Clone)]
pub struct BearerTokenAuthorizer {
    pub token_key: String,
    pub token_value: String,
}

impl BearerTokenAuthorizer {
    /// A bearer authorizer for `value`; the header value is `Bearer <value>`.
    pub fn new(key: &str, value: String) -> (r: BearerTokenAuthorizer)
        ensures
            r.token_key@ == key@,
            r.token_value@ == "Bearer "@ + value@,
    {
        let mut token_value = String::from_str("Bearer ");
        token_value.append(value.as_str());
        BearerTokenAuthorizer { token_key: String::from_str(key), token_value }
    }
}

/// The one authentication scheme that a client uses.
#[derive(Clone)]
pub enum Authorizer {
    Basic(BasicAuth),
    Bearer(BearerTokenAuthorizer),
}

/// `req` with the credentials of `a` added: Basic sets the request's Basic
/// credentials; Bearer adds one `Authorization` header.
pub open spec fn authorized(a: Authorizer, req: RequestView) -> RequestView {
    match a {
        Authorizer::Basic(b) => RequestView { basic_auth: Some((b.user@, b.api_token@)), ..req },
        Authorizer::Bearer(t) => RequestView {
            headers: req.headers.push(("Authorization"@, t.token_value@)),
            ..req
        },
    }
}

impl Authorizer {
    /// Adds this authorizer's credentials to `req`.
    pub fn authorize_request(&self, req: OutboundRequest) -> (r: OutboundRequest)
        ensures
            r@ == authorized(*self, req@),
    {
        let mut req = req;
        match self {
            Authorizer::Basic(b) => {
                req.basic_auth = Some((b.user.clone(), b.api_token.clone()));
                req
            },
            Authorizer::Bearer(t) => {
                req.add_header(String::from_str("Authorization"), t.token_value.clone());
                req
            },
        }
    }
}

} // verus!
