//! What a request to a model provider is sent with.

use vstd::prelude::*;

verus! {

/// The credentials of a request: an API key and extra headers (sorted by
/// name, each name once), or why none could be had.
pub enum ResolvedRequestAuth {
    Resolved { api_key: Option<String>, headers: Option<Vec<(String, String)>> },
    Failed { error: String },
}

/// The credentials of a request from the provider's API key and the
/// model's headers; an empty header list counts as none.
pub fn request_auth(api_key: Option<String>, headers: Option<Vec<(String, String)>>) -> (r: ResolvedRequestAuth)
    ensures
        r matches ResolvedRequestAuth::Resolved { api_key: k, headers: h } && k == api_key && match headers {
            Some(v) => if v.len() > 0 { h == Some(v) } else { h is None },
            None => h is None,
        },
{
    let headers = match headers {
        Some(v) => if v.len() > 0 {
            Some(v)
        } else {
            None
        },
        None => None,
    };
    ResolvedRequestAuth::Resolved { api_key, headers }
}

} // verus!
