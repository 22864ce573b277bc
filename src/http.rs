use vstd::prelude::*;
use crate::text::{has_prefix, occurs_at};
use vstd::string::StringExecFns;

verus! {

/// A fetched page: the address it was finally served from, the site of
/// that address, and its text.
pub struct Page {
    pub url: String,
    pub domain: String,
    pub body: String,
}

/// The outcome of fetching an address.
pub enum FetchResult {
    Success(Page),
    Fail,
}

/// Whether `s` starts with `http://` or `https://`.
pub open spec fn has_scheme(s: Seq<char>) -> bool {
    occurs_at(s, 0, "http://"@) || occurs_at(s, 0, "https://"@)
}

/// The address to fetch for a site or address: `https://` is put in front
/// of one that has no scheme.
pub open spec fn canonical(s: Seq<char>) -> Seq<char> {
    if has_scheme(s) {
        s
    } else {
        "https://"@ + s
    }
}

/// The address to fetch for a site or address.
pub fn canonical_url(url: &str) -> (r: String)
    ensures
        r@ == canonical(url@),
{
    if has_prefix(url, "http://") || has_prefix(url, "https://") {
        String::from_str(url)
    } else {
        let mut r = String::from_str("https://");
        r.append(url);
        r
    }
}

/// Whether a response with this content type is a page whose links are read.
pub fn is_html(content_type: &str) -> (r: bool)
    ensures
        r == occurs_at(content_type@, 0, "text/html"@),
{
    has_prefix(content_type, "text/html")
}

} // verus!
