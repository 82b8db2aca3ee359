//! URLs as packages read them: the parts of a parsed URL, or of a
//! reference resolved against a base URL.

use vstd::prelude::*;

use crate::error::{decimal_digits, push_unsigned};
use crate::text::{chars_of, extend_chars, string_of};

verus! {

/// A URL's parts as the URL parser gives them.
pub struct UrlParts {
    pub scheme: String,
    pub host: Option<String>,
    pub port: Option<u16>,
    pub path: String,
    pub query: Option<String>,
    pub fragment: Option<String>,
    pub href: String,
}

/// An optional text as a plain value.
pub open spec fn opt_text(o: Option<String>) -> Option<Seq<char>> {
    match o {
        Some(s) => Some(s@),
        None => None,
    }
}

/// The parts of a URL as plain values: scheme, host, port, path, query,
/// fragment and the whole URL.
pub open spec fn url_view(p: UrlParts) -> (
    Seq<char>,
    Option<Seq<char>>,
    Option<u16>,
    Seq<char>,
    Option<Seq<char>>,
    Option<Seq<char>>,
    Seq<char>,
) {
    (p.scheme@, opt_text(p.host), p.port, p.path@, opt_text(p.query), opt_text(p.fragment), p.href@)
}

/// What `url::Url::parse` gives for a text: the URL's parts, or the text
/// of the parse error.
pub uninterp spec fn parsed_url(input: Seq<char>) -> Result<
    (Seq<char>, Option<Seq<char>>, Option<u16>, Seq<char>, Option<Seq<char>>, Option<Seq<char>>, Seq<char>),
    Seq<char>,
>;

/// What `url::Url::join` gives for a reference resolved against a base
/// URL (the base parsed by `url::Url::parse` first): the URL's parts, or
/// the text of the error.
pub uninterp spec fn joined_url(base: Seq<char>, input: Seq<char>) -> Result<
    (Seq<char>, Option<Seq<char>>, Option<u16>, Seq<char>, Option<Seq<char>>, Option<Seq<char>>, Seq<char>),
    Seq<char>,
>;

/// `url::Url::parse`, its parts read back with the `Url` accessors.
#[verifier::external_body]
fn url_parse(input: &str) -> (r: Result<UrlParts, String>)
    ensures
        match r {
            Ok(p) => parsed_url(input@) == Ok::<_, Seq<char>>(url_view(p)),
            Err(e) => parsed_url(input@) is Err && parsed_url(input@)->Err_0 == e@,
        },
{
    match url::Url::parse(input) {
        Ok(u) => Ok(UrlParts {
            scheme: u.scheme().to_owned(), host: u.host_str().map(str::to_owned), port: u.port(),
            path: u.path().to_owned(), query: u.query().map(str::to_owned),
            fragment: u.fragment().map(str::to_owned), href: u.as_str().to_owned(),
        }),
        Err(e) => Err(e.to_string()),
    }
}

/// `url::Url::join` on the base parsed by `url::Url::parse`, the result's
/// parts read back with the `Url` accessors.
#[verifier::external_body]
fn url_join(base: &str, input: &str) -> (r: Result<UrlParts, String>)
    ensures
        match r {
            Ok(p) => joined_url(base@, input@) == Ok::<_, Seq<char>>(url_view(p)),
            Err(e) => joined_url(base@, input@) is Err && joined_url(base@, input@)->Err_0 == e@,
        },
{
    let b = match url::Url::parse(base) { Ok(b) => b, Err(e) => return Err(e.to_string()) };
    match b.join(input) {
        Ok(u) => Ok(UrlParts {
            scheme: u.scheme().to_owned(), host: u.host_str().map(str::to_owned), port: u.port(),
            path: u.path().to_owned(), query: u.query().map(str::to_owned),
            fragment: u.fragment().map(str::to_owned), href: u.as_str().to_owned(),
        }),
        Err(e) => Err(e.to_string()),
    }
}

/// A parsed URL in the shape of a browser `URL`.
pub struct UrlFields {
    pub protocol: String,
    pub host: String,
    pub hostname: String,
    pub port: String,
    pub pathname: String,
    pub search: String,
    pub hash: String,
    pub href: String,
}

/// An optional part, empty when absent.
pub open spec fn or_empty(o: Option<Seq<char>>) -> Seq<char> {
    match o {
        Some(s) => s,
        None => Seq::<char>::empty(),
    }
}

/// An optional part after a prefix, empty when absent.
pub open spec fn prefixed(prefix: Seq<char>, o: Option<Seq<char>>) -> Seq<char> {
    match o {
        Some(s) => prefix + s,
        None => Seq::<char>::empty(),
    }
}

/// The browser fields of a URL's parts: the scheme with a `:`, the host
/// (twice), the port in decimal, the path, the query after `?`, the
/// fragment after `#`, and the whole URL.
pub open spec fn url_fields(
    v: (Seq<char>, Option<Seq<char>>, Option<u16>, Seq<char>, Option<Seq<char>>, Option<Seq<char>>, Seq<char>),
) -> Seq<Seq<char>> {
    seq![
        v.0 + ":"@,
        or_empty(v.1),
        or_empty(v.1),
        match v.2 {
            Some(p) => decimal_digits(p as nat),
            None => Seq::<char>::empty(),
        },
        v.3,
        prefixed("?"@, v.4),
        prefixed("#"@, v.5),
        v.6,
    ]
}

/// The fields of a `UrlFields` in order.
pub open spec fn fields_view(f: UrlFields) -> Seq<Seq<char>> {
    seq![f.protocol@, f.host@, f.hostname@, f.port@, f.pathname@, f.search@, f.hash@, f.href@]
}

fn text_or_empty(o: &Option<String>) -> (r: String)
    ensures
        r@ == or_empty(opt_text(*o)),
{
    match o {
        Some(s) => s.clone(),
        None => String::new(),
    }
}

fn prefixed_text(prefix: &str, o: &Option<String>) -> (r: String)
    ensures
        r@ == prefixed(prefix@, opt_text(*o)),
{
    match o {
        Some(s) => {
            let mut out = chars_of(prefix);
            extend_chars(&mut out, &chars_of(s.as_str()));
            string_of(out.as_slice())
        },
        None => String::new(),
    }
}

/// The browser fields of what the URL parser gave back: the parts made
/// into fields, or the parser's complaint prefixed with `url.parse: `.
pub fn url_fields_of(parts: Result<UrlParts, String>) -> (r: Result<UrlFields, String>)
    ensures
        match parts {
            Ok(p) => r matches Ok(f) && fields_view(f) == url_fields(url_view(p)),
            Err(e) => r matches Err(m) && m@ == "url.parse: "@ + e@,
        },
{
    match parts {
        Ok(p) => {
            let mut protocol = chars_of(p.scheme.as_str());
            extend_chars(&mut protocol, &chars_of(":"));
            let mut port: Vec<char> = Vec::new();
            match p.port {
                Some(n) => push_unsigned(&mut port, n as u64),
                None => {},
            }
            let f = UrlFields {
                protocol: string_of(protocol.as_slice()),
                host: text_or_empty(&p.host),
                hostname: text_or_empty(&p.host),
                port: string_of(port.as_slice()),
                pathname: p.path.clone(),
                search: prefixed_text("?", &p.query),
                hash: prefixed_text("#", &p.fragment),
                href: p.href.clone(),
            };
            assert(fields_view(f) =~= url_fields(url_view(p)));
            Ok(f)
        },
        Err(e) => {
            let mut m = chars_of("url.parse: ");
            extend_chars(&mut m, &chars_of(e.as_str()));
            Err(string_of(m.as_slice()))
        },
    }
}

/// Parses a URL, or resolves a reference against a base URL, into its
/// browser fields; an error names the parser's complaint.
pub fn parse_url(input: &str, base: Option<&str>) -> (r: Result<UrlFields, String>)
    ensures
        ({
            let parsed = match base {
                Some(b) => joined_url(b@, input@),
                None => parsed_url(input@),
            };
            match parsed {
                Ok(v) => r matches Ok(f) && fields_view(f) == url_fields(v),
                Err(e) => r matches Err(m) && m@ == "url.parse: "@ + e,
            }
        }),
{
    let parts = match base {
        Some(b) => url_join(b, input),
        None => url_parse(input),
    };
    url_fields_of(parts)
}

} // verus!
