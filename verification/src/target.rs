//! Validation of the target URL: a URL with the scheme `http` or `https` is
//! taken as it is; one with another scheme is tried again behind `http://`
//! and then behind `https://`; what does not parse as a URL is turned down.

use vstd::prelude::*;

verus! {

/// Names what the URL parser makes of a string: the scheme of the URL that
/// `Url::parse` returns for it, as `Url::scheme` gives it, or `None` where
/// `Url::parse` returns an error.
pub uninterp spec fn parsed_scheme(url: Seq<char>) -> Option<Seq<char>>;

/// `reqwest::Url::parse`, and `Url::scheme` on the URL it returns. The
/// contract gives the outcome the name `parsed_scheme`: a string that does
/// not parse gives `None`, any other gives the scheme of the parsed URL.
/// Nothing more is claimed of the parser.
#[verifier::external_body]
fn parse_scheme(url: &str) -> (r: Option<String>)
    ensures
        match r {
            Some(s) => parsed_scheme(url@) == Some(s@),
            None => parsed_scheme(url@) is None,
        },
{
    match reqwest::Url::parse(url) {
        Ok(parsed) => Some(parsed.scheme().to_string()),
        Err(_) => None,
    }
}

/// Why a target URL is turned down.
#[derive(Clone, Copy, Debug, PartialEq, Eq, Structural)]
pub enum UrlError {
    /// The text does not parse as a URL.
    InvalidFormat,
    /// The URL has a scheme other than `http` and `https`, and does not
    /// parse behind either of them.
    SchemeMissing,
}

impl UrlError {
    /// The message of the error.
    pub open spec fn message_spec(self) -> Seq<char> {
        match self {
            UrlError::InvalidFormat => "Invalid URL format"@,
            UrlError::SchemeMissing => "Invalid URL. Use full URL with http:// or https://"@,
        }
    }

    /// The message of the error.
    pub fn message(&self) -> (r: String)
        ensures
            r@ == self.message_spec(),
    {
        match self {
            UrlError::InvalidFormat => "Invalid URL format".to_owned(),
            UrlError::SchemeMissing => "Invalid URL. Use full URL with http:// or https://".to_owned(),
        }
    }
}

/// Whether `scheme` is `http` or `https`.
pub open spec fn is_web(scheme: Seq<char>) -> bool {
    scheme == "http"@ || scheme == "https"@
}

/// Whether `scheme` is `http` or `https`.
pub fn is_web_scheme(scheme: &str) -> (r: bool)
    ensures
        r == is_web(scheme@),
{
    crate::text::text_eq(scheme, "http") || crate::text::text_eq(scheme, "https")
}

/// The URL to scan for the text `url`, given what the parser made of it:
/// `scheme` is the scheme it parsed with, if it parsed, and `http_ok` and
/// `https_ok` say whether it parses behind `http://` and behind `https://`.
pub open spec fn resolved(
    url: Seq<char>,
    scheme: Option<Seq<char>>,
    http_ok: bool,
    https_ok: bool,
) -> Result<Seq<char>, UrlError> {
    match scheme {
        None => Err(UrlError::InvalidFormat),
        Some(s) => if is_web(s) {
            Ok(url)
        } else if http_ok {
            Ok("http://"@ + url)
        } else if https_ok {
            Ok("https://"@ + url)
        } else {
            Err(UrlError::SchemeMissing)
        },
    }
}

/// The URL to scan for the text `url`.
pub open spec fn validated(url: Seq<char>) -> Result<Seq<char>, UrlError> {
    resolved(
        url,
        parsed_scheme(url),
        parsed_scheme("http://"@ + url) is Some,
        parsed_scheme("https://"@ + url) is Some,
    )
}

fn prefixed(prefix: &str, url: &str) -> (r: String)
    ensures
        r@ == prefix@ + url@,
{
    let mut out = prefix.to_owned();
    out.append(url);
    out
}

/// Decides on the URL to scan from what the parser made of `url`: see
/// `resolved`.
pub fn resolve(url: &str, scheme: Option<String>, http_ok: bool, https_ok: bool) -> (r: Result<
    String,
    UrlError,
>)
    ensures
        match r {
            Ok(s) => resolved(
                url@,
                match scheme {
                    Some(t) => Some(t@),
                    None => None,
                },
                http_ok,
                https_ok,
            ) == Ok::<Seq<char>, UrlError>(s@),
            Err(e) => resolved(
                url@,
                match scheme {
                    Some(t) => Some(t@),
                    None => None,
                },
                http_ok,
                https_ok,
            ) == Err::<Seq<char>, UrlError>(e),
        },
{
    match scheme {
        None => Err(UrlError::InvalidFormat),
        Some(s) => {
            if is_web_scheme(s.as_str()) {
                Ok(url.to_owned())
            } else if http_ok {
                Ok(prefixed("http://", url))
            } else if https_ok {
                Ok(prefixed("https://", url))
            } else {
                Err(UrlError::SchemeMissing)
            }
        },
    }
}

/// Validates the target URL and completes it with a scheme where it has
/// none of the two that can be scanned.
pub fn validate_url(url: &str) -> (r: Result<String, UrlError>)
    ensures
        match r {
            Ok(s) => validated(url@) == Ok::<Seq<char>, UrlError>(s@),
            Err(e) => validated(url@) == Err::<Seq<char>, UrlError>(e),
        },
{
    let scheme = parse_scheme(url);
    let web = match &scheme {
        Some(s) => is_web_scheme(s.as_str()),
        None => true,
    };
    let mut http_ok = false;
    let mut https_ok = false;
    if !web {
        http_ok = parse_scheme(prefixed("http://", url).as_str()).is_some();
        if !http_ok {
            https_ok = parse_scheme(prefixed("https://", url).as_str()).is_some();
        }
    }
    resolve(url, scheme, http_ok, https_ok)
}

} // verus!
