//! URIs of Parquet resources and their resolution to a storage backend.
//!
//! [`InputUri`] wraps the raw URI text.  Resolution parses it with the `url`
//! crate and decides, from the scheme, which object-store backend serves the
//! resource and under which in-store path ([`StoreTarget`]); building the
//! backend itself is left to the caller.
use url::Url;
use url::ParseError as E;
use vstd::prelude::*;

use crate::text::{concat, decimal, str_eq, u64_decimal};

verus! {

#[verifier::external_type_specification]
#[verifier::external_body]
pub struct ExObjectStoreError(object_store::Error);

/// Why `url` refuses a text, as `url::ParseError` says it.  `ParseError`
/// may gain variants in later versions of `url`; `Other` stands for those.
#[derive(Clone, Copy, Debug, PartialEq, Eq, Structural)]
pub enum UrlParseError {
    EmptyHost,
    IdnaError,
    InvalidPort,
    InvalidIpv4Address,
    InvalidIpv6Address,
    InvalidDomainCharacter,
    RelativeUrlWithoutBase,
    RelativeUrlWithCannotBeABaseBase,
    SetHostOnCannotBeABaseUrl,
    Overflow,
    Other,
}

/// The outcome of `url::Url::parse` on a text, as plain values: the error
/// `url` refuses the text with, otherwise (scheme, host, port, path,
/// serialisation) of the parsed URL.
pub uninterp spec fn url_parse(text: Seq<char>) -> Result<
    (Seq<char>, Option<Seq<char>>, Option<u16>, Seq<char>, Seq<char>),
    UrlParseError,
>;

/// A raw URI string pointing to a Parquet resource; not validated on
/// construction.
#[derive(Debug)]
pub struct InputUri(pub String);

impl Clone for InputUri {
    fn clone(&self) -> (r: Self)
        ensures
            r.0@ == self.0@,
    {
        InputUri(self.0.clone())
    }
}

impl InputUri {
    /// Parse the inner string as a URL: the parts `url` reads from it, or
    /// the error `url` refuses it with.
    pub fn parse(&self) -> (r: Result<UrlParts, UrlParseError>)
        ensures
            match r {
                Ok(p) => url_parse(self.0@) == Ok::<_, UrlParseError>(p@),
                Err(e) => url_parse(self.0@) == Err::<
                    (Seq<char>, Option<Seq<char>>, Option<u16>, Seq<char>, Seq<char>),
                    _,
                >(e),
            },
    {
        parse_url(self.0.as_str())
    }

    /// The raw URI text.
    pub fn to_string(&self) -> (s: String)
        ensures
            s@ == self.0@,
    {
        self.0.clone()
    }
}

impl std::str::FromStr for InputUri {
    type Err = std::convert::Infallible;

    /// Wrap the text without validation: always succeeds, and the wrapped
    /// text is the given one.
    fn from_str(s: &str) -> (r: Result<Self, Self::Err>)
        ensures
            r matches Ok(u) && u.0@ == s@,
    {
        Ok(InputUri(s.to_owned()))
    }
}

/// The parts of a parsed URL that resolution reads.
pub struct UrlParts {
    pub scheme: String,
    pub host: Option<String>,
    pub port: Option<u16>,
    pub path: String,
    pub serialization: String,
}

impl View for UrlParts {
    type V = (Seq<char>, Option<Seq<char>>, Option<u16>, Seq<char>, Seq<char>);

    open spec fn view(&self) -> Self::V {
        (
            self.scheme@,
            match self.host {
                Some(h) => Some(h@),
                None => None,
            },
            self.port,
            self.path@,
            self.serialization@,
        )
    }
}

impl UrlParts {
    /// The scheme.
    pub fn scheme(&self) -> (s: &str)
        ensures
            s@ == self.scheme@,
    {
        self.scheme.as_str()
    }

    /// The host, when the URL has one.
    pub fn host_str(&self) -> (h: Option<&str>)
        ensures
            h matches Some(t) ==> self.host matches Some(x) && t@ == x@,
            h is None ==> self.host is None,
    {
        match &self.host {
            Some(x) => Some(x.as_str()),
            None => None,
        }
    }

    /// The path.
    pub fn path(&self) -> (p: &str)
        ensures
            p@ == self.path@,
    {
        self.path.as_str()
    }

    /// The whole URL as text.
    pub fn as_str(&self) -> (t: &str)
        ensures
            t@ == self.serialization@,
    {
        self.serialization.as_str()
    }
}

/// `url::Url::parse`, then `scheme`, `host_str`, `port`, `path` and
/// `as_str` on the parsed URL, each converted to an owned value, or the
/// `ParseError` converted variant by variant.
#[verifier::external_body]
fn parse_url(text: &str) -> (r: Result<UrlParts, UrlParseError>)
    ensures
        match r {
            Ok(p) => url_parse(text@) == Ok::<_, UrlParseError>(p@),
            Err(e) => url_parse(text@) == Err::<
                (Seq<char>, Option<Seq<char>>, Option<u16>, Seq<char>, Seq<char>),
                _,
            >(e),
        },
{
    match Url::parse(text) {
        Ok(u) => Ok(UrlParts { scheme: u.scheme().to_owned(), host: u.host_str().map(str::to_owned),
            port: u.port(), path: u.path().to_owned(), serialization: u.as_str().to_owned() }),
        Err(e) => Err(match e {
            E::EmptyHost => UrlParseError::EmptyHost, E::IdnaError => UrlParseError::IdnaError,
            E::InvalidPort => UrlParseError::InvalidPort, E::InvalidIpv4Address => UrlParseError::InvalidIpv4Address,
            E::InvalidIpv6Address => UrlParseError::InvalidIpv6Address, E::Overflow => UrlParseError::Overflow,
            E::InvalidDomainCharacter => UrlParseError::InvalidDomainCharacter,
            E::RelativeUrlWithoutBase => UrlParseError::RelativeUrlWithoutBase,
            E::RelativeUrlWithCannotBeABaseBase => UrlParseError::RelativeUrlWithCannotBeABaseBase,
            E::SetHostOnCannotBeABaseUrl => UrlParseError::SetHostOnCannotBeABaseUrl,
            _ => UrlParseError::Other,
        }),
    }
}

/// Errors of URI → storage resolution.
#[derive(Debug)]
pub enum UriStoreError {
    /// The URI string could not be parsed as a URL.
    InvalidUri(String),
    /// The URI scheme is not supported by this resolver.
    UnsupportedScheme(String),
    /// An `hdfs://` URI was supplied without a host (authority) component.
    MissingAuthority(String),
    /// An `object_store` builder or I/O error.
    ObjectStore(object_store::Error),
    /// The HDFS object-store builder returned an error.
    HdfsBuild(String),
}

/// Which backend serves a resource, and where in it.
#[derive(Debug)]
pub enum StoreTarget {
    /// Local file system anchored at `/`; `path` is relative to it.
    LocalFile { path: String },
    /// HTTP(S) store; the full URL is the object path.
    Http { path: String },
    /// HDFS namenode at `base` (`hdfs://host[:port]`); `path` relative to it.
    Hdfs { base: String, path: String },
}

impl StoreTarget {
    /// The in-store path of the resource.
    pub fn path(&self) -> (p: &str)
        ensures
            p@ == match self {
                StoreTarget::LocalFile { path } => path@,
                StoreTarget::Http { path } => path@,
                StoreTarget::Hdfs { path, .. } => path@,
            },
    {
        match self {
            StoreTarget::LocalFile { path } => path.as_str(),
            StoreTarget::Http { path } => path.as_str(),
            StoreTarget::Hdfs { path, .. } => path.as_str(),
        }
    }
}

/// `s` without its leading `/` characters.
pub open spec fn strip_leading_slashes(s: Seq<char>) -> Seq<char>
    decreases s.len(),
{
    if s.len() > 0 && s[0] == '/' {
        strip_leading_slashes(s.drop_first())
    } else {
        s
    }
}

proof fn lemma_strip_prefix(s: Seq<char>, k: int)
    requires
        0 <= k <= s.len(),
        forall|j: int| 0 <= j < k ==> s[j] == '/',
        k == s.len() || s[k] != '/',
    ensures
        strip_leading_slashes(s) == s.subrange(k, s.len() as int),
    decreases k,
{
    if k > 0 {
        lemma_strip_prefix(s.drop_first(), k - 1);
        assert(s.drop_first().subrange(k - 1, s.len() - 1) =~= s.subrange(k, s.len() as int));
    } else {
        assert(s.subrange(0, s.len() as int) =~= s);
    }
}

/// `s` without its leading `/` characters.
fn trim_leading_slashes(s: &str) -> (r: String)
    ensures
        r@ == strip_leading_slashes(s@),
{
    let n = s.unicode_len();
    let mut k: usize = 0;
    while k < n && s.get_char(k) == '/'
        invariant
            n == s@.len(),
            k <= n,
            forall|j: int| 0 <= j < k ==> s@[j] == '/',
        decreases n - k,
    {
        k = k + 1;
    }
    proof {
        lemma_strip_prefix(s@, k as int);
    }
    s.substring_char(k, n).to_owned()
}

/// The namenode base URI of an HDFS resource.
pub open spec fn hdfs_base(host: Seq<char>, port: Option<u16>) -> Seq<char> {
    match port {
        Some(p) => "hdfs://"@ + host + ":"@ + decimal(p as nat),
        None => "hdfs://"@ + host,
    }
}

/// What resolution yields for a URL with the given parts (see [`resolve_url`]).
pub open spec fn plan_holds(parts: &UrlParts, r: &Result<StoreTarget, UriStoreError>) -> bool {
    &&& parts.scheme@ == "file"@ ==> (*r matches Ok(StoreTarget::LocalFile { path }) && path@
        == strip_leading_slashes(parts.path@))
    &&& (parts.scheme@ == "http"@ || parts.scheme@ == "https"@) ==> (*r matches Ok(
        StoreTarget::Http { path },
    ) && path@ == parts.serialization@)
    &&& parts.scheme@ == "hdfs"@ ==> match parts.host {
        Some(h) => *r matches Ok(StoreTarget::Hdfs { base, path }) && base@ == hdfs_base(
            h@,
            parts.port,
        ) && path@ == strip_leading_slashes(parts.path@),
        None => *r matches Err(UriStoreError::MissingAuthority(s)) && s@ == parts.serialization@,
    }
    &&& !(parts.scheme@ == "file"@ || parts.scheme@ == "http"@ || parts.scheme@ == "https"@
        || parts.scheme@ == "hdfs"@) ==> (*r matches Err(UriStoreError::UnsupportedScheme(s))
        && s@ == parts.scheme@)
}

/// Where a parsed URL (see [`InputUri::parse`]) is served from.
///
/// `file` → local file system, path without its leading `/`; `http` and
/// `https` → HTTP store with the full URL as path; `hdfs` → the namenode
/// `hdfs://host[:port]` (an error when the URL has no host), path without its
/// leading `/`; any other scheme is unsupported.
pub fn resolve_url(url: &UrlParts) -> (r: Result<StoreTarget, UriStoreError>)
    ensures
        plan_holds(url, &r),
        (url.scheme@ == "http"@ || url.scheme@ == "https"@) ==> (r matches Ok(
            StoreTarget::Http { path },
        ) && url.serialization@ == path@),
{
    proof {
        reveal_strlit("file");
        reveal_strlit("http");
        reveal_strlit("https");
        reveal_strlit("hdfs");
        assert("file"@[0] == 'f' && "http"@[0] == 'h' && "https"@[0] == 'h' && "hdfs"@[0] == 'h');
        assert("http"@[1] == 't' && "https"@[1] == 't' && "hdfs"@[1] == 'd');
        assert("http"@.len() == 4 && "https"@.len() == 5);
    }
    let scheme = url.scheme.as_str();
    if str_eq(scheme, "file") {
        Ok(StoreTarget::LocalFile { path: trim_leading_slashes(url.path.as_str()) })
    } else if str_eq(scheme, "http") || str_eq(scheme, "https") {
        Ok(StoreTarget::Http { path: url.serialization.clone() })
    } else if str_eq(scheme, "hdfs") {
        match &url.host {
            Some(h) => {
                let with_host = concat("hdfs://", h.as_str());
                let base = match url.port {
                    Some(p) => {
                        let with_colon = concat(with_host.as_str(), ":");
                        let digits = u64_decimal(p as u64);
                        let b = concat(with_colon.as_str(), digits.as_str());
                        proof {
                            assert(b@ =~= hdfs_base(h@, url.port));
                        }
                        b
                    },
                    None => with_host,
                };
                Ok(StoreTarget::Hdfs { base, path: trim_leading_slashes(url.path.as_str()) })
            },
            None => Err(UriStoreError::MissingAuthority(url.serialization.clone())),
        }
    } else {
        Err(UriStoreError::UnsupportedScheme(url.scheme.clone()))
    }
}

/// An `http` or `https` URL is fetched by its whole text: the object path
/// is the URL's full serialisation, with its host, port and query, whatever
/// the host; a `file` URL is its path without leading slashes; an `hdfs`
/// URL with a host goes to the namenode `hdfs://host[:port]`.
pub proof fn lemma_resolution_keeps_the_url(parts: &UrlParts, r: &Result<StoreTarget, UriStoreError>)
    requires
        plan_holds(parts, r),
    ensures
        (parts.scheme@ == "http"@ || parts.scheme@ == "https"@) ==> (*r matches Ok(
            StoreTarget::Http { path },
        ) && parts.serialization@ == path@),
        parts.scheme@ == "file"@ ==> (*r matches Ok(StoreTarget::LocalFile { path })
            && path@ == strip_leading_slashes(parts.path@)),
        (parts.scheme@ == "hdfs"@ && parts.host is Some) ==> (*r matches Ok(
            StoreTarget::Hdfs { base, path },
        ) && base@ == "hdfs://"@ + parts.host.unwrap()@ + match parts.port {
            Some(p) => ":"@ + decimal(p as nat),
            None => Seq::<char>::empty(),
        } && path@ == strip_leading_slashes(parts.path@)),
{
    if parts.scheme@ == "hdfs"@ {
        if let Some(h) = parts.host {
            match parts.port {
                Some(p) => {
                    assert("hdfs://"@ + h@ + ":"@ + decimal(p as nat) =~= "hdfs://"@ + h@ + (":"@
                        + decimal(p as nat)));
                },
                None => {
                    assert("hdfs://"@ + h@ =~= "hdfs://"@ + h@ + Seq::<char>::empty());
                },
            }
        }
    }
}

/// Resolve an [`InputUri`]: parse it with `url`, then [`resolve_url`].  Text
/// that is not an absolute URL gives `InvalidUri` with the text.
pub fn resolve_input_uri(uri: &InputUri) -> (r: Result<StoreTarget, UriStoreError>)
    ensures
        url_parse(uri.0@) is Err ==> (r matches Err(UriStoreError::InvalidUri(s)) && s@ == uri.0@),
        url_parse(uri.0@) matches Ok(v) ==> exists|p: UrlParts|
            p@ == v && #[trigger] plan_holds(&p, &r),
        url_parse(uri.0@) matches Ok(v) ==> ((v.0 == "http"@ || v.0 == "https"@) ==> (r matches Ok(
            StoreTarget::Http { path },
        ) && v.4 == path@)),
{
    match uri.parse() {
        Err(_) => Err(UriStoreError::InvalidUri(uri.0.clone())),
        Ok(p) => {
            let r = resolve_url(&p);
            proof {
                assert(plan_holds(&p, &r));
            }
            r
        },
    }
}

/// `Display` of an `object_store::Error`.
#[verifier::external_body]
fn object_store_text(e: &object_store::Error) -> String {
    e.to_string()
}

/// `m` is the message of `e`: a fixed text per variant followed by the
/// variant's text (for a storage error, the storage library's message).
pub open spec fn is_uri_message(e: &UriStoreError, m: Seq<char>) -> bool {
    match e {
        UriStoreError::InvalidUri(s) => m == "invalid URI: "@ + s@,
        UriStoreError::UnsupportedScheme(s) => m == "unsupported URI scheme: "@ + s@,
        UriStoreError::MissingAuthority(s) => m == "HDFS URI missing authority (host): "@ + s@,
        UriStoreError::ObjectStore(_) => exists|t: Seq<char>| m == "object store error: "@ + t,
        UriStoreError::HdfsBuild(s) => m == "HDFS store build error: "@ + s@,
    }
}

impl UriStoreError {
    /// The message of the error.
    pub fn message(&self) -> (m: String)
        ensures
            is_uri_message(self, m@),
    {
        match self {
            UriStoreError::InvalidUri(s) => concat("invalid URI: ", s.as_str()),
            UriStoreError::UnsupportedScheme(s) => concat("unsupported URI scheme: ", s.as_str()),
            UriStoreError::MissingAuthority(s) => concat(
                "HDFS URI missing authority (host): ",
                s.as_str(),
            ),
            UriStoreError::ObjectStore(e) => {
                let t = object_store_text(e);
                let m = concat("object store error: ", t.as_str());
                proof {
                    assert(m@ == "object store error: "@ + t@);
                }
                m
            },
            UriStoreError::HdfsBuild(s) => concat("HDFS store build error: ", s.as_str()),
        }
    }
}

} // verus!
