//! RIPEstat: the requests for an ASN's announced prefixes and its holder,
//! what their answers mean, and the proxy and import URLs used to fetch data.
use vstd::prelude::*;

use crate::config::{opt_text, texts, Config};
use crate::text::{chars_of, owned, push_decimal, push_str, str_eq, trim, trim_string};

verus! {

// ---------------------------------------------------------------------------
// Answers
// ---------------------------------------------------------------------------

/// An answer of the announced-prefixes endpoint.
pub struct RipeResponse {
    pub status: Option<String>,
    pub data: Option<RipeData>,
    pub messages: Option<Vec<Vec<String>>>,
}

pub struct RipeData {
    pub prefixes: Vec<RipePrefix>,
}

pub struct RipePrefix {
    pub prefix: String,
}

/// An answer of the AS-overview endpoint.
pub struct RipeOverviewResponse {
    pub status: Option<String>,
    pub data: Option<RipeOverviewData>,
    pub messages: Option<Vec<Vec<String>>>,
}

pub struct RipeOverviewData {
    pub holder: Option<String>,
}

/// The second text of the first message, if there is one.
pub open spec fn first_message(messages: Option<Vec<Vec<String>>>) -> Option<Seq<char>> {
    match messages {
        Some(ms) => if ms@.len() > 0 && ms@[0]@.len() > 1 {
            Some(ms@[0]@[1]@)
        } else {
            None
        },
        None => None,
    }
}

fn first_message_text(messages: &Option<Vec<Vec<String>>>) -> (r: Option<String>)
    ensures
        opt_text(r) == first_message(*messages),
{
    match messages {
        Some(ms) => {
            if ms.len() > 0 && ms[0].len() > 1 {
                Some(ms[0][1].clone())
            } else {
                None
            }
        },
        None => None,
    }
}

/// Whether an answer's status is `ok`.
pub open spec fn status_ok(status: Option<String>) -> bool {
    status matches Some(s) && s@ == "ok"@
}

fn is_ok_status(status: &Option<String>) -> (r: bool)
    ensures
        r == status_ok(*status),
{
    match status {
        Some(s) => str_eq(s.as_str(), "ok"),
        None => false,
    }
}

/// The prefixes of an answer.
pub open spec fn answer_prefixes(data: Option<RipeData>) -> Seq<Seq<char>> {
    match data {
        Some(d) => d.prefixes@.map_values(|p: RipePrefix| p.prefix@),
        None => Seq::empty(),
    }
}

/// The announced prefixes of an answer whose status is `ok`; otherwise the
/// answer's first message, or a fixed one.
pub fn prefixes_from_response(body: RipeResponse) -> (r: Result<Vec<String>, String>)
    ensures
        status_ok(body.status) ==> (r matches Ok(v) && texts(v@) == answer_prefixes(body.data)),
        !status_ok(body.status) ==> (r matches Err(m) && m@ == (match first_message(body.messages) {
            Some(t) => t,
            None => "RIPE response status is not ok"@,
        })),
{
    if !is_ok_status(&body.status) {
        return match first_message_text(&body.messages) {
            Some(m) => Err(m),
            None => Err(owned("RIPE response status is not ok")),
        };
    }
    let mut out: Vec<String> = Vec::new();
    match &body.data {
        Some(d) => {
            for i in 0..d.prefixes.len()
                invariant
                    texts(out@) == d.prefixes@.take(i as int).map_values(|p: RipePrefix| p.prefix@),
            {
                let ghost prev = out@;
                out.push(d.prefixes[i].prefix.clone());
                assert(texts(out@) == texts(prev).push(d.prefixes@[i as int].prefix@));
                assert(d.prefixes@.take(i + 1) == d.prefixes@.take(i as int).push(d.prefixes@[i as int]));
            }
            assert(d.prefixes@.take(d.prefixes.len() as int) == d.prefixes@);
        },
        None => {},
    }
    Ok(out)
}

/// The holder named by an answer: trimmed, none if blank.
pub open spec fn answer_holder(data: Option<RipeOverviewData>) -> Option<Seq<char>> {
    match data {
        Some(d) => match d.holder {
            Some(h) => if trim(h@).len() > 0 {
                Some(trim(h@))
            } else {
                None
            },
            None => None,
        },
        None => None,
    }
}

/// The holder of an ASN from an answer whose status is `ok`; otherwise the
/// answer's first message, or a fixed one.
pub fn provider_from_response(body: RipeOverviewResponse) -> (r: Result<Option<String>, String>)
    ensures
        status_ok(body.status) ==> (r matches Ok(h) && opt_text(h) == answer_holder(body.data)),
        !status_ok(body.status) ==> (r matches Err(m) && m@ == (match first_message(body.messages) {
            Some(t) => t,
            None => "RIPE AS overview status is not ok"@,
        })),
{
    if !is_ok_status(&body.status) {
        return match first_message_text(&body.messages) {
            Some(m) => Err(m),
            None => Err(owned("RIPE AS overview status is not ok")),
        };
    }
    match &body.data {
        Some(d) => match &d.holder {
            Some(h) => {
                let t = trim_string(h.as_str());
                if t.as_str().is_empty() {
                    Ok(None)
                } else {
                    Ok(Some(t))
                }
            },
            None => Ok(None),
        },
        None => Ok(None),
    }
}

// ---------------------------------------------------------------------------
// Requests
// ---------------------------------------------------------------------------

pub open spec fn prefixes_url(asn: Seq<char>) -> Seq<char> {
    "https://stat.ripe.net/data/announced-prefixes/data.json?resource="@ + asn
}

/// The URL of the announced prefixes of `asn`.
pub fn announced_prefixes_url(asn: &str) -> (r: String)
    ensures
        r@ == prefixes_url(asn@),
{
    let mut r = owned("https://stat.ripe.net/data/announced-prefixes/data.json?resource=");
    push_str(&mut r, asn);
    r
}

pub open spec fn overview_url(asn: Seq<char>) -> Seq<char> {
    "https://stat.ripe.net/data/as-overview/data.json?resource="@ + asn
}

/// The URL of the overview of `asn`.
pub fn as_overview_url(asn: &str) -> (r: String)
    ensures
        r@ == overview_url(asn@),
{
    let mut r = owned("https://stat.ripe.net/data/as-overview/data.json?resource=");
    push_str(&mut r, asn);
    r
}

/// Whether `s` holds `pat` somewhere.
pub open spec fn contains_seq(s: Seq<char>, pat: Seq<char>) -> bool {
    exists|k: int| 0 <= k && k + pat.len() <= s.len() && #[trigger] s.subrange(k, k + pat.len()) == pat
}

fn contains_scheme_mark(v: &Vec<char>) -> (r: bool)
    ensures
        r == contains_seq(v@, seq![':', '/', '/']),
{
    let ghost pat = seq![':', '/', '/'];
    if v.len() < 3 {
        return false;
    }
    let mut k: usize = 0;
    while k < v.len() - 2
        invariant
            v.len() >= 3,
            pat == seq![':', '/', '/'],
            k <= v.len() - 2,
            forall|j: int| 0 <= j < k ==> #[trigger] v@.subrange(j, j + 3) != pat,
        decreases v.len() - k,
    {
        let ghost w = v@.subrange(k as int, k + 3);
        assert(w[0] == v@[k as int] && w[1] == v@[k + 1] && w[2] == v@[k + 2]);
        if v[k] == ':' && v[k + 1] == '/' && v[k + 2] == '/' {
            assert(w =~= pat);
            assert(contains_seq(v@, pat));
            return true;
        }
        k += 1;
    }
    false
}

/// A proxy address as a URL: trimmed; kept as it is when it has a scheme,
/// else prefixed with `socks5h://` for a SOCKS5 proxy and `http://` otherwise.
pub open spec fn spec_normalize_proxy_url(proxy_type: Seq<char>, value: Seq<char>) -> Seq<char> {
    let v = trim(value);
    if contains_seq(v, seq![':', '/', '/']) {
        v
    } else if proxy_type == "socks5"@ {
        "socks5h://"@ + v
    } else {
        "http://"@ + v
    }
}

/// A proxy address as a URL.
pub fn normalize_proxy_url(proxy_type: &str, value: &str) -> (r: String)
    ensures
        r@ == spec_normalize_proxy_url(proxy_type@, value@),
{
    let v = trim_string(value);
    let vc = chars_of(v.as_str());
    if contains_scheme_mark(&vc) {
        return v;
    }
    let mut r = if str_eq(proxy_type, "socks5") {
        owned("socks5h://")
    } else {
        owned("http://")
    };
    push_str(&mut r, v.as_str());
    r
}

/// The proxy that HTTP requests go through: the configured URL, normalized,
/// when a proxy is enabled and configured.
pub open spec fn spec_proxy_url(config: Config) -> Option<Seq<char>> {
    if config.proxy_enabled {
        match config.proxy_url {
            Some(u) => Some(spec_normalize_proxy_url(config.proxy_type@, u@)),
            None => None,
        }
    } else {
        None
    }
}

/// The proxy that HTTP requests go through.
pub fn proxy_url_for(config: &Config) -> (r: Option<String>)
    ensures
        opt_text(r) == spec_proxy_url(*config),
{
    if config.proxy_enabled {
        match &config.proxy_url {
            Some(u) => Some(normalize_proxy_url(config.proxy_type.as_str(), u.as_str())),
            None => None,
        }
    } else {
        None
    }
}

// ---------------------------------------------------------------------------
// Import URLs
// ---------------------------------------------------------------------------

/// What `url::Url::parse` gives for `input`: the URL's scheme, or the text
/// of the parse error.
pub uninterp spec fn url_parse_outcome(input: Seq<char>) -> Result<Seq<char>, Seq<char>>;

/// Parses a URL with `url::Url::parse` (through `reqwest::Url`) and gives its
/// scheme, or the text of the parse error. The contract only names the
/// outcome as a function of the input; what the URL grammar accepts is the
/// outside crate's.
#[verifier::external_body]
fn parse_url_scheme(input: &str) -> (r: Result<String, String>)
    ensures
        match r {
            Ok(s) => url_parse_outcome(input@) == Ok::<Seq<char>, Seq<char>>(s@),
            Err(e) => url_parse_outcome(input@) == Err::<Seq<char>, Seq<char>>(e@),
        },
{
    match reqwest::Url::parse(input) {
        Ok(u) => Ok(u.scheme().to_string()),
        Err(e) => Err(e.to_string()),
    }
}

/// Why an import URL or its answer was refused.
pub enum ImportUrlError {
    /// The URL does not parse; the parser's message.
    Invalid(String),
    /// The URL's scheme is neither `http` nor `https`.
    NotHttp,
    /// The answer is larger than allowed.
    TooLarge,
}

impl ImportUrlError {
    /// The message shown for the error.
    pub fn message(&self) -> (r: String)
        ensures
            r@ == match self {
                ImportUrlError::Invalid(d) => "invalid import URL: "@ + d@,
                ImportUrlError::NotHttp => "import URL must use HTTP or HTTPS"@,
                ImportUrlError::TooLarge => "ASN import response is too large; maximum is "@ + crate::text::dec(
                    crate::constants::MAX_IMPORT_BYTES as nat,
                ) + " bytes"@,
            },
    {
        match self {
            ImportUrlError::Invalid(d) => {
                let mut r = owned("invalid import URL: ");
                push_str(&mut r, d.as_str());
                r
            },
            ImportUrlError::NotHttp => owned("import URL must use HTTP or HTTPS"),
            ImportUrlError::TooLarge => {
                let mut r = owned("ASN import response is too large; maximum is ");
                push_decimal(&mut r, crate::constants::MAX_IMPORT_BYTES);
                push_str(&mut r, " bytes");
                r
            },
        }
    }
}

/// The check that an import URL gets once parsed: its scheme must be `http`
/// or `https`.
pub fn check_scheme(scheme: &str) -> (r: Result<(), ImportUrlError>)
    ensures
        r is Ok <==> (scheme@ == "http"@ || scheme@ == "https"@),
        r matches Err(e) ==> e is NotHttp,
{
    if str_eq(scheme, "http") || str_eq(scheme, "https") {
        Ok(())
    } else {
        Err(ImportUrlError::NotHttp)
    }
}

/// Checks an import URL: it must parse, and use HTTP or HTTPS.
pub fn check_import_url(url: &str) -> (r: Result<(), ImportUrlError>)
    ensures
        match url_parse_outcome(url@) {
            Err(detail) => r matches Err(ImportUrlError::Invalid(d)) && d@ == detail,
            Ok(s) => (r is Ok <==> (s == "http"@ || s == "https"@)) && (r matches Err(e) ==> e is NotHttp),
        },
{
    match parse_url_scheme(url) {
        Err(detail) => Err(ImportUrlError::Invalid(detail)),
        Ok(scheme) => check_scheme(scheme.as_str()),
    }
}

/// Checks the size of an import answer, in bytes.
pub fn check_import_size(byte_len: u64) -> (r: Result<(), ImportUrlError>)
    ensures
        r is Ok <==> byte_len <= crate::constants::MAX_IMPORT_BYTES,
        r matches Err(e) ==> e is TooLarge,
{
    if byte_len > crate::constants::MAX_IMPORT_BYTES {
        Err(ImportUrlError::TooLarge)
    } else {
        Ok(())
    }
}

} // verus!
