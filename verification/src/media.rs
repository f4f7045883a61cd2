//! Media (images, audio) that layers show: content embedded in the document
//! as a base64 `data:` URI, and what an HTTP response's `Content-Length`
//! header says of the content to fetch otherwise.
use vstd::prelude::*;
use vstd::string::StrSliceExecFns;

verus! {

/// What the media loader reads of an image or audio asset.
pub struct MediaAsset {
    pub filename: String,
    pub width: Option<u32>,
    pub height: Option<u32>,
}

/// Loaded media: its bytes and its size (0 where the asset gives none).
#[derive(Debug)]
pub struct Media {
    pub content: Vec<u8>,
    pub width: u32,
    pub height: u32,
}

/// Why media could not be loaded.
#[derive(Debug, PartialEq, Eq)]
pub enum MediaError {
    /// The embedded content is not valid base64.
    Base64Decode,
    /// The response for this URL has no `Content-Length` header.
    NetworkMissingContentLength(String),
    /// The `Content-Length` header of the response for this URL is not a
    /// number.
    NetworkMalformedContentLength(String),
    /// The location of the media is not a URL.
    Url,
}

/// What `base64`'s standard engine (standard alphabet, with padding) decodes
/// the text `s` to; `None` where it refuses it.
pub uninterp spec fn base64_standard_decode(s: Seq<char>) -> Option<Seq<u8>>;

/// `base64::engine::general_purpose::STANDARD.decode` on the bytes of `s`.
/// Its result is a function of `s` alone; what it is is not stated here.
#[verifier::external_body]
fn base64_decode(s: &str) -> (r: Option<Vec<u8>>)
    ensures
        match r {
            Some(v) => base64_standard_decode(s@) == Some(v@),
            None => base64_standard_decode(s@) is None,
        },
{
    match base64::Engine::decode(&base64::engine::general_purpose::STANDARD, s) {
        Ok(v) => Some(v),
        Err(_) => None,
    }
}

/// A file name that starts with `data:` holds its content inline.
pub open spec fn is_data_uri(s: Seq<char>) -> bool {
    s.len() >= 5 && s[0] == 'd' && s[1] == 'a' && s[2] == 't' && s[3] == 'a' && s[4] == ':'
}

/// The position of the first `,` at or after `k`, if any.
pub open spec fn first_comma(s: Seq<char>, k: int) -> Option<int>
    decreases s.len() - k,
{
    if k < 0 || k >= s.len() {
        None
    } else if s[k] == ',' {
        Some(k)
    } else {
        first_comma(s, k + 1)
    }
}

/// The payload of a `data:` URI: everything after its first `,` (empty
/// where it has none).
pub open spec fn payload_of(s: Seq<char>) -> Seq<char> {
    match first_comma(s, 0) {
        Some(i) => s.subrange(i + 1, s.len() as int),
        None => Seq::empty(),
    }
}

/// The content that a file name holds inline: `None` for a file name that is
/// not a `data:` URI; else its decoded payload, or `Base64Decode` where the
/// payload is not base64.
pub open spec fn embedded_content_of(s: Seq<char>) -> Option<Result<Seq<u8>, MediaError>> {
    if !is_data_uri(s) {
        None
    } else {
        match base64_standard_decode(payload_of(s)) {
            Some(bytes) => Some(Ok(bytes)),
            None => Some(Err(MediaError::Base64Decode)),
        }
    }
}

/// Everything after the first `,` of `s`; empty where it has none.
fn after_first_comma(s: &str) -> (r: &str)
    ensures
        r@ == payload_of(s@),
{
    let n = s.unicode_len();
    let mut i: usize = 0;
    while i < n
        invariant
            n == s@.len(),
            i <= n,
            first_comma(s@, i as int) == first_comma(s@, 0),
        ensures
            i <= n,
            first_comma(s@, 0) == if i < n {
                Some(i as int)
            } else {
                None::<int>
            },
        decreases n - i,
    {
        if s.get_char(i) == ',' {
            break;
        }
        i = i + 1;
    }
    if i < n {
        s.substring_char(i + 1, n)
    } else {
        let empty = "";
        proof {
            reveal_strlit("");
            assert(empty@ =~= Seq::<char>::empty());
        }
        empty
    }
}

/// The payload of a media file name that is a `data:` URI; `None` for any
/// other file name.
pub fn data_uri_payload(filename: &str) -> (r: Option<&str>)
    ensures
        r is None <==> !is_data_uri(filename@),
        r matches Some(p) ==> p@ == payload_of(filename@),
{
    let n = filename.unicode_len();
    if n < 5 || filename.get_char(0) != 'd' || filename.get_char(1) != 'a' || filename.get_char(2)
        != 't' || filename.get_char(3) != 'a' || filename.get_char(4) != ':' {
        return None;
    }
    Some(after_first_comma(filename))
}

/// The embedded content, given what decoding its payload gave: the bytes, or
/// `Base64Decode` where decoding failed.
pub fn decoded_content(decoded: Option<Vec<u8>>) -> (r: Result<Vec<u8>, MediaError>)
    ensures
        match decoded {
            Some(v) => r matches Ok(w) && w@ == v@,
            None => r matches Err(MediaError::Base64Decode),
        },
{
    match decoded {
        Some(v) => Ok(v),
        None => Err(MediaError::Base64Decode),
    }
}

/// The content that a media file name holds inline, decoded.
pub fn embedded_content(filename: &str) -> (r: Option<Result<Vec<u8>, MediaError>>)
    ensures
        match r {
            None => embedded_content_of(filename@) is None,
            Some(Ok(v)) => embedded_content_of(filename@) == Some(
                Ok::<Seq<u8>, MediaError>(v@),
            ),
            Some(Err(e)) => embedded_content_of(filename@) == Some(Err::<Seq<u8>, MediaError>(e)),
        },
{
    match data_uri_payload(filename) {
        None => None,
        Some(payload) => Some(decoded_content(base64_decode(payload))),
    }
}

/// A URL as the media loader reads it: its text, its scheme, its path and
/// whether it has a host.
#[derive(Debug)]
pub struct MediaUrl {
    pub text: String,
    pub scheme: String,
    pub path: String,
    pub has_host: bool,
}

impl View for MediaUrl {
    type V = (Seq<char>, Seq<char>, Seq<char>, bool);

    open spec fn view(&self) -> Self::V {
        (self.text@, self.scheme@, self.path@, self.has_host)
    }
}

/// Why a text is not a URL: it is a relative URL and there is no base to
/// resolve it against, or it is malformed in another way.
#[derive(Debug, Clone, Copy, PartialEq, Eq, Structural)]
pub enum UrlRefusal {
    RelativeWithoutBase,
    Malformed,
}

/// A parsed URL, or the refusal, as plain values: the refusal is `true`
/// where the text is a relative URL without a base.
pub open spec fn url_outcome(
    r: Result<MediaUrl, UrlRefusal>,
) -> Result<(Seq<char>, Seq<char>, Seq<char>, bool), bool> {
    match r {
        Ok(u) => Ok(u@),
        Err(e) => Err(e == UrlRefusal::RelativeWithoutBase),
    }
}

/// What `url::Url::parse` reads from a text.
pub uninterp spec fn url_parse(s: Seq<char>) -> Result<(Seq<char>, Seq<char>, Seq<char>, bool), bool>;

/// What `url::Url::join` gives for `input` against the URL that
/// `url::Url::parse` reads from `base` (the refusal of either).
pub uninterp spec fn url_join(base: Seq<char>, input: Seq<char>) -> Result<
    (Seq<char>, Seq<char>, Seq<char>, bool),
    bool,
>;

/// What `url::Url::set_host` makes of the URL that `url::Url::parse` reads
/// from `url` (the refusal of either).
pub uninterp spec fn url_set_host(url: Seq<char>, host: Option<Seq<char>>) -> Result<
    (Seq<char>, Seq<char>, Seq<char>, bool),
    bool,
>;

/// `url::Url::parse`. Its result is a function of the text alone; what it
/// is, the URL standard that the crate follows says, and it is not stated
/// here.
#[verifier::external_body]
fn parse_url(s: &str) -> (r: Result<MediaUrl, UrlRefusal>)
    ensures
        url_outcome(r) == url_parse(s@),
{
    match url::Url::parse(s) {
        Ok(u) => Ok(MediaUrl { text: u.as_str().to_string(), scheme: u.scheme().to_string(), path: u.path().to_string(), has_host: u.has_host() }),
        Err(url::ParseError::RelativeUrlWithoutBase) => Err(UrlRefusal::RelativeWithoutBase),
        Err(_) => Err(UrlRefusal::Malformed),
    }
}

/// `url::Url::join` of `input` on the URL parsed from `base`. Its result is
/// a function of the two texts alone; what it is is not stated here.
#[verifier::external_body]
fn join_url(base: &str, input: &str) -> (r: Result<MediaUrl, UrlRefusal>)
    ensures
        url_outcome(r) == url_join(base@, input@),
{
    let joined = match url::Url::parse(base) {
        Ok(b) => b.join(input),
        Err(e) => Err(e),
    };
    match joined {
        Ok(u) => Ok(MediaUrl { text: u.as_str().to_string(), scheme: u.scheme().to_string(), path: u.path().to_string(), has_host: u.has_host() }),
        Err(url::ParseError::RelativeUrlWithoutBase) => Err(UrlRefusal::RelativeWithoutBase),
        Err(_) => Err(UrlRefusal::Malformed),
    }
}

/// `url::Url::set_host` on the URL parsed from `url`. Its result is a
/// function of its arguments alone; what it is is not stated here.
#[verifier::external_body]
fn set_url_host(url: &str, host: Option<&str>) -> (r: Result<MediaUrl, UrlRefusal>)
    ensures
        url_outcome(r) == url_set_host(url@, text_option(host)),
{
    let changed = match url::Url::parse(url) {
        Ok(mut u) => match u.set_host(host) { Ok(()) => Ok(u), Err(e) => Err(e) },
        Err(e) => Err(e),
    };
    match changed {
        Ok(u) => Ok(MediaUrl { text: u.as_str().to_string(), scheme: u.scheme().to_string(), path: u.path().to_string(), has_host: u.has_host() }),
        Err(url::ParseError::RelativeUrlWithoutBase) => Err(UrlRefusal::RelativeWithoutBase),
        Err(_) => Err(UrlRefusal::Malformed),
    }
}

/// An optional text as a plain value.
pub open spec fn text_option(h: Option<&str>) -> Option<Seq<char>> {
    match h {
        Some(t) => Some(t@),
        None => None,
    }
}

/// A URL outcome as the media loader reports it: a refused URL is a `Url`
/// error.
pub open spec fn as_media_url(
    r: Result<(Seq<char>, Seq<char>, Seq<char>, bool), bool>,
) -> Result<(Seq<char>, Seq<char>, Seq<char>, bool), MediaError> {
    match r {
        Ok(v) => Ok(v),
        Err(_) => Err(MediaError::Url),
    }
}

pub open spec fn media_url_outcome(r: Result<MediaUrl, MediaError>) -> Result<
    (Seq<char>, Seq<char>, Seq<char>, bool),
    MediaError,
> {
    match r {
        Ok(u) => Ok(u@),
        Err(e) => Err(e),
    }
}

fn to_media_url(r: Result<MediaUrl, UrlRefusal>) -> (m: Result<MediaUrl, MediaError>)
    ensures
        media_url_outcome(m) == as_media_url(url_outcome(r)),
{
    match r {
        Ok(u) => Ok(u),
        Err(_) => Err(MediaError::Url),
    }
}

/// Where the media of an asset is: its file name resolved against the
/// asset's directory where that is a URL, else the file name as a URL.
pub open spec fn media_location_of(pwd: Seq<char>, filename: Seq<char>) -> Result<
    (Seq<char>, Seq<char>, Seq<char>, bool),
    MediaError,
> {
    as_media_url(
        match url_parse(pwd) {
            Ok(_) => url_join(pwd, filename),
            Err(_) => url_parse(filename),
        },
    )
}

/// The URL of the media of an asset with directory `pwd` and file name
/// `filename`.
pub fn media_location(pwd: &str, filename: &str) -> (r: Result<MediaUrl, MediaError>)
    ensures
        media_url_outcome(r) == media_location_of(pwd@, filename@),
{
    let resolved = match parse_url(pwd) {
        Ok(_) => join_url(pwd, filename),
        Err(_) => parse_url(filename),
    };
    to_media_url(resolved)
}

/// Whether a scheme is `data`.
fn is_data_scheme(s: &str) -> (b: bool)
    ensures
        b == (s@ == "data"@),
{
    proof {
        reveal_strlit("data");
    }
    let n = s.unicode_len();
    if n == 4 && s.get_char(0) == 'd' && s.get_char(1) == 'a' && s.get_char(2) == 't'
        && s.get_char(3) == 'a' {
        assert(s@ =~= "data"@);
        true
    } else {
        false
    }
}

/// The content that a URL holds inline: `None` unless its scheme is `data`;
/// else the decoded part of its path after the first `,`, or `Base64Decode`.
pub open spec fn url_content_of(u: (Seq<char>, Seq<char>, Seq<char>, bool)) -> Option<
    Result<Seq<u8>, MediaError>,
> {
    if u.1 != "data"@ {
        None
    } else {
        match base64_standard_decode(payload_of(u.2)) {
            Some(bytes) => Some(Ok(bytes)),
            None => Some(Err(MediaError::Base64Decode)),
        }
    }
}

/// The content that a `data` URL holds, decoded; `None` for a URL of
/// another scheme.
pub fn url_content(url: &MediaUrl) -> (r: Option<Result<Vec<u8>, MediaError>>)
    ensures
        match r {
            None => url_content_of(url@) is None,
            Some(Ok(v)) => url_content_of(url@) == Some(Ok::<Seq<u8>, MediaError>(v@)),
            Some(Err(e)) => url_content_of(url@) == Some(Err::<Seq<u8>, MediaError>(e)),
        },
{
    if !is_data_scheme(url.scheme.as_str()) {
        return None;
    }
    let payload = after_first_comma(url.path.as_str());
    Some(decoded_content(base64_decode(payload)))
}

/// The URL to fetch media from that is not on disk: a remote URL keeps its
/// host, one without a host gets the given host.
pub open spec fn remote_url_of(u: (Seq<char>, Seq<char>, Seq<char>, bool), host: Option<Seq<char>>) -> Result<
    (Seq<char>, Seq<char>, Seq<char>, bool),
    MediaError,
> {
    if u.3 {
        Ok(u)
    } else {
        as_media_url(url_set_host(u.0, host))
    }
}

/// The URL to fetch media from, given its location and the host of the
/// document.
pub fn remote_url(url: MediaUrl, host: Option<&str>) -> (r: Result<MediaUrl, MediaError>)
    ensures
        media_url_outcome(r) == remote_url_of(url@, text_option(host)),
{
    if url.has_host {
        Ok(url)
    } else {
        to_media_url(set_url_host(url.text.as_str(), host))
    }
}

/// The URL to fetch media from whose path is not on disk: the path read as
/// a URL; where it has no host (or is relative) and a host is given, the
/// path resolved against the host.
pub open spec fn network_url_of(path: Seq<char>, host: Option<Seq<char>>) -> Result<
    (Seq<char>, Seq<char>, Seq<char>, bool),
    MediaError,
> {
    let parsed = url_parse(path);
    let no_host = match parsed {
        Ok(u) => !u.3,
        Err(relative) => relative,
    };
    as_media_url(
        if no_host && host is Some {
            url_join(host->0, path)
        } else {
            parsed
        },
    )
}

/// The URL to fetch the media at `path` from, given the host of the
/// document.
pub fn network_url(path: &str, host: Option<&str>) -> (r: Result<MediaUrl, MediaError>)
    ensures
        media_url_outcome(r) == network_url_of(path@, text_option(host)),
{
    let parsed = parse_url(path);
    let no_host = match &parsed {
        Ok(u) => !u.has_host,
        Err(e) => *e == UrlRefusal::RelativeWithoutBase,
    };
    let chosen = if no_host {
        match host {
            Some(h) => join_url(h, path),
            None => parsed,
        }
    } else {
        parsed
    };
    to_media_url(chosen)
}

impl Media {
    /// Media with the given content and the size that the asset gives (0
    /// where it gives none).
    pub fn new(asset: &MediaAsset, content: Vec<u8>) -> (m: Media)
        ensures
            m.content@ == content@,
            m.width == match asset.width {
                Some(w) => w,
                None => 0,
            },
            m.height == match asset.height {
                Some(h) => h,
                None => 0,
            },
    {
        let width = match asset.width {
            Some(w) => w,
            None => 0,
        };
        let height = match asset.height {
            Some(h) => h,
            None => 0,
        };
        Media { content, width, height }
    }
}

/// The value of a decimal numeral.
pub open spec fn decimal_value(s: Seq<char>) -> int
    decreases s.len(),
{
    if s.len() == 0 {
        0
    } else {
        decimal_value(s.drop_last()) * 10 + (s.last() as int - '0' as int)
    }
}

pub open spec fn all_decimal_digits(s: Seq<char>) -> bool {
    forall|i: int| 0 <= i < s.len() ==> '0' <= #[trigger] s[i] <= '9'
}

/// The number that `s` writes in decimal, as `str::parse::<usize>` reads
/// it: an optional `+`, then at least one digit and nothing else, within
/// `usize`.
pub open spec fn parse_usize(s: Seq<char>) -> Option<usize> {
    let digits = if s.len() > 0 && s[0] == '+' {
        s.subrange(1, s.len() as int)
    } else {
        s
    };
    if digits.len() > 0 && all_decimal_digits(digits) && decimal_value(digits) <= usize::MAX {
        Some(decimal_value(digits) as usize)
    } else {
        None
    }
}

proof fn lemma_decimal_nonneg(d: Seq<char>)
    requires
        all_decimal_digits(d),
    ensures
        decimal_value(d) >= 0,
    decreases d.len(),
{
    if d.len() > 0 {
        let e = d.drop_last();
        assert(all_decimal_digits(e)) by {
            assert forall|i: int| 0 <= i < e.len() implies '0' <= #[trigger] e[i] <= '9' by {
                assert(e[i] == d[i]);
            }
        }
        lemma_decimal_nonneg(e);
        assert('0' <= d[d.len() - 1] <= '9');
    }
}

/// A prefix of a decimal numeral writes no more than the whole numeral.
proof fn lemma_decimal_prefix(d: Seq<char>, j: int)
    requires
        all_decimal_digits(d),
        0 <= j <= d.len(),
    ensures
        decimal_value(d.subrange(0, j)) <= decimal_value(d),
    decreases d.len() - j,
{
    if j < d.len() {
        let e = d.drop_last();
        assert(all_decimal_digits(e)) by {
            assert forall|i: int| 0 <= i < e.len() implies '0' <= #[trigger] e[i] <= '9' by {
                assert(e[i] == d[i]);
            }
        }
        lemma_decimal_prefix(e, j);
        lemma_decimal_nonneg(e);
        assert(e.subrange(0, j) =~= d.subrange(0, j));
        assert('0' <= d[d.len() - 1] <= '9');
    } else {
        assert(d.subrange(0, j) =~= d);
    }
}

/// Reads `s` as `str::parse::<usize>` does (its documentation gives
/// `from_str_radix`): an optional `+` sign followed by decimal digits only,
/// whose value must fit.
fn parse_usize_exec(s: &str) -> (r: Option<usize>)
    ensures
        r == parse_usize(s@),
{
    let ghost t = s@;
    let n = s.unicode_len();
    let start: usize = if n > 0 && s.get_char(0) == '+' {
        1
    } else {
        0
    };
    let ghost digits = t.subrange(start as int, n as int);
    assert(digits =~= (if t.len() > 0 && t[0] == '+' {
        t.subrange(1, t.len() as int)
    } else {
        t
    }));
    if start >= n {
        return None;
    }
    let mut v: usize = 0;
    let mut i: usize = start;
    while i < n
        invariant
            t == s@,
            n == t.len(),
            start <= i <= n,
            digits == t.subrange(start as int, n as int),
            digits == (if t.len() > 0 && t[0] == '+' {
                t.subrange(1, t.len() as int)
            } else {
                t
            }),
            digits.len() > 0,
            all_decimal_digits(t.subrange(start as int, i as int)),
            v as int == decimal_value(t.subrange(start as int, i as int)),
        decreases n - i,
    {
        let c = s.get_char(i);
        let ghost k = i - start;
        assert(digits[k] == c);
        if c < '0' || c > '9' {
            assert(!all_decimal_digits(digits));
            return None;
        }
        let ghost next = t.subrange(start as int, i + 1);
        assert(next.drop_last() =~= t.subrange(start as int, i as int));
        assert(next.last() == c);
        assert(all_decimal_digits(next)) by {
            assert forall|j: int| 0 <= j < next.len() implies '0' <= #[trigger] next[j] <= '9' by {
                if j < next.len() - 1 {
                    assert(next[j] == t.subrange(start as int, i as int)[j]);
                }
            }
        }
        let d = (c as u32 - '0' as u32) as usize;
        assert(decimal_value(next) == v * 10 + d);
        let grown = match v.checked_mul(10) {
            Some(w) => w.checked_add(d),
            None => None,
        };
        match grown {
            Some(w) => {
                v = w;
            },
            None => {
                proof {
                    assert(decimal_value(next) > usize::MAX);
                    if all_decimal_digits(digits) {
                        assert(digits.subrange(0, k + 1) =~= next);
                        lemma_decimal_prefix(digits, k + 1);
                    }
                }
                return None;
            },
        }
        i = i + 1;
    }
    assert(t.subrange(start as int, n as int) == digits);
    Some(v)
}

/// The length a response announces for the media at `url`: the value of its
/// `Content-Length` header.
pub fn content_length(header: Option<&str>, url: &str) -> (r: Result<usize, MediaError>)
    ensures
        match header {
            None => r matches Err(MediaError::NetworkMissingContentLength(u)) && u@ == url@,
            Some(h) => match parse_usize(h@) {
                Some(n) => r == Ok::<usize, MediaError>(n),
                None => r matches Err(MediaError::NetworkMalformedContentLength(u)) && u@ == url@,
            },
        },
{
    match header {
        None => Err(MediaError::NetworkMissingContentLength(url.to_owned())),
        Some(h) => match parse_usize_exec(h) {
            Some(n) => Ok(n),
            None => Err(MediaError::NetworkMalformedContentLength(url.to_owned())),
        },
    }
}

} // verus!
