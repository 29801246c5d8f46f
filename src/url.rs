//! Recognising the two shapes of map link that name a place: a place link
//! that carries a feature id, whose second half is the place's numeric id,
//! and a search link that carries a latitude and a longitude.
use vstd::prelude::*;

verus! {

/// The place-data token of a place link.
pub const PLACE_TOKEN_PATTERN: &'static str = "!1s([^!]+)";

/// A feature id, two hexadecimal halves; the group is the second half.
pub const FEATURE_ID_PATTERN: &'static str = "^0x[0-9A-Fa-f]+:(0x[0-9A-Fa-f]+)$";

/// The latitude and longitude of a search link.
pub const SEARCH_PATTERN: &'static str = "/search/([-0-9.]+),([-0-9.]+)";

/// Group `k` of the leftmost match of the regular expression `pattern` in
/// `text`; none when the pattern does not compile, does not match, or the
/// group took no part in the match.
pub uninterp spec fn regex_group(pattern: Seq<char>, text: Seq<char>, k: nat) -> Option<Seq<char>>;

/// Relies on regex's `Regex::new` and `Regex::captures` with `Captures::get`:
/// the text of group `k` of the leftmost match.
#[verifier::external_body]
fn capture_group(pattern: &str, text: &str, k: usize) -> (r: Option<String>)
    ensures
        r is Some <==> regex_group(pattern@, text@, k as nat) is Some,
        r is Some ==> r->Some_0@ == regex_group(pattern@, text@, k as nat)->Some_0,
{
    let re = match regex::Regex::new(pattern) {
        Ok(re) => re,
        Err(_) => return None,
    };
    let caps = re.captures(text)?;
    match caps.get(k) {
        Some(m) => Some(m.as_str().to_string()),
        None => None,
    }
}

/// Where a link points.
#[derive(Debug, PartialEq, Eq)]
pub enum PlaceRef {
    /// A place known by its numeric id, written as the hexadecimal text of
    /// the feature id's second half.
    Cid(String),
    /// A latitude and a longitude, as the decimal text of the link.
    Coordinates(String, String),
}

/// Why a link names no place.
#[derive(Debug, PartialEq, Eq)]
pub enum UrlError {
    /// A place link whose token is not a feature id; holds the token.
    InvalidFtid(String),
    /// Neither a place link nor a search link.
    Unrecognized,
}

/// Reads the place that a map link names. A place link wins over a search
/// link.
pub fn classify_url(url: &str) -> (r: Result<PlaceRef, UrlError>)
    ensures
        ({
            let token = regex_group(PLACE_TOKEN_PATTERN@, url@, 1);
            let lat = regex_group(SEARCH_PATTERN@, url@, 1);
            let lng = regex_group(SEARCH_PATTERN@, url@, 2);
            if token is Some {
                let cid = regex_group(FEATURE_ID_PATTERN@, token->Some_0, 1);
                if cid is Some {
                    r is Ok && r->Ok_0 is Cid && r->Ok_0->Cid_0@ == cid->Some_0
                } else {
                    r is Err && r->Err_0 is InvalidFtid && r->Err_0->InvalidFtid_0@
                        == token->Some_0
                }
            } else if lat is Some && lng is Some {
                r is Ok && r->Ok_0 is Coordinates && r->Ok_0->Coordinates_0@ == lat->Some_0
                    && r->Ok_0->Coordinates_1@ == lng->Some_0
            } else {
                r == Err::<PlaceRef, UrlError>(UrlError::Unrecognized)
            }
        }),
{
    match capture_group(PLACE_TOKEN_PATTERN, url, 1) {
        Some(token) => match capture_group(FEATURE_ID_PATTERN, token.as_str(), 1) {
            Some(cid) => Ok(PlaceRef::Cid(cid)),
            None => Err(UrlError::InvalidFtid(token)),
        },
        None => {
            let lat = capture_group(SEARCH_PATTERN, url, 1);
            let lng = capture_group(SEARCH_PATTERN, url, 2);
            match (lat, lng) {
                (Some(a), Some(b)) => Ok(PlaceRef::Coordinates(a, b)),
                _ => Err(UrlError::Unrecognized),
            }
        },
    }
}

} // verus!
