//! HTTP/1.1 request and response heads, as the `httparse` crate reads them.
use httparse::Error as HttparseError;
use vstd::prelude::*;

verus! {

/// An error of the `httparse` crate, carried through opaquely.
#[verifier::external_type_specification]
#[verifier::external_body]
pub struct ExHttparseError(HttparseError);

/// The number of headers a request or response may carry.
pub const MAX_HEADERS: usize = 25;

/// The headers of a request or response: names and values, as bytes.
pub open spec fn headers_view(h: Seq<(Vec<u8>, Vec<u8>)>) -> Seq<(Seq<u8>, Seq<u8>)> {
    h.map_values(|p: (Vec<u8>, Vec<u8>)| (p.0@, p.1@))
}

/// The head of an HTTP/1.1 request.
pub struct RequestHead {
    /// The number of bytes the head takes, up to the start of the body.
    pub len: usize,
    /// The request method, such as `GET`.
    pub method: Option<String>,
    /// The request path, such as `/about-us`.
    pub path: Option<String>,
    /// The headers, in the order they came in.
    pub headers: Vec<(Vec<u8>, Vec<u8>)>,
}

/// What a [`RequestHead`] holds.
pub struct RequestHeadView {
    pub len: usize,
    pub method: Option<Seq<char>>,
    pub path: Option<Seq<char>>,
    pub headers: Seq<(Seq<u8>, Seq<u8>)>,
}

/// The view of an optional string.
pub open spec fn opt_str_view(s: Option<String>) -> Option<Seq<char>> {
    match s {
        Some(s) => Some(s@),
        None => None,
    }
}

impl View for RequestHead {
    type V = RequestHeadView;

    open spec fn view(&self) -> RequestHeadView {
        RequestHeadView {
            len: self.len,
            method: opt_str_view(self.method),
            path: opt_str_view(self.path),
            headers: headers_view(self.headers@),
        }
    }
}

/// The head of an HTTP/1.1 response.
pub struct ResponseHead {
    /// The number of bytes the head takes, up to the start of the body.
    pub len: usize,
    /// The status code, such as `101`.
    pub code: Option<u16>,
    /// The headers, in the order they came in.
    pub headers: Vec<(Vec<u8>, Vec<u8>)>,
}

/// What a [`ResponseHead`] holds.
pub struct ResponseHeadView {
    pub len: usize,
    pub code: Option<u16>,
    pub headers: Seq<(Seq<u8>, Seq<u8>)>,
}

impl View for ResponseHead {
    type V = ResponseHeadView;

    open spec fn view(&self) -> ResponseHeadView {
        ResponseHeadView { len: self.len, code: self.code, headers: headers_view(self.headers@) }
    }
}

/// What `httparse::Request::parse` makes of `src`, with room for
/// `max_headers` headers: an error, `None` when the head is incomplete, or
/// the parsed head.
pub uninterp spec fn httparse_request(src: Seq<u8>, max_headers: usize) -> Result<
    Option<RequestHeadView>,
    HttparseError,
>;

/// What `httparse::Response::parse` makes of `src`, with room for
/// `max_headers` headers: an error, `None` when the head is incomplete, or
/// the parsed head.
pub uninterp spec fn httparse_response(src: Seq<u8>, max_headers: usize) -> Result<
    Option<ResponseHeadView>,
    HttparseError,
>;

/// Parses an HTTP/1.1 request head with `httparse::Request::parse`.
///
/// The contract names the outcome; it also says that a complete head ends
/// within `src`, as the crate returns the offset of the body in `src`.
#[verifier::external_body]
pub(crate) fn parse_request(src: &[u8], max_headers: usize) -> (r: Result<Option<RequestHead>, HttparseError>)
    ensures
        httparse_request(src@, max_headers) == match r {
            Ok(Some(h)) => Ok(Some(h@)),
            Ok(None) => Ok(None),
            Err(e) => Err(e),
        },
        r matches Ok(Some(h)) ==> h.len <= src@.len(),
{
    let mut headers = vec![httparse::EMPTY_HEADER; max_headers];
    let mut req = httparse::Request::new(&mut headers);
    match req.parse(src)? {
        httparse::Status::Partial => Ok(None),
        httparse::Status::Complete(len) => Ok(Some(RequestHead {
            len,
            method: req.method.map(str::to_owned),
            path: req.path.map(str::to_owned),
            headers: req.headers.iter().map(|h| (h.name.as_bytes().to_vec(), h.value.to_vec())).collect(),
        })),
    }
}

/// Parses an HTTP/1.1 response head with `httparse::Response::parse`.
///
/// The contract names the outcome; it also says that a complete head ends
/// within `src` and carries a status code, as the crate returns the offset of
/// the body in `src` and sets the code before it reads the headers.
#[verifier::external_body]
pub(crate) fn parse_response(src: &[u8], max_headers: usize) -> (r: Result<Option<ResponseHead>, HttparseError>)
    ensures
        httparse_response(src@, max_headers) == match r {
            Ok(Some(h)) => Ok(Some(h@)),
            Ok(None) => Ok(None),
            Err(e) => Err(e),
        },
        r matches Ok(Some(h)) ==> h.len <= src@.len() && h.code is Some,
{
    let mut headers = vec![httparse::EMPTY_HEADER; max_headers];
    let mut resp = httparse::Response::new(&mut headers);
    match resp.parse(src)? {
        httparse::Status::Partial => Ok(None),
        httparse::Status::Complete(len) => Ok(Some(ResponseHead {
            len,
            code: resp.code,
            headers: resp.headers.iter().map(|h| (h.name.as_bytes().to_vec(), h.value.to_vec())).collect(),
        })),
    }
}

} // verus!
