use vstd::prelude::*;
use crate::keywords::{kw_script, kw_image, kw_stylesheet, kw_xmlhttprequest, kw_document,
    kw_subdocument, kw_font, kw_media, kw_websocket, kw_other, is_kw_script, is_kw_image,
    is_kw_stylesheet, is_kw_xmlhttprequest, is_kw_document, is_kw_subdocument, is_kw_font,
    is_kw_media, is_kw_websocket, is_kw_other};
use crate::url::{host_bounds, host_of, url_ok, find_host_bounds, registrable, registrable_start_x};
use crate::bytes_util::subvec;

verus! {

/// Resource-type codes.
pub const TYPE_SCRIPT: u8 = 0;

pub const TYPE_IMAGE: u8 = 1;

pub const TYPE_STYLESHEET: u8 = 2;

pub const TYPE_XMLHTTPREQUEST: u8 = 3;

pub const TYPE_DOCUMENT: u8 = 4;

pub const TYPE_SUBDOCUMENT: u8 = 5;

pub const TYPE_FONT: u8 = 6;

pub const TYPE_MEDIA: u8 = 7;

pub const TYPE_WEBSOCKET: u8 = 8;

pub const TYPE_OTHER: u8 = 9;

/// The code of a resource-type name, if the name is recognized.
pub open spec fn type_code_opt(t: Seq<u8>) -> Option<u8> {
    if t == kw_script() {
        Some(TYPE_SCRIPT)
    } else if t == kw_image() {
        Some(TYPE_IMAGE)
    } else if t == kw_stylesheet() {
        Some(TYPE_STYLESHEET)
    } else if t == kw_xmlhttprequest() {
        Some(TYPE_XMLHTTPREQUEST)
    } else if t == kw_document() {
        Some(TYPE_DOCUMENT)
    } else if t == kw_subdocument() {
        Some(TYPE_SUBDOCUMENT)
    } else if t == kw_font() {
        Some(TYPE_FONT)
    } else if t == kw_media() {
        Some(TYPE_MEDIA)
    } else if t == kw_websocket() {
        Some(TYPE_WEBSOCKET)
    } else if t == kw_other() {
        Some(TYPE_OTHER)
    } else {
        None
    }
}

/// The type of a request: a recognized name, anything else counting as other.
pub open spec fn type_code(t: Seq<u8>) -> u8 {
    match type_code_opt(t) {
        Option::Some(c) => c,
        Option::None => TYPE_OTHER,
    }
}

pub fn type_code_opt_x(t: &[u8]) -> (r: Option<u8>)
    ensures
        r == type_code_opt(t@),
{
    if is_kw_script(t) {
        Some(TYPE_SCRIPT)
    } else if is_kw_image(t) {
        Some(TYPE_IMAGE)
    } else if is_kw_stylesheet(t) {
        Some(TYPE_STYLESHEET)
    } else if is_kw_xmlhttprequest(t) {
        Some(TYPE_XMLHTTPREQUEST)
    } else if is_kw_document(t) {
        Some(TYPE_DOCUMENT)
    } else if is_kw_subdocument(t) {
        Some(TYPE_SUBDOCUMENT)
    } else if is_kw_font(t) {
        Some(TYPE_FONT)
    } else if is_kw_media(t) {
        Some(TYPE_MEDIA)
    } else if is_kw_websocket(t) {
        Some(TYPE_WEBSOCKET)
    } else if is_kw_other(t) {
        Some(TYPE_OTHER)
    } else {
        None
    }
}

/// The mathematical value of a request: URL bytes, hostname range, source
/// hostname if the source URL parsed, and resource-type code.
#[verifier::ext_equal]
pub struct RequestView {
    pub url: Seq<u8>,
    pub host_start: int,
    pub host_end: int,
    pub source_host: Option<Seq<u8>>,
    pub rtype: u8,
}

pub open spec fn req_host(q: RequestView) -> Seq<u8> {
    q.url.subrange(q.host_start, q.host_end)
}

/// Third-party-ness: unknown without a source; otherwise, whether the
/// registrable domains of the source and target hostnames differ.
pub open spec fn third_party_of(q: RequestView) -> Option<bool> {
    match q.source_host {
        Option::None => None,
        Option::Some(sh) => Some(registrable(req_host(q)) != registrable(sh)),
    }
}

/// The request a well-formed URL, a source URL (possibly empty or
/// unparseable, meaning no document context) and a type name describe.
pub open spec fn request_of(url: Seq<u8>, src: Seq<u8>, typ: Seq<u8>) -> RequestView {
    RequestView {
        url: url,
        host_start: host_bounds(url)->Some_0.0,
        host_end: host_bounds(url)->Some_0.1,
        source_host: if url_ok(src) {
            Some(host_of(src))
        } else {
            None
        },
        rtype: type_code(typ),
    }
}

/// Failure of a match query: the target URL is not a well-formed URL.
#[derive(Debug)]
pub enum MatchError {
    InvalidRequest,
}

pub struct Request {
    pub url: Vec<u8>,
    pub host_start: usize,
    pub host_end: usize,
    pub source_host: Option<Vec<u8>>,
    pub rtype: u8,
}

impl View for Request {
    type V = RequestView;

    open spec fn view(&self) -> RequestView {
        RequestView {
            url: self.url@,
            host_start: self.host_start as int,
            host_end: self.host_end as int,
            source_host: match self.source_host {
                Option::Some(v) => Some(v@),
                Option::None => None,
            },
            rtype: self.rtype,
        }
    }
}

impl Request {
    /// Valid requests have a host range inside the URL.
    pub open spec fn wf(&self) -> bool {
        self.host_start <= self.host_end <= self.url@.len()
    }

    /// Builds the request value for a query, rejecting a target URL that is
    /// not well formed; a source URL that does not parse means no context.
    pub fn build(url: &[u8], src: &[u8], typ: &[u8]) -> (r: Result<Request, MatchError>)
        ensures
            (r is Ok) == url_ok(url@),
            r matches Ok(q) ==> q@ == request_of(url@, src@, typ@) && q.wf(),
    {
        match find_host_bounds(url) {
            Option::None => Err(MatchError::InvalidRequest),
            Option::Some((hs, he)) => {
                let source_host = match find_host_bounds(src) {
                    Option::None => None,
                    Option::Some((shs, she)) => Some(subvec(src, shs, she)),
                };
                let rtype = match type_code_opt_x(typ) {
                    Option::Some(c) => c,
                    Option::None => TYPE_OTHER,
                };
                let q = Request { url: crate::bytes_util::subvec(url, 0, url.len()), host_start: hs, host_end: he, source_host, rtype };
                proof {
                    assert(url@.subrange(0, url@.len() as int) =~= url@);
                    assert(q@ =~= request_of(url@, src@, typ@));
                }
                Ok(q)
            },
        }
    }

    /// The registrable domain of the target hostname.
    pub fn target_registrable(&self) -> (r: Vec<u8>)
        requires
            self.wf(),
        ensures
            r@ == registrable(req_host(self@)),
    {
        let host = subvec(self.url.as_slice(), self.host_start, self.host_end);
        let rs = registrable_start_x(host.as_slice());
        subvec(host.as_slice(), rs, host.len())
    }
}

} // verus!
