//! Assembly of the HTTP response for a static-asset request: a hit becomes
//! a 200 with the payload's headers, a miss becomes a 404 — as the bundled
//! not-found page for HTML-preferring clients, as a small JSON body for
//! everyone else — and a HEAD request keeps the headers while dropping the
//! body.

use vstd::prelude::*;

use vstd::string::StringSliceAdditionalSpecFns;

use crate::assets::AssetPayload;
use crate::assets::PayloadModel;
use crate::assets::lower_seq;

verus! {

/// The JSON body sent for misses to clients that do not prefer HTML.
pub struct NotFoundJson {
    pub error: String,
}

/// The shared state the request handlers close over: the asset backend
/// chosen at startup, read-only for the process lifetime.
#[derive(Clone)]
pub struct AppState {
    pub assets: std::sync::Arc<crate::assets::AssetBackend>,
}

/// Whether `needle` occurs in `h`.
pub open spec fn contains_seq(h: Seq<char>, needle: Seq<char>) -> bool {
    exists|i: int|
        0 <= i <= h.len() - needle.len() && #[trigger] h.subrange(i, i + needle.len() as int)
            == needle
}

/// Whether the Accept header value announces an HTML-preferring client:
/// after ASCII lower-casing it mentions `text/html` or
/// `application/xhtml+xml`.
pub open spec fn prefers_html_spec(accept: Seq<char>) -> bool {
    contains_seq(lower_seq(accept), "text/html"@) || contains_seq(
        lower_seq(accept),
        "application/xhtml+xml"@,
    )
}

fn contains_lowered(hay: &str, needle: &str) -> (r: bool)
    ensures
        r == contains_seq(lower_seq(hay@), needle@),
{
    let hn = hay.unicode_len();
    let nn = needle.unicode_len();
    if nn > hn {
        return false;
    }
    let ghost low = lower_seq(hay@);
    let mut i: usize = 0;
    while i <= hn - nn
        invariant
            nn <= hn,
            hn == hay@.len(),
            nn == needle@.len(),
            low == lower_seq(hay@),
            i <= hn - nn + 1,
            forall|p: int|
                0 <= p < i ==> #[trigger] low.subrange(p, p + nn as int) != needle@,
        decreases hn - nn - i + 1,
    {
        let mut j: usize = 0;
        let mut matched = true;
        while j < nn && matched
            invariant
                nn <= hn,
                hn == hay@.len(),
                nn == needle@.len(),
                low == lower_seq(hay@),
                i + nn <= hn,
                j <= nn,
                matched ==> forall|q: int| 0 <= q < j ==> low[i + q] == needle@[q],
                !matched ==> low.subrange(i as int, i as int + nn as int) != needle@,
            decreases nn - j + (if matched { 1int } else { 0int }),
        {
            if crate::assets::lower_char_exec(hay.get_char(i + j)) != needle.get_char(j) {
                proof {
                    assert(low.subrange(i as int, i as int + nn as int)[j as int]
                        == low[i + j]);
                }
                matched = false;
            } else {
                j = j + 1;
            }
        }
        if matched {
            proof {
                assert(low.subrange(i as int, i as int + nn as int) =~= needle@);
            }
            return true;
        }
        proof {
            if nn == 0 {
                assert(low.subrange(i as int, i as int) =~= needle@);
            }
        }
        i = i + 1;
    }
    proof {
        if contains_seq(low, needle@) {
            let p = choose|p: int|
                0 <= p <= low.len() - needle@.len() && #[trigger] low.subrange(
                    p,
                    p + needle@.len() as int,
                ) == needle@;
            assert(low.subrange(p, p + nn as int) != needle@);
        }
    }
    false
}

/// Whether the given Accept header value announces an HTML-preferring
/// client.
pub fn prefers_html(accept: &str) -> (r: bool)
    ensures
        r == prefers_html_spec(accept@),
{
    contains_lowered(accept, "text/html") || contains_lowered(accept, "application/xhtml+xml")
}

/// The response handed to the transport: status, the headers this layer
/// owns, and the body (empty for HEAD requests, while `content_length`
/// still reports the full length).
pub struct StaticResponse {
    pub status: u16,
    pub content_type: String,
    pub cache_control: Option<String>,
    pub content_length: usize,
    pub body: Vec<u8>,
}

/// The mathematical content of a response.
pub struct ResponseModel {
    pub status: u16,
    pub content_type: Seq<char>,
    pub cache_control: Option<Seq<char>>,
    pub content_length: int,
    pub body: Seq<u8>,
}

impl View for StaticResponse {
    type V = ResponseModel;

    open spec fn view(&self) -> ResponseModel {
        ResponseModel {
            status: self.status,
            content_type: self.content_type@,
            cache_control: crate::assets::opt_string_view(self.cache_control),
            content_length: self.content_length as int,
            body: self.body@,
        }
    }
}

/// The bytes of the JSON miss body.
pub open spec fn not_found_json_bytes() -> Seq<u8> {
    "{\"error\":\"not_found\"}".spec_bytes()
}

/// The response for a found asset: the given status, the payload's headers
/// and length, and its bytes unless only the head was asked for.
pub open spec fn asset_response_model(
    status: u16,
    p: PayloadModel,
    head_only: bool,
) -> ResponseModel {
    ResponseModel {
        status,
        content_type: p.content_type,
        cache_control: p.cache_control,
        content_length: p.body.len() as int,
        body: if head_only {
            Seq::<u8>::empty()
        } else {
            p.body
        },
    }
}

/// The JSON 404 response.
pub open spec fn json_not_found_model(head_only: bool) -> ResponseModel {
    ResponseModel {
        status: 404,
        content_type: "application/json"@,
        cache_control: None,
        content_length: not_found_json_bytes().len() as int,
        body: if head_only {
            Seq::<u8>::empty()
        } else {
            not_found_json_bytes()
        },
    }
}

/// The view of an optional payload.
pub open spec fn opt_payload_view(o: Option<AssetPayload>) -> Option<PayloadModel> {
    match o {
        Some(p) => Some(p@),
        None => None,
    }
}

/// The full response decision: a hit is served with 200; a miss goes to the
/// bundled not-found page (status 404) when the client prefers HTML and the
/// page exists, and to the JSON 404 otherwise.
pub open spec fn static_response_model(
    resolved: Option<PayloadModel>,
    not_found_page: Option<PayloadModel>,
    accept: Seq<char>,
    head_only: bool,
) -> ResponseModel {
    match resolved {
        Some(p) => asset_response_model(200, p, head_only),
        None => if prefers_html_spec(accept) {
            match not_found_page {
                Some(p) => asset_response_model(404, p, head_only),
                None => json_not_found_model(head_only),
            }
        } else {
            json_not_found_model(head_only)
        },
    }
}

/// Wraps a payload in a response with the given status.
pub fn asset_response(status: u16, payload: AssetPayload, head_only: bool) -> (r:
    StaticResponse)
    ensures
        r@ == asset_response_model(status, payload@, head_only),
{
    let content_length = payload.body.len();
    let body = if head_only {
        Vec::new()
    } else {
        payload.body
    };
    StaticResponse {
        status,
        content_type: payload.content_type,
        cache_control: payload.cache_control,
        content_length,
        body,
    }
}

/// The JSON 404 response.
pub fn json_not_found_response(head_only: bool) -> (r: StaticResponse)
    ensures
        r@ == json_not_found_model(head_only),
{
    let bytes = "{\"error\":\"not_found\"}".as_bytes_vec();
    let content_length = bytes.len();
    let body = if head_only {
        Vec::new()
    } else {
        bytes
    };
    StaticResponse {
        status: 404,
        content_type: "application/json".to_owned(),
        cache_control: None,
        content_length,
        body,
    }
}

/// Decides the response for one static request, given the resolution
/// outcome, the optional bundled not-found page, and the request's Accept
/// header value.
pub fn static_response(
    resolved: Option<AssetPayload>,
    not_found_page: Option<AssetPayload>,
    accept: &str,
    head_only: bool,
) -> (r: StaticResponse)
    ensures
        r@ == static_response_model(
            opt_payload_view(resolved),
            opt_payload_view(not_found_page),
            accept@,
            head_only,
        ),
{
    match resolved {
        Some(p) => asset_response(200, p, head_only),
        None => {
            if prefers_html(accept) {
                match not_found_page {
                    Some(p) => asset_response(404, p, head_only),
                    None => json_not_found_response(head_only),
                }
            } else {
                json_not_found_response(head_only)
            }
        },
    }
}

/// A HEAD response carries exactly the status and headers of the
/// corresponding GET response — including the full content length — with an
/// empty body.
pub proof fn lemma_head_matches_get(
    resolved: Option<PayloadModel>,
    not_found_page: Option<PayloadModel>,
    accept: Seq<char>,
)
    ensures
        ({
            let g = static_response_model(resolved, not_found_page, accept, false);
            let h = static_response_model(resolved, not_found_page, accept, true);
            h.status == g.status && h.content_type == g.content_type && h.cache_control
                == g.cache_control && h.content_length == g.content_length && h.body
                == Seq::<u8>::empty()
        }),
{
}

} // verus!
