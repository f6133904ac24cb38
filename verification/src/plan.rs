//! Decisions taken for each proxied request: where it goes, whether it
//! counts as a beatmap download, which headers pass, and what happens to the
//! bodies on the way.

use vstd::prelude::*;
use vstd::string::StringExecFns;
use crate::byte_buffer::{bytes_content, bytes_is_empty};
use crate::domain_rewriter::{DomainRewriter, rewrite_stream, byte_table};
use crate::supporter::{inject_supporter_into_bancho_response, inject_supporter_stream};
use crate::text::{ascii_lower_all, chars_match_at};
use crate::upstream::{trim_char_end, skip_char_end};

verus! {

/// Where the routing table sends a request.
#[derive(Clone, Copy, Debug, PartialEq, Eq)]
pub enum RouteDecision {
    /// osu!direct traffic, answered through the beatmap mirror.
    HandleLocally,
    /// Game traffic, forwarded to the upstream server.
    ForwardToUpstream,
    /// Website traffic, redirected to the upstream server.
    RedirectToUpstream,
}

/// What the proxy does with a request.
#[derive(Debug)]
pub enum RequestPlan {
    /// Fetch `url` from the beatmap mirror; `counts_download` when the path
    /// is a beatmap download.
    Mirror { url: String, counts_download: bool },
    /// Forward to `url` upstream; `inject_supporter` when the supporter
    /// privilege is to be granted in the response.
    Upstream { url: String, inject_supporter: bool },
    /// Answer with a redirect to `location`.
    Redirect { location: String },
}

/// Whether `s` starts with `prefix`.
pub open spec fn starts_with(s: Seq<char>, prefix: Seq<char>) -> bool {
    prefix.len() <= s.len() && s.take(prefix.len() as int) == prefix
}

/// The mirror URL for a request path: the mirror's base URL without trailing
/// slashes, then the path.
pub open spec fn mirror_url(direct_base_url: Seq<char>, path: Seq<char>) -> Seq<char> {
    trim_char_end(direct_base_url, '/') + path
}

/// The upstream URL for a request path.
pub open spec fn upstream_url(upstream_host: Seq<char>, path: Seq<char>) -> Seq<char> {
    "https://"@ + upstream_host + path
}

/// The plan for a request that the routing table has decided on.
pub open spec fn planned(
    decision: RouteDecision,
    path: Seq<char>,
    direct_base_url: Seq<char>,
    upstream_host: Seq<char>,
    inject_supporter: bool,
    r: RequestPlan,
) -> bool {
    match decision {
        RouteDecision::HandleLocally => r matches RequestPlan::Mirror { url, counts_download }
            && url@ == mirror_url(direct_base_url, path) && counts_download == starts_with(
            path,
            "/d/"@,
        ),
        RouteDecision::ForwardToUpstream => r matches RequestPlan::Upstream {
            url,
            inject_supporter: inject,
        } && url@ == upstream_url(upstream_host, path) && inject == (inject_supporter
            && starts_with(upstream_host, "c."@)),
        RouteDecision::RedirectToUpstream => r matches RequestPlan::Redirect { location }
            && location@ == upstream_url(upstream_host, path),
    }
}

fn prefix_of(s: &str, prefix: &str) -> (r: bool)
    ensures
        r == starts_with(s@, prefix@),
{
    let n = s.unicode_len();
    let r = chars_match_at(s, 0, n, prefix);
    proof {
        if prefix@.len() <= s@.len() {
            assert(s@.subrange(0, prefix@.len() as int) =~= s@.take(prefix@.len() as int));
        }
    }
    r
}

/// Plans a request: `path` is its path and query, `decision` what the routing
/// table decided, `upstream_host` the upstream host its `Host` maps to.
pub fn plan_request(
    decision: RouteDecision,
    path: &str,
    direct_base_url: &str,
    upstream_host: &str,
    inject_supporter: bool,
) -> (r: RequestPlan)
    ensures
        planned(decision, path@, direct_base_url@, upstream_host@, inject_supporter, r),
{
    match decision {
        RouteDecision::HandleLocally => {
            let counts_download = prefix_of(path, "/d/");
            let n = direct_base_url.unicode_len();
            assert(direct_base_url@.subrange(0, n as int) =~= direct_base_url@);
            let end = skip_char_end(direct_base_url, 0, n, '/');
            let base = direct_base_url.substring_char(0, end);
            let url = String::from_str(base).concat(path);
            RequestPlan::Mirror { url, counts_download }
        },
        RouteDecision::ForwardToUpstream => {
            let is_bancho = prefix_of(upstream_host, "c.");
            let url = String::from_str("https://").concat(upstream_host).concat(path);
            RequestPlan::Upstream { url, inject_supporter: inject_supporter && is_bancho }
        },
        RouteDecision::RedirectToUpstream => {
            let location = String::from_str("https://").concat(upstream_host).concat(path);
            RequestPlan::Redirect { location }
        },
    }
}

/// Header names, case folded, that are not copied from the client's request.
pub open spec fn is_request_hop_header(name: Seq<char>) -> bool {
    let l = ascii_lower_all(name);
    l == "host"@ || l == "connection"@ || l == "content-length"@
}

/// Header names, case folded, that are not copied from the upstream response.
pub open spec fn is_response_hop_header(name: Seq<char>) -> bool {
    let l = ascii_lower_all(name);
    l == "transfer-encoding"@ || l == "connection"@ || l == "content-length"@
}

fn folded_is(name: &str, pat: &str) -> (r: bool)
    ensures
        r == (ascii_lower_all(name@) == pat@),
{
    let n = name.unicode_len();
    assert(name@.subrange(0, n as int) =~= name@);
    crate::host::folded_equals(name, 0, n, pat)
}

/// Whether a request header is copied onto the upstream request.
pub fn forwards_request_header(name: &str) -> (r: bool)
    ensures
        r == !is_request_hop_header(name@),
        r == !(ascii_lower_all(name@) == "host"@ || ascii_lower_all(name@) == "connection"@
            || ascii_lower_all(name@) == "content-length"@),
{
    !(folded_is(name, "host") || folded_is(name, "connection") || folded_is(name, "content-length"))
}

/// Whether a response header is copied onto the answer to the client.
pub fn forwards_response_header(name: &str) -> (r: bool)
    ensures
        r == !is_response_hop_header(name@),
        r == !(ascii_lower_all(name@) == "transfer-encoding"@ || ascii_lower_all(name@)
            == "connection"@ || ascii_lower_all(name@) == "content-length"@),
{
    !(folded_is(name, "transfer-encoding") || folded_is(name, "connection") || folded_is(
        name,
        "content-length",
    ))
}

/// The method used upstream.
#[derive(Clone, Copy, Debug, PartialEq, Eq)]
pub enum ForwardMethod {
    Get,
    Post,
}

/// `POST` stays `POST`; every other method is sent upstream as `GET`.
pub fn forward_method(method: &str) -> (r: ForwardMethod)
    ensures
        r == (if method@ == "POST"@ {
            ForwardMethod::Post
        } else {
            ForwardMethod::Get
        }),
{
    let n = method.unicode_len();
    if chars_match_at(method, 0, n, "POST") && n == "POST".unicode_len() {
        assert(method@.subrange(0, n as int) =~= method@);
        ForwardMethod::Post
    } else {
        proof {
            if method@ == "POST"@ {
                assert(method@.subrange(0, n as int) =~= method@);
            }
        }
        ForwardMethod::Get
    }
}

/// The body sent upstream: a non-empty request body is rewritten with the
/// forward table.
pub fn request_body_for_upstream(rewriter: &DomainRewriter, body: bytes::Bytes) -> (r: bytes::Bytes)
    ensures
        bytes_content(r) == (if bytes_content(body).len() == 0 {
            bytes_content(body)
        } else {
            rewrite_stream(bytes_content(body), byte_table(rewriter.forward_mappings()))
        }),
{
    if !bytes_is_empty(&body) {
        rewriter.rewrite_forward(body)
    } else {
        body
    }
}

/// The body returned to the client: a non-empty response body first gets the
/// supporter privilege when `inject_supporter` holds, then is rewritten with
/// the backward table.
pub fn response_body_for_client(
    rewriter: &DomainRewriter,
    body: bytes::Bytes,
    inject_supporter: bool,
) -> (r: bytes::Bytes)
    ensures
        bytes_content(r) == ({
            let b = bytes_content(body);
            if b.len() == 0 {
                b
            } else {
                let injected = if inject_supporter {
                    inject_supporter_stream(b)
                } else {
                    b
                };
                if injected.len() == 0 {
                    injected
                } else {
                    rewrite_stream(injected, byte_table(rewriter.backward_mappings()))
                }
            }
        }),
{
    let mut body = body;
    if inject_supporter && !bytes_is_empty(&body) {
        body = inject_supporter_into_bancho_response(body);
    }
    if !bytes_is_empty(&body) {
        body = rewriter.rewrite_backward(body);
    }
    body
}

} // verus!
