//! One connection's decisions in a single verified step: parse the raw bytes,
//! map the method token, look up the route, and read the gzip negotiation.
//! The caller performs the I/O and runs the chosen handler.

use vstd::prelude::*;
use crate::request::{HttpMethod, HttpRequest, RequestView, ParseError, parse_request,
    parse_request_spec, parse_method, method_of_token, wants_gzip, accepts_gzip};
use crate::router::RouteTable;

verus! {

/// Everything decided about one request before its handler runs.
pub struct RequestPlan {
    /// The parsed request, handed on to the handler.
    pub request: HttpRequest,
    /// The registered handler slot, or `None` for an unregistered
    /// (method, path) pair — recoverable, never fatal to the process.
    pub handler: Option<usize>,
    /// Whether the client negotiated a gzip-compressed response.
    pub gzip: bool,
}

/// The routing key a parsed request resolves under.
pub open spec fn route_key_of(req: RequestView) -> (HttpMethod, Seq<u8>) {
    (method_of_token(req.method), req.url)
}

/// Plans one request: parsing errors surface exactly as `parse_request_spec`
/// says; on success the plan carries the parsed request, the slot registered
/// for its exact (method, path) key — `None` if that key was never registered
/// — and the outcome of the gzip negotiation.
pub fn plan_request(table: &RouteTable, raw: &[u8]) -> (r: Result<RequestPlan, ParseError>)
    requires
        table.wf(),
    ensures
        (match r {
            Ok(plan) => {
                &&& parse_request_spec(raw@) == Ok::<RequestView, ParseError>(plan.request@)
                &&& plan.gzip == accepts_gzip(plan.request@.headers)
                &&& (match plan.handler {
                    Some(id) => table.as_map().contains_key(route_key_of(plan.request@))
                        && table.as_map()[route_key_of(plan.request@)] == id,
                    None => !table.as_map().contains_key(route_key_of(plan.request@)),
                })
            },
            Err(e) => parse_request_spec(raw@) == Err::<RequestView, ParseError>(e),
        }),
{
    let req = match parse_request(raw) {
        Ok(req) => req,
        Err(e) => {
            return Err(e);
        },
    };
    let m = parse_method(req.method.as_slice());
    let handler = table.resolve(m, req.url.as_slice());
    let gzip = wants_gzip(&req.headers);
    Ok(RequestPlan { request: req, handler, gzip })
}

} // verus!
