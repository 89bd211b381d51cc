//! A minimal HTTP/1.1 server library: request parsing, exact-match routing,
//! and response encoding with optional gzip compression.
//!
//! The network-facing pieces (listening socket, per-connection threads) live
//! in the surrounding application; this crate holds the request-handling
//! logic itself, with contracts on every public function.

pub mod bytes;
pub mod split;
pub mod request;
pub mod router;
pub mod response;
pub mod pipeline;
pub mod routes;

pub use request::{HttpMethod, HttpHeader, HttpRequest, ParseError, parse_request, parse_method,
    wants_gzip};
pub use router::{HttpRoute, RouteTable};
pub use response::{build_response, encode_response};
pub use pipeline::{RequestPlan, plan_request};
pub use routes::fourohfor;
