//! The default page handler the library itself provides: the not-found body
//! served when no route matches, keeping a bad request fatal to nothing.

use vstd::prelude::*;
use crate::request::HttpRequest;

verus! {

/// The not-found handler: the same body for every request.
pub fn fourohfor(req: &HttpRequest) -> (r: String)
    ensures
        r@ == "NOT_FOUND"@,
{
    let _ = req;
    "NOT_FOUND".to_owned()
}

} // verus!
