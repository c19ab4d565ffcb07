//! The server's rules on the headers of its switching protocols response.
use vstd::prelude::*;

use crate::utf8::str_eq;
use crate::Error;

verus! {

/// Headers that the server sets itself in the switching protocols response,
/// which may not be added to it:
///
/// - `host`
/// - `upgrade`
/// - `connection`
/// - `sec-websocket-accept`
pub const DISALLOWED_HEADERS: [&'static str; 4] = [
    "host",
    "upgrade",
    "connection",
    "sec-websocket-accept",
];

/// Whether `name` is one of the disallowed headers, in the lower case that
/// header names are kept in.
pub open spec fn disallowed_header(name: Seq<char>) -> bool {
    exists|i: int| 0 <= i < 4 && name == (#[trigger] DISALLOWED_HEADERS[i])@
}

/// Checks a header name before it is added to the switching protocols
/// response.
///
/// # Errors
///
/// Returns [`Error::DisallowedHeader`] if the header is one of
/// [`DISALLOWED_HEADERS`].
pub fn check_header(name: &str) -> (r: Result<(), Error>)
    ensures
        r is Err <==> disallowed_header(name@),
        r matches Err(e) ==> e is DisallowedHeader,
{
    let mut i: usize = 0;
    while i < 4
        invariant
            i <= 4,
            forall|j: int| 0 <= j < i ==> name@ != (#[trigger] DISALLOWED_HEADERS[j])@,
        decreases 4 - i,
    {
        if str_eq(name, DISALLOWED_HEADERS[i]) {
            return Err(Error::DisallowedHeader);
        }
        i = i + 1;
    }
    Ok(())
}

} // verus!
