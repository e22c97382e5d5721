//! Resolving an ordered list of endpoint literals into socket addresses:
//! every literal parses and the addresses come back in input order, or the
//! first malformed literal is reported and nothing is produced.

use vstd::prelude::*;
use crate::addr::SocketAddress;
use crate::addr::parse_socket_address;
use crate::addr::spec_socket_address;
use crate::forward::copy_bytes;

verus! {

/// The first malformed endpoint, in input order: its position and the
/// offending text itself, exactly as it was given.
#[derive(Debug)]
pub struct ResolveError {
    pub index: usize,
    pub input: Vec<u8>,
}

/// Parses the endpoint literals in order, failing fast: on success one
/// address per input, order preserved; on failure the first literal that
/// does not parse, reported with its position and its exact text, with no
/// address produced for it or anything after it.
pub fn resolve_endpoints(inputs: &Vec<Vec<u8>>) -> (r: Result<
    Vec<SocketAddress>,
    ResolveError,
>)
    ensures
        r matches Ok(addrs) ==> addrs@.len() == inputs@.len() && forall|k: int|
            0 <= k < inputs@.len() ==> spec_socket_address(#[trigger] inputs@[k]@) == Some(
                addrs@[k],
            ),
        r matches Err(e) ==> {
            &&& e.index < inputs@.len()
            &&& spec_socket_address(inputs@[e.index as int]@) is None
            &&& forall|k: int|
                0 <= k < e.index ==> spec_socket_address(#[trigger] inputs@[k]@) is Some
            &&& e.input@ == inputs@[e.index as int]@
        },
{
    let mut addrs: Vec<SocketAddress> = Vec::new();
    let n = inputs.len();
    let mut i: usize = 0;
    while i < n
        invariant
            i <= n,
            n == inputs@.len(),
            addrs@.len() == i,
            forall|k: int|
                0 <= k < i ==> spec_socket_address(#[trigger] inputs@[k]@) == Some(addrs@[k]),
        decreases n - i,
    {
        match parse_socket_address(&inputs[i]) {
            Some(a) => {
                addrs.push(a);
            },
            None => {
                let bad = copy_bytes(&inputs[i]);
                return Err(ResolveError { index: i, input: bad });
            },
        }
        i = i + 1;
    }
    Ok(addrs)
}

} // verus!
