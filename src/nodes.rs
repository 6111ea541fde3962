use vstd::prelude::*;

use tonic::codegen::http::uri::InvalidUri;
use tonic::transport::{Channel, Endpoint};

use crate::error::VideoEncodeError;

verus! {

/// tonic's `Endpoint`, carried opaque from the address check to the
/// connection.
#[verifier::external_type_specification]
#[verifier::external_body]
pub struct ExEndpoint(Endpoint);

/// The error `Channel::from_shared` gives for a malformed address.
#[verifier::external_type_specification]
#[verifier::external_body]
pub struct ExInvalidUri(InvalidUri);

/// Whether `address` parses as a URI.
pub uninterp spec fn uri_accepted(address: Seq<char>) -> bool;

/// Relies on tonic's `Channel::from_shared`: it parses the address as a URI
/// and builds an endpoint for it without connecting; the outcome depends on
/// the text alone.
#[verifier::external_body]
fn parse_endpoint(address: &String) -> (r: Result<Endpoint, InvalidUri>)
    ensures
        r is Ok <==> uri_accepted(address@),
{
    Channel::from_shared(address.clone())
}

/// One worker as declared at start: where it listens, the endpoint parsed
/// from that address, and how many units it may encode at once.
pub struct NodeSpec {
    pub address: String,
    pub endpoint: Endpoint,
    pub capacity: usize,
}

/// Pairs each address with its capacity, before any connection is made.
/// Fails with a configuration error when the two lists differ in length,
/// when they are empty, or when a capacity is zero, and with a connection
/// error when an address is malformed.
pub fn plan_nodes(addresses: &Vec<String>, slots: &Vec<usize>) -> (r: Result<
    Vec<NodeSpec>,
    VideoEncodeError,
>)
    ensures
        r is Ok <==> {
            &&& addresses@.len() == slots@.len()
            &&& addresses@.len() > 0
            &&& forall|i: int| 0 <= i < slots@.len() ==> #[trigger] slots@[i] > 0
            &&& forall|i: int| 0 <= i < addresses@.len() ==> uri_accepted(#[trigger] addresses@[i]@)
        },
        (addresses@.len() != slots@.len() || addresses@.len() == 0 || exists|i: int|
            0 <= i < slots@.len() && #[trigger] slots@[i] == 0) ==> r matches Err(
            VideoEncodeError::Config(_),
        ),
        r is Err ==> r matches Err(VideoEncodeError::Config(_)) || r matches Err(
            VideoEncodeError::NodeConnection(_),
        ),
        r matches Ok(v) ==> {
            &&& v@.len() == addresses@.len()
            &&& forall|i: int|
                0 <= i < v@.len() ==> (#[trigger] v@[i]).address@ == addresses@[i]@
                    && v@[i].capacity == slots@[i]
        },
{
    if addresses.len() != slots.len() {
        return Err(
            VideoEncodeError::Config(
                "number of node addresses does not match the number of slot counts".to_string(),
            ),
        );
    }
    if addresses.len() == 0 {
        return Err(VideoEncodeError::Config("no nodes available".to_string()));
    }
    let mut k: usize = 0;
    while k < slots.len()
        invariant
            k <= slots@.len(),
            forall|j: int| 0 <= j < k ==> #[trigger] slots@[j] > 0,
        decreases slots@.len() - k,
    {
        if slots[k] == 0 {
            return Err(VideoEncodeError::Config("a node has no slots".to_string()));
        }
        k = k + 1;
    }
    let mut v: Vec<NodeSpec> = Vec::new();
    let mut i: usize = 0;
    while i < addresses.len()
        invariant
            addresses@.len() == slots@.len(),
            i <= addresses@.len(),
            v@.len() == i,
            forall|j: int| 0 <= j < slots@.len() ==> #[trigger] slots@[j] > 0,
            forall|j: int|
                0 <= j < i ==> (#[trigger] v@[j]).address@ == addresses@[j]@ && v@[j].capacity
                    == slots@[j] && uri_accepted(addresses@[j]@),
        decreases addresses@.len() - i,
    {
        let endpoint = match parse_endpoint(&addresses[i]) {
            Ok(e) => e,
            Err(_) => {
                return Err(VideoEncodeError::NodeConnection("invalid node address".to_string()));
            },
        };
        v.push(NodeSpec { address: addresses[i].clone(), endpoint, capacity: slots[i] });
        i = i + 1;
    }
    proof {
        assert forall|j: int| 0 <= j < addresses@.len() implies uri_accepted(#[trigger] addresses@[j]@) by {
            assert(v@[j].address@ == addresses@[j]@);
        }
    }
    Ok(v)
}

/// The capacities of the nodes, in order.
pub fn capacities(nodes: &Vec<NodeSpec>) -> (r: Vec<usize>)
    ensures
        r@.len() == nodes@.len(),
        forall|i: int| 0 <= i < r@.len() ==> #[trigger] r@[i] == nodes@[i].capacity,
{
    let mut r: Vec<usize> = Vec::new();
    let mut i: usize = 0;
    while i < nodes.len()
        invariant
            i <= nodes@.len(),
            r@.len() == i,
            forall|j: int| 0 <= j < i ==> #[trigger] r@[j] == nodes@[j].capacity,
        decreases nodes@.len() - i,
    {
        r.push(nodes[i].capacity);
        i = i + 1;
    }
    r
}

} // verus!
