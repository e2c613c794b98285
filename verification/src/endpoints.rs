use vstd::prelude::*;

use crate::distance::NodeId;
use crate::enr::Enr;

verus! {

/// Discv5 JSON-RPC endpoints, named with the prefix `discv5_`.
#[derive(Clone, Copy, Debug, PartialEq, Eq, Structural)]
pub enum Discv5Endpoint {
    NodeInfo,
    RoutingTableInfo,
}

/// State network JSON-RPC endpoints, named with the prefix `portal_state`;
/// `K` and `V` are the network's content keys and values, `P` a ping
/// extension payload.
#[derive(Clone, Debug, PartialEq)]
pub enum StateEndpoint<K, V, P> {
    RoutingTableInfo,
    Ping(Enr, Option<u16>, Option<P>),
    AddEnr(Enr),
    DeleteEnr(NodeId),
    GetEnr(NodeId),
    LookupEnr(NodeId),
    FindNodes(Enr, Vec<u16>),
    RecursiveFindNodes(NodeId),
    DataRadius,
    LocalContent(K),
    FindContent(Enr, K),
    GetContent(K),
    TraceGetContent(K),
    Store(K, V),
    Offer(Enr, Vec<(K, V)>),
    TraceOffer(Enr, K, V),
    PutContent(K, V),
    PaginateLocalContentKeys(u64, u64),
}

/// History network JSON-RPC endpoints, named with the prefix
/// `portal_history`.
#[derive(Clone, Debug, PartialEq)]
pub enum LegacyHistoryEndpoint<K, V, P> {
    AddEnr(Enr),
    DataRadius,
    DeleteEnr(NodeId),
    FindContent(Enr, K),
    FindNodes(Enr, Vec<u16>),
    GetEnr(NodeId),
    LocalContent(K),
    LookupEnr(NodeId),
    PutContent(K, V),
    Offer(Enr, Vec<(K, V)>),
    TraceOffer(Enr, K, V),
    Ping(Enr, Option<u16>, Option<P>),
    GetContent(K),
    TraceGetContent(K),
    Store(K, V),
    RoutingTableInfo,
    PaginateLocalContentKeys(u64, u64),
    RecursiveFindNodes(NodeId),
}

/// Beacon network JSON-RPC endpoints, named with the prefix
/// `portal_beacon`.
#[derive(Clone, Debug, PartialEq)]
pub enum BeaconEndpoint<K, V, P> {
    AddEnr(Enr),
    DataRadius,
    DeleteEnr(NodeId),
    OptimisticStateRoot,
    FindContent(Enr, K),
    FindNodes(Enr, Vec<u16>),
    FinalizedHeader,
    FinalizedStateRoot,
    FinalityUpdate,
    OptimisticUpdate,
    GetEnr(NodeId),
    LightClientStore,
    LocalContent(K),
    LookupEnr(NodeId),
    PutContent(K, V),
    Offer(Enr, Vec<(K, V)>),
    TraceOffer(Enr, K, V),
    Ping(Enr, Option<u16>, Option<P>),
    GetContent(K),
    TraceGetContent(K),
    Store(K, V),
    RoutingTableInfo,
    PaginateLocalContentKeys(u64, u64),
    RecursiveFindNodes(NodeId),
}

/// The common functionality of subnetwork endpoints.
pub trait SubnetworkEndpoint {
    /// The subnetwork's name.
    spec fn subnetwork_name() -> Seq<char>;

    /// The subnetwork name.
    fn subnetwork() -> (r: &'static str)
        ensures
            r@ == Self::subnetwork_name(),
    ;
}

impl<K, V, P> SubnetworkEndpoint for StateEndpoint<K, V, P> {
    open spec fn subnetwork_name() -> Seq<char> {
        "state"@
    }

    fn subnetwork() -> (r: &'static str) {
        "state"
    }
}

impl<K, V, P> SubnetworkEndpoint for LegacyHistoryEndpoint<K, V, P> {
    open spec fn subnetwork_name() -> Seq<char> {
        "legacy_history"@
    }

    fn subnetwork() -> (r: &'static str) {
        "legacy_history"
    }
}

impl<K, V, P> SubnetworkEndpoint for BeaconEndpoint<K, V, P> {
    open spec fn subnetwork_name() -> Seq<char> {
        "beacon"@
    }

    fn subnetwork() -> (r: &'static str) {
        "beacon"
    }
}

} // verus!
