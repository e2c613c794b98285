use vstd::prelude::*;

use crate::distance::{xor_value, Distance, NodeId, XorMetric};

verus! {

/// The kinds of content that an id-indexed store can hold.
#[derive(Clone, Copy, Debug, PartialEq, Eq, Structural)]
pub enum ContentType {
    History,
    State,
    Verkle,
}

/// The portal sub-protocols.
#[derive(Clone, Copy, Debug, PartialEq, Eq, Structural)]
pub enum ProtocolId {
    History,
    State,
    Beacon,
    Verkle,
}

/// An error of the content store.
#[derive(Debug)]
pub enum ContentStoreError {
    Database(String),
}

/// Where the content store keeps its data and how much of it.
#[derive(Clone, Copy, Debug)]
pub struct PortalStorageConfig {
    pub storage_capacity_bytes: u64,
    pub node_id: NodeId,
}

/// The settings of one id-indexed store: the kind of content, the network,
/// and the node's storage settings.
#[derive(Clone, Copy, Debug)]
pub struct IdIndexedV1StoreConfig {
    pub content_type: ContentType,
    pub network: ProtocolId,
    pub node_id: NodeId,
    pub storage_capacity_bytes: u64,
}

impl IdIndexedV1StoreConfig {
    pub fn new(content_type: ContentType, network: ProtocolId, config: PortalStorageConfig) -> (r:
        IdIndexedV1StoreConfig)
        ensures
            r.content_type == content_type,
            r.network == network,
            r.node_id@ == config.node_id@,
            r.storage_capacity_bytes == config.storage_capacity_bytes,
    {
        IdIndexedV1StoreConfig {
            content_type,
            network,
            node_id: config.node_id,
            storage_capacity_bytes: config.storage_capacity_bytes,
        }
    }
}

/// Whether a content item should be stored.
#[derive(Clone, Copy, Debug, PartialEq, Eq, Structural)]
pub enum ShouldWeStoreContent {
    Store,
    NotWithinRadius,
    AlreadyStored,
}

/// One page of the keys a store holds, and how many entries it holds in
/// all.
pub struct PaginateResult<K> {
    pub content_keys: Vec<K>,
    pub entry_count: u64,
}

/// One page of the locally available content keys, and the number of all
/// entries.
pub struct PaginateLocalContentInfo<K> {
    pub content_keys: Vec<K>,
    pub total_entries: u64,
}

/// The storage layer of the verkle network: an id-indexed store of verkle
/// content.
pub struct VerkleStorage {
    config: IdIndexedV1StoreConfig,
}

impl VerkleStorage {
    pub closed spec fn store_config_view(&self) -> IdIndexedV1StoreConfig {
        self.config
    }

    /// The verkle storage for the node's storage settings: a store of verkle
    /// content on the verkle network. `created` is the outcome of creating
    /// the store's database with these settings; its error is passed on.
    pub fn new(config: PortalStorageConfig, created: Result<(), ContentStoreError>) -> (r: Result<
        Self,
        ContentStoreError,
    >)
        ensures
            created is Err <==> r is Err,
            created matches Err(e) ==> r matches Err(e2) && e2 == e,
            r matches Ok(s) ==> s.store_config_view().content_type == ContentType::Verkle
                && s.store_config_view().network == ProtocolId::Verkle
                && s.store_config_view().node_id@ == config.node_id@
                && s.store_config_view().storage_capacity_bytes == config.storage_capacity_bytes,
    {
        let config = IdIndexedV1StoreConfig::new(ContentType::Verkle, ProtocolId::Verkle, config);
        match created {
            Ok(()) => Ok(VerkleStorage { config }),
            Err(e) => Err(e),
        }
    }

    /// The settings the store is created with.
    pub fn store_config(&self) -> (r: &IdIndexedV1StoreConfig)
        ensures
            *r == self.store_config_view(),
    {
        &self.config
    }

    /// A page of locally available content keys: the keys of the page read
    /// from the store, with the store's entry count as the total; an error
    /// of the store is passed on.
    pub fn paginate<K>(&self, page: Result<PaginateResult<K>, ContentStoreError>) -> (r: Result<
        PaginateLocalContentInfo<K>,
        ContentStoreError,
    >)
        ensures
            page is Err <==> r is Err,
            page matches Err(e) ==> r matches Err(e2) && e2 == e,
            page matches Ok(p) ==> (r matches Ok(info) && info.content_keys == p.content_keys
                && info.total_entries == p.entry_count),
    {
        let paginate_result = match page {
            Ok(p) => p,
            Err(e) => {
                return Err(e);
            },
        };
        Ok(
            PaginateLocalContentInfo {
                content_keys: paginate_result.content_keys,
                total_entries: paginate_result.entry_count,
            },
        )
    }

    /// Whether the content id lies within the radius of the store's node.
    pub fn is_within_radius(&self, content_id: &[u8; 32], radius: &Distance) -> (r: bool)
        ensures
            r == (xor_value(self.store_config_view().node_id@, content_id@) <= radius.value()),
    {
        let distance = XorMetric::distance(&self.config.node_id.raw, content_id);
        distance.le(radius)
    }

    /// Whether a content item should be stored, given the store's radius
    /// and whether the store already has it: not outside the radius, not
    /// twice. An error of the store is passed on.
    pub fn should_store(
        &self,
        content_id: &[u8; 32],
        radius: &Distance,
        has_content: Result<bool, ContentStoreError>,
    ) -> (r: Result<ShouldWeStoreContent, ContentStoreError>)
        ensures
            !(xor_value(self.store_config_view().node_id@, content_id@) <= radius.value()) ==> (r
                matches Ok(ShouldWeStoreContent::NotWithinRadius)),
            xor_value(self.store_config_view().node_id@, content_id@) <= radius.value() ==> {
                &&& has_content is Err <==> r is Err
                &&& has_content matches Err(e) ==> r matches Err(e2) && e2 == e
                &&& (has_content == Ok::<bool, ContentStoreError>(true)) ==> (r matches Ok(ShouldWeStoreContent::AlreadyStored))
                &&& (has_content == Ok::<bool, ContentStoreError>(false)) ==> (r matches Ok(ShouldWeStoreContent::Store))
            },
    {
        if !self.is_within_radius(content_id, radius) {
            Ok(ShouldWeStoreContent::NotWithinRadius)
        } else {
            match has_content {
                Ok(true) => Ok(ShouldWeStoreContent::AlreadyStored),
                Ok(false) => Ok(ShouldWeStoreContent::Store),
                Err(e) => Err(e),
            }
        }
    }
}

} // verus!
