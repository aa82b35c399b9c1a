//! The settings of the store.

use vstd::prelude::*;

verus! {

/// What the store is opened with.
#[derive(Clone)]
pub struct CoreConfig {
    /// The cluster file of the database.
    pub cluster: String,
    pub raw_data_prefix: String,
    pub metadata_prefix: String,
    /// Whether the database is a replica that is only read.
    pub read_only: bool,
    /// The tag of the replication, where the database is a replica.
    pub dr_tag: String,
    /// How many page contents are kept in memory; none, if zero.
    pub content_cache_size: usize,
    /// Whether a namespace is created when it is first asked for.
    pub auto_create_ns: bool,
}

/// The prefixes of all keys of the store.
pub struct KeyCodec {
    /// Stands before the keys of the data, as it is.
    pub raw_data_prefix: Vec<u8>,
    /// Stands before the keys of the metadata, as the first element of a tuple.
    pub metadata_prefix: String,
}

/// How long, and how many, entries a cache keeps.
#[derive(Debug, Clone, Copy, PartialEq, Eq, Structural)]
pub struct CachePolicy {
    pub time_to_live_secs: Option<u64>,
    pub time_to_idle_secs: Option<u64>,
    pub max_capacity: Option<u64>,
}

/// How long a namespace key and its id are kept.
pub const NSKEY_TTL_SECS: u64 = 120;

/// How long a namespace key and its id are kept without being asked for.
pub const NSKEY_IDLE_SECS: u64 = 5;

/// How many namespace keys are kept.
pub const NSKEY_CAPACITY: u64 = 10000;

/// How long the database read version is kept at which a version can be read. The database
/// itself keeps a read version for five seconds.
pub const READ_VERSION_TTL_SECS: u64 = 2;

/// How many database read versions are kept.
pub const READ_VERSION_CAPACITY: u64 = 1000;

/// How long the last version that was written to a namespace is kept without being asked
/// for.
pub const LAST_WRITE_VERSION_IDLE_SECS: u64 = 2;

/// An open store.
pub struct Core {
    pub cluster: String,
    pub key_codec: KeyCodec,
    pub nskey_cache: CachePolicy,
    pub read_version_cache: CachePolicy,
    pub read_version_and_nsid_to_lwv_cache: CachePolicy,
    /// The tag of the replication, if the database is a replica.
    pub replica_tag: Option<String>,
    pub content_cache: Option<CachePolicy>,
    pub auto_create_ns: bool,
}

impl Core {
    /// The settings of a store, from its configuration.
    pub fn open(config: CoreConfig) -> (r: Self)
        ensures
            r.cluster == config.cluster,
            r.key_codec.raw_data_prefix@ == vstd::utf8::encode_utf8(
                config.raw_data_prefix@,
            ),
            r.key_codec.metadata_prefix == config.metadata_prefix,
            r.nskey_cache == (CachePolicy {
                time_to_live_secs: Some(NSKEY_TTL_SECS),
                time_to_idle_secs: Some(NSKEY_IDLE_SECS),
                max_capacity: Some(NSKEY_CAPACITY),
            }),
            r.read_version_cache == (CachePolicy {
                time_to_live_secs: Some(READ_VERSION_TTL_SECS),
                time_to_idle_secs: None,
                max_capacity: Some(READ_VERSION_CAPACITY),
            }),
            r.read_version_and_nsid_to_lwv_cache == (CachePolicy {
                time_to_live_secs: None,
                time_to_idle_secs: Some(LAST_WRITE_VERSION_IDLE_SECS),
                max_capacity: None,
            }),
            r.replica_tag == if config.read_only {
                Some(config.dr_tag)
            } else {
                None
            },
            r.content_cache == if config.content_cache_size > 0 {
                Some(
                    (CachePolicy {
                        time_to_live_secs: None,
                        time_to_idle_secs: None,
                        max_capacity: Some(config.content_cache_size as u64),
                    }),
                )
            } else {
                None
            },
            r.auto_create_ns == config.auto_create_ns,
    {
        let raw_data_prefix = vstd::slice::slice_to_vec(config.raw_data_prefix.as_str().as_bytes());
        let content_cache = if config.content_cache_size > 0 {
            Some(
                CachePolicy {
                    time_to_live_secs: None,
                    time_to_idle_secs: None,
                    max_capacity: Some(config.content_cache_size as u64),
                },
            )
        } else {
            None
        };
        Core {
            cluster: config.cluster,
            key_codec: KeyCodec { raw_data_prefix, metadata_prefix: config.metadata_prefix },
            nskey_cache: CachePolicy {
                time_to_live_secs: Some(NSKEY_TTL_SECS),
                time_to_idle_secs: Some(NSKEY_IDLE_SECS),
                max_capacity: Some(NSKEY_CAPACITY),
            },
            read_version_cache: CachePolicy {
                time_to_live_secs: Some(READ_VERSION_TTL_SECS),
                time_to_idle_secs: None,
                max_capacity: Some(READ_VERSION_CAPACITY),
            },
            read_version_and_nsid_to_lwv_cache: CachePolicy {
                time_to_live_secs: None,
                time_to_idle_secs: Some(LAST_WRITE_VERSION_IDLE_SECS),
                max_capacity: None,
            },
            replica_tag: if config.read_only {
                Some(config.dr_tag)
            } else {
                None
            },
            content_cache,
            auto_create_ns: config.auto_create_ns,
        }
    }

    /// Whether the store can only be read.
    pub fn is_read_only(&self) -> (r: bool)
        ensures
            r == (self.replica_tag is Some),
    {
        self.replica_tag.is_some()
    }
}

/// An open store keeps to its configuration: its keys begin with the bytes of the prefix, it can
/// only be read exactly if it was configured so, and then under the tag of its replication, and
/// it keeps as many contents in memory as it was told to.
pub proof fn store_keeps_to_its_configuration(config: CoreConfig, core: Core, read_only: bool)
    requires
        call_ensures(Core::open, (config,), core),
        call_ensures(Core::is_read_only, (&core,), read_only),
    ensures
        core.cluster@ == config.cluster@,
        core.key_codec.raw_data_prefix@ == vstd::utf8::encode_utf8(config.raw_data_prefix@),
        core.key_codec.metadata_prefix@ == config.metadata_prefix@,
        core.auto_create_ns == config.auto_create_ns,
        read_only == config.read_only,
        core.replica_tag is Some <==> config.read_only,
        core.replica_tag matches Some(tag) ==> tag@ == config.dr_tag@,
        core.content_cache is Some <==> config.content_cache_size > 0,
        core.content_cache matches Some(policy) ==> {
            &&& policy.max_capacity == Some(config.content_cache_size as u64)
            &&& policy.time_to_live_secs is None
            &&& policy.time_to_idle_secs is None
        },
{
}

/// A cached key, read version or last write version is not kept for ever, and a read version not
/// as long as the five seconds for which the database itself keeps it.
pub proof fn caches_expire(config: CoreConfig, core: Core)
    requires
        call_ensures(Core::open, (config,), core),
    ensures
        core.nskey_cache.time_to_live_secs == Some(120u64),
        core.nskey_cache.time_to_idle_secs == Some(5u64),
        core.nskey_cache.max_capacity == Some(10000u64),
        core.read_version_cache.time_to_live_secs == Some(2u64),
        core.read_version_cache.time_to_idle_secs is None,
        core.read_version_cache.max_capacity == Some(1000u64),
        core.read_version_and_nsid_to_lwv_cache.time_to_live_secs is None,
        core.read_version_and_nsid_to_lwv_cache.time_to_idle_secs == Some(2u64),
        core.read_version_and_nsid_to_lwv_cache.max_capacity is None,
{
}

} // verus!
