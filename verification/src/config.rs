//! Configuration consumed by the library: where files live, how the server
//! binds, and how the in-memory byte cache behaves. Path and host text is
//! held as raw bytes.

use vstd::prelude::*;

verus! {

/// Where stored files come from. A closed set of backends; the local
/// filesystem is the only built-in one.
pub enum FileSource {
    Local { base_dir: Vec<u8> },
}

/// The default storage root, `files`.
pub open spec fn default_base_dir() -> Seq<u8> {
    seq![102u8, 105u8, 108u8, 101u8, 115u8]
}

/// The default bind host, `0.0.0.0`.
pub open spec fn default_host_text() -> Seq<u8> {
    seq![48u8, 46u8, 48u8, 46u8, 48u8, 46u8, 48u8]
}

impl Default for FileSource {
    /// Files live under the relative directory `files`.
    fn default() -> (r: Self)
        ensures
            (r matches FileSource::Local { base_dir } && base_dir@ == default_base_dir()),
    {
        let mut d: Vec<u8> = Vec::new();
        d.push(102);
        d.push(105);
        d.push(108);
        d.push(101);
        d.push(115);
        proof {
            assert(d@ =~= default_base_dir());
        }
        FileSource::Local { base_dir: d }
    }
}

/// Settings for the in-memory byte cache.
pub struct MemoryCache {
    /// Whether small reads are buffered and cached at all.
    pub enabled: bool,
    /// Time-to-live of a cached entry, in seconds.
    pub cache_time_secs: u64,
    /// Largest file size, in bytes, that may be buffered into the cache.
    pub max_size_bytes: u64,
    /// How many files the cache holds at most.
    pub max_files_cached: usize,
}

/// Caching defaults to on.
pub fn default_enabled() -> (r: bool)
    ensures
        r == true,
{
    true
}

/// Cached entries live five minutes by default.
pub fn default_cache_time_secs() -> (r: u64)
    ensures
        r == 300,
{
    300
}

/// Files up to ten megabytes are buffered by default.
pub fn default_max_size_bytes() -> (r: u64)
    ensures
        r == 10485760,
{
    10485760
}

/// At most one hundred files are cached by default.
pub fn default_max_files_cached() -> (r: usize)
    ensures
        r == 100,
{
    100
}

impl Default for MemoryCache {
    /// The documented cache defaults.
    fn default() -> (r: Self)
        ensures
            r.enabled == true,
            r.cache_time_secs == 300,
            r.max_size_bytes == 10485760,
            r.max_files_cached == 100,
    {
        MemoryCache {
            enabled: default_enabled(),
            cache_time_secs: default_cache_time_secs(),
            max_size_bytes: default_max_size_bytes(),
            max_files_cached: default_max_files_cached(),
        }
    }
}

/// Everything the server needs at startup.
pub struct ServerConfig {
    /// Bind host, as text bytes.
    pub host: Vec<u8>,
    /// Bind port.
    pub port: u16,
    /// Storage backend.
    pub files_source: FileSource,
    /// Byte cache settings.
    pub memory_cache: MemoryCache,
}

/// The default bind host, `0.0.0.0`.
pub fn default_host() -> (r: Vec<u8>)
    ensures
        r@ == default_host_text(),
{
    let mut h: Vec<u8> = Vec::new();
    h.push(48);
    h.push(46);
    h.push(48);
    h.push(46);
    h.push(48);
    h.push(46);
    h.push(48);
    proof {
        assert(h@ =~= default_host_text());
    }
    h
}

/// The default bind port.
pub fn default_port() -> (r: u16)
    ensures
        r == 3000,
{
    3000
}

impl Default for ServerConfig {
    /// The documented server defaults.
    fn default() -> (r: Self)
        ensures
            r.host@ == default_host_text(),
            r.port == 3000,
            (r.files_source matches FileSource::Local { base_dir } && base_dir@
                == default_base_dir()),
            r.memory_cache.enabled == true,
            r.memory_cache.cache_time_secs == 300,
            r.memory_cache.max_size_bytes == 10485760,
            r.memory_cache.max_files_cached == 100,
    {
        ServerConfig {
            host: default_host(),
            port: default_port(),
            files_source: FileSource::default(),
            memory_cache: MemoryCache::default(),
        }
    }
}

} // verus!
