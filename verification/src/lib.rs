//! A sandboxed file-serving library: a bounded time-and-recency eviction
//! cache, content-addressed file storage with safe path resolution, and the
//! policy that decides how each request is answered.

pub mod auth;
pub mod cache_map;
pub mod config;
pub mod digest;
pub mod metadata;
pub mod sandbox;
pub mod serve;
pub mod state;
pub mod store;

pub use auth::AuthPayload;
pub use cache_map::CacheEntry;
pub use cache_map::CacheMap;
pub use config::FileSource;
pub use config::MemoryCache;
pub use config::ServerConfig;
pub use metadata::FileMetadata;
pub use state::CachedFileEntry;
pub use state::SharedBytes;
pub use store::FileStore;
pub use store::FsFile;
pub use store::FsFileStore;
pub use store::RemoveAction;
pub use store::StoreError;
pub use store::StoredFile;
pub use store::StoredFileCore;
pub use store::ByteStream;
pub use store::StreamYield;
pub use store::UploadSession;
pub use store::metadata_path;
pub use serve::CachedOutcome;
pub use serve::ServeStep;
pub use serve::cache_control_value;
pub use serve::pick_content_type;
pub use serve::respond_from_entry;
pub use serve::serve_buffered;
pub use serve::serve_lookup;
pub use serve::should_buffer;
pub use serve::string_bool;
