//! The request-serving policy end to end: conditional requests, the byte
//! cache, content types, the download flag, and bearer-header parsing.

use fileserve::auth::bearer_token;
use fileserve::cache_control_value;
use fileserve::pick_content_type;
use fileserve::respond_from_entry;
use fileserve::sandbox::join_path;
use fileserve::serve_buffered;
use fileserve::serve_lookup;
use fileserve::should_buffer;
use fileserve::string_bool;
use fileserve::AuthPayload;
use fileserve::CacheMap;
use fileserve::CachedFileEntry;
use fileserve::CachedOutcome;
use fileserve::FileSource;
use fileserve::MemoryCache;
use fileserve::ServeStep;
use fileserve::ServerConfig;

const HELLO_HASH: &[u8] = b"b94d27b9934d3e08a52e52d7da7dabfac484efe37a5380ee9088f7ace2efcde9";

#[test]
fn conditional_get_not_modified() {
    let entry = CachedFileEntry::new(b"hello world".to_vec());
    assert_eq!(entry.hash(), &HELLO_HASH.to_vec());
    let inm = HELLO_HASH.to_vec();
    assert!(matches!(
        respond_from_entry(&entry, Some(&inm)),
        CachedOutcome::NotModified
    ));
    let other = b"deadbeef".to_vec();
    match respond_from_entry(&entry, Some(&other)) {
        CachedOutcome::Full { hash, bytes } => {
            assert_eq!(hash, HELLO_HASH.to_vec());
            assert_eq!(bytes.as_slice(), b"hello world");
        }
        _ => panic!("expected the full body"),
    }
    assert!(matches!(
        respond_from_entry(&entry, None),
        CachedOutcome::Full { .. }
    ));
}

#[test]
fn upload_then_get_scenario() {
    let root = vec![b"files".to_vec()];
    let mut cache: CacheMap<CachedFileEntry> = CacheMap::new();
    let path = b"reports/q1.csv".to_vec();
    let body = b"0123456789".to_vec();
    // first read: nothing cached, the policy asks for the file on disk
    let resolved = match serve_lookup(&root, &mut cache, &path, None, 0) {
        ServeStep::NeedFile(p) => p,
        _ => panic!("expected a miss"),
    };
    assert_eq!(
        resolved,
        vec![b"files".to_vec(), b"reports".to_vec(), b"q1.csv".to_vec()]
    );
    // ten bytes: well under the threshold, so it is buffered and cached
    let cfg = MemoryCache {
        enabled: true,
        cache_time_secs: 300,
        max_size_bytes: 10485760,
        max_files_cached: 100,
    };
    assert!(should_buffer(&cfg, body.len() as u64));
    let etag = match serve_buffered(&mut cache, &resolved, None, 0, body.clone()) {
        CachedOutcome::Full { hash, bytes } => {
            assert_eq!(bytes.as_slice(), &body[..]);
            hash
        }
        _ => panic!("expected the full body"),
    };
    assert_eq!(
        etag,
        b"84d89877f0d4041efb6bf91a16f0248f2fd573e6af05c19f96bedb9f882f7882".to_vec()
    );
    // a matching validator answers with no body
    assert!(matches!(
        serve_lookup(&root, &mut cache, &path, Some(&etag), 1),
        ServeStep::Answered(CachedOutcome::NotModified)
    ));
    // no validator: the cached bytes come back unchanged
    match serve_lookup(&root, &mut cache, &path, None, 2) {
        ServeStep::Answered(CachedOutcome::Full { hash, bytes }) => {
            assert_eq!(hash, etag);
            assert_eq!(bytes.as_slice(), &body[..]);
        }
        _ => panic!("expected a cache hit"),
    }
    // a deletion invalidates the entry; the next read goes to disk again
    let key = join_path(&resolved);
    cache.invalidate(&key);
    assert!(matches!(
        serve_lookup(&root, &mut cache, &path, Some(&etag), 3),
        ServeStep::NeedFile(_)
    ));
}

#[test]
fn expired_cache_entry_forces_reread() {
    let root = vec![b"files".to_vec()];
    let mut cache: CacheMap<CachedFileEntry> = CacheMap::new().with_ttl(10);
    let path = b"a.txt".to_vec();
    let resolved = match serve_lookup(&root, &mut cache, &path, None, 0) {
        ServeStep::NeedFile(p) => p,
        _ => panic!("expected a miss"),
    };
    serve_buffered(&mut cache, &resolved, None, 0, b"x".to_vec());
    assert!(matches!(
        serve_lookup(&root, &mut cache, &path, None, 5),
        ServeStep::Answered(_)
    ));
    assert!(matches!(
        serve_lookup(&root, &mut cache, &path, None, 10),
        ServeStep::NeedFile(_)
    ));
}

#[test]
fn forbidden_paths_never_reach_disk() {
    let root = vec![b"files".to_vec()];
    let mut cache: CacheMap<CachedFileEntry> = CacheMap::new();
    assert!(matches!(
        serve_lookup(&root, &mut cache, &b"../../secrets".to_vec(), None, 0),
        ServeStep::Forbidden
    ));
    assert!(matches!(
        serve_lookup(&root, &mut cache, &b"/etc/passwd".to_vec(), None, 0),
        ServeStep::Forbidden
    ));
}

#[test]
fn content_type_selection() {
    assert_eq!(
        pick_content_type(&b"reports/q1.csv".to_vec(), false),
        b"text/csv".to_vec()
    );
    assert_eq!(
        pick_content_type(&b"page.html".to_vec(), false),
        b"text/plain; charset=utf-8".to_vec()
    );
    assert_eq!(
        pick_content_type(&b"noext".to_vec(), false),
        b"text/plain; charset=utf-8".to_vec()
    );
    assert_eq!(
        pick_content_type(&b"page.html".to_vec(), true),
        b"application/octet-stream".to_vec()
    );
    assert_eq!(cache_control_value(), b"public, max-age=3600".to_vec());
}

#[test]
fn download_flag_parsing() {
    for s in ["", "y", "Y", "yes", "YES", "t", "true", "TRUE", "1"] {
        assert!(string_bool(s.as_bytes()), "{s:?} should read as true");
    }
    for s in ["n", "no", "false", "0", "tru", "yess", "11", "download"] {
        assert!(!string_bool(s.as_bytes()), "{s:?} should read as false");
    }
}

#[test]
fn should_buffer_respects_config() {
    let mut cfg = MemoryCache {
        enabled: true,
        cache_time_secs: 300,
        max_size_bytes: 100,
        max_files_cached: 10,
    };
    assert!(should_buffer(&cfg, 100));
    assert!(!should_buffer(&cfg, 101));
    cfg.enabled = false;
    assert!(!should_buffer(&cfg, 1));
}

#[test]
fn bearer_header_parsing() {
    assert_eq!(bearer_token(b"Bearer abc.def"), Some(b"abc.def".to_vec()));
    assert_eq!(bearer_token(b"Basic abc"), None);
    assert_eq!(bearer_token(b"Bearer"), None);
    assert_eq!(bearer_token(b"Bearer "), Some(Vec::new()));
    assert_eq!(bearer_token(b"bearer abc"), None);
    let p = AuthPayload::new(vec![String::from("upload")]);
    assert_eq!(p.permissions(), &[String::from("upload")][..]);
}

#[test]
fn config_defaults() {
    let c = ServerConfig::default();
    assert_eq!(c.host, b"0.0.0.0".to_vec());
    assert_eq!(c.port, 3000);
    match c.files_source {
        FileSource::Local { base_dir } => assert_eq!(base_dir, b"files".to_vec()),
    }
    assert!(c.memory_cache.enabled);
    assert_eq!(c.memory_cache.cache_time_secs, 300);
    assert_eq!(c.memory_cache.max_size_bytes, 10 * 1024 * 1024);
    assert_eq!(c.memory_cache.max_files_cached, 100);
    assert_eq!(fileserve::config::default_cache_time_secs(), 300);
    assert_eq!(fileserve::config::default_port(), 3000);
    assert!(fileserve::config::default_enabled());
    assert_eq!(fileserve::config::default_max_files_cached(), 100);
    assert_eq!(fileserve::config::default_max_size_bytes(), 10485760);
    assert_eq!(fileserve::config::default_host(), b"0.0.0.0".to_vec());
}
