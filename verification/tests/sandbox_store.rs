//! Path sandboxing, target validation, the sidecar codec, upload digests,
//! and the sticky-failure byte stream.

use fileserve::metadata::encode_metadata;
use fileserve::metadata::parse_metadata;
use fileserve::sandbox::resolve;
use fileserve::ByteStream;
use fileserve::FileMetadata;
use fileserve::FileSource;
use fileserve::FileStore;
use fileserve::FsFile;
use fileserve::FsFileStore;
use fileserve::RemoveAction;
use fileserve::StoreError;
use fileserve::StoredFile;
use fileserve::StoredFileCore;
use fileserve::StreamYield;
use fileserve::UploadSession;

fn b(s: &str) -> Vec<u8> {
    s.as_bytes().to_vec()
}

fn segs(p: &[&str]) -> Vec<Vec<u8>> {
    p.iter().map(|s| s.as_bytes().to_vec()).collect()
}

#[test]
fn resolve_traversal_rejected() {
    let root = segs(&["files"]);
    assert!(resolve(&root, &b("../../etc/passwd")).is_none());
    assert!(resolve(&root, &b("a/../../b")).is_none());
    assert!(resolve(&root, &b("/etc/passwd")).is_none());
    let root2 = segs(&["srv", "data"]);
    assert!(resolve(&root2, &b("../../etc/passwd")).is_none());
    assert!(resolve(&root2, &b("a/../../b")).is_none());
}

#[test]
fn resolve_normalizes_within_root() {
    let root = segs(&["files"]);
    assert_eq!(
        resolve(&root, &b("a/./b/../c.txt")),
        Some(segs(&["files", "a", "c.txt"]))
    );
    assert_eq!(resolve(&root, &b("x//y")), Some(segs(&["files", "x", "y"])));
    assert!(resolve(&root, &b("")).is_none());
    assert!(resolve(&root, &b(".")).is_none());
    assert!(resolve(&root, &b("a/..")).is_none());
}

#[test]
fn upload_target_validation() {
    let store = FsFileStore::new(&b("files"));
    assert!(matches!(
        store.upload_target(&b("../../secrets")),
        Err(StoreError::SandboxViolation)
    ));
    assert!(matches!(
        store.upload_target(&b("api/x")),
        Err(StoreError::SandboxViolation)
    ));
    assert!(matches!(
        store.upload_target(&b("notes/x.MetaData.Json")),
        Err(StoreError::SandboxViolation)
    ));
    assert_eq!(
        store.upload_target(&b("notes/x.txt")),
        Ok(segs(&["files", "notes", "x.txt"]))
    );
}

#[test]
fn remove_plan_idempotent_success() {
    let store = FsFileStore::new(&b("files"));
    assert!(matches!(
        store.remove_plan(&b("gone.txt"), false),
        Ok(RemoveAction::Nothing)
    ));
    match store.remove_plan(&b("there.txt"), true) {
        Ok(RemoveAction::Delete { target, sidecar }) => {
            assert_eq!(target, segs(&["files", "there.txt"]));
            assert_eq!(sidecar, segs(&["files", "there.txt.metadata.json"]));
        }
        _ => panic!("expected a delete plan"),
    }
    // once deleted the target no longer exists, so planning again does nothing
    assert!(matches!(
        store.remove_plan(&b("there.txt"), false),
        Ok(RemoveAction::Nothing)
    ));
    assert!(matches!(
        store.remove_plan(&b("../x"), false),
        Err(StoreError::SandboxViolation)
    ));
}

#[test]
fn upload_session_digest_and_size() {
    let mut s = UploadSession::new();
    assert!(s.update(b"hello"));
    assert!(s.update(b" world"));
    let m = s.finish();
    assert_eq!(m.size_bytes, 11);
    assert_eq!(
        m.hash,
        b"b94d27b9934d3e08a52e52d7da7dabfac484efe37a5380ee9088f7ace2efcde9".to_vec()
    );
}

#[test]
fn upload_session_empty() {
    let s = UploadSession::new();
    let m = s.finish();
    assert_eq!(m.size_bytes, 0);
    assert_eq!(
        m.hash,
        b"e3b0c44298fc1c149afbf4c8996fb92427ae41e4649b934ca495991b7852b855".to_vec()
    );
}

#[test]
fn metadata_encode_exact_bytes() {
    let m = FileMetadata {
        hash: b"ab12".to_vec(),
        size_bytes: 10,
    };
    assert_eq!(
        encode_metadata(&m),
        b"{\"hash\":\"ab12\",\"size_bytes\":10}".to_vec()
    );
    let d = FileMetadata {
        hash: Vec::new(),
        size_bytes: 0,
    };
    assert_eq!(encode_metadata(&d), b"{\"hash\":\"\",\"size_bytes\":0}".to_vec());
}

#[test]
fn metadata_parse_round_trip() {
    let m = FileMetadata {
        hash: b"00ff".to_vec(),
        size_bytes: 18446744073709551615,
    };
    let enc = encode_metadata(&m);
    let p = parse_metadata(&enc).unwrap();
    assert_eq!(p.hash, m.hash);
    assert_eq!(p.size_bytes, m.size_bytes);
}

#[test]
fn metadata_parse_rejects_noncanonical() {
    assert!(parse_metadata(b"").is_none());
    assert!(parse_metadata(b"{}").is_none());
    assert!(parse_metadata(b"not json at all").is_none());
    assert!(parse_metadata(b"{\"hash\":\"ab\",\"size_bytes\":01}").is_none());
    assert!(parse_metadata(b"{\"hash\":\"AB\",\"size_bytes\":1}").is_none());
    assert!(parse_metadata(b"{\"hash\":\"ab\",\"size_bytes\":18446744073709551616}").is_none());
    assert!(parse_metadata(b"{\"hash\":\"ab\",\"size_bytes\":1} ").is_none());
}

#[test]
fn fs_file_defaults_on_bad_sidecar() {
    let f = FsFile::new_existing(segs(&["files", "x"]), Some(b"not json"));
    assert_eq!(f.metadata().hash, Vec::<u8>::new());
    assert_eq!(f.metadata().size_bytes, 0);
    let f2 = FsFile::new_existing(segs(&["files", "x"]), None);
    assert_eq!(f2.metadata().size_bytes, 0);
    let f3 = FsFile::new_existing(
        segs(&["files", "x"]),
        Some(b"{\"hash\":\"aa\",\"size_bytes\":7}"),
    );
    assert_eq!(f3.metadata().hash, b"aa".to_vec());
    assert_eq!(f3.metadata().size_bytes, 7);
}

#[test]
fn byte_stream_sticky_failure() {
    let mut s = ByteStream::new();
    match s.next(Ok(b"abc".to_vec())) {
        StreamYield::Item(v) => assert_eq!(v, b"abc".to_vec()),
        _ => panic!("expected a chunk"),
    }
    assert!(matches!(
        s.next(Err(StoreError::IoFailure)),
        StreamYield::ErrorOnce
    ));
    // after the single error item the sequence is exhausted for good
    assert!(matches!(s.next(Ok(b"more".to_vec())), StreamYield::Finished));
    assert!(matches!(
        s.next(Err(StoreError::IoFailure)),
        StreamYield::Finished
    ));
    let mut t = ByteStream::new();
    assert!(matches!(t.next(Ok(Vec::new())), StreamYield::Finished));
}

#[test]
fn file_store_from_source() {
    let src = FileSource::Local {
        base_dir: b"files".to_vec(),
    };
    let fs = FileStore::from_source(&src);
    assert!(fs.upload_target(&b("ok.txt")).is_ok());
    assert!(matches!(
        fs.remove_plan(&b("../nope"), false),
        Err(StoreError::SandboxViolation)
    ));
}

#[test]
fn store_cache_handles() {
    let mut store = FsFileStore::new(&b("files"));
    let p = store.full_path(&b("a.txt")).unwrap();
    assert!(store.cache_lookup(&p, 0).is_none());
    let f = StoredFile::Filesystem(FsFile::new_existing(p.clone(), None));
    store.cache_admit(f, 0);
    assert!(store.cache_lookup(&p, 1).is_some());
    store.cache_invalidate(&p);
    assert!(store.cache_lookup(&p, 1).is_none());
}
