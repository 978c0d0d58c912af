//! Content-addressed file storage over a sandboxed root: target validation
//! for uploads and deletions, the streaming digest session that accompanies
//! an upload, handles to stored files with their sidecar metadata, and the
//! store's handle cache.
//!
//! The backing filesystem itself is reached by the surrounding program; this
//! module decides which paths may be touched, what an upload must write, and
//! what every such step means over a model of the backing store as a map
//! from resolved paths to byte contents.

use vstd::prelude::*;

use crate::cache_map::CacheEntry;
use crate::cache_map::CacheMap;
use crate::config::FileSource;
use crate::digest::sha256_hex_of;
use crate::digest::DigestState;
use crate::metadata::encode_spec;
use crate::metadata::hash_wf;
use crate::metadata::parse_metadata;
use crate::metadata::FileMetadata;
use crate::sandbox::ends_with;
use crate::sandbox::join_spec;
use crate::sandbox::lower_byte;
use crate::sandbox::lower_seq;
use crate::sandbox::resolve_spec;
use crate::sandbox::split_segs;
use crate::sandbox::to_lower_byte;

verus! {

/// The suffix `.metadata.json` that marks a sidecar file.
pub open spec fn metadata_ext() -> Seq<u8> {
    seq![46u8, 109u8, 101u8, 116u8, 97u8, 100u8, 97u8, 116u8, 97u8, 46u8, 106u8, 115u8, 111u8, 110u8]
}

/// The reserved first segment `api` under the root.
pub open spec fn api_seg() -> Seq<u8> {
    seq![97u8, 112u8, 105u8]
}

/// The sidecar path of a stored file: the same path with the metadata
/// suffix appended to its final segment.
pub open spec fn metadata_path_spec(p: Seq<Seq<u8>>) -> Seq<Seq<u8>> {
    p.update(p.len() - 1, p.last() + metadata_ext())
}

/// Whether a resolved path may be written or deleted: its name must not
/// look like a sidecar (case-insensitively), and it must not fall under the
/// reserved `api` namespace directly below the root.
pub open spec fn valid_target_spec(root: Seq<Seq<u8>>, p: Seq<Seq<u8>>) -> bool {
    &&& p.len() > 0
    &&& !ends_with(lower_seq(p.last()), metadata_ext())
    &&& !(p.len() > root.len() && p[root.len() as int] == api_seg())
}

/// How a store operation fails.
#[derive(Debug, PartialEq, Eq, Structural, Clone, Copy)]
pub enum StoreError {
    /// The path escapes the root, names the root, or uses a reserved name.
    SandboxViolation,
    /// The backing store failed mid-operation.
    IoFailure,
}

/// The suffix `.metadata.json`, as bytes.
fn lit_metadata_ext() -> (r: Vec<u8>)
    ensures
        r@ == metadata_ext(),
{
    let mut v: Vec<u8> = Vec::new();
    v.push(46);
    v.push(109);
    v.push(101);
    v.push(116);
    v.push(97);
    v.push(100);
    v.push(97);
    v.push(116);
    v.push(97);
    v.push(46);
    v.push(106);
    v.push(115);
    v.push(111);
    v.push(110);
    proof {
        assert(v@ =~= metadata_ext());
    }
    v
}

/// Whether a file name carries the sidecar suffix, ignoring ASCII case.
fn has_metadata_ext(name: &Vec<u8>) -> (r: bool)
    ensures
        r == ends_with(lower_seq(name@), metadata_ext()),
{
    let n = name.len();
    if n < 14 {
        return false;
    }
    let ext = lit_metadata_ext();
    let start = n - 14;
    let mut j: usize = 0;
    while j < 14
        invariant
            j <= 14,
            n == name@.len(),
            n >= 14,
            start == n - 14,
            ext@ == metadata_ext(),
            forall|q: int| 0 <= q < j ==> lower_byte(name@[start + q]) == metadata_ext()[q],
        decreases 14 - j,
    {
        if to_lower_byte(name[start + j]) != ext[j] {
            proof {
                let l = lower_seq(name@);
                if ends_with(l, metadata_ext()) {
                    assert(l.subrange(l.len() - 14, l.len() as int)[j as int]
                        == metadata_ext()[j as int]);
                    assert(l[start + j] == lower_byte(name@[start + j]));
                }
            }
            return false;
        }
        j = j + 1;
    }
    proof {
        let l = lower_seq(name@);
        assert(l.subrange(l.len() - 14, l.len() as int) =~= metadata_ext()) by {
            assert(forall|q: int|
                0 <= q < 14 ==> l.subrange(l.len() - 14, l.len() as int)[q]
                    == #[trigger] l[start + q]);
        }
    }
    true
}

/// Whether a segment is exactly `api`.
fn seg_is_api(seg: &Vec<u8>) -> (r: bool)
    ensures
        r == (seg@ == api_seg()),
{
    if seg.len() == 3 && seg[0] == 97 && seg[1] == 112 && seg[2] == 105 {
        proof {
            assert(seg@ =~= api_seg());
        }
        true
    } else {
        proof {
            if seg@ == api_seg() {
                assert(seg@[0] == 97 && seg@[1] == 112 && seg@[2] == 105);
            }
        }
        false
    }
}

/// The sidecar path of a stored file: the metadata suffix appended to the
/// final segment.
pub fn metadata_path(path: &Vec<Vec<u8>>) -> (r: Vec<Vec<u8>>)
    requires
        path@.len() > 0,
    ensures
        r.deep_view() == metadata_path_spec(path.deep_view()),
{
    let mut r = crate::sandbox::copy_path(path);
    let mut last = r.pop().unwrap();
    let mut ext = lit_metadata_ext();
    let ghost last0 = last@;
    last.append(&mut ext);
    proof {
        assert(last@ =~= last0 + metadata_ext());
    }
    let ghost r0 = r.deep_view();
    r.push(last);
    proof {
        assert(r.deep_view() =~~= r0.push(last0 + metadata_ext()));
        assert(r.deep_view() =~~= metadata_path_spec(path.deep_view()));
    }
    r
}

/// A stored file on the local filesystem: its resolved path, the path of
/// its sidecar, and the metadata read from that sidecar (or the default
/// when the sidecar was absent or unreadable).
#[derive(Clone)]
pub struct FsFile {
    path: Vec<Vec<u8>>,
    metadata_path: Vec<Vec<u8>>,
    metadata: FileMetadata,
}

/// Whether some well-formed record is encoded by these sidecar bytes.
pub open spec fn canonical_sidecar(b: Seq<u8>) -> bool {
    exists|h: Seq<u8>, sz: u64| hash_wf(h) && b == #[trigger] encode_spec(h, sz)
}

impl FsFile {
    /// The file's resolved path.
    pub closed spec fn path_spec(&self) -> Seq<Seq<u8>> {
        self.path.deep_view()
    }

    /// The sidecar's path.
    pub closed spec fn meta_path_spec(&self) -> Seq<Seq<u8>> {
        self.metadata_path.deep_view()
    }

    /// The recorded content hash.
    pub closed spec fn hash_spec(&self) -> Seq<u8> {
        self.metadata.hash@
    }

    /// The recorded size in bytes.
    pub closed spec fn size_spec(&self) -> u64 {
        self.metadata.size_bytes
    }

    /// A handle to an existing file, given the raw bytes of its sidecar if
    /// one could be read. A missing or non-canonical sidecar yields default
    /// metadata: unknown integrity is not an error.
    pub fn new_existing(file_path: Vec<Vec<u8>>, sidecar: Option<&[u8]>) -> (r: Self)
        requires
            file_path@.len() > 0,
        ensures
            r.path_spec() == file_path.deep_view(),
            r.meta_path_spec() == metadata_path_spec(file_path.deep_view()),
            forall|h: Seq<u8>, sz: u64|
                (sidecar matches Some(b) && hash_wf(h) && b@ == #[trigger] encode_spec(h, sz))
                    ==> r.hash_spec() == h && r.size_spec() == sz,
            (match sidecar {
                Some(b) => !canonical_sidecar(b@),
                None => true,
            }) ==> r.hash_spec().len() == 0 && r.size_spec() == 0,
    {
        let meta_path = metadata_path(&file_path);
        let metadata = match sidecar {
            Some(b) => match parse_metadata(b) {
                Some(m) => m,
                None => FileMetadata::default(),
            },
            None => FileMetadata::default(),
        };
        FsFile { path: file_path, metadata_path: meta_path, metadata }
    }

    /// The file's resolved path.
    pub fn path(&self) -> (r: &Vec<Vec<u8>>)
        ensures
            r.deep_view() == self.path_spec(),
    {
        &self.path
    }
}

/// What a stored file exposes: its recorded metadata.
pub trait StoredFileCore {
    /// The recorded content hash.
    spec fn hash_spec(&self) -> Seq<u8>;

    /// The recorded size in bytes.
    spec fn size_spec(&self) -> u64;

    /// The metadata record.
    fn metadata(&self) -> (r: &FileMetadata)
        ensures
            r.hash@ == self.hash_spec(),
            r.size_bytes == self.size_spec(),
    ;
}

impl StoredFileCore for FsFile {
    open spec fn hash_spec(&self) -> Seq<u8> {
        FsFile::hash_spec(self)
    }

    open spec fn size_spec(&self) -> u64 {
        FsFile::size_spec(self)
    }

    fn metadata(&self) -> (r: &FileMetadata) {
        &self.metadata
    }
}

/// A stored file from any backend; the local filesystem is the only
/// built-in one.
#[derive(Clone)]
pub enum StoredFile {
    Filesystem(FsFile),
}

impl StoredFile {
    /// The file inside, whatever the backend.
    pub open spec fn fs_spec(&self) -> FsFile {
        match self {
            StoredFile::Filesystem(f) => *f,
        }
    }

    /// The file's resolved path.
    pub fn path(&self) -> (r: &Vec<Vec<u8>>)
        ensures
            r.deep_view() == self.fs_spec().path_spec(),
    {
        match self {
            StoredFile::Filesystem(f) => f.path(),
        }
    }
}

impl StoredFileCore for StoredFile {
    open spec fn hash_spec(&self) -> Seq<u8> {
        self.fs_spec().hash_spec()
    }

    open spec fn size_spec(&self) -> u64 {
        self.fs_spec().size_spec()
    }

    fn metadata(&self) -> (r: &FileMetadata) {
        match self {
            StoredFile::Filesystem(f) => f.metadata(),
        }
    }
}

/// The local-filesystem store: the root it confines paths to, and a cache
/// of recently handed-out file handles keyed by resolved path.
pub struct FsFileStore {
    base: Vec<Vec<u8>>,
    cache: CacheMap<StoredFile>,
}

impl FsFileStore {
    /// The root's segments.
    pub closed spec fn base_spec(&self) -> Seq<Seq<u8>> {
        self.base.deep_view()
    }

    /// The handle cache.
    pub closed spec fn cache_spec(&self) -> CacheMap<StoredFile> {
        self.cache
    }

    /// Well-formed: the cache's keys are unique.
    pub open spec fn wf(&self) -> bool {
        self.cache_spec().wf()
    }

    /// A store rooted at `base_dir`, with an empty handle cache.
    pub fn new(base_dir: &Vec<u8>) -> (r: Self)
        ensures
            r.wf(),
            r.base_spec() == split_segs(base_dir@),
            r.cache_spec().spec_len() == 0,
            r.cache_spec().ttl() == 3600,
            r.cache_spec().cap() == 100,
            forall|k: Seq<u8>| !r.cache_spec().has(k),
    {
        FsFileStore { base: crate::sandbox::split_path(base_dir), cache: CacheMap::new() }
    }

    /// Resolve a request path against the root, or nothing when it escapes.
    pub fn full_path(&self, path: &Vec<u8>) -> (r: Option<Vec<Vec<u8>>>)
        ensures
            match r {
                Some(p) => resolve_spec(self.base_spec(), path@) == Some(p.deep_view()),
                None => resolve_spec(self.base_spec(), path@) is None,
            },
    {
        crate::sandbox::resolve(&self.base, path)
    }

    /// Whether a resolved path may be written or deleted.
    pub fn is_valid_path(&self, path: &Vec<Vec<u8>>) -> (r: bool)
        ensures
            r == valid_target_spec(self.base_spec(), path.deep_view()),
    {
        let n = path.len();
        if n == 0 {
            return false;
        }
        let name = &path[n - 1];
        proof {
            assert(path.deep_view().last() == name@);
        }
        if has_metadata_ext(name) {
            return false;
        }
        if n > self.base.len() {
            let seg = &path[self.base.len()];
            proof {
                assert(path.deep_view()[self.base@.len() as int] == seg@);
            }
            if seg_is_api(seg) {
                return false;
            }
        }
        true
    }

    /// Validate the target of an upload or deletion: resolved against the
    /// root and free of reserved names, else a sandbox violation.
    pub fn upload_target(&self, path: &Vec<u8>) -> (r: Result<Vec<Vec<u8>>, StoreError>)
        ensures
            (match resolve_spec(self.base_spec(), path@) {
                Option::Some(p) => {
                    if valid_target_spec(self.base_spec(), p) {
                        (r matches Ok(t) && t.deep_view() == p)
                    } else {
                        r matches Err(StoreError::SandboxViolation)
                    }
                },
                Option::None => r matches Err(StoreError::SandboxViolation),
            }),
    {
        match self.full_path(path) {
            None => Err(StoreError::SandboxViolation),
            Some(p) => {
                if self.is_valid_path(&p) {
                    Ok(p)
                } else {
                    Err(StoreError::SandboxViolation)
                }
            },
        }
    }

    /// What a deletion must do, given whether the target exists: deleting an
    /// absent file succeeds doing nothing; an existing file is deleted along
    /// with its sidecar.
    pub fn remove_plan(&self, path: &Vec<u8>, file_exists: bool) -> (r: Result<
        RemoveAction,
        StoreError,
    >)
        ensures
            (match resolve_spec(self.base_spec(), path@) {
                Option::Some(p) => {
                    if valid_target_spec(self.base_spec(), p) {
                        if file_exists {
                            (r matches Ok(a) && (a matches RemoveAction::Delete {
                                target,
                                sidecar,
                            } && target.deep_view() == p && sidecar.deep_view()
                                == metadata_path_spec(p)))
                        } else {
                            (r matches Ok(a) && (a is Nothing))
                        }
                    } else {
                        r matches Err(StoreError::SandboxViolation)
                    }
                },
                Option::None => r matches Err(StoreError::SandboxViolation),
            }),
    {
        let target = match self.upload_target(path) {
            Ok(t) => t,
            Err(e) => {
                return Err(e);
            },
        };
        if !file_exists {
            return Ok(RemoveAction::Nothing);
        }
        let sidecar = metadata_path(&target);
        Ok(RemoveAction::Delete { target, sidecar })
    }

    /// Consult the handle cache for a resolved path at instant `now`.
    pub fn cache_lookup(&mut self, resolved: &Vec<Vec<u8>>, now: u64) -> (r: Option<&StoredFile>)
        requires
            old(self).wf(),
        ensures
            final(self).wf(),
            final(self).base_spec() == old(self).base_spec(),
            ({
                let k = join_spec(resolved.deep_view());
                let pre = old(self).cache_spec();
                let post = final(self).cache_spec();
                &&& post.agrees_except(pre, k)
                &&& pre.has(k) && now >= pre.entry(k).expires_at ==> r is None && !post.has(k)
                &&& pre.has(k) && now < pre.entry(k).expires_at ==> (r matches Some(f) && *f
                    == pre.entry(k).value) && post.has(k) && post.entry(k) == (CacheEntry {
                    value: pre.entry(k).value,
                    last_accessed: now,
                    expires_at: pre.entry(k).expires_at,
                })
                &&& !pre.has(k) ==> r is None && !post.has(k)
            }),
    {
        let key = crate::sandbox::join_path(resolved);
        self.cache.get(&key, now)
    }

    /// Forget any cached handle for a resolved path; a deletion or
    /// overwrite calls this so stale handles are never served.
    pub fn cache_invalidate(&mut self, resolved: &Vec<Vec<u8>>)
        requires
            old(self).wf(),
        ensures
            final(self).wf(),
            final(self).base_spec() == old(self).base_spec(),
            !final(self).cache_spec().has(join_spec(resolved.deep_view())),
            final(self).cache_spec().agrees_except(
                old(self).cache_spec(),
                join_spec(resolved.deep_view()),
            ),
    {
        let key = crate::sandbox::join_path(resolved);
        self.cache.invalidate(&key);
    }

    /// Remember a handle under its resolved path at instant `now`.
    pub fn cache_admit(&mut self, file: StoredFile, now: u64)
        requires
            old(self).wf(),
            now + old(self).cache_spec().ttl() <= u64::MAX,
        ensures
            final(self).wf(),
            final(self).base_spec() == old(self).base_spec(),
            CacheMap::insert_post(
                old(self).cache_spec(),
                final(self).cache_spec(),
                join_spec(file.fs_spec().path_spec()),
                file,
                now,
            ),
    {
        let key = crate::sandbox::join_path(file.path());
        self.cache.insert(key, file, now);
    }
}

/// What a deletion does.
pub enum RemoveAction {
    /// The target does not exist: succeed without touching anything.
    Nothing,
    /// Delete the target and, if present, its sidecar.
    Delete { target: Vec<Vec<u8>>, sidecar: Vec<Vec<u8>> },
}

/// An upload in progress: the digest of everything streamed so far and the
/// byte count, fed one chunk at a time so that no full-file buffer is ever
/// needed.
pub struct UploadSession {
    digest: DigestState,
    written: u64,
}

impl UploadSession {
    /// The bytes fed so far.
    pub closed spec fn fed(&self) -> Seq<u8> {
        crate::digest::digest_bytes(self.digest)
    }

    /// The byte counter matches the bytes fed.
    pub closed spec fn wf(&self) -> bool {
        self.written == self.fed().len()
    }

    /// A fresh session: nothing fed yet.
    pub fn new() -> (r: Self)
        ensures
            r.wf(),
            r.fed() == Seq::<u8>::empty(),
    {
        UploadSession { digest: DigestState::new(), written: 0 }
    }

    /// How many bytes have been fed.
    pub fn written(&self) -> (r: u64)
        requires
            self.wf(),
        ensures
            r == self.fed().len(),
    {
        self.written
    }

    /// Feed one chunk. Succeeds unless the total would no longer fit in a
    /// byte counter; a refused chunk leaves the session untouched.
    pub fn update(&mut self, chunk: &[u8]) -> (ok: bool)
        requires
            old(self).wf(),
        ensures
            final(self).wf(),
            ok == (old(self).fed().len() + chunk@.len() <= u64::MAX),
            ok ==> final(self).fed() == old(self).fed() + chunk@,
            !ok ==> *final(self) == *old(self),
    {
        let n = chunk.len() as u64;
        if n > u64::MAX - self.written {
            return false;
        }
        self.digest.update(chunk);
        self.written = self.written + n;
        true
    }

    /// Finish the upload: the metadata to record beside the file, holding
    /// the digest of exactly the bytes fed and their count.
    pub fn finish(self) -> (r: FileMetadata)
        requires
            self.wf(),
        ensures
            r.hash@ == sha256_hex_of(self.fed()),
            r.size_bytes == self.fed().len(),
            hash_wf(r.hash@),
    {
        let UploadSession { digest, written } = self;
        let hash = FileMetadata::hash_to_hex(digest);
        FileMetadata { hash, size_bytes: written }
    }
}

/// The store behind any configured source; dispatches to the one built-in
/// backend.
pub enum FileStore {
    Filesystem(FsFileStore),
}

impl FileStore {
    /// The filesystem store inside.
    pub open spec fn fs_spec(&self) -> FsFileStore {
        match self {
            FileStore::Filesystem(s) => *s,
        }
    }

    /// The store a configured source names.
    pub fn from_source(value: &FileSource) -> (r: Self)
        ensures
            (match value {
                FileSource::Local { base_dir } => (r matches FileStore::Filesystem(s) && s.wf()
                    && s.base_spec() == split_segs(base_dir@) && s.cache_spec().spec_len() == 0),
            }),
    {
        match value {
            FileSource::Local { base_dir } => FileStore::Filesystem(FsFileStore::new(base_dir)),
        }
    }

    /// Validate an upload or deletion target.
    pub fn upload_target(&self, path: &Vec<u8>) -> (r: Result<Vec<Vec<u8>>, StoreError>)
        ensures
            (match resolve_spec(self.fs_spec().base_spec(), path@) {
                Option::Some(p) => {
                    if valid_target_spec(self.fs_spec().base_spec(), p) {
                        (r matches Ok(t) && t.deep_view() == p)
                    } else {
                        r matches Err(StoreError::SandboxViolation)
                    }
                },
                Option::None => r matches Err(StoreError::SandboxViolation),
            }),
    {
        match self {
            FileStore::Filesystem(s) => s.upload_target(path),
        }
    }

    /// Plan a deletion.
    pub fn remove_plan(&self, path: &Vec<u8>, file_exists: bool) -> (r: Result<
        RemoveAction,
        StoreError,
    >)
        ensures
            (match resolve_spec(self.fs_spec().base_spec(), path@) {
                Option::Some(p) => {
                    if valid_target_spec(self.fs_spec().base_spec(), p) {
                        if file_exists {
                            (r matches Ok(a) && (a matches RemoveAction::Delete {
                                target,
                                sidecar,
                            } && target.deep_view() == p && sidecar.deep_view()
                                == metadata_path_spec(p)))
                        } else {
                            (r matches Ok(a) && (a is Nothing))
                        }
                    } else {
                        r matches Err(StoreError::SandboxViolation)
                    }
                },
                Option::None => r matches Err(StoreError::SandboxViolation),
            }),
    {
        match self {
            FileStore::Filesystem(s) => s.remove_plan(path, file_exists),
        }
    }
}

/// What the lazy byte sequence of a stored file yields for one underlying
/// read.
pub enum StreamYield {
    /// A chunk of content.
    Item(Vec<u8>),
    /// The single error item a failed read produces.
    ErrorOnce,
    /// The sequence is over; nothing more will ever come.
    Finished,
}

/// The state of a lazy, forward-only, single-pass byte sequence with sticky
/// failure: once a read has failed, exactly one error item is produced and
/// the sequence is exhausted — it never retries and never resumes.
pub struct ByteStream {
    failed: bool,
}

impl ByteStream {
    /// Whether a read has already failed.
    pub closed spec fn failed_spec(&self) -> bool {
        self.failed
    }

    /// A fresh sequence.
    pub fn new() -> (r: Self)
        ensures
            !r.failed_spec(),
    {
        ByteStream { failed: false }
    }

    /// Turn one underlying read result into what the sequence yields. A
    /// chunk passes through, an empty read ends the sequence, and an error
    /// is yielded once, after which every call yields nothing.
    pub fn next(&mut self, read: Result<Vec<u8>, StoreError>) -> (y: StreamYield)
        ensures
            old(self).failed_spec() ==> y is Finished && final(self).failed_spec(),
            !old(self).failed_spec() ==> (match read {
                Ok(chunk) => {
                    &&& !final(self).failed_spec()
                    &&& chunk@.len() == 0 ==> y is Finished
                    &&& chunk@.len() > 0 ==> (y matches StreamYield::Item(c) && c@ == chunk@)
                },
                Err(_) => y is ErrorOnce && final(self).failed_spec(),
            }),
    {
        if self.failed {
            return StreamYield::Finished;
        }
        match read {
            Ok(chunk) => {
                if chunk.len() == 0 {
                    StreamYield::Finished
                } else {
                    StreamYield::Item(chunk)
                }
            },
            Err(_) => {
                self.failed = true;
                StreamYield::ErrorOnce
            },
        }
    }
}

/// A model of the backing store: resolved paths to file contents.
pub open spec fn upload_effect(
    files: Map<Seq<Seq<u8>>, Seq<u8>>,
    p: Seq<Seq<u8>>,
    bytes: Seq<u8>,
) -> Map<Seq<Seq<u8>>, Seq<u8>> {
    files.insert(p, bytes)
}

/// What a deletion does to the backing store.
pub open spec fn remove_effect(files: Map<Seq<Seq<u8>>, Seq<u8>>, p: Seq<Seq<u8>>) -> Map<
    Seq<Seq<u8>>,
    Seq<u8>,
> {
    files.remove(p)
}

/// Reading a path from the backing store.
pub open spec fn read_file(files: Map<Seq<Seq<u8>>, Seq<u8>>, p: Seq<Seq<u8>>) -> Option<Seq<u8>> {
    if files.contains_key(p) {
        Some(files[p])
    } else {
        None
    }
}

/// Uploading a byte sequence and immediately reading the same path back
/// yields exactly those bytes; the hash recorded beside them is the digest
/// of those bytes (the ensures of `UploadSession::finish`).
pub proof fn lemma_upload_read_round_trip(
    files: Map<Seq<Seq<u8>>, Seq<u8>>,
    p: Seq<Seq<u8>>,
    bytes: Seq<u8>,
)
    ensures
        read_file(upload_effect(files, p, bytes), p) == Some(bytes),
{
}

/// Deleting is idempotent: deleting an absent path changes nothing, so
/// deleting twice equals deleting once, and the path is absent afterwards.
pub proof fn lemma_remove_idempotent(files: Map<Seq<Seq<u8>>, Seq<u8>>, p: Seq<Seq<u8>>)
    ensures
        remove_effect(remove_effect(files, p), p) == remove_effect(files, p),
        read_file(remove_effect(files, p), p) is None,
        !files.contains_key(p) ==> remove_effect(files, p) == files,
{
    assert(remove_effect(remove_effect(files, p), p) =~= remove_effect(files, p));
    if !files.contains_key(p) {
        assert(remove_effect(files, p) =~= files);
    }
}

} // verus!
