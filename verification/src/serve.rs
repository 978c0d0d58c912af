//! The request-serving policy: how a single read is answered. The caller
//! resolves the path, consults the byte cache, decides between buffering a
//! small file into the cache and streaming a large one straight from disk,
//! and applies conditional-request semantics with the content hash as the
//! validator.
//!
//! Everything here is a pure function of the request, the cache state, the
//! supplied instant, and what the caller read from disk; the surrounding
//! program performs the reads and sends the answer.

use vstd::prelude::*;
use vstd::std_specs::cmp::PartialEqSpec;

use crate::cache_map::CacheEntry;
use crate::cache_map::CacheMap;
use crate::config::MemoryCache;
use crate::digest::sha256_hex_of;
use crate::sandbox::join_spec;
use crate::sandbox::lower_byte;
use crate::sandbox::lower_seq;
use crate::sandbox::resolve_spec;
use crate::sandbox::to_lower_byte;
use crate::state::CachedFileEntry;
use crate::state::SharedBytes;

verus! {

/// The generic binary content type, `application/octet-stream`.
pub open spec fn octet_stream_text() -> Seq<u8> {
    seq![97u8, 112u8, 112u8, 108u8, 105u8, 99u8, 97u8, 116u8, 105u8, 111u8, 110u8, 47u8, 111u8, 99u8, 116u8, 101u8, 116u8, 45u8, 115u8, 116u8, 114u8, 101u8, 97u8, 109u8]
}

/// The safe text fallback, `text/plain; charset=utf-8`.
pub open spec fn text_plain_text() -> Seq<u8> {
    seq![116u8, 101u8, 120u8, 116u8, 47u8, 112u8, 108u8, 97u8, 105u8, 110u8, 59u8, 32u8, 99u8, 104u8, 97u8, 114u8, 115u8, 101u8, 116u8, 61u8, 117u8, 116u8, 102u8, 45u8, 56u8]
}

/// The excluded subtype, `html`.
pub open spec fn html_text() -> Seq<u8> {
    seq![104u8, 116u8, 109u8, 108u8]
}

/// The caching hint attached to directly streamed answers,
/// `public, max-age=3600`.
pub open spec fn cache_control_text() -> Seq<u8> {
    seq![112u8, 117u8, 98u8, 108u8, 105u8, 99u8, 44u8, 32u8, 109u8, 97u8, 120u8, 45u8, 97u8, 103u8, 101u8, 61u8, 51u8, 54u8, 48u8, 48u8]
}

/// The content type mime_guess derives from a file name's extension, as a
/// bare `type/subtype` text: a function of the name alone.
pub uninterp spec fn mime_of(name: Seq<u8>) -> Option<Seq<u8>>;

/// Relies on mime_guess::from_path and Mime::essence_str: the first guess
/// for the file name's extension, as its bare `type/subtype` text, derived
/// from the name alone.
#[verifier::external_body]
fn guess_mime(name: &Vec<u8>) -> (r: Option<Vec<u8>>)
    ensures
        (match r {
            Some(m) => mime_of(name@) == Some(m@),
            None => mime_of(name@) is None,
        }),
{
    let text = match std::str::from_utf8(name.as_slice()) {
        Ok(t) => t,
        Err(_) => {
            return None;
        },
    };
    mime_guess::from_path(text).first().map(|m| m.essence_str().as_bytes().to_vec())
}

/// What follows the first `/`, or nothing at all.
pub open spec fn after_slash(m: Seq<u8>) -> Seq<u8>
    decreases m.len(),
{
    if m.len() == 0 {
        Seq::empty()
    } else if m[0] == 47 {
        m.skip(1)
    } else {
        after_slash(m.skip(1))
    }
}

/// Whether a `type/subtype` text names an HTML subtype.
fn subtype_is_html(m: &Vec<u8>) -> (r: bool)
    ensures
        r == (after_slash(m@) == html_text()),
{
    let n = m.len();
    let mut i: usize = 0;
    proof {
        assert(m@.skip(0) =~= m@);
    }
    while i < n && m[i] != 47
        invariant
            i <= n,
            n == m@.len(),
            after_slash(m@) == after_slash(m@.skip(i as int)),
            i < n ==> m@.skip(i as int)[0] == m@[i as int],
        decreases n - i,
    {
        proof {
            assert(m@.skip(i as int).skip(1) =~= m@.skip(i as int + 1));
        }
        i = i + 1;
    }
    if i >= n {
        proof {
            assert(m@.skip(n as int) =~= Seq::<u8>::empty());
            assert(after_slash(m@) =~= Seq::<u8>::empty());
        }
        return false;
    }
    proof {
        assert(m@.skip(i as int).skip(1) =~= m@.skip(i as int + 1));
        assert(after_slash(m@) == m@.skip(i as int + 1));
    }
    let rest_start = i + 1;
    if n - rest_start != 4 {
        proof {
            assert(m@.skip(rest_start as int).len() == n - rest_start);
        }
        return false;
    }
    let ok = m[rest_start] == 104 && m[rest_start + 1] == 116 && m[rest_start + 2] == 109
        && m[rest_start + 3] == 108;
    proof {
        let rest = m@.skip(rest_start as int);
        assert(forall|q: int| 0 <= q < 4 ==> rest[q] == m@[rest_start + q]);
        if ok {
            assert(rest =~= html_text());
        } else {
            if rest == html_text() {
                assert(rest[0] == 104 && rest[1] == 116 && rest[2] == 109 && rest[3] == 108);
            }
        }
    }
    ok
}

/// The content type an answer carries: forced binary in download mode, the
/// guessed type otherwise, except that HTML is never rendered and falls
/// back, like an unrecognized extension, to plain text.
pub fn pick_content_type(name: &Vec<u8>, download: bool) -> (r: Vec<u8>)
    ensures
        download ==> r@ == octet_stream_text(),
        !download ==> (match mime_of(name@) {
            Option::Some(m) => {
                if after_slash(m) == html_text() {
                    r@ == text_plain_text()
                } else {
                    r@ == m
                }
            },
            Option::None => r@ == text_plain_text(),
        }),
{
    if download {
        let mut v: Vec<u8> = Vec::new();
        v.push(97);
        v.push(112);
        v.push(112);
        v.push(108);
        v.push(105);
        v.push(99);
        v.push(97);
        v.push(116);
        v.push(105);
        v.push(111);
        v.push(110);
        v.push(47);
        v.push(111);
        v.push(99);
        v.push(116);
        v.push(101);
        v.push(116);
        v.push(45);
        v.push(115);
        v.push(116);
        v.push(114);
        v.push(101);
        v.push(97);
        v.push(109);
        proof {
            assert(v@ =~= octet_stream_text());
        }
        return v;
    }
    match guess_mime(name) {
        Some(m) => {
            if !subtype_is_html(&m) {
                return m;
            }
            text_plain()
        },
        None => text_plain(),
    }
}

/// The fallback content type, as bytes.
fn text_plain() -> (r: Vec<u8>)
    ensures
        r@ == text_plain_text(),
{
    let mut v: Vec<u8> = Vec::new();
    v.push(116);
    v.push(101);
    v.push(120);
    v.push(116);
    v.push(47);
    v.push(112);
    v.push(108);
    v.push(97);
    v.push(105);
    v.push(110);
    v.push(59);
    v.push(32);
    v.push(99);
    v.push(104);
    v.push(97);
    v.push(114);
    v.push(115);
    v.push(101);
    v.push(116);
    v.push(61);
    v.push(117);
    v.push(116);
    v.push(102);
    v.push(45);
    v.push(56);
    proof {
        assert(v@ =~= text_plain_text());
    }
    v
}

/// The caching hint for directly streamed answers, as bytes.
pub fn cache_control_value() -> (r: Vec<u8>)
    ensures
        r@ == cache_control_text(),
{
    let mut v: Vec<u8> = Vec::new();
    v.push(112);
    v.push(117);
    v.push(98);
    v.push(108);
    v.push(105);
    v.push(99);
    v.push(44);
    v.push(32);
    v.push(109);
    v.push(97);
    v.push(120);
    v.push(45);
    v.push(97);
    v.push(103);
    v.push(101);
    v.push(61);
    v.push(51);
    v.push(54);
    v.push(48);
    v.push(48);
    proof {
        assert(v@ =~= cache_control_text());
    }
    v
}

/// A download flag value is true when, lowercased, it is empty or one of
/// `y`, `yes`, `t`, `true`, `1`.
pub open spec fn string_bool_spec(s: Seq<u8>) -> bool {
    ||| lower_seq(s) == Seq::<u8>::empty()
    ||| lower_seq(s) == seq![121u8]
    ||| lower_seq(s) == seq![121u8, 101u8, 115u8]
    ||| lower_seq(s) == seq![116u8]
    ||| lower_seq(s) == seq![116u8, 114u8, 117u8, 101u8]
    ||| lower_seq(s) == seq![49u8]
}

/// Read a query flag's text as a boolean; its mere presence (the empty
/// string) counts as true.
pub fn string_bool(s: &[u8]) -> (r: bool)
    ensures
        r == string_bool_spec(s@),
{
    let n = s.len();
    proof {
        assert(lower_seq(s@).len() == n);
    }
    if n == 0 {
        proof {
            assert(lower_seq(s@) =~= Seq::<u8>::empty());
        }
        return true;
    }
    if n > 4 {
        proof {
            lemma_flag_words_shape(s@);
        }
        return false;
    }
    let b0 = to_lower_byte(s[0]);
    let r = if n == 1 {
        b0 == 121 || b0 == 116 || b0 == 49
    } else if n == 3 {
        b0 == 121 && to_lower_byte(s[1]) == 101 && to_lower_byte(s[2]) == 115
    } else if n == 4 {
        b0 == 116 && to_lower_byte(s[1]) == 114 && to_lower_byte(s[2]) == 117 && to_lower_byte(
            s[3],
        ) == 101
    } else {
        false
    };
    proof {
        let l = lower_seq(s@);
        assert(forall|q: int| 0 <= q < n ==> l[q] == lower_byte(s@[q]));
        if r {
            if n == 1 {
                if lower_byte(s@[0]) == 121 {
                    assert(l =~= seq![121u8]);
                } else if lower_byte(s@[0]) == 116 {
                    assert(l =~= seq![116u8]);
                } else {
                    assert(l =~= seq![49u8]);
                }
            } else if n == 3 {
                assert(l =~= seq![121u8, 101u8, 115u8]);
            } else {
                assert(l =~= seq![116u8, 114u8, 117u8, 101u8]);
            }
        } else {
            lemma_flag_words_shape(s@);
        }
    }
    r
}

/// The accepted flag words, by length and bytes: what a lowered text must
/// look like to count as true.
proof fn lemma_flag_words_shape(s: Seq<u8>)
    ensures
        string_bool_spec(s) ==> {
            let l = lower_seq(s);
            (l.len() == 0) || (l.len() == 1 && (l[0] == 121 || l[0] == 116 || l[0] == 49)) || (
            l.len() == 3 && l[0] == 121 && l[1] == 101 && l[2] == 115) || (l.len() == 4 && l[0]
                == 116 && l[1] == 114 && l[2] == 117 && l[3] == 101)
        },
{
}

/// How an answer served from buffered content looks: nothing when the
/// caller's validator matches, else the full bytes with their hash.
pub enum CachedOutcome {
    /// The caller already holds the current content.
    NotModified,
    /// The full content, with the hash to attach as validator.
    Full { hash: Vec<u8>, bytes: SharedBytes },
}

/// Answer from a buffered entry, honoring the caller's validator: an
/// `If-None-Match` equal to the entry's hash yields a bodiless answer, any
/// other or no validator yields the full bytes with that hash.
pub fn respond_from_entry(entry: &CachedFileEntry, if_none_match: Option<&Vec<u8>>) -> (r:
    CachedOutcome)
    ensures
        (match if_none_match {
            Some(v) => v@ == entry.hash_spec(),
            None => false,
        }) ==> r is NotModified,
        !(match if_none_match {
            Some(v) => v@ == entry.hash_spec(),
            None => false,
        }) ==> (r matches CachedOutcome::Full { hash, bytes } && hash@ == entry.hash_spec()
            && bytes@ == entry.bytes_spec()),
{
    let matched = match if_none_match {
        Some(v) => {
            let hit = eq_bytes(v, entry.hash());
            hit
        },
        None => false,
    };
    if matched {
        CachedOutcome::NotModified
    } else {
        CachedOutcome::Full {
            hash: vstd::slice::slice_to_vec(entry.hash().as_slice()),
            bytes: entry.bytes().share(),
        }
    }
}

/// Byte-for-byte equality of two buffers.
fn eq_bytes(a: &Vec<u8>, b: &Vec<u8>) -> (r: bool)
    ensures
        r == (a@ == b@),
{
    let r = a == b;
    proof {
        if r {
            assert(a@ =~= b@);
        } else {
            if a@ == b@ {
                assert(a.eq_spec(b));
            }
        }
    }
    r
}

/// The first step of serving a read, before any disk access.
pub enum ServeStep {
    /// The path escapes the root: reject, and read nothing.
    Forbidden,
    /// A live cached copy answered the request.
    Answered(CachedOutcome),
    /// Not cached: the caller must consult the disk for this resolved path.
    NeedFile(Vec<Vec<u8>>),
}

/// Begin serving a read: resolve the path, then try the byte cache. A live
/// entry answers at once (honoring the validator); otherwise the caller is
/// told which resolved path to read.
pub fn serve_lookup(
    root: &Vec<Vec<u8>>,
    cache: &mut CacheMap<CachedFileEntry>,
    path: &Vec<u8>,
    if_none_match: Option<&Vec<u8>>,
    now: u64,
) -> (r: ServeStep)
    requires
        old(cache).wf(),
    ensures
        final(cache).wf(),
        resolve_spec(root.deep_view(), path@) is None ==> r is Forbidden && *final(cache) == *old(
            cache,
        ),
        (match resolve_spec(root.deep_view(), path@) {
            Option::Some(p) => {
                let k = join_spec(p);
                &&& final(cache).agrees_except(*old(cache), k)
                &&& old(cache).has(k) && now < old(cache).entry(k).expires_at ==> {
                    &&& (r matches ServeStep::Answered(o) && {
                        let e = old(cache).entry(k).value;
                        &&& (match if_none_match {
                            Some(v) => v@ == e.hash_spec(),
                            None => false,
                        }) ==> o is NotModified
                        &&& !(match if_none_match {
                            Some(v) => v@ == e.hash_spec(),
                            None => false,
                        }) ==> (o matches CachedOutcome::Full { hash, bytes } && hash@
                            == e.hash_spec() && bytes@ == e.bytes_spec())
                    })
                    &&& final(cache).has(k)
                    &&& final(cache).entry(k) == (CacheEntry {
                        value: old(cache).entry(k).value,
                        last_accessed: now,
                        expires_at: old(cache).entry(k).expires_at,
                    })
                }
                &&& (!old(cache).has(k) || now >= old(cache).entry(k).expires_at) ==> (r matches
                    ServeStep::NeedFile(q) && q.deep_view() == p && !final(cache).has(k))
            },
            Option::None => r is Forbidden,
        }),
{
    let resolved = match crate::sandbox::resolve(root, path) {
        None => {
            return ServeStep::Forbidden;
        },
        Some(p) => p,
    };
    let key = crate::sandbox::join_path(&resolved);
    match cache.get(&key, now) {
        Some(entry) => ServeStep::Answered(respond_from_entry(entry, if_none_match)),
        None => ServeStep::NeedFile(resolved),
    }
}

/// Whether a file of this size is buffered into the cache rather than
/// streamed: only when caching is on and the file is small enough.
pub fn should_buffer(config: &MemoryCache, size: u64) -> (r: bool)
    ensures
        r == (config.enabled && size <= config.max_size_bytes),
{
    config.enabled && size <= config.max_size_bytes
}

/// Serve a small file that was just read in full: remember it in the cache
/// under its resolved path, then answer as from a cache hit, honoring the
/// validator against the freshly computed hash.
pub fn serve_buffered(
    cache: &mut CacheMap<CachedFileEntry>,
    resolved: &Vec<Vec<u8>>,
    if_none_match: Option<&Vec<u8>>,
    now: u64,
    bytes: Vec<u8>,
) -> (r: CachedOutcome)
    requires
        old(cache).wf(),
        now + old(cache).ttl() <= u64::MAX,
    ensures
        final(cache).wf(),
        (exists|e: CachedFileEntry|
            {
                &&& #[trigger] CacheMap::insert_post(
                    *old(cache),
                    *final(cache),
                    join_spec(resolved.deep_view()),
                    e,
                    now,
                )
                &&& e.hash_spec() == sha256_hex_of(bytes@)
                &&& e.bytes_spec() == bytes@
            }),
        (match if_none_match {
            Some(v) => v@ == sha256_hex_of(bytes@),
            None => false,
        }) ==> r is NotModified,
        !(match if_none_match {
            Some(v) => v@ == sha256_hex_of(bytes@),
            None => false,
        }) ==> (r matches CachedOutcome::Full { hash, bytes: b } && hash@ == sha256_hex_of(bytes@)
            && b@ == bytes@),
{
    let entry = CachedFileEntry::new(bytes);
    let outcome = respond_from_entry(&entry, if_none_match);
    let key = crate::sandbox::join_path(resolved);
    cache.insert(key, entry, now);
    outcome
}

} // verus!
