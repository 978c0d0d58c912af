//! Safe resolution of caller-supplied relative paths against a storage root.
//!
//! Paths are sequences of byte segments. A request path is split on `/`,
//! normalized lexically (`.` and empty segments dropped, `..` popping the
//! segment before it), and rejected outright if it is absolute, names the
//! root itself, or would climb above the root. The resolved path is always
//! the root's segments followed by at least one clean segment.

use vstd::prelude::*;

verus! {

/// Path separator byte, `/`.
pub const SLASH: u8 = 47;

/// The `.` segment, as a byte sequence.
pub open spec fn dot_seg() -> Seq<u8> {
    seq![46u8]
}

/// The `..` segment, as a byte sequence.
pub open spec fn dotdot_seg() -> Seq<u8> {
    seq![46u8, 46u8]
}

/// Splitting on `/`, with the segments read so far in `cur` position:
/// `split_acc(s, cur)` is the segment list of `cur ++ s`.
pub open spec fn split_acc(s: Seq<u8>, cur: Seq<u8>) -> Seq<Seq<u8>>
    decreases s.len(),
{
    if s.len() == 0 {
        seq![cur]
    } else if s[0] == SLASH {
        seq![cur] + split_acc(s.skip(1), Seq::empty())
    } else {
        split_acc(s.skip(1), cur.push(s[0]))
    }
}

/// The segments of `s`, split on `/`. Empty segments are kept here and
/// dropped during normalization.
pub open spec fn split_segs(s: Seq<u8>) -> Seq<Seq<u8>> {
    split_acc(s, Seq::empty())
}

/// Lexical normalization: empty and `.` segments vanish, `..` pops the
/// segment before it, and popping past the start rejects the whole path.
pub open spec fn normalize_spec(segs: Seq<Seq<u8>>) -> Option<Seq<Seq<u8>>>
    decreases segs.len(),
{
    if segs.len() == 0 {
        Some(Seq::empty())
    } else {
        match normalize_spec(segs.drop_last()) {
            Option::None => Option::None,
            Option::Some(st) => {
                let last = segs.last();
                if last.len() == 0 || last == dot_seg() {
                    Some(st)
                } else if last == dotdot_seg() {
                    if st.len() == 0 {
                        Option::None
                    } else {
                        Some(st.drop_last())
                    }
                } else {
                    Some(st.push(last))
                }
            },
        }
    }
}

/// A clean segment: non-empty and neither `.` nor `..`.
pub open spec fn clean_seg(s: Seq<u8>) -> bool {
    s.len() > 0 && s != dot_seg() && s != dotdot_seg()
}

/// Full resolution of a request path against the root: absolute paths are
/// rejected, the rest is split, normalized, and required to keep at least
/// one segment below the root.
pub open spec fn resolve_spec(root: Seq<Seq<u8>>, path: Seq<u8>) -> Option<Seq<Seq<u8>>> {
    if path.len() > 0 && path[0] == SLASH {
        Option::None
    } else {
        match normalize_spec(split_segs(path)) {
            Option::None => Option::None,
            Option::Some(st) => {
                if st.len() == 0 {
                    Option::None
                } else {
                    Some(root + st)
                }
            },
        }
    }
}

/// Every segment of a normalized path is clean.
pub proof fn lemma_normalize_clean(segs: Seq<Seq<u8>>)
    ensures
        normalize_spec(segs) matches Some(st) ==> forall|j: int|
            0 <= j < st.len() ==> clean_seg(#[trigger] st[j]),
    decreases segs.len(),
{
    if segs.len() > 0 {
        lemma_normalize_clean(segs.drop_last());
    }
}

/// The sandbox guarantee: a resolved path is the root followed by one or
/// more clean segments — it never leaves the root, never names the root
/// itself, and never ends in `.` or `..`.
pub proof fn lemma_resolve_within_root(root: Seq<Seq<u8>>, path: Seq<u8>)
    ensures
        resolve_spec(root, path) matches Some(p) ==> {
            &&& p.len() > root.len()
            &&& p.subrange(0, root.len() as int) == root
            &&& forall|j: int| root.len() <= j < p.len() ==> clean_seg(#[trigger] p[j])
        },
{
    if resolve_spec(root, path) is Some {
        match normalize_spec(split_segs(path)) {
            Option::Some(st) => {
                lemma_normalize_clean(split_segs(path));
                let p = root + st;
                assert(p.subrange(0, root.len() as int) =~= root);
                assert(forall|j: int|
                    root.len() <= j < p.len() ==> p[j] == st[j - root.len()]);
            },
            Option::None => {},
        }
    }
}

/// Whether a request path is rejected depends on that path alone, never on
/// the root: a rejection observed against one root holds against every
/// root.
pub proof fn lemma_reject_root_free(root1: Seq<Seq<u8>>, root2: Seq<Seq<u8>>, path: Seq<u8>)
    ensures
        resolve_spec(root1, path) is None <==> resolve_spec(root2, path) is None,
{
}

/// The bytes of `s` up to its first separator.
spec fn until_slash(s: Seq<u8>) -> Seq<u8>
    decreases s.len(),
{
    if s.len() == 0 {
        Seq::empty()
    } else if s[0] == SLASH {
        Seq::empty()
    } else {
        seq![s[0]] + until_slash(s.skip(1))
    }
}

/// The first segment of a split is whatever stands before the first
/// separator, after the accumulated prefix.
proof fn lemma_split_first(s: Seq<u8>, cur: Seq<u8>)
    ensures
        split_acc(s, cur).len() >= 1,
        split_acc(s, cur)[0] == cur + until_slash(s),
    decreases s.len(),
{
    if s.len() == 0 {
        assert(split_acc(s, cur)[0] =~= cur + until_slash(s));
    } else if s[0] == SLASH {
        assert(split_acc(s, cur)[0] =~= cur + until_slash(s));
    } else {
        lemma_split_first(s.skip(1), cur.push(s[0]));
        assert(cur.push(s[0]) + until_slash(s.skip(1)) =~= cur + (seq![s[0]] + until_slash(
            s.skip(1),
        )));
    }
}

/// A request path that opens with a `..` segment is rejected against every
/// root: the very first segment would climb above the root.
pub proof fn lemma_reject_parent_first(root: Seq<Seq<u8>>, path: Seq<u8>)
    requires
        path.len() >= 2,
        path[0] == 46,
        path[1] == 46,
        path.len() == 2 || path[2] == SLASH,
    ensures
        resolve_spec(root, path) is None,
{
    assert(until_slash(path) =~= dotdot_seg()) by {
        assert(path.skip(1).skip(1) =~= path.skip(2));
        assert(path.skip(1)[0] == path[1]);
        if path.len() > 2 {
            assert(path.skip(2)[0] == path[2]);
            assert(until_slash(path.skip(2)) =~= Seq::<u8>::empty());
        } else {
            assert(path.skip(2).len() == 0);
        }
        assert(until_slash(path.skip(1)) =~= seq![path[1]] + until_slash(path.skip(2)));
        assert(until_slash(path) =~= seq![path[0]] + until_slash(path.skip(1)));
    }
    lemma_split_first(path, Seq::empty());
    let segs = split_segs(path);
    assert(segs[0] =~= dotdot_seg());
    assert(segs.subrange(0, 1).drop_last() =~= Seq::<Seq<u8>>::empty());
    assert(segs.subrange(0, 1).last() == dotdot_seg());
    assert(normalize_spec(Seq::<Seq<u8>>::empty()) == Some(Seq::<Seq<u8>>::empty()));
    assert(dotdot_seg().len() == 2 && dot_seg().len() == 1);
    assert(normalize_spec(segs.subrange(0, 1)) is None);
    lemma_normalize_none_extends(segs, 1);
}

/// Once normalization has rejected a prefix, any extension is rejected too.
proof fn lemma_normalize_none_extends(segs: Seq<Seq<u8>>, i: int)
    requires
        0 <= i <= segs.len(),
        normalize_spec(segs.subrange(0, i)) is None,
    ensures
        normalize_spec(segs) is None,
    decreases segs.len() - i,
{
    if i < segs.len() {
        assert(segs.subrange(0, i + 1).drop_last() =~= segs.subrange(0, i));
        lemma_normalize_none_extends(segs, i + 1);
    } else {
        assert(segs.subrange(0, i) =~= segs);
    }
}

/// Split a path into its `/`-separated segments.
pub fn split_path(path: &Vec<u8>) -> (r: Vec<Vec<u8>>)
    ensures
        r.deep_view() == split_segs(path@),
{
    let n = path.len();
    let mut done: Vec<Vec<u8>> = Vec::new();
    let mut cur: Vec<u8> = Vec::new();
    let mut i: usize = 0;
    proof {
        assert(path@.skip(0) =~= path@);
        assert(done.deep_view() + split_acc(path@, Seq::empty()) =~~= split_segs(path@));
    }
    while i < n
        invariant
            i <= n,
            n == path@.len(),
            done.deep_view() + split_acc(path@.skip(i as int), cur@) == split_segs(path@),
        decreases n - i,
    {
        let ghost done_dv = done.deep_view();
        let ghost cur_v = cur@;
        let b = path[i];
        proof {
            assert(path@.skip(i as int).skip(1) =~= path@.skip(i as int + 1));
            assert(path@.skip(i as int)[0] == path@[i as int]);
        }
        if b == SLASH {
            done.push(cur);
            cur = Vec::new();
            proof {
                assert(done.deep_view() =~~= done_dv.push(cur_v));
                assert(done.deep_view() + split_acc(path@.skip(i as int + 1), cur@)
                    =~~= done_dv + (seq![cur_v] + split_acc(path@.skip(i as int + 1), Seq::empty())));
            }
        } else {
            cur.push(b);
        }
        i = i + 1;
    }
    proof {
        assert(path@.skip(n as int) =~= Seq::<u8>::empty());
    }
    let ghost done_dv = done.deep_view();
    let ghost cur_v = cur@;
    done.push(cur);
    proof {
        assert(done.deep_view() =~~= done_dv.push(cur_v));
        assert(done_dv.push(cur_v) =~~= done_dv + seq![cur_v]);
    }
    done
}

/// Normalize split segments; `None` when the path climbs above its start.
fn normalize(segs: Vec<Vec<u8>>) -> (r: Option<Vec<Vec<u8>>>)
    ensures
        match r {
            Some(st) => normalize_spec(segs.deep_view()) == Some(st.deep_view()),
            None => normalize_spec(segs.deep_view()) is None,
        },
{
    let n = segs.len();
    let mut stack: Vec<Vec<u8>> = Vec::new();
    let mut i: usize = 0;
    proof {
        assert(segs.deep_view().subrange(0, 0) =~~= Seq::<Seq<u8>>::empty());
    }
    while i < n
        invariant
            i <= n,
            n == segs@.len(),
            n == segs.deep_view().len(),
            normalize_spec(segs.deep_view().subrange(0, i as int)) == Some(stack.deep_view()),
        decreases n - i,
    {
        let ghost stack_dv = stack.deep_view();
        proof {
            assert(segs.deep_view().subrange(0, i as int + 1).drop_last() =~~= segs.deep_view()
                .subrange(0, i as int));
            assert(segs.deep_view().subrange(0, i as int + 1).last() == segs.deep_view()[i as int]);
            assert(segs.deep_view()[i as int] == segs@[i as int]@);
        }
        let seg = &segs[i];
        if seg.len() == 0 || (seg.len() == 1 && seg[0] == 46) {
            proof {
                if seg@.len() == 1 {
                    assert(seg@ =~= dot_seg());
                }
            }
        } else if seg.len() == 2 && seg[0] == 46 && seg[1] == 46 {
            proof {
                assert(seg@ =~= dotdot_seg());
            }
            if stack.len() == 0 {
                proof {
                    lemma_normalize_none_extends(segs.deep_view(), i as int + 1);
                }
                return None;
            }
            stack.pop();
            proof {
                assert(stack.deep_view() =~~= stack_dv.drop_last());
            }
        } else {
            proof {
                assert(seg@.len() > 0);
                assert(seg@ != dot_seg() && seg@ != dotdot_seg());
            }
            stack.push(vstd::slice::slice_to_vec(segs[i].as_slice()));
            proof {
                assert(stack.deep_view() =~~= stack_dv.push(segs.deep_view()[i as int]));
            }
        }
        i = i + 1;
    }
    proof {
        assert(segs.deep_view().subrange(0, n as int) =~~= segs.deep_view());
    }
    Some(stack)
}

/// Copy a segment path.
pub fn copy_path(p: &Vec<Vec<u8>>) -> (r: Vec<Vec<u8>>)
    ensures
        r.deep_view() == p.deep_view(),
{
    let mut r: Vec<Vec<u8>> = Vec::new();
    let n = p.len();
    let mut i: usize = 0;
    while i < n
        invariant
            i <= n,
            n == p@.len(),
            r.deep_view() == p.deep_view().subrange(0, i as int),
        decreases n - i,
    {
        let ghost r_dv = r.deep_view();
        r.push(vstd::slice::slice_to_vec(p[i].as_slice()));
        proof {
            assert(r.deep_view() =~~= r_dv.push(p.deep_view()[i as int]));
            assert(r.deep_view() =~~= p.deep_view().subrange(0, i as int + 1));
        }
        i = i + 1;
    }
    proof {
        assert(p.deep_view().subrange(0, n as int) =~~= p.deep_view());
    }
    r
}

/// Resolve a request path against the root: split, normalize, and keep the
/// result only if it stays strictly below the root.
pub fn resolve(root: &Vec<Vec<u8>>, path: &Vec<u8>) -> (r: Option<Vec<Vec<u8>>>)
    ensures
        match r {
            Some(p) => resolve_spec(root.deep_view(), path@) == Some(p.deep_view()),
            None => resolve_spec(root.deep_view(), path@) is None,
        },
{
    if path.len() > 0 && path[0] == SLASH {
        return None;
    }
    let segs = split_path(path);
    match normalize(segs) {
        None => None,
        Some(st) => {
            if st.len() == 0 {
                None
            } else {
                let mut out = copy_path(root);
                let ghost out_dv = out.deep_view();
                let ghost st_dv = st.deep_view();
                let mut rest = st;
                let n = rest.len();
                let mut i: usize = 0;
                while i < n
                    invariant
                        i <= n,
                        n == rest@.len(),
                        n == st_dv.len(),
                        rest.deep_view() == st_dv,
                        out.deep_view() == out_dv + st_dv.subrange(0, i as int),
                    decreases n - i,
                {
                    let ghost cur_dv = out.deep_view();
                    out.push(vstd::slice::slice_to_vec(rest[i].as_slice()));
                    proof {
                        assert(out.deep_view() =~~= cur_dv.push(st_dv[i as int]));
                        assert(out.deep_view() =~~= out_dv + st_dv.subrange(0, i as int + 1));
                    }
                    i = i + 1;
                }
                proof {
                    assert(st_dv.subrange(0, n as int) =~~= st_dv);
                    assert(out.deep_view() =~~= root.deep_view() + st_dv);
                }
                Some(out)
            }
        },
    }
}

/// Joining segments back into one `/`-separated key.
pub open spec fn join_spec(p: Seq<Seq<u8>>) -> Seq<u8>
    decreases p.len(),
{
    if p.len() == 0 {
        Seq::empty()
    } else if p.len() == 1 {
        p[0]
    } else {
        join_spec(p.drop_last()) + seq![SLASH] + p.last()
    }
}

/// Flatten a segment path into one byte string, segments separated by `/`.
/// Used as the cache key for a resolved path.
pub fn join_path(p: &Vec<Vec<u8>>) -> (r: Vec<u8>)
    ensures
        r@ == join_spec(p.deep_view()),
{
    let mut out: Vec<u8> = Vec::new();
    let n = p.len();
    let mut i: usize = 0;
    proof {
        assert(p.deep_view().subrange(0, 0) =~~= Seq::<Seq<u8>>::empty());
    }
    while i < n
        invariant
            i <= n,
            n == p@.len(),
            n == p.deep_view().len(),
            out@ == join_spec(p.deep_view().subrange(0, i as int)),
        decreases n - i,
    {
        let ghost pref = p.deep_view().subrange(0, i as int);
        let ghost ext = p.deep_view().subrange(0, i as int + 1);
        proof {
            assert(ext.drop_last() =~~= pref);
            assert(ext.last() == p.deep_view()[i as int]);
        }
        if i > 0 {
            out.push(SLASH);
        }
        let seg = &p[i];
        let m = seg.len();
        let mut j: usize = 0;
        let ghost mid = out@;
        while j < m
            invariant
                j <= m,
                m == seg@.len(),
                out@ == mid + seg@.subrange(0, j as int),
            decreases m - j,
        {
            out.push(seg[j]);
            proof {
                assert(out@ =~= mid + seg@.subrange(0, j as int + 1));
            }
            j = j + 1;
        }
        proof {
            assert(seg@.subrange(0, m as int) =~= seg@);
            assert(seg@ == p.deep_view()[i as int]);
            if i == 0 {
                assert(mid =~= Seq::<u8>::empty());
                assert(out@ =~= join_spec(ext));
            } else {
                assert(out@ =~= join_spec(pref) + seq![SLASH] + ext.last());
                assert(out@ =~= join_spec(ext));
            }
        }
        i = i + 1;
    }
    proof {
        assert(p.deep_view().subrange(0, n as int) =~~= p.deep_view());
    }
    out
}

/// A segment free of the path separator, as every split segment is.
pub open spec fn slash_free(s: Seq<u8>) -> bool {
    forall|i: int| 0 <= i < s.len() ==> s[i] != SLASH
}

/// Splitting on `/` leaves no separator inside any segment.
proof fn lemma_split_slash_free(s: Seq<u8>, cur: Seq<u8>)
    requires
        slash_free(cur),
    ensures
        forall|j: int|
            0 <= j < split_acc(s, cur).len() ==> slash_free(#[trigger] split_acc(s, cur)[j]),
    decreases s.len(),
{
    if s.len() == 0 {
        assert(split_acc(s, cur)[0] == cur);
    } else if s[0] == SLASH {
        lemma_split_slash_free(s.skip(1), Seq::empty());
        assert(split_acc(s, cur)[0] == cur);
        assert(forall|j: int|
            1 <= j < split_acc(s, cur).len() ==> #[trigger] split_acc(s, cur)[j] == split_acc(
                s.skip(1),
                Seq::empty(),
            )[j - 1]);
    } else {
        assert(slash_free(cur.push(s[0]))) by {
            assert(forall|i: int| 0 <= i < cur.len() ==> #[trigger] cur.push(s[0])[i] == cur[i]);
            assert(cur.push(s[0])[cur.len() as int] == s[0]);
        }
        lemma_split_slash_free(s.skip(1), cur.push(s[0]));
        assert(split_acc(s, cur) == split_acc(s.skip(1), cur.push(s[0])));
    }
}

/// Normalization only keeps segments that were split out, so they stay free
/// of separators.
proof fn lemma_normalize_slash_free(segs: Seq<Seq<u8>>)
    requires
        forall|j: int| 0 <= j < segs.len() ==> slash_free(#[trigger] segs[j]),
    ensures
        normalize_spec(segs) matches Some(st) ==> forall|j: int|
            0 <= j < st.len() ==> slash_free(#[trigger] st[j]),
    decreases segs.len(),
{
    if segs.len() > 0 {
        lemma_normalize_slash_free(segs.drop_last());
    }
}

/// A resolved path keeps every segment free of separators, as long as the
/// root's own segments are.
pub proof fn lemma_resolve_slash_free(root: Seq<Seq<u8>>, path: Seq<u8>)
    requires
        forall|j: int| 0 <= j < root.len() ==> slash_free(#[trigger] root[j]),
    ensures
        resolve_spec(root, path) matches Some(p) ==> forall|j: int|
            0 <= j < p.len() ==> slash_free(#[trigger] p[j]),
{
    lemma_split_slash_free(path, Seq::empty());
    lemma_normalize_slash_free(split_segs(path));
    if resolve_spec(root, path) is Some {
        match normalize_spec(split_segs(path)) {
            Option::Some(st) => {
                let p = root + st;
                assert(forall|j: int| 0 <= j < root.len() ==> #[trigger] p[j] == root[j]);
                assert(forall|j: int|
                    root.len() <= j < p.len() ==> #[trigger] p[j] == st[j - root.len()]);
            },
            Option::None => {},
        }
    }
}

/// Joining read from the left: the head segment, then a separator, then the
/// join of the rest.
proof fn lemma_join_head(p: Seq<Seq<u8>>)
    requires
        p.len() >= 2,
    ensures
        join_spec(p) == p[0] + seq![SLASH] + join_spec(p.skip(1)),
    decreases p.len(),
{
    if p.len() == 2 {
        assert(p.drop_last() =~~= seq![p[0]]);
        assert(p.skip(1) =~~= seq![p[1]]);
        assert(join_spec(seq![p[0]]) == p[0]);
        assert(join_spec(seq![p[1]]) == p[1]);
    } else {
        lemma_join_head(p.drop_last());
        assert(p.drop_last().skip(1) =~~= p.skip(1).drop_last());
        assert(p.drop_last()[0] == p[0]);
        assert(p.skip(1).last() == p.last());
        assert((p[0] + seq![SLASH] + join_spec(p.skip(1).drop_last())) + seq![SLASH] + p.last()
            =~= p[0] + seq![SLASH] + (join_spec(p.skip(1).drop_last()) + seq![SLASH] + p.last()));
    }
}

/// A slash-free prefix followed by a separator (or nothing) is exactly what
/// stands before the first separator.
proof fn lemma_until_slash_app(a: Seq<u8>, b: Seq<u8>)
    requires
        slash_free(a),
        b.len() == 0 || b[0] == SLASH,
    ensures
        until_slash(a + b) == a,
    decreases a.len(),
{
    if a.len() == 0 {
        if b.len() == 0 {
            assert(a + b =~= Seq::<u8>::empty());
            assert(until_slash(a + b) =~= a);
        } else {
            assert(a + b =~= b);
            assert(until_slash(b) =~= a);
        }
    } else {
        assert((a + b)[0] == a[0]);
        assert((a + b).skip(1) =~= a.skip(1) + b);
        lemma_until_slash_app(a.skip(1), b);
        assert(seq![a[0]] + a.skip(1) =~= a);
    }
}

/// Joining slash-free segments into one `/`-separated key is injective: two
/// different segment paths never share a key.
pub proof fn lemma_join_injective(p1: Seq<Seq<u8>>, p2: Seq<Seq<u8>>)
    requires
        p1.len() >= 1,
        p2.len() >= 1,
        forall|j: int| 0 <= j < p1.len() ==> slash_free(#[trigger] p1[j]),
        forall|j: int| 0 <= j < p2.len() ==> slash_free(#[trigger] p2[j]),
        join_spec(p1) == join_spec(p2),
    ensures
        p1 == p2,
    decreases p1.len(),
{
    let k = join_spec(p1);
    assert(p1[0] == p2[0]) by {
        lemma_join_first(p1);
        lemma_join_first(p2);
    }
    if p1.len() == 1 && p2.len() == 1 {
        assert(p1 =~~= p2);
    } else if p1.len() == 1 {
        lemma_join_head(p2);
        assert(k[p2[0].len() as int] == SLASH);
        assert(k == p1[0]);
        assert(p2[0].len() < k.len());
        assert(false);
    } else if p2.len() == 1 {
        lemma_join_head(p1);
        assert(k[p1[0].len() as int] == SLASH);
        assert(k == p2[0]);
        assert(p1[0].len() < k.len());
        assert(false);
    } else {
        lemma_join_head(p1);
        lemma_join_head(p2);
        let h = p1[0].len() as int;
        let t1 = join_spec(p1.skip(1));
        let t2 = join_spec(p2.skip(1));
        let c1 = p1[0] + seq![SLASH] + t1;
        let c2 = p2[0] + seq![SLASH] + t2;
        assert(k == c1 && k == c2);
        assert(c1.len() == h + 1 + t1.len());
        assert(p2[0].len() == h);
        assert(c2.len() == h + 1 + t2.len());
        assert(t1.len() == t2.len());
        assert forall|i: int| 0 <= i < t1.len() implies t1[i] == t2[i] by {
            assert(c1[h + 1 + i] == t1[i]);
            assert(c2[h + 1 + i] == t2[i]);
        }
        assert(t1 =~= t2);
        lemma_join_injective(p1.skip(1), p2.skip(1));
        assert(p1 =~~= p2) by {
            assert(forall|j: int| 1 <= j < p1.len() ==> #[trigger] p1[j] == p1.skip(1)[j - 1]);
            assert(forall|j: int| 1 <= j < p2.len() ==> #[trigger] p2[j] == p2.skip(1)[j - 1]);
        }
    }
}

/// The head segment of a join of slash-free segments stands before its
/// first separator.
proof fn lemma_join_first(p: Seq<Seq<u8>>)
    requires
        p.len() >= 1,
        forall|j: int| 0 <= j < p.len() ==> slash_free(#[trigger] p[j]),
    ensures
        until_slash(join_spec(p)) == p[0],
{
    if p.len() == 1 {
        lemma_until_slash_app(p[0], Seq::empty());
        assert(p[0] + Seq::<u8>::empty() =~= p[0]);
    } else {
        lemma_join_head(p);
        assert(p[0] + seq![SLASH] + join_spec(p.skip(1)) =~= p[0] + (seq![SLASH] + join_spec(
            p.skip(1),
        )));
        lemma_until_slash_app(p[0], seq![SLASH] + join_spec(p.skip(1)));
    }
}

/// No two distinct resolved paths alias one cache slot: the keys the cache
/// is addressed by are the joins of resolved paths, and those are distinct
/// whenever the paths are (with a root whose segments hold no separator).
pub proof fn lemma_cache_key_unique(root: Seq<Seq<u8>>, path1: Seq<u8>, path2: Seq<u8>)
    requires
        forall|j: int| 0 <= j < root.len() ==> slash_free(#[trigger] root[j]),
    ensures
        (match (resolve_spec(root, path1), resolve_spec(root, path2)) {
            (Option::Some(p1), Option::Some(p2)) => p1 != p2 ==> join_spec(p1) != join_spec(p2),
            _ => true,
        }),
{
    lemma_resolve_slash_free(root, path1);
    lemma_resolve_slash_free(root, path2);
    lemma_resolve_within_root(root, path1);
    lemma_resolve_within_root(root, path2);
    match (resolve_spec(root, path1), resolve_spec(root, path2)) {
        (Option::Some(p1), Option::Some(p2)) => {
            if p1 != p2 && join_spec(p1) == join_spec(p2) {
                lemma_join_injective(p1, p2);
            }
        },
        _ => {},
    }
}

/// ASCII lowercasing of one byte.
pub open spec fn lower_byte(b: u8) -> u8 {
    if 65 <= b <= 90 {
        (b + 32) as u8
    } else {
        b
    }
}

/// ASCII lowercasing of a byte string.
pub open spec fn lower_seq(s: Seq<u8>) -> Seq<u8> {
    s.map_values(|b: u8| lower_byte(b))
}

/// ASCII-lowercase one byte.
pub fn to_lower_byte(b: u8) -> (r: u8)
    ensures
        r == lower_byte(b),
{
    if 65 <= b && b <= 90 {
        b + 32
    } else {
        b
    }
}

/// Whether `suf` ends `s`.
pub open spec fn ends_with(s: Seq<u8>, suf: Seq<u8>) -> bool {
    s.len() >= suf.len() && s.subrange(s.len() - suf.len(), s.len() as int) == suf
}

} // verus!
