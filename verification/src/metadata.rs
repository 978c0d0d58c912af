//! The sidecar metadata record stored next to each file: its content hash in
//! lowercase hex and its size in bytes, serialized as a small JSON object
//! `{"hash":"<hex>","size_bytes":<n>}`.
//!
//! The codec is exact: encoding is a function of the two fields, and parsing
//! accepts precisely the canonical encodings, returning the encoded fields.
//! A sidecar that fails to parse is treated by callers as absent, yielding
//! default (zeroed) metadata rather than an error.

use vstd::prelude::*;

verus! {

/// Integrity record for one stored file.
#[derive(Clone)]
pub struct FileMetadata {
    /// Content digest, lowercase hex bytes; empty when unknown.
    pub hash: Vec<u8>,
    /// Total size of the stored file in bytes.
    pub size_bytes: u64,
}

/// A lowercase hex digit, `0-9` or `a-f`.
pub open spec fn is_lower_hex(b: u8) -> bool {
    (48 <= b <= 57) || (97 <= b <= 102)
}

/// A well-formed hash text: every byte a lowercase hex digit.
pub open spec fn hash_wf(h: Seq<u8>) -> bool {
    forall|i: int| 0 <= i < h.len() ==> is_lower_hex(#[trigger] h[i])
}

/// An ASCII decimal digit.
pub open spec fn is_dec_digit(b: u8) -> bool {
    48 <= b <= 57
}

/// The decimal digits of `n`, most significant first.
pub open spec fn u64_dec(n: nat) -> Seq<u8>
    decreases n,
{
    if n < 10 {
        seq![(48 + n) as u8]
    } else {
        u64_dec(n / 10).push((48 + n % 10) as u8)
    }
}

/// The value of a digit sequence, most significant first.
pub open spec fn dec_val(s: Seq<u8>) -> nat
    decreases s.len(),
{
    if s.len() == 0 {
        0
    } else {
        dec_val(s.drop_last()) * 10 + (s.last() - 48) as nat
    }
}

/// Powers of ten.
pub open spec fn pow10(k: nat) -> nat
    decreases k,
{
    if k == 0 {
        1
    } else {
        10 * pow10((k - 1) as nat)
    }
}

/// The shape of `u64_dec`: digits only, no leading zero, value `n`, and at
/// most 20 digits for a `u64`.
pub proof fn lemma_u64_dec_shape(n: nat)
    ensures
        u64_dec(n).len() >= 1,
        forall|i: int| 0 <= i < u64_dec(n).len() ==> is_dec_digit(#[trigger] u64_dec(n)[i]),
        u64_dec(n).len() > 1 ==> u64_dec(n)[0] != 48,
        dec_val(u64_dec(n)) == n,
        n < pow10(u64_dec(n).len()),
    decreases n,
{
    if n < 10 {
        assert(u64_dec(n) =~= seq![(48 + n) as u8]);
        assert(u64_dec(n).drop_last() =~= Seq::<u8>::empty());
        assert(dec_val(u64_dec(n)) == dec_val(Seq::<u8>::empty()) * 10 + n);
        assert(pow10(1) == 10 * pow10(0));
    } else {
        lemma_u64_dec_shape(n / 10);
        let s = u64_dec(n);
        assert(s =~= u64_dec(n / 10).push((48 + n % 10) as u8));
        assert(s.drop_last() =~= u64_dec(n / 10));
        assert(s.last() == (48 + n % 10) as u8);
        assert(dec_val(s) == (n / 10) * 10 + n % 10);
        assert((n / 10) * 10 + n % 10 == n) by (nonlinear_arith);
        assert(s[0] == u64_dec(n / 10)[0]);
        assert(u64_dec(n / 10)[0] != 48) by {
            let t = u64_dec(n / 10);
            if t.len() == 1 {
                assert(t.drop_last() =~= Seq::<u8>::empty());
                assert(dec_val(t) == dec_val(t.drop_last()) * 10 + (t.last() - 48) as nat);
                assert(t.last() == t[0]);
                assert(n / 10 == (t[0] - 48) as nat);
                assert(n / 10 >= 1);
            }
        }
        assert(n / 10 < pow10(u64_dec(n / 10).len()));
        assert(n < 10 * pow10(u64_dec(n / 10).len())) by (nonlinear_arith)
            requires
                n / 10 < pow10(u64_dec(n / 10).len()),
                n >= 10;
        assert(pow10(s.len()) == 10 * pow10(u64_dec(n / 10).len()));
    }
}

/// `pow10` is positive.
pub proof fn lemma_pow10_pos(a: nat)
    ensures
        pow10(a) >= 1,
    decreases a,
{
    if a > 0 {
        lemma_pow10_pos((a - 1) as nat);
    }
}

/// `pow10` grows with its argument.
pub proof fn lemma_pow10_le(a: nat, b: nat)
    requires
        a <= b,
    ensures
        pow10(a) <= pow10(b),
    decreases b,
{
    if a < b {
        lemma_pow10_le(a, (b - 1) as nat);
        lemma_pow10_pos((b - 1) as nat);
    }
}

/// A digit sequence of the right shape is the decimal rendering of its own
/// value: `u64_dec` and `dec_val` are mutually inverse.
pub proof fn lemma_dec_unique(s: Seq<u8>)
    requires
        s.len() >= 1,
        forall|i: int| 0 <= i < s.len() ==> is_dec_digit(#[trigger] s[i]),
        s.len() > 1 ==> s[0] != 48,
    ensures
        u64_dec(dec_val(s)) == s,
    decreases s.len(),
{
    if s.len() == 1 {
        assert(s.drop_last() =~= Seq::<u8>::empty());
        assert(s.last() == s[0]);
        assert(dec_val(s) == dec_val(Seq::<u8>::empty()) * 10 + (s[0] - 48) as nat);
        assert(u64_dec(dec_val(s)) =~= s);
    } else {
        let p = s.drop_last();
        lemma_dec_unique(p);
        let n = dec_val(s);
        assert(n == dec_val(p) * 10 + (s.last() - 48) as nat);
        assert(dec_val(p) >= 1) by {
            if dec_val(p) == 0 {
                lemma_dec_val_zero(p);
            }
        }
        assert(n >= 10) by (nonlinear_arith)
            requires
                n == dec_val(p) * 10 + (s.last() - 48) as nat,
                dec_val(p) >= 1;
        assert(n / 10 == dec_val(p) && n % 10 == (s.last() - 48) as nat) by (nonlinear_arith)
            requires
                n == dec_val(p) * 10 + (s.last() - 48) as nat,
                ((s.last() - 48) as nat) < 10;
        assert(u64_dec(n) =~= u64_dec(dec_val(p)).push(s.last()));
        assert(u64_dec(n) =~= p.push(s.last()));
        assert(p.push(s.last()) =~= s);
    }
}

/// A digit sequence with value zero is all zero digits.
proof fn lemma_dec_val_zero(s: Seq<u8>)
    requires
        forall|i: int| 0 <= i < s.len() ==> is_dec_digit(#[trigger] s[i]),
        dec_val(s) == 0,
        s.len() >= 1,
    ensures
        s[0] == 48,
    decreases s.len(),
{
    assert(dec_val(s) == dec_val(s.drop_last()) * 10 + (s.last() - 48) as nat);
    assert(dec_val(s.drop_last()) * 10 <= dec_val(s));
    if s.len() == 1 {
        assert(s.last() == s[0]);
        assert(s.last() == 48);
    } else {
        lemma_dec_val_zero(s.drop_last());
    }
}

/// The opening text `{"hash":"` of the sidecar record.
pub open spec fn json_head() -> Seq<u8> {
    seq![123u8, 34u8, 104u8, 97u8, 115u8, 104u8, 34u8, 58u8, 34u8]
}

/// The middle text `","size_bytes":` of the sidecar record.
pub open spec fn json_mid() -> Seq<u8> {
    seq![34u8, 44u8, 34u8, 115u8, 105u8, 122u8, 101u8, 95u8, 98u8, 121u8, 116u8, 101u8, 115u8, 34u8, 58u8]
}

/// The canonical sidecar encoding of a hash text and a size.
pub open spec fn encode_spec(h: Seq<u8>, sz: u64) -> Seq<u8> {
    json_head() + h + json_mid() + u64_dec(sz as nat) + seq![125u8]
}

/// Two canonical encodings agree only when their fields do.
pub proof fn lemma_encode_injective(h1: Seq<u8>, sz1: u64, h2: Seq<u8>, sz2: u64)
    requires
        hash_wf(h1),
        hash_wf(h2),
        encode_spec(h1, sz1) == encode_spec(h2, sz2),
    ensures
        h1 == h2,
        sz1 == sz2,
{
    let e1 = encode_spec(h1, sz1);
    let e2 = encode_spec(h2, sz2);
    lemma_u64_dec_shape(sz1 as nat);
    lemma_u64_dec_shape(sz2 as nat);
    assert(h1.len() == h2.len()) by {
        if h1.len() < h2.len() {
            assert(e1[9 + h1.len() as int] == json_mid()[0]);
            assert(e2[9 + h1.len() as int] == h2[h1.len() as int]);
            assert(is_lower_hex(h2[h1.len() as int]));
        } else if h2.len() < h1.len() {
            assert(e2[9 + h2.len() as int] == json_mid()[0]);
            assert(e1[9 + h2.len() as int] == h1[h2.len() as int]);
            assert(is_lower_hex(h1[h2.len() as int]));
        }
    }
    assert(h1 =~= h2) by {
        assert(forall|i: int| 0 <= i < h1.len() ==> e1[9 + i] == h1[i] && e2[9 + i] == h2[i]);
    }
    let d1 = u64_dec(sz1 as nat);
    let d2 = u64_dec(sz2 as nat);
    let base: int = 9 + h1.len() as int + 15;
    assert(d1.len() == d2.len()) by {
        if d1.len() < d2.len() {
            assert(e1[base + d1.len() as int] == 125);
            assert(e2[base + d1.len() as int] == d2[d1.len() as int]);
            assert(is_dec_digit(d2[d1.len() as int]));
        } else if d2.len() < d1.len() {
            assert(e2[base + d2.len() as int] == 125);
            assert(e1[base + d2.len() as int] == d1[d2.len() as int]);
            assert(is_dec_digit(d1[d2.len() as int]));
        }
    }
    assert(d1 =~= d2) by {
        assert(forall|i: int| 0 <= i < d1.len() ==> e1[base + i] == d1[i] && e2[base + i] == d2[i]);
    }
    assert(dec_val(d1) == dec_val(d2));
}

/// How a canonical encoding is laid out, byte by byte.
pub proof fn lemma_encode_layout(h: Seq<u8>, sz: u64)
    ensures
        encode_spec(h, sz).len() == 25 + h.len() + u64_dec(sz as nat).len(),
        forall|i: int| 0 <= i < 9 ==> encode_spec(h, sz)[i] == json_head()[i],
        forall|i: int| 0 <= i < h.len() ==> encode_spec(h, sz)[9 + i] == h[i],
        forall|i: int|
            0 <= i < 15 ==> encode_spec(h, sz)[9 + h.len() + i] == json_mid()[i],
        forall|i: int|
            0 <= i < u64_dec(sz as nat).len() ==> encode_spec(h, sz)[24 + h.len() + i]
                == u64_dec(sz as nat)[i],
        encode_spec(h, sz).last() == 125,
{
    let e = encode_spec(h, sz);
    let d = u64_dec(sz as nat);
    assert(e.len() == 9 + h.len() + 15 + d.len() + 1);
    assert forall|i: int| 0 <= i < 9 implies e[i] == json_head()[i] by {}
    assert forall|i: int| 0 <= i < h.len() implies e[9 + i] == h[i] by {}
    assert forall|i: int| 0 <= i < 15 implies e[9 + h.len() + i] == json_mid()[i] by {}
    assert forall|i: int| 0 <= i < d.len() implies e[24 + h.len() + i] == d[i] by {}
    assert(e.last() == 125);
}

/// Where a left-to-right hex scan starting at byte 9 of a canonical encoding
/// must stop: exactly at the closing quote of the hash field.
proof fn lemma_hash_scan_stop(bytes: Seq<u8>, h: Seq<u8>, sz: u64, i: int)
    requires
        hash_wf(h),
        bytes == encode_spec(h, sz),
        9 <= i <= bytes.len(),
        forall|j: int| 9 <= j < i ==> is_lower_hex(#[trigger] bytes[j]),
        i == bytes.len() || !is_lower_hex(bytes[i]),
    ensures
        i == 9 + h.len(),
        i < bytes.len(),
        bytes[i] == 34,
{
    lemma_encode_layout(h, sz);
    lemma_u64_dec_shape(sz as nat);
    if i < 9 + h.len() {
        assert(bytes[i] == h[i - 9]);
        assert(is_lower_hex(h[i - 9]));
        assert(false);
    }
    if i > 9 + h.len() {
        assert(bytes[9 + h.len() as int] == json_mid()[0]);
        assert(9 <= 9 + h.len() < i);
        assert(is_lower_hex(bytes[9 + h.len() as int]));
        assert(false);
    }
    assert(bytes[i] == json_mid()[0]);
}

/// Where a decimal scan starting after the middle text of a canonical
/// encoding must stop: exactly at the closing brace.
proof fn lemma_digit_scan_stop(bytes: Seq<u8>, h: Seq<u8>, sz: u64, k: int)
    requires
        hash_wf(h),
        bytes == encode_spec(h, sz),
        24 + h.len() <= k <= bytes.len(),
        forall|j: int| 24 + h.len() <= j < k ==> is_dec_digit(#[trigger] bytes[j]),
        k == bytes.len() || !is_dec_digit(bytes[k]),
    ensures
        k == 24 + h.len() + u64_dec(sz as nat).len(),
        k < bytes.len(),
        bytes[k] == 125,
        k + 1 == bytes.len(),
{
    lemma_encode_layout(h, sz);
    lemma_u64_dec_shape(sz as nat);
    let d = u64_dec(sz as nat);
    if k < 24 + h.len() + d.len() {
        assert(bytes[k] == d[k - 24 - h.len()]);
        assert(is_dec_digit(d[k - 24 - h.len()]));
        assert(false);
    }
    if k > 24 + h.len() + d.len() {
        assert(24 + h.len() + d.len() == bytes.len() - 1);
        assert(k == bytes.len());
        assert(bytes[bytes.len() - 1] == 125);
        assert(is_dec_digit(bytes[bytes.len() - 1]));
        assert(false);
    }
    assert(bytes[k] == bytes.last());
}

impl Default for FileMetadata {
    /// The record used when a sidecar is missing or unreadable: unknown
    /// integrity, zero size.
    fn default() -> (r: Self)
        ensures
            r.hash@ == Seq::<u8>::empty(),
            r.size_bytes == 0,
    {
        FileMetadata { hash: Vec::new(), size_bytes: 0 }
    }
}

/// The opening text of the record, as bytes.
fn lit_head() -> (r: Vec<u8>)
    ensures
        r@ == json_head(),
{
    let mut v: Vec<u8> = Vec::new();
    v.push(123);
    v.push(34);
    v.push(104);
    v.push(97);
    v.push(115);
    v.push(104);
    v.push(34);
    v.push(58);
    v.push(34);
    proof {
        assert(v@ =~= json_head());
    }
    v
}

/// The middle text of the record, as bytes.
fn lit_mid() -> (r: Vec<u8>)
    ensures
        r@ == json_mid(),
{
    let mut v: Vec<u8> = Vec::new();
    v.push(34);
    v.push(44);
    v.push(34);
    v.push(115);
    v.push(105);
    v.push(122);
    v.push(101);
    v.push(95);
    v.push(98);
    v.push(121);
    v.push(116);
    v.push(101);
    v.push(115);
    v.push(34);
    v.push(58);
    proof {
        assert(v@ =~= json_mid());
    }
    v
}

/// Append a byte slice.
fn push_bytes(out: &mut Vec<u8>, s: &[u8])
    ensures
        final(out)@ == old(out)@ + s@,
{
    let n = s.len();
    let mut i: usize = 0;
    while i < n
        invariant
            i <= n,
            n == s@.len(),
            out@ == old(out)@ + s@.subrange(0, i as int),
        decreases n - i,
    {
        out.push(s[i]);
        proof {
            assert(out@ =~= old(out)@ + s@.subrange(0, i as int + 1));
        }
        i = i + 1;
    }
    proof {
        assert(s@.subrange(0, n as int) =~= s@);
    }
}

/// Append the decimal digits of `n`.
fn push_u64_dec(out: &mut Vec<u8>, n: u64)
    ensures
        final(out)@ == old(out)@ + u64_dec(n as nat),
    decreases n,
{
    if n < 10 {
        out.push(48 + n as u8);
        proof {
            assert(out@ =~= old(out)@ + u64_dec(n as nat));
        }
    } else {
        push_u64_dec(out, n / 10);
        out.push(48 + (n % 10) as u8);
        proof {
            assert(out@ =~= old(out)@ + u64_dec(n as nat));
        }
    }
}

/// Serialize a metadata record into its canonical sidecar bytes.
pub fn encode_metadata(m: &FileMetadata) -> (r: Vec<u8>)
    ensures
        r@ == encode_spec(m.hash@, m.size_bytes),
{
    let mut out = lit_head();
    push_bytes(&mut out, m.hash.as_slice());
    let mid = lit_mid();
    push_bytes(&mut out, mid.as_slice());
    push_u64_dec(&mut out, m.size_bytes);
    out.push(125);
    proof {
        assert(out@ =~= encode_spec(m.hash@, m.size_bytes));
    }
    out
}

/// Whether `pat` occurs in `bytes` at offset `at`.
fn match_at(bytes: &[u8], at: usize, pat: &Vec<u8>) -> (r: bool)
    requires
        at <= bytes@.len(),
    ensures
        r == (at + pat@.len() <= bytes@.len() && bytes@.subrange(
            at as int,
            at as int + pat@.len(),
        ) == pat@),
{
    let n = pat.len();
    let blen = bytes.len();
    if n > blen - at {
        return false;
    }
    let mut i: usize = 0;
    while i < n
        invariant
            i <= n,
            n == pat@.len(),
            at + n <= blen,
            blen == bytes@.len(),
            forall|j: int| 0 <= j < i ==> bytes@[at + j] == pat@[j],
        decreases n - i,
    {
        if bytes[at + i] != pat[i] {
            proof {
                if bytes@.subrange(at as int, at as int + pat@.len()) == pat@ {
                    assert(bytes@.subrange(at as int, at as int + pat@.len())[i as int]
                        == pat@[i as int]);
                }
            }
            return false;
        }
        i = i + 1;
    }
    proof {
        assert(bytes@.subrange(at as int, at as int + pat@.len()) =~= pat@);
    }
    true
}

/// Parse canonical sidecar bytes. Exactly the canonical encodings are
/// accepted, and the fields returned are the ones encoded.
#[verifier::rlimit(100)]
pub fn parse_metadata(bytes: &[u8]) -> (r: Option<FileMetadata>)
    ensures
        r matches Some(m) ==> hash_wf(m.hash@) && bytes@ == encode_spec(m.hash@, m.size_bytes),
        forall|h: Seq<u8>, sz: u64|
            hash_wf(h) && bytes@ == #[trigger] encode_spec(h, sz) ==> (r matches Some(m)
                && m.hash@ == h && m.size_bytes == sz),
{
    let len = bytes.len();
    let head = lit_head();
    if !match_at(bytes, 0, &head) {
        proof {
            assert forall|h: Seq<u8>, sz: u64|
                !(hash_wf(h) && bytes@ == #[trigger] encode_spec(h, sz)) by {
                if hash_wf(h) && bytes@ == encode_spec(h, sz) {
                    lemma_encode_layout(h, sz);
                    lemma_u64_dec_shape(sz as nat);
                    assert(bytes@.subrange(0, 9) =~= json_head());
                }
            }
        }
        return None;
    }
    // scan the hash field: lowercase hex digits from byte 9
    let mut i: usize = 9;
    while i < len && ((48 <= bytes[i] && bytes[i] <= 57) || (97 <= bytes[i] && bytes[i] <= 102))
        invariant
            9 <= i <= len,
            len == bytes@.len(),
            forall|j: int| 9 <= j < i ==> is_lower_hex(#[trigger] bytes@[j]),
        decreases len - i,
    {
        i = i + 1;
    }
    let ghost stop = i as int;
    proof {
        assert(stop == bytes@.len() || !is_lower_hex(bytes@[stop]));
    }
    let mid = lit_mid();
    if !match_at(bytes, i, &mid) {
        proof {
            assert forall|h: Seq<u8>, sz: u64|
                !(hash_wf(h) && bytes@ == #[trigger] encode_spec(h, sz)) by {
                if hash_wf(h) && bytes@ == encode_spec(h, sz) {
                    lemma_hash_scan_stop(bytes@, h, sz, stop);
                    lemma_encode_layout(h, sz);
                    lemma_u64_dec_shape(sz as nat);
                    assert(bytes@.subrange(stop, stop + 15) =~= json_mid());
                }
            }
        }
        return None;
    }
    let hash = vstd::slice::slice_to_vec(&bytes[9..i]);
    // scan the size field: decimal digits after the middle text
    let start = i + 15;
    let mut k: usize = start;
    while k < len && 48 <= bytes[k] && bytes[k] <= 57
        invariant
            start <= k <= len,
            len == bytes@.len(),
            forall|j: int| start <= j < k ==> is_dec_digit(#[trigger] bytes@[j]),
        decreases len - k,
    {
        k = k + 1;
    }
    let ghost dstop = k as int;
    proof {
        assert(dstop == bytes@.len() || !is_dec_digit(bytes@[dstop]));
    }
    let dl = k - start;
    if dl == 0 || dl > 20 || (dl > 1 && bytes[start] == 48) {
        proof {
            assert forall|h: Seq<u8>, sz: u64|
                !(hash_wf(h) && bytes@ == #[trigger] encode_spec(h, sz)) by {
                if hash_wf(h) && bytes@ == encode_spec(h, sz) {
                    lemma_hash_scan_stop(bytes@, h, sz, stop);
                    lemma_digit_scan_stop(bytes@, h, sz, dstop);
                    lemma_encode_layout(h, sz);
                    lemma_u64_dec_shape(sz as nat);
                    let d = u64_dec(sz as nat);
                    assert(d.len() == dl);
                    if d.len() > 20 {
                        assert(sz as nat >= pow10((d.len() - 1) as nat)) by {
                            lemma_u64_dec_low_bound(sz as nat);
                        }
                        lemma_pow10_le(20, (d.len() - 1) as nat);
                        lemma_pow10_20_value();
                        assert(false);
                    }
                    if d.len() > 1 && bytes@[start as int] == 48 {
                        assert(bytes@[24 + h.len() as int] == d[0]);
                        assert(false);
                    }
                }
            }
        }
        return None;
    }
    // accumulate the value; 20 digits always fit in a u128
    let mut acc: u128 = 0;
    let mut p: usize = start;
    proof {
        assert(bytes@.subrange(start as int, start as int) =~= Seq::<u8>::empty());
        lemma_pow10_20_value();
    }
    while p < k
        invariant
            start <= p <= k <= len,
            len == bytes@.len(),
            k - start <= 20,
            forall|j: int| start <= j < k ==> is_dec_digit(#[trigger] bytes@[j]),
            acc == dec_val(bytes@.subrange(start as int, p as int)),
            acc < pow10((p - start) as nat),
            pow10(20) == 100000000000000000000,
        decreases k - p,
    {
        let d = bytes[p];
        proof {
            let pre = bytes@.subrange(start as int, p as int);
            let ext = bytes@.subrange(start as int, p as int + 1);
            assert(ext.drop_last() =~= pre);
            assert(ext.last() == bytes@[p as int]);
            lemma_pow10_le(((p - start) + 1) as nat, 20);
            assert(acc * 10 + (d - 48) < pow10(((p - start) + 1) as nat)) by (nonlinear_arith)
                requires
                    acc < pow10((p - start) as nat),
                    d - 48 < 10,
                    pow10(((p - start) + 1) as nat) == 10 * pow10((p - start) as nat);
        }
        acc = acc * 10 + (d - 48) as u128;
        p = p + 1;
    }
    if acc > u64::MAX as u128 {
        proof {
            assert forall|h: Seq<u8>, sz: u64|
                !(hash_wf(h) && bytes@ == #[trigger] encode_spec(h, sz)) by {
                if hash_wf(h) && bytes@ == encode_spec(h, sz) {
                    lemma_hash_scan_stop(bytes@, h, sz, stop);
                    lemma_digit_scan_stop(bytes@, h, sz, dstop);
                    lemma_encode_layout(h, sz);
                    lemma_u64_dec_shape(sz as nat);
                    let d = u64_dec(sz as nat);
                    assert(bytes@.subrange(start as int, k as int) =~= d);
                    assert(acc == sz as nat);
                }
            }
        }
        return None;
    }
    let size_bytes = acc as u64;
    if !(k < len && bytes[k] == 125 && k + 1 == len) {
        proof {
            assert forall|h: Seq<u8>, sz: u64|
                !(hash_wf(h) && bytes@ == #[trigger] encode_spec(h, sz)) by {
                if hash_wf(h) && bytes@ == encode_spec(h, sz) {
                    lemma_hash_scan_stop(bytes@, h, sz, stop);
                    lemma_digit_scan_stop(bytes@, h, sz, dstop);
                }
            }
        }
        return None;
    }
    proof {
        let hv = hash@;
        let dig = bytes@.subrange(start as int, k as int);
        lemma_dec_unique(dig);
        assert(u64_dec(size_bytes as nat) == dig);
        assert(bytes@ =~= encode_spec(hv, size_bytes)) by {
            lemma_encode_layout(hv, size_bytes);
            assert(bytes@.subrange(0, 9) == json_head());
            assert(bytes@.subrange(stop, stop + 15) == json_mid());
            assert(encode_spec(hv, size_bytes).len() == 25 + hv.len() + dig.len());
            assert(bytes@.len() == k + 1);
            assert(forall|j: int|
                0 <= j < bytes@.len() ==> bytes@[j] == #[trigger] encode_spec(
                    hv,
                    size_bytes,
                )[j]) by {
                assert(forall|j: int| 0 <= j < 9 ==> bytes@[j] == json_head()[j]);
                assert(forall|j: int|
                    9 <= j < stop ==> #[trigger] bytes@[j] == hv[j - 9]);
                assert(forall|j: int|
                    stop <= j < stop + 15 ==> #[trigger] bytes@[j] == json_mid()[j - stop]);
                assert(forall|j: int|
                    start <= j < k ==> #[trigger] bytes@[j] == dig[j - start]);
            }
        }
        assert forall|h: Seq<u8>, sz: u64|
            hash_wf(h) && bytes@ == #[trigger] encode_spec(h, sz) implies h == hv && sz
            == size_bytes by {
            lemma_encode_injective(h, sz, hv, size_bytes);
        }
    }
    Some(FileMetadata { hash, size_bytes })
}

/// A number needing more than one digit is at least `pow10` of one less than
/// its digit count.
proof fn lemma_u64_dec_low_bound(n: nat)
    ensures
        u64_dec(n).len() > 1 ==> n >= pow10((u64_dec(n).len() - 1) as nat),
    decreases n,
{
    if n >= 10 {
        lemma_u64_dec_low_bound(n / 10);
        lemma_u64_dec_shape(n / 10);
        let t = u64_dec(n / 10);
        assert(u64_dec(n).len() == t.len() + 1);
        if t.len() == 1 {
            assert(n >= 10);
            assert(pow10(1) == 10);
        } else {
            assert(n / 10 >= pow10((t.len() - 1) as nat));
            assert(n >= 10 * (n / 10)) by (nonlinear_arith);
            assert(n >= 10 * pow10((t.len() - 1) as nat)) by (nonlinear_arith)
                requires
                    n >= 10 * (n / 10),
                    n / 10 >= pow10((t.len() - 1) as nat);
            assert(pow10(t.len()) == 10 * pow10((t.len() - 1) as nat));
        }
    }
}

/// The concrete value of `pow10(20)`.
proof fn lemma_pow10_20_value()
    ensures
        pow10(20) == 100000000000000000000,
{
    reveal_with_fuel(pow10, 21);
}

} // verus!
