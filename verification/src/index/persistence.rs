//! Keys and freshness rules of the on-disk index cache.

use vstd::prelude::*;

use crate::query::path::{join_chars, join_path};
use crate::strings::{chars_eq, chars_lt, chars_of, concat_strs, lemma_seq_lt_order, seq_lt, str_views, string_of};
use crate::watcher::walker::{components_of, path_components};

verus! {

/// Version of the cache format.
pub const INDEX_CACHE_VERSION: u32 = 7;

/// Age after which a cache is stale, in seconds.
pub const INDEX_CACHE_MAX_AGE_SECS: u64 = 3600;

/// FNV-1a offset basis.
pub const FNV_OFFSET_BASIS: u64 = 0xcbf29ce484222325;

/// FNV-1a prime.
pub const FNV_PRIME: u64 = 0x100000001b3;

/// FNV-1a over `bytes`, starting from `h`.
pub open spec fn fnv1a(h: u64, bytes: Seq<u8>) -> u64
    decreases bytes.len(),
{
    if bytes.len() == 0 {
        h
    } else {
        fnv1a(vstd::wrapping::u64_specs::wrapping_mul(h ^ (bytes[0] as u64), FNV_PRIME), bytes.drop_first())
    }
}

/// Folds `bytes` into an FNV-1a hash.
pub fn fnv1a_update(hash: &mut u64, bytes: &[u8])
    ensures
        *final(hash) == fnv1a(*old(hash), bytes@),
{
    let mut i: usize = 0;
    assert(bytes@.subrange(0, bytes@.len() as int) =~= bytes@);
    while i < bytes.len()
        invariant
            i <= bytes@.len(),
            fnv1a(*old(hash), bytes@) == fnv1a(*hash, bytes@.subrange(i as int, bytes@.len() as int)),
        decreases bytes@.len() - i,
    {
        proof {
            let rest = bytes@.subrange(i as int, bytes@.len() as int);
            assert(rest.drop_first() =~= bytes@.subrange(i + 1, bytes@.len() as int));
            assert(rest[0] == bytes@[i as int]);
        }
        let x: u64 = *hash ^ (bytes[i] as u64);
        *hash = x.wrapping_mul(FNV_PRIME);
        i = i + 1;
    }
    assert(bytes@.subrange(i as int, bytes@.len() as int) =~= Seq::<u8>::empty());
}

/// The rank of a path component in `Path`'s order: the root, then `.`,
/// then `..`, then ordinary names.
pub open spec fn component_rank(c: Seq<char>) -> int {
    if c == seq!['/'] {
        1
    } else if c == seq!['.'] {
        2
    } else if c == seq!['.', '.'] {
        3
    } else {
        4
    }
}

/// Component order: by rank, names by code point.
pub open spec fn component_lt(a: Seq<char>, b: Seq<char>) -> bool {
    component_rank(a) < component_rank(b) || (component_rank(a) == component_rank(b) && seq_lt(a, b))
}

/// Path order: component lists compared lexicographically, as `Path`'s
/// `Ord` compares paths.
pub open spec fn components_lt(a: Seq<Seq<char>>, b: Seq<Seq<char>>) -> bool
    decreases a.len(),
{
    if a.len() == 0 {
        b.len() > 0
    } else if b.len() == 0 {
        false
    } else if a[0] != b[0] {
        component_lt(a[0], b[0])
    } else {
        components_lt(a.drop_first(), b.drop_first())
    }
}

/// Component order is a strict total order.
proof fn lemma_component_order(a: Seq<char>, b: Seq<char>, c: Seq<char>)
    ensures
        !component_lt(a, a),
        a != b ==> component_lt(a, b) || component_lt(b, a),
        !(component_lt(a, b) && component_lt(b, a)),
        component_lt(a, b) && component_lt(b, c) ==> component_lt(a, c),
{
    lemma_seq_lt_order(a, b, c);
    lemma_seq_lt_order(b, a, c);
    lemma_seq_lt_order(a, a, a);
}

/// Path order is a strict total order.
pub proof fn lemma_components_order(a: Seq<Seq<char>>, b: Seq<Seq<char>>, c: Seq<Seq<char>>)
    ensures
        !components_lt(a, a),
        a != b ==> components_lt(a, b) || components_lt(b, a),
        !(components_lt(a, b) && components_lt(b, a)),
        components_lt(a, b) && components_lt(b, c) ==> components_lt(a, c),
    decreases a.len(),
{
    if a.len() > 0 {
        lemma_component_order(a[0], a[0], a[0]);
    }
    if a.len() > 0 && b.len() > 0 {
        lemma_component_order(a[0], b[0], b[0]);
        if c.len() > 0 {
            lemma_component_order(a[0], b[0], c[0]);
            lemma_components_order(a.drop_first(), b.drop_first(), c.drop_first());
        } else {
            lemma_components_order(a.drop_first(), b.drop_first(), a.drop_first());
        }
        if a != b && a[0] == b[0] {
            assert(a =~= seq![a[0]] + a.drop_first());
            assert(b =~= seq![b[0]] + b.drop_first());
        }
    } else if a.len() > 0 {
        lemma_components_order(a.drop_first(), a.drop_first(), a.drop_first());
    }
    if a.len() == 0 && b.len() == 0 {
        assert(a =~= b);
    }
}

/// The rank of a component.
fn rank_of(c: &String) -> (r: u8)
    ensures
        r as int == component_rank(c@),
{
    let v = chars_of(c.as_str());
    if v.len() == 1 && v[0] == '/' {
        assert(v@ =~= seq!['/']);
        1
    } else if v.len() == 1 && v[0] == '.' {
        assert(v@ =~= seq!['.']);
        2
    } else if v.len() == 2 && v[0] == '.' && v[1] == '.' {
        assert(v@ =~= seq!['.', '.']);
        3
    } else {
        proof {
            if v@ == seq!['/'] || v@ == seq!['.'] {
                assert(v@.len() == 1);
            }
            if v@ == seq!['.', '.'] {
                assert(v@[0] == '.' && v@[1] == '.');
            }
        }
        4
    }
}

/// Whether component list `a` comes before `b` in path order.
pub(crate) fn components_before(a: &Vec<String>, b: &Vec<String>) -> (r: bool)
    ensures
        r == components_lt(str_views(a@), str_views(b@)),
{
    let ghost sa = str_views(a@);
    let ghost sb = str_views(b@);
    let mut i: usize = 0;
    assert(sa.subrange(0, sa.len() as int) =~= sa);
    assert(sb.subrange(0, sb.len() as int) =~= sb);
    assert(sa.subrange(0, 0) =~= sb.subrange(0, 0));
    while i < a.len() && i < b.len()
        invariant
            sa == str_views(a@),
            sb == str_views(b@),
            i <= a@.len(),
            i <= b@.len(),
            sa.subrange(0, i as int) == sb.subrange(0, i as int),
            components_lt(sa, sb) == components_lt(
                sa.subrange(i as int, sa.len() as int),
                sb.subrange(i as int, sb.len() as int),
            ),
        decreases a@.len() - i,
    {
        let x = chars_of(a[i].as_str());
        let y = chars_of(b[i].as_str());
        let ghost ra = sa.subrange(i as int, sa.len() as int);
        let ghost rb = sb.subrange(i as int, sb.len() as int);
        assert(ra[0] == x@ && rb[0] == y@);
        if !chars_eq(&x, &y) {
            let rx = rank_of(&a[i]);
            let ry = rank_of(&b[i]);
            return rx < ry || (rx == ry && chars_lt(&x, &y));
        }
        proof {
            assert(ra.drop_first() =~= sa.subrange(i + 1, sa.len() as int));
            assert(rb.drop_first() =~= sb.subrange(i + 1, sb.len() as int));
            assert(sa.subrange(0, i + 1) =~= sa.subrange(0, i as int).push(x@));
            assert(sb.subrange(0, i + 1) =~= sb.subrange(0, i as int).push(y@));
        }
        i = i + 1;
    }
    b.len() > i
}

/// The key of an indexed root: the root and the ignored roots, sorted in
/// path order with paths that compare equal kept once.
#[derive(Debug, Clone)]
pub struct RootIndexKey {
    pub root: String,
    pub ignored_roots: Vec<String>,
}

/// Strictly increasing in path order.
pub open spec fn paths_increasing(v: Seq<String>) -> bool {
    forall|i: int, j: int|
        0 <= i < j < v.len() ==> components_lt(path_components(#[trigger] v[i]@), path_components(#[trigger] v[j]@))
}

/// `out` lists, in increasing path order, each path of `input` that
/// compares unequal to every earlier one.
pub open spec fn sorted_distinct(input: Seq<String>, out: Seq<String>) -> bool {
    paths_increasing(out) && summarizes(input, input.len() as int, out)
}

/// The component lists of `keys` are those of the paths in `out`.
pub open spec fn keys_match(out: Seq<String>, keys: Seq<Vec<String>>) -> bool {
    keys.len() == out.len() && forall|j: int| 0 <= j < out.len() ==> str_views(#[trigger] keys[j]@) == path_components(out[j]@)
}

/// Some path of `out` compares equal to `x`.
pub open spec fn has_equal_path(out: Seq<String>, x: Seq<char>) -> bool {
    exists|j: int| 0 <= j < out.len() && path_components(#[trigger] out[j]@) == path_components(x)
}

/// Puts `path` into the increasing list `out` at its place, unless an equal
/// path is there already.
fn place_path(out: &mut Vec<String>, keys: &mut Vec<Vec<String>>, path: &String, key: Vec<String>)
    requires
        keys_match(old(out)@, old(keys)@),
        paths_increasing(old(out)@),
        str_views(key@) == path_components(path@),
    ensures
        keys_match(final(out)@, final(keys)@),
        paths_increasing(final(out)@),
        has_equal_path(old(out)@, path@) ==> final(out)@ == old(out)@,
        !has_equal_path(old(out)@, path@) ==> exists|p: int| 0 <= p <= old(out)@.len() && final(out)@ == old(out)@.insert(p, *path),
{
    let ghost kc = path_components(path@);
    let ghost before = out@;
    let mut p: usize = 0;
    while p < out.len() && components_before(&keys[p], &key)
        invariant
            out@ == before,
            p <= out@.len(),
            keys_match(out@, keys@),
            str_views(key@) == kc,
            forall|j: int| 0 <= j < p ==> components_lt(path_components(#[trigger] out@[j]@), kc),
        decreases out@.len() - p,
    {
        p = p + 1;
    }
    let same = p < out.len() && !components_before(&key, &keys[p]);
    proof {
        if p < out@.len() {
            lemma_components_order(path_components(out@[p as int]@), kc, kc);
        }
        if !same {
            assert forall|j: int| p <= j < before.len() implies components_lt(kc, path_components(#[trigger] before[j]@)) by {
                if j > p {
                    assert(components_lt(path_components(before[p as int]@), path_components(before[j]@)));
                    lemma_components_order(kc, path_components(before[p as int]@), path_components(before[j]@));
                }
            }
            assert(!has_equal_path(before, path@)) by {
                if has_equal_path(before, path@) {
                    let j = choose|j: int| 0 <= j < before.len() && path_components(#[trigger] before[j]@) == kc;
                    lemma_components_order(kc, kc, kc);
                }
            }
        } else {
            assert(path_components(before[p as int]@) == kc);
        }
    }
    if same {
        return;
    }
    out.insert(p, path.clone());
    keys.insert(p, key);
    proof {
        assert forall|a: int, b: int| 0 <= a < b < out@.len() implies components_lt(
            path_components(#[trigger] out@[a]@),
            path_components(#[trigger] out@[b]@),
        ) by {
            if b < p {
                assert(out@[a] == before[a] && out@[b] == before[b]);
            } else if b == p {
                assert(out@[a] == before[a]);
            } else if a < p {
                assert(out@[a] == before[a] && out@[b] == before[b - 1]);
                lemma_components_order(path_components(before[a]@), kc, path_components(before[b - 1]@));
            } else if a == p {
                assert(out@[b] == before[b - 1]);
            } else {
                assert(out@[a] == before[a - 1] && out@[b] == before[b - 1]);
            }
        }
        assert forall|j: int| 0 <= j < out@.len() implies str_views(#[trigger] keys@[j]@) == path_components(out@[j]@) by {
            if j < p {
                assert(out@[j] == before[j]);
            } else if j > p {
                assert(out@[j] == before[j - 1]);
            }
        }
        assert(out@ =~= before.insert(p as int, *path));
    }
}

/// `out` covers the first `i` inputs, and each path of `out` is the first
/// of those inputs that compares equal to it.
pub open spec fn summarizes(input: Seq<String>, i: int, out: Seq<String>) -> bool {
    &&& forall|a: int| 0 <= a < i ==> has_equal_path(out, #[trigger] input[a]@)
    &&& forall|j: int| 0 <= j < out.len() ==> exists|a: int|
        0 <= a < i && (#[trigger] input[a])@ == (#[trigger] out[j])@ && forall|k: int|
            0 <= k < a ==> path_components(input[k]@) != path_components(out[j]@)
}

proof fn lemma_place_step(input: Seq<String>, i: int, before: Seq<String>, after: Seq<String>)
    requires
        0 <= i < input.len(),
        summarizes(input, i, before),
        has_equal_path(before, input[i]@) ==> after == before,
        !has_equal_path(before, input[i]@) ==> exists|p: int| 0 <= p <= before.len() && after == before.insert(p, input[i]),
    ensures
        summarizes(input, i + 1, after),
{
    let x = input[i];
    if has_equal_path(before, x@) {
        assert forall|j: int| 0 <= j < after.len() implies exists|a: int|
            0 <= a < i + 1 && (#[trigger] input[a])@ == (#[trigger] after[j])@ && forall|k: int|
                0 <= k < a ==> path_components(input[k]@) != path_components(after[j]@) by {
            let a = choose|a: int| 0 <= a < i && (#[trigger] input[a])@ == (#[trigger] before[j])@ && forall|k: int|
                0 <= k < a ==> path_components(input[k]@) != path_components(before[j]@);
        }
    } else {
        let p = choose|p: int| 0 <= p <= before.len() && after == before.insert(p, x);
        assert(after[p] == x);
        assert forall|a: int| 0 <= a < i + 1 implies has_equal_path(after, #[trigger] input[a]@) by {
            if a == i {
                assert(path_components(after[p]@) == path_components(x@));
            } else {
                let j = choose|j: int| 0 <= j < before.len() && path_components(#[trigger] before[j]@) == path_components(input[a]@);
                if j < p {
                    assert(after[j] == before[j]);
                } else {
                    assert(after[j + 1] == before[j]);
                }
            }
        }
        assert forall|j: int| 0 <= j < after.len() implies exists|a: int|
            0 <= a < i + 1 && (#[trigger] input[a])@ == (#[trigger] after[j])@ && forall|k: int|
                0 <= k < a ==> path_components(input[k]@) != path_components(after[j]@) by {
            if j == p {
                assert(input[i]@ == after[j]@);
                assert forall|k: int| 0 <= k < i implies path_components(input[k]@) != path_components(after[j]@) by {
                    if path_components(input[k]@) == path_components(after[j]@) {
                        assert(has_equal_path(before, input[k]@));
                        let jj = choose|jj: int| 0 <= jj < before.len() && path_components(#[trigger] before[jj]@) == path_components(input[k]@);
                        assert(path_components(before[jj]@) == path_components(x@));
                    }
                }
            } else {
                let jj = if j < p { j } else { j - 1 };
                assert(after[j] == before[jj]);
                let a = choose|a: int| 0 <= a < i && (#[trigger] input[a])@ == (#[trigger] before[jj])@ && forall|k: int|
                    0 <= k < a ==> path_components(input[k]@) != path_components(before[jj]@);
                assert(input[a]@ == after[j]@);
            }
        }
    }
}

impl RootIndexKey {
    /// A key for a root and its ignored roots.
    pub fn new(root: String, ignored_roots: Vec<String>) -> (r: Self)
        ensures
            r.root@ == root@,
            sorted_distinct(ignored_roots@, r.ignored_roots@),
    {
        let mut out: Vec<String> = Vec::new();
        let mut keys: Vec<Vec<String>> = Vec::new();
        let mut i: usize = 0;
        while i < ignored_roots.len()
            invariant
                i <= ignored_roots@.len(),
                keys_match(out@, keys@),
                paths_increasing(out@),
                summarizes(ignored_roots@, i as int, out@),
            decreases ignored_roots@.len() - i,
        {
            let key = components_of(ignored_roots[i].as_str());
            let ghost before = out@;
            place_path(&mut out, &mut keys, &ignored_roots[i], key);
            proof {
                lemma_place_step(ignored_roots@, i as int, before, out@);
            }
            i = i + 1;
        }
        RootIndexKey { root, ignored_roots: out }
    }
}

/// Hex digit of a value below 16.
pub open spec fn hex_char(d: u64) -> char {
    if d < 10 {
        ((d + 48) as u8) as char
    } else {
        ((d + 87) as u8) as char
    }
}

/// The last `n` hexadecimal digits of `h`, most significant first.
pub open spec fn hex_digits(h: u64, n: nat) -> Seq<char>
    decreases n,
{
    if n == 0 {
        Seq::empty()
    } else {
        hex_digits(h / 16, (n - 1) as nat).push(hex_char(h % 16))
    }
}

/// The FNV-1a hash of a key: the root's bytes, a 0xff byte, then each
/// ignored root's bytes followed by a 0xfe byte.
pub open spec fn key_hash(root: Seq<u8>, ignored: Seq<Seq<u8>>) -> u64
    decreases ignored.len(),
{
    if ignored.len() == 0 {
        fnv1a(fnv1a(FNV_OFFSET_BASIS, root), seq![0xffu8])
    } else {
        fnv1a(fnv1a(key_hash(root, ignored.drop_last()), ignored.last()), seq![0xfeu8])
    }
}

/// The UTF-8 bytes of each string.
pub open spec fn bytes_of(v: Seq<String>) -> Seq<Seq<u8>> {
    v.map_values(|s: String| vstd::utf8::encode_utf8(s@))
}

/// A hexadecimal digit.
fn hex_digit(d: u64) -> (c: char)
    requires
        d < 16,
    ensures
        c == hex_char(d),
{
    if d < 10 {
        ((d + 48) as u8) as char
    } else {
        ((d + 87) as u8) as char
    }
}

/// The 16-digit lowercase hexadecimal FNV-1a fingerprint of a key, which
/// names its cache file.
pub fn cache_key_fingerprint(key: &RootIndexKey) -> (r: String)
    ensures
        r@ == hex_digits(key_hash(vstd::utf8::encode_utf8(key.root@), bytes_of(key.ignored_roots@)), 16),
{
    let mut hash: u64 = FNV_OFFSET_BASIS;
    fnv1a_update(&mut hash, key.root.as_str().as_bytes());
    let sep: [u8; 1] = [0xff];
    fnv1a_update(&mut hash, &sep);
    assert(sep@ =~= seq![0xffu8]);
    let ghost rb = vstd::utf8::encode_utf8(key.root@);
    let mut i: usize = 0;
    while i < key.ignored_roots.len()
        invariant
            i <= key.ignored_roots@.len(),
            hash == key_hash(rb, bytes_of(key.ignored_roots@).subrange(0, i as int)),
        decreases key.ignored_roots@.len() - i,
    {
        fnv1a_update(&mut hash, key.ignored_roots[i].as_str().as_bytes());
        let end: [u8; 1] = [0xfe];
        fnv1a_update(&mut hash, &end);
        proof {
            assert(end@ =~= seq![0xfeu8]);
            let s = bytes_of(key.ignored_roots@).subrange(0, i + 1);
            assert(s.drop_last() =~= bytes_of(key.ignored_roots@).subrange(0, i as int));
        }
        i = i + 1;
    }
    assert(bytes_of(key.ignored_roots@).subrange(0, i as int) =~= bytes_of(key.ignored_roots@));
    let h0 = hash;
    let mut cur = hash;
    let mut digits: Vec<char> = Vec::new();
    let mut k: usize = 0;
    while k < 16
        invariant
            k <= 16,
            hex_digits(h0, 16) == hex_digits(cur, (16 - k) as nat) + digits@,
        decreases 16 - k,
    {
        let d = hex_digit(cur % 16);
        proof {
            assert(hex_digits(cur, (16 - k) as nat) == hex_digits(cur / 16, (15 - k) as nat).push(hex_char(cur % 16)));
            assert(hex_digits(cur / 16, (15 - k) as nat).push(d) + digits@ =~= hex_digits(cur / 16, (15 - k) as nat) + (
            seq![d] + digits@));
        }
        let ghost prev = digits@;
        digits.insert(0, d);
        assert(digits@ =~= seq![d] + prev);
        cur = cur / 16;
        k = k + 1;
    }
    assert(hex_digits(cur, 0) + digits@ =~= digits@);
    crate::strings::string_of(&digits)
}

/// Whether a cache saved at `saved_at` is stale at time `now` for a root
/// last modified at `root_modified` (none when its metadata cannot be
/// read): older than `INDEX_CACHE_MAX_AGE_SECS`, root unreadable, or root
/// modified after the save.
pub fn cache_is_stale_at(now: u64, saved_at: u64, root_modified: Option<u64>) -> (r: bool)
    ensures
        r == stale_at(now, saved_at, root_modified),
{
    if now.saturating_sub(saved_at) > INDEX_CACHE_MAX_AGE_SECS {
        return true;
    }
    match root_modified {
        None => true,
        Some(modified) => modified > saved_at,
    }
}


/// A cache saved at `saved_at` is stale at `now` when it is older than
/// `INDEX_CACHE_MAX_AGE_SECS`, when the root's modification time is
/// unknown, or when the root changed after it was saved.
pub open spec fn stale_at(now: u64, saved_at: u64, root_modified: Option<u64>) -> bool {
    (if now >= saved_at {
        now - saved_at
    } else {
        0
    }) > INDEX_CACHE_MAX_AGE_SECS || root_modified is None || (root_modified matches Some(m) && m > saved_at)
}

/// What `zstd::decode_all` gives for a compressed byte string, if it
/// decodes.
pub uninterp spec fn zstd_decoded(b: Seq<u8>) -> Option<Seq<u8>>;

/// What `zstd::encode_all` gives for bytes at a compression level, if it
/// succeeds.
pub uninterp spec fn zstd_encoded(b: Seq<u8>, level: i32) -> Option<Seq<u8>>;

/// `zstd::decode_all` over an in-memory byte string: the decompressed
/// bytes, or `None` when they do not decode.
#[verifier::external_body]
fn zstd_decode(bytes: &[u8]) -> (r: Option<Vec<u8>>)
    ensures
        match r {
            Some(v) => zstd_decoded(bytes@) == Some(v@),
            None => zstd_decoded(bytes@) is None,
        },
{
    zstd::decode_all(bytes).ok()
}

/// `zstd::encode_all` over an in-memory byte string at `level`.
#[verifier::external_body]
fn zstd_encode(bytes: &[u8], level: i32) -> (r: Result<Vec<u8>, std::io::Error>)
    ensures
        match r {
            Ok(v) => zstd_encoded(bytes@, level) == Some(v@),
            Err(_) => zstd_encoded(bytes@, level) is None,
        },
{
    zstd::encode_all(bytes, level)
}

/// The compression level of cache files.
pub const INDEX_CACHE_ZSTD_LEVEL: i32 = 6;

/// Decompresses the bytes of a cache file: `zstd_decoded` of them.
pub fn decompress_snapshot(compressed: &[u8]) -> (r: Option<Vec<u8>>)
    ensures
        match r {
            Some(v) => zstd_decoded(compressed@) == Some(v@),
            None => zstd_decoded(compressed@) is None,
        },
{
    zstd_decode(compressed)
}

/// Compresses the encoded index for its cache file, at
/// `INDEX_CACHE_ZSTD_LEVEL`; an I/O error where compression fails.
pub fn compress_snapshot(encoded: &[u8]) -> (r: crate::error::Result<Vec<u8>>)
    ensures
        match r {
            Ok(v) => zstd_encoded(encoded@, INDEX_CACHE_ZSTD_LEVEL) == Some(v@),
            Err(e) => zstd_encoded(encoded@, INDEX_CACHE_ZSTD_LEVEL) is None && e is Io,
        },
{
    match zstd_encode(encoded, INDEX_CACHE_ZSTD_LEVEL) {
        Ok(v) => Ok(v),
        Err(e) => Err(crate::error::FilesystemError::Io(e)),
    }
}

fn same_strings(a: &Vec<String>, b: &Vec<String>) -> (r: bool)
    ensures
        r == (str_views(a@) == str_views(b@)),
{
    if a.len() != b.len() {
        proof {
            assert(str_views(a@).len() != str_views(b@).len());
        }
        return false;
    }
    let mut i: usize = 0;
    while i < a.len()
        invariant
            i <= a@.len(),
            a@.len() == b@.len(),
            forall|k: int| 0 <= k < i ==> a@[k]@ == b@[k]@,
        decreases a@.len() - i,
    {
        let x = chars_of(a[i].as_str());
        let y = chars_of(b[i].as_str());
        if !chars_eq(&x, &y) {
            proof {
                assert(str_views(a@)[i as int] != str_views(b@)[i as int]);
            }
            return false;
        }
        i = i + 1;
    }
    proof {
        assert(str_views(a@) =~= str_views(b@));
    }
    true
}

/// Whether a cache whose header reads `version`, `root`, `ignored` and
/// `root_is_dir`, saved at `saved_at`, may stand for the root of `key`
/// (a directory when `key_root_is_dir`) at `now`: the format version, the
/// root, the ignored roots and the root's kind must all match, and the
/// cache must not be stale.
pub fn snapshot_accepted(
    version: u32,
    root: &str,
    ignored: &Vec<String>,
    root_is_dir: bool,
    saved_at: u64,
    key: &RootIndexKey,
    key_root_is_dir: bool,
    now: u64,
    root_modified: Option<u64>,
) -> (r: bool)
    ensures
        r == (version == INDEX_CACHE_VERSION && root@ == key.root@ && str_views(ignored@) == str_views(
            key.ignored_roots@,
        ) && root_is_dir == key_root_is_dir && !stale_at(now, saved_at, root_modified)),
{
    if version != INDEX_CACHE_VERSION {
        return false;
    }
    let a = chars_of(root);
    let b = chars_of(key.root.as_str());
    if !chars_eq(&a, &b) {
        return false;
    }
    if !same_strings(ignored, &key.ignored_roots) {
        return false;
    }
    if root_is_dir != key_root_is_dir {
        return false;
    }
    !cache_is_stale_at(now, saved_at, root_modified)
}


/// Strictly increasing in component order.
pub open spec fn comps_increasing(a: Seq<Seq<Seq<char>>>) -> bool {
    forall|i: int, j: int| 0 <= i < j < a.len() ==> components_lt(#[trigger] a[i], #[trigger] a[j])
}

/// Two strictly increasing lists with the same members are the same list.
proof fn lemma_increasing_unique(a: Seq<Seq<Seq<char>>>, b: Seq<Seq<Seq<char>>>)
    requires
        comps_increasing(a),
        comps_increasing(b),
        forall|x: Seq<Seq<char>>| a.contains(x) <==> b.contains(x),
    ensures
        a == b,
    decreases a.len(),
{
    if a.len() == 0 {
        if b.len() > 0 {
            assert(b.contains(b[0]));
        }
        assert(a =~= b);
    } else {
        assert(a.contains(a[0]));
        assert(b.len() > 0);
        assert(b.contains(b[0]));
        let k = choose|k: int| 0 <= k < b.len() && b[k] == a[0];
        let m = choose|m: int| 0 <= m < a.len() && a[m] == b[0];
        lemma_components_order(b[0], a[0], b[0]);
        lemma_components_order(a[0], b[0], a[0]);
        if k > 0 {
            assert(components_lt(b[0], b[k]));
            if m > 0 {
                assert(components_lt(a[0], a[m]));
            }
            assert(false);
        }
        assert(a[0] == b[0]);
        let a1 = a.drop_first();
        let b1 = b.drop_first();
        assert forall|x: Seq<Seq<char>>| a1.contains(x) <==> b1.contains(x) by {
            if a1.contains(x) {
                let i = choose|i: int| 0 <= i < a1.len() && a1[i] == x;
                assert(a[i + 1] == x);
                assert(components_lt(a[0], a[i + 1]));
                lemma_components_order(x, x, x);
                assert(a.contains(x));
                let j = choose|j: int| 0 <= j < b.len() && b[j] == x;
                if j == 0 {
                    assert(false);
                }
                assert(b1[j - 1] == x);
            }
            if b1.contains(x) {
                let i = choose|i: int| 0 <= i < b1.len() && b1[i] == x;
                assert(b[i + 1] == x);
                assert(components_lt(b[0], b[i + 1]));
                lemma_components_order(x, x, x);
                assert(b.contains(x));
                let j = choose|j: int| 0 <= j < a.len() && a[j] == x;
                if j == 0 {
                    assert(false);
                }
                assert(a1[j - 1] == x);
            }
        }
        lemma_increasing_unique(a1, b1);
        assert(a =~= seq![a[0]] + a1);
        assert(b =~= seq![b[0]] + b1);
    }
}

/// The component lists of a list of paths.
pub open spec fn comps_of(v: Seq<String>) -> Seq<Seq<Seq<char>>> {
    v.map_values(|s: String| path_components(s@))
}

/// The order of the ignored roots given to a key does not matter: inputs
/// that hold the same paths (as paths compare) give keys whose ignored
/// roots compare equal, one by one.
pub proof fn law_key_ignores_input_order(in1: Seq<String>, out1: Seq<String>, in2: Seq<String>, out2: Seq<String>)
    requires
        sorted_distinct(in1, out1),
        sorted_distinct(in2, out2),
        forall|x: Seq<Seq<char>>| comps_of(in1).contains(x) <==> comps_of(in2).contains(x),
    ensures
        comps_of(out1) == comps_of(out2),
{
    let a = comps_of(out1);
    let b = comps_of(out2);
    assert(comps_increasing(a));
    assert(comps_increasing(b));
    assert forall|x: Seq<Seq<char>>| a.contains(x) <==> b.contains(x) by {
        if a.contains(x) {
            let j = choose|j: int| 0 <= j < a.len() && a[j] == x;
            let i = choose|i: int| 0 <= i < in1.len() && (#[trigger] in1[i])@ == (#[trigger] out1[j])@
                && forall|k: int| 0 <= k < i ==> path_components(in1[k]@) != path_components(out1[j]@);
            assert(comps_of(in1)[i] == x);
            assert(comps_of(in1).contains(x));
            let i2 = choose|i2: int| 0 <= i2 < comps_of(in2).len() && comps_of(in2)[i2] == x;
            assert(has_equal_path(out2, in2[i2]@));
            let j2 = choose|j2: int| 0 <= j2 < out2.len() && path_components(#[trigger] out2[j2]@) == path_components(in2[i2]@);
            assert(b[j2] == x);
        }
        if b.contains(x) {
            let j = choose|j: int| 0 <= j < b.len() && b[j] == x;
            let i = choose|i: int| 0 <= i < in2.len() && (#[trigger] in2[i])@ == (#[trigger] out2[j])@
                && forall|k: int| 0 <= k < i ==> path_components(in2[k]@) != path_components(out2[j]@);
            assert(comps_of(in2)[i] == x);
            assert(comps_of(in2).contains(x));
            let i1 = choose|i1: int| 0 <= i1 < comps_of(in1).len() && comps_of(in1)[i1] == x;
            assert(has_equal_path(out1, in1[i1]@));
            let j1 = choose|j1: int| 0 <= j1 < out1.len() && path_components(#[trigger] out1[j1]@) == path_components(in1[i1]@);
            assert(a[j1] == x);
        }
    }
    lemma_increasing_unique(a, b);
}


/// The file name of a key's cache: `fs-index-<fingerprint>.bin.zst`.
pub open spec fn cache_file_name(key: RootIndexKey) -> Seq<char> {
    "fs-index-"@ + hex_digits(key_hash(vstd::utf8::encode_utf8(key.root@), bytes_of(key.ignored_roots@)), 16) + ".bin.zst"@
}

impl RootIndexKey {
    /// The cache file of this key in `cache_dir` (joined as `PathBuf::join`
    /// joins on Unix).
    pub fn cache_path(&self, cache_dir: &str) -> (r: String)
        ensures
            r@ == join_path(cache_dir@, cache_file_name(*self)),
    {
        let fp = cache_key_fingerprint(self);
        let a = concat_strs("fs-index-", fp.as_str());
        let name = concat_strs(a.as_str(), ".bin.zst");
        let joined = join_chars(&chars_of(cache_dir), &chars_of(name.as_str()));
        string_of(&joined)
    }
}

} // verus!
