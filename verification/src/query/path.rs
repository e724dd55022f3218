//! Path normalization and comparison helpers for query filters.

use vstd::prelude::*;

use crate::error::{FilesystemError, Result};
use crate::strings::{opt_str_view, opt_string_view, chars_eq, chars_of, keep_nonempty, lower_chars, lower_seq, nonempty, rfind_char, split_char, split_chars, starts_with, starts_with_chars, str_views, string_of, strings_of, sub_chars, trim, trim_chars};

verus! {

/// A backslash read as a forward slash.
pub open spec fn slash_of(c: char) -> char {
    if c == '\\' {
        '/'
    } else {
        c
    }
}

/// Every backslash replaced by a forward slash.
pub open spec fn forward_slashes(s: Seq<char>) -> Seq<char> {
    s.map_values(|c: char| slash_of(c))
}

/// An ASCII letter.
pub open spec fn is_ascii_alpha(c: char) -> bool {
    ('a' <= c && c <= 'z') || ('A' <= c && c <= 'Z')
}

/// A Windows drive root such as `C:/`.
pub open spec fn is_drive_root(s: Seq<char>) -> bool {
    s.len() == 3 && is_ascii_alpha(s[0]) && s[1] == ':' && s[2] == '/'
}

/// Trailing slashes removed, keeping a lone `/` and a drive root.
pub open spec fn strip_trailing_slashes(s: Seq<char>) -> Seq<char>
    decreases s.len(),
{
    if s.len() > 1 && s.last() == '/' && !is_drive_root(s) {
        strip_trailing_slashes(s.drop_last())
    } else {
        s
    }
}

/// The comparable form of a path: forward slashes, no trailing slash, `/` for empty.
pub open spec fn normalized_path(s: Seq<char>) -> Seq<char> {
    let t = strip_trailing_slashes(forward_slashes(s));
    if t.len() == 0 {
        seq!['/']
    } else {
        t
    }
}

fn is_drive_root_exec(v: &Vec<char>) -> (r: bool)
    ensures
        r == is_drive_root(v@),
{
    v.len() == 3 && (('a' <= v[0] && v[0] <= 'z') || ('A' <= v[0] && v[0] <= 'Z')) && v[1] == ':'
        && v[2] == '/'
}

/// Normalizes a path held as characters.
pub fn normalize_chars(v: &Vec<char>) -> (r: Vec<char>)
    ensures
        r@ == normalized_path(v@),
{
    let mut n: Vec<char> = Vec::new();
    let mut i: usize = 0;
    while i < v.len()
        invariant
            i <= v.len(),
            n@ == forward_slashes(v@.subrange(0, i as int)),
        decreases v.len() - i,
    {
        let c = if v[i] == '\\' { '/' } else { v[i] };
        n.push(c);
        i = i + 1;
        assert(forward_slashes(v@.subrange(0, i as int)) =~= forward_slashes(v@.subrange(0, i - 1 as int)).push(slash_of(v@[i - 1])));
    }
    assert(v@.subrange(0, v.len() as int) =~= v@);
    while n.len() > 1 && n[n.len() - 1] == '/' && !is_drive_root_exec(&n)
        invariant
            strip_trailing_slashes(forward_slashes(v@)) == strip_trailing_slashes(n@),
        decreases n.len(),
    {
        n.pop();
    }
    if n.len() == 0 {
        n.push('/');
    }
    n
}

/// Normalizes a path for comparison (forward slashes, no trailing slash).
pub fn normalize_path_for_compare(raw: &str) -> (r: String)
    ensures
        r@ == normalized_path(raw@),
{
    let v = chars_of(raw);
    let n = normalize_chars(&v);
    string_of(&n)
}

/// Stripping trailing slashes keeps a prefix that no longer ends in a
/// strippable slash.
proof fn lemma_strip_trailing_slashes(s: Seq<char>)
    ensures
        strip_trailing_slashes(s).len() <= s.len(),
        strip_trailing_slashes(s) == s.subrange(0, strip_trailing_slashes(s).len() as int),
        !(strip_trailing_slashes(s).len() > 1 && strip_trailing_slashes(s).last() == '/'
            && !is_drive_root(strip_trailing_slashes(s))),
    decreases s.len(),
{
    if s.len() > 1 && s.last() == '/' && !is_drive_root(s) {
        lemma_strip_trailing_slashes(s.drop_last());
        let t = strip_trailing_slashes(s.drop_last());
        assert(s.drop_last().subrange(0, t.len() as int) =~= s.subrange(0, t.len() as int));
    } else {
        assert(s.subrange(0, s.len() as int) =~= s);
    }
}

/// The comparable form of a path is non-empty, has no backslash, ends in
/// `/` only when it is `/` or a drive root, and normalizing it again
/// changes nothing.
pub proof fn law_normalized_path_is_stable(s: Seq<char>)
    ensures
        normalized_path(s).len() > 0,
        forall|i: int| 0 <= i < normalized_path(s).len() ==> #[trigger] normalized_path(s)[i] != '\\',
        normalized_path(s).last() == '/' ==> normalized_path(s) == seq!['/'] || is_drive_root(normalized_path(s)),
        normalized_path(normalized_path(s)) == normalized_path(s),
{
    let f = forward_slashes(s);
    lemma_strip_trailing_slashes(f);
    let t = strip_trailing_slashes(f);
    let n = normalized_path(s);
    assert forall|i: int| 0 <= i < t.len() implies #[trigger] t[i] != '\\' by {
        assert(t[i] == f[i]);
    }
    assert forall|i: int| 0 <= i < n.len() implies #[trigger] n[i] != '\\' by {
        if t.len() > 0 {
            assert(n[i] == t[i]);
        }
    }
    assert(forward_slashes(n) =~= n);
    if t.len() == 0 {
        assert(n =~= seq!['/']);
        assert(strip_trailing_slashes(n) == n);
    } else {
        assert(n == t);
        assert(strip_trailing_slashes(n) == n);
    }
}

/// The non-empty `/`-separated segments of a path.
pub open spec fn path_segments(s: Seq<char>) -> Seq<Seq<char>> {
    nonempty(split_char(s, '/'))
}

/// Splits a path into segments.
pub fn split_path_segments(path: &str) -> (r: Vec<String>)
    ensures
        str_views(r@) == path_segments(path@),
{
    let v = chars_of(path);
    let pieces = split_chars(&v, '/');
    let kept = keep_nonempty(pieces);
    strings_of(&kept)
}

/// What `Path::parent` gives for a path (as a string), if anything.
pub uninterp spec fn spec_path_parent(p: Seq<char>) -> Option<Seq<char>>;

/// `std::path::Path::parent`, read back as a string. The contract only
/// ties the result to the name above; how components are split is not
/// restated here.
#[verifier::external_body]
pub(crate) fn path_parent(p: &str) -> (r: Option<String>)
    ensures
        match r {
            Some(q) => spec_path_parent(p@) == Some(q@),
            None => spec_path_parent(p@) is None,
        },
{
    std::path::Path::new(p).parent().map(|q| q.to_string_lossy().into_owned())
}

/// Whether `candidate` lies directly inside `parent`.
pub open spec fn direct_child(candidate: Seq<char>, parent: Seq<char>) -> bool {
    candidate != parent && match spec_path_parent(candidate) {
        Some(q) => normalized_path(q) == parent,
        None => false,
    }
}

/// Checks if a candidate path is a direct child of the parent path.
pub fn is_direct_child_path(candidate: &str, parent: &str) -> (r: bool)
    ensures
        r == direct_child(candidate@, parent@),
{
    let c = chars_of(candidate);
    let p = chars_of(parent);
    if chars_eq(&c, &p) {
        return false;
    }
    match path_parent(candidate) {
        None => false,
        Some(q) => {
            let n = normalize_path_for_compare(q.as_str());
            let nv = chars_of(n.as_str());
            chars_eq(&nv, &p)
        },
    }
}

/// The prefix every path below `parent` starts with: `parent` itself when it
/// already ends in a separator (`/` or a drive root such as `C:/`), else
/// `parent` followed by `/`.
pub open spec fn child_prefix(parent: Seq<char>) -> Seq<char> {
    if parent.len() > 0 && parent.last() == '/' {
        parent
    } else {
        parent.push('/')
    }
}

/// Whether `candidate` lies anywhere below `parent`.
pub open spec fn descendant(candidate: Seq<char>, parent: Seq<char>) -> bool {
    candidate != parent && starts_with(candidate, child_prefix(parent))
}

/// Checks if a candidate path is a descendant of the parent path.
pub fn is_descendant_path(candidate: &str, parent: &str) -> (r: bool)
    ensures
        r == descendant(candidate@, parent@),
{
    let c = chars_of(candidate);
    let mut p = chars_of(parent);
    if chars_eq(&c, &p) {
        return false;
    }
    if p.len() == 0 || p[p.len() - 1] != '/' {
        p.push('/');
    }
    starts_with_chars(&c, &p)
}

/// `PathBuf::join` on Unix: an absolute `rest` replaces `base`, otherwise a
/// separator is added when `base` is non-empty and does not end in one.
pub open spec fn join_path(base: Seq<char>, rest: Seq<char>) -> Seq<char> {
    if rest.len() > 0 && rest[0] == '/' {
        rest
    } else if base.len() == 0 || base.last() == '/' {
        base + rest
    } else {
        base.push('/') + rest
    }
}

pub(crate) fn join_chars(base: &Vec<char>, rest: &Vec<char>) -> (r: Vec<char>)
    ensures
        r@ == join_path(base@, rest@),
{
    if rest.len() > 0 && rest[0] == '/' {
        return rest.clone();
    }
    let mut r = base.clone();
    if !(base.len() == 0 || base[base.len() - 1] == '/') {
        r.push('/');
    }
    let ghost start = r@;
    let mut i: usize = 0;
    while i < rest.len()
        invariant
            i <= rest.len(),
            r@ == start + rest@.subrange(0, i as int),
        decreases rest.len() - i,
    {
        r.push(rest[i]);
        i = i + 1;
        assert(r@ =~= start + rest@.subrange(0, i as int));
    }
    assert(rest@.subrange(0, rest.len() as int) =~= rest@);
    r
}

/// Whether a scope argument asks for home expansion (`~`, `~/..`, `~\..`).
pub open spec fn is_home_relative(t: Seq<char>) -> bool {
    t == seq!['~'] || starts_with(t, seq!['~', '/']) || starts_with(t, seq!['~', '\\'])
}

/// The path a scope filter argument names, before normalization; `None`
/// when it needs the home directory and none is known.
pub open spec fn expanded_scope(t: Seq<char>, home: Option<Seq<char>>) -> Option<Seq<char>> {
    if is_home_relative(t) {
        match home {
            None => None,
            Some(h) => if t == seq!['~'] {
                Some(h)
            } else {
                Some(join_path(h, t.subrange(2, t.len() as int)))
            },
        }
    } else {
        Some(t)
    }
}

/// Normalizes a scope filter path (`parent:`, `in:`, `nosubfolders:`),
/// expanding a leading `~` against `home`.
pub fn normalize_scope_filter_path(raw: &str, filter_name: &str, home: Option<&str>) -> (r: Result<
    String,
>)
    ensures
        trim(raw@).len() == 0 ==> (r matches Err(FilesystemError::QueryParse(m)) && m@ == filter_name@ + ": requires a folder path"@),
        trim(raw@).len() > 0 && expanded_scope(trim(raw@), opt_str_view(home)) is None ==> r matches Err(FilesystemError::Path(_)),
        trim(raw@).len() > 0 ==> match expanded_scope(trim(raw@), opt_str_view(home)) {
            Some(e) => r matches Ok(s) && s@ == normalized_path(e),
            None => r is Err,
        },
        r matches Err(e) ==> e is QueryParse || (e is Path && home is None),
{
    let v = chars_of(raw);
    let t = trim_chars(&v);
    if t.len() == 0 {
        let mut m = String::from_str(filter_name);
        m.append(": requires a folder path");
        return Err(FilesystemError::QueryParse(m));
    }
    let home_relative = (t.len() == 1 && t[0] == '~') || (t.len() >= 2 && t[0] == '~' && (t[1]
        == '/' || t[1] == '\\'));
    proof {
        assert(home_relative == is_home_relative(t@)) by {
            if t.len() >= 2 {
                assert(t@.subrange(0, 2) =~= seq![t@[0], t@[1]]);
            }
            if t.len() == 1 {
                assert(t@ =~= seq![t@[0]]);
            }
        }
    }
    let expanded = if home_relative {
        match home {
            None => {
                return Err(FilesystemError::Path(String::from_str("HOME is not set")));
            },
            Some(h) => {
                let hv = chars_of(h);
                if t.len() == 1 {
                    hv
                } else {
                    let rest = sub_chars(&t, 2, t.len());
                    join_chars(&hv, &rest)
                }
            },
        }
    } else {
        t
    };
    let n = normalize_chars(&expanded);
    Ok(string_of(&n))
}

/// The lowercase text after the last `.` of a name, when there is some.
pub open spec fn name_extension(s: Seq<char>) -> Option<Seq<char>> {
    if s.contains('.') {
        let i = choose|i: int| 0 <= i < s.len() && s[i] == '.' && forall|j: int| i < j < s.len() ==> s[j] != '.';
        if i + 1 >= s.len() {
            None
        } else {
            Some(lower_seq(s.subrange(i + 1, s.len() as int)))
        }
    } else {
        None
    }
}

/// Extracts the lowercase extension from a filename.
pub fn extension_of_name(name: &str) -> (r: Option<String>)
    ensures
        opt_string_view(r) == name_extension(name@),
{
    let v = chars_of(name);
    match rfind_char(&v, '.') {
        None => None,
        Some(i) => {
            proof {
                let j = choose|j: int| 0 <= j < v@.len() && v@[j] == '.' && forall|k: int| j < k < v@.len() ==> v@[k] != '.';
                assert(v@.contains('.'));
                if j < i {
                    assert(v@[i as int] != '.');
                }
                if i < j {
                    assert(v@[j] != '.');
                }
            }
            if i + 1 >= v.len() {
                None
            } else {
                let tail = sub_chars(&v, i + 1, v.len());
                let l = lower_chars(&tail);
                Some(string_of(&l))
            }
        },
    }
}

} // verus!
