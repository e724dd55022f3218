//! Path scope checks and coalescing of changed paths.
//!
//! Paths are compared as `std::path::Path` compares them: by their
//! components (`Path::components`), so `/a/b/` equals `/a/b` and `/foo/bar`
//! is no ancestor of `/foo/barista`.

use vstd::prelude::*;
use crate::index::persistence::{components_before, components_lt, lemma_components_order};
use crate::strings::{chars_eq, chars_of, str_views};

verus! {

/// The components of a path, each as text (`/` for the root), as
/// `std::path::Path::components` gives them.
pub uninterp spec fn path_components(p: Seq<char>) -> Seq<Seq<char>>;

/// `std::path::Path::components`, each component as text.
#[verifier::external_body]
pub(crate) fn components_of(p: &str) -> (r: Vec<String>)
    ensures
        str_views(r@) == path_components(p@),
{
    std::path::Path::new(p).components().map(|c| c.as_os_str().to_string_lossy().into_owned()).collect()
}

/// `base` is a component prefix of `path`, as `Path::starts_with` decides.
pub open spec fn comps_prefix(base: Seq<Seq<char>>, path: Seq<Seq<char>>) -> bool {
    base.len() <= path.len() && path.subrange(0, base.len() as int) == base
}

/// The shortest prefix a path's parent chain reaches: the root when the
/// path is absolute, else the empty path.
pub open spec fn chain_floor(c: Seq<Seq<char>>) -> int {
    if c.len() > 0 && c[0] == seq!['/'] {
        1
    } else {
        0
    }
}

/// `a` is `p` or one of its ancestors by `PathBuf::pop`: a component
/// prefix of `p` no shorter than the chain floor.
pub open spec fn ancestor_or_self(a: Seq<Seq<char>>, p: Seq<Seq<char>>) -> bool {
    chain_floor(p) <= a.len() <= p.len() && p.subrange(0, a.len() as int) == a
}

pub(crate) fn comps_eq(a: &Vec<String>, b: &Vec<String>) -> (r: bool)
    ensures
        r == (str_views(a@) == str_views(b@)),
{
    if a.len() != b.len() {
        return false;
    }
    let mut i: usize = 0;
    while i < a.len()
        invariant
            i <= a@.len(),
            a@.len() == b@.len(),
            forall|k: int| 0 <= k < i ==> a@[k]@ == b@[k]@,
        decreases a@.len() - i,
    {
        let x = chars_of(a[i].as_str());
        let y = chars_of(b[i].as_str());
        if !chars_eq(&x, &y) {
            assert(str_views(a@)[i as int] != str_views(b@)[i as int]);
            return false;
        }
        i = i + 1;
    }
    assert(str_views(a@) =~= str_views(b@));
    true
}

fn comps_prefix_exec(base: &Vec<String>, path: &Vec<String>) -> (r: bool)
    ensures
        r == comps_prefix(str_views(base@), str_views(path@)),
{
    if base.len() > path.len() {
        return false;
    }
    let mut i: usize = 0;
    while i < base.len()
        invariant
            i <= base@.len(),
            base@.len() <= path@.len(),
            forall|k: int| 0 <= k < i ==> base@[k]@ == path@[k]@,
        decreases base@.len() - i,
    {
        let x = chars_of(base[i].as_str());
        let y = chars_of(path[i].as_str());
        if !chars_eq(&x, &y) {
            assert(str_views(path@).subrange(0, base@.len() as int)[i as int] != str_views(base@)[i as int]);
            return false;
        }
        i = i + 1;
    }
    assert(str_views(path@).subrange(0, base@.len() as int) =~= str_views(base@));
    true
}

/// Whether a changed path lies within the indexed scope: the root itself,
/// or (for a directory root) anything below it.
pub fn path_in_scope(root: &str, root_is_dir: bool, candidate: &str) -> (r: bool)
    ensures
        r == if root_is_dir {
            comps_prefix(path_components(root@), path_components(candidate@))
        } else {
            path_components(candidate@) == path_components(root@)
        },
{
    let rc = components_of(root);
    let cc = components_of(candidate);
    if root_is_dir {
        let eq = comps_eq(&cc, &rc);
        proof {
            if eq {
                assert(str_views(cc@).subrange(0, str_views(rc@).len() as int) =~= str_views(cc@));
            }
        }
        eq || comps_prefix_exec(&rc, &cc)
    } else {
        comps_eq(&cc, &rc)
    }
}

/// Whether a path lies in or below one of the ignored roots.
pub fn path_is_ignored(ignored_roots: &[String], candidate: &str) -> (r: bool)
    ensures
        r == exists|k: int| 0 <= k < ignored_roots@.len()
            && comps_prefix(path_components(#[trigger] ignored_roots@[k]@), path_components(candidate@)),
{
    let cc = components_of(candidate);
    let mut i: usize = 0;
    while i < ignored_roots.len()
        invariant
            i <= ignored_roots@.len(),
            str_views(cc@) == path_components(candidate@),
            forall|k: int| 0 <= k < i ==> !comps_prefix(path_components(#[trigger] ignored_roots@[k]@), path_components(candidate@)),
        decreases ignored_roots@.len() - i,
    {
        let ic = components_of(ignored_roots[i].as_str());
        let eq = comps_eq(&cc, &ic);
        proof {
            if eq {
                assert(str_views(cc@).subrange(0, str_views(ic@).len() as int) =~= str_views(cc@));
            }
        }
        if eq || comps_prefix_exec(&ic, &cc) {
            return true;
        }
        i = i + 1;
    }
    false
}

/// Returns the number of components of a path.
pub fn path_depth(path: &str) -> (r: usize)
    ensures
        r == path_components(path@).len(),
{
    components_of(path).len()
}

/// Whether a selected path is the path or one of its ancestors.
pub open spec fn has_selected_ancestor_spec(p: Seq<Seq<char>>, selected: Seq<Seq<Seq<char>>>) -> bool {
    exists|k: int| 0 <= k < selected.len() && ancestor_or_self(#[trigger] selected[k], p)
}

/// The component lists of several paths.
pub open spec fn comps_views(v: Seq<Vec<String>>) -> Seq<Seq<Seq<char>>> {
    v.map_values(|c: Vec<String>| str_views(c@))
}

fn contains_comps(selected: &Vec<Vec<String>>, c: &Vec<String>) -> (r: bool)
    ensures
        r == comps_views(selected@).contains(str_views(c@)),
{
    let mut i: usize = 0;
    while i < selected.len()
        invariant
            i <= selected@.len(),
            forall|k: int| 0 <= k < i ==> comps_views(selected@)[k] != str_views(c@),
        decreases selected@.len() - i,
    {
        if comps_eq(&selected[i], c) {
            assert(comps_views(selected@)[i as int] == str_views(c@));
            return true;
        }
        i = i + 1;
    }
    false
}

/// Checks whether the path (given by its components) or one of its
/// ancestors is selected, walking up the parent chain.
fn comps_have_selected_ancestor(path: &Vec<String>, selected: &Vec<Vec<String>>) -> (r: bool)
    ensures
        r == has_selected_ancestor_spec(str_views(path@), comps_views(selected@)),
{
    let ghost p = str_views(path@);
    if selected.len() == 0 {
        return false;
    }
    let mut ancestor: Vec<String> = Vec::new();
    let mut j: usize = 0;
    while j < path.len()
        invariant
            j <= path@.len(),
            ancestor@.len() == j,
            str_views(ancestor@) == p.subrange(0, j as int),
            p == str_views(path@),
        decreases path@.len() - j,
    {
        let ghost old_a = ancestor@;
        ancestor.push(path[j].clone());
        proof {
            assert forall|k: int| 0 <= k < j + 1 implies str_views(ancestor@)[k] == p.subrange(0, j + 1)[k] by {
                if k < j {
                    assert(ancestor@[k] == old_a[k]);
                    assert(str_views(old_a)[k] == p.subrange(0, j as int)[k]);
                }
            }
            assert(str_views(ancestor@) =~= p.subrange(0, j + 1));
        }
        j = j + 1;
    }
    assert(p.subrange(0, p.len() as int) =~= p);
    let mut n: usize = path.len();
    loop
        invariant
            chain_floor(p) <= n <= p.len(),
            ancestor@.len() == n,
            str_views(ancestor@) == p.subrange(0, n as int),
            p == str_views(path@),
            forall|m: int| n < m <= p.len() ==> !comps_views(selected@).contains(#[trigger] p.subrange(0, m)),
        decreases n,
    {
        if contains_comps(selected, &ancestor) {
            proof {
                let s = comps_views(selected@);
                let k = choose|k: int| 0 <= k < s.len() && s[k] == str_views(ancestor@);
                assert(ancestor_or_self(s[k], p));
            }
            return true;
        }
        proof {
            if n == 1 {
                assert(str_views(ancestor@)[0] == p[0]);
            }
        }
        if n == 0 {
            proof {
                assert forall|k: int| 0 <= k < comps_views(selected@).len() implies !ancestor_or_self(#[trigger] comps_views(selected@)[k], p) by {
                    let a = comps_views(selected@)[k];
                    if ancestor_or_self(a, p) {
                        assert(p.subrange(0, a.len() as int) == a);
                        if a.len() == 0 {
                            assert(a =~= p.subrange(0, 0));
                        }
                    }
                }
            }
            return false;
        }
        let first_is_root = if n == 1 {
            let a0 = chars_of(ancestor[0].as_str());
            proof {
                assert(str_views(ancestor@)[0] == p[0]);
                assert(a0@ == p[0]);
                if a0.len() == 1 && a0[0] == '/' {
                    assert(a0@ =~= seq!['/']);
                }
            }
            a0.len() == 1 && a0[0] == '/'
        } else {
            false
        };
        if first_is_root {
            proof {
                assert(p[0] == seq!['/']);
                assert forall|k: int| 0 <= k < comps_views(selected@).len() implies !ancestor_or_self(#[trigger] comps_views(selected@)[k], p) by {
                    let a = comps_views(selected@)[k];
                    if ancestor_or_self(a, p) {
                        assert(a.len() >= 1);
                        assert(p.subrange(0, a.len() as int) == a);
                    }
                }
            }
            return false;
        }
        proof {
            if n == 1 {
                assert(p[0] != seq!['/']) by {
                    if p[0] == seq!['/'] {
                        assert(p[0].len() == 1 && p[0][0] == '/');
                    }
                }
            }
        }
        let ghost before = ancestor@;
        ancestor.pop();
        n = n - 1;
        proof {
            assert(ancestor@ =~= before.drop_last());
            assert(str_views(ancestor@) =~= p.subrange(0, n as int));
        }
    }
}

/// The component lists of several paths given as text.
pub open spec fn paths_components(v: Seq<String>) -> Seq<Seq<Seq<char>>> {
    v.map_values(|s: String| path_components(s@))
}

/// Checks whether `path` or one of its ancestors (up its parent chain) is
/// among the selected paths.
pub fn has_selected_ancestor(path: &str, selected: &Vec<String>) -> (r: bool)
    ensures
        r == has_selected_ancestor_spec(path_components(path@), paths_components(selected@)),
{
    let mut comps: Vec<Vec<String>> = Vec::new();
    let mut i: usize = 0;
    while i < selected.len()
        invariant
            i <= selected@.len(),
            comps@.len() == i,
            comps_views(comps@) == paths_components(selected@).subrange(0, i as int),
        decreases selected@.len() - i,
    {
        let c = components_of(selected[i].as_str());
        let ghost before = comps@;
        comps.push(c);
        proof {
            assert forall|k: int| 0 <= k < i + 1 implies #[trigger] comps_views(comps@)[k]
                == paths_components(selected@).subrange(0, i + 1)[k] by {
                if k < i {
                    assert(comps@[k] == before[k]);
                    assert(comps_views(before)[k] == paths_components(selected@).subrange(0, i as int)[k]);
                } else {
                    assert(comps@[k] == c);
                }
            }
            assert(comps_views(comps@) =~= paths_components(selected@).subrange(0, i + 1));
        }
        i = i + 1;
    }
    assert(paths_components(selected@).subrange(0, selected@.len() as int) =~= paths_components(selected@));
    let p = components_of(path);
    comps_have_selected_ancestor(&p, &comps)
}

/// Some kept path is the path or one of its ancestors.
pub open spec fn covered_by(kept: Seq<String>, p: Seq<Seq<char>>) -> bool {
    exists|k: int| 0 <= k < kept.len() && ancestor_or_self(path_components(#[trigger] kept[k]@), p)
}

/// Every path is covered by (is, or lies below) some kept path.
pub open spec fn covers(kept: Seq<String>, paths: Seq<String>) -> bool {
    forall|i: int| 0 <= i < paths.len() ==> #[trigger] covered_by(kept, path_components(paths[i]@))
}

/// No kept path covers another.
pub open spec fn antichain(kept: Seq<String>) -> bool {
    forall|a: int, b: int| 0 <= a < kept.len() && 0 <= b < kept.len() && a != b
        ==> !ancestor_or_self(path_components(kept[a]@), path_components(kept[b]@))
}

/// Coalescing order: shallower paths first, paths of one depth in path
/// order (component by component, as `PathBuf` compares).
pub open spec fn coalesce_before(a: Seq<Seq<char>>, b: Seq<Seq<char>>) -> bool {
    a.len() < b.len() || (a.len() == b.len() && components_lt(a, b))
}

/// `coalesce_before`, or the same components.
pub open spec fn coalesce_le(a: Seq<Seq<char>>, b: Seq<Seq<char>>) -> bool {
    a == b || coalesce_before(a, b)
}

/// Coalescing order is a total order.
proof fn lemma_coalesce_order(a: Seq<Seq<char>>, b: Seq<Seq<char>>, c: Seq<Seq<char>>)
    ensures
        !coalesce_before(a, a),
        coalesce_le(a, b) || coalesce_le(b, a),
        coalesce_le(a, b) && coalesce_le(b, a) ==> a == b,
        coalesce_le(a, b) && coalesce_le(b, c) ==> coalesce_le(a, c),
        coalesce_le(a, b) && coalesce_before(b, c) ==> coalesce_before(a, c),
{
    lemma_components_order(a, b, c);
    lemma_components_order(b, a, c);
    lemma_components_order(a, c, b);
}

/// The changed paths that must be rescanned: every input path is covered
/// by (is, or lies below) some kept path, and no kept path covers another.
/// More than one path comes back shallowest first, paths of one depth in
/// path order (`coalesce_before`), so each is kept once; a single path, or
/// none, comes back as given.
pub fn coalesce_event_paths(paths: Vec<String>) -> (r: Vec<String>)
    ensures
        forall|k: int| 0 <= k < r@.len() ==> #[trigger] paths@.contains(r@[k]),
        covers(r@, paths@),
        antichain(r@),
        paths@.len() > 1 ==> forall|a: int, b: int| 0 <= a < b < r@.len()
            ==> coalesce_before(path_components(#[trigger] r@[a]@), path_components(#[trigger] r@[b]@)),
{
    if paths.len() <= 1 {
        proof {
            assert forall|a: int, b: int| 0 <= a < paths@.len() && 0 <= b < paths@.len() && a != b
                implies !ancestor_or_self(path_components(paths@[a]@), path_components(paths@[b]@)) by {}
            assert forall|i: int| #![trigger paths@[i]] 0 <= i < paths@.len() implies exists|k: int| 0 <= k < paths@.len()
                && ancestor_or_self(path_components(#[trigger] paths@[k]@), path_components(paths@[i]@)) by {
                let c = path_components(paths@[i]@);
                assert(c.subrange(0, c.len() as int) =~= c);
                assert(ancestor_or_self(path_components(paths@[i]@), c));
            }
        }
        assert(covers(paths@, paths@)) by {
            assert forall|i: int| 0 <= i < paths@.len() implies #[trigger] covered_by(paths@, path_components(paths@[i]@)) by {
                let c = path_components(paths@[i]@);
                assert(c.subrange(0, c.len() as int) =~= c);
                assert(ancestor_or_self(c, c));
                assert(0 <= i < paths@.len() && ancestor_or_self(path_components(paths@[i]@), path_components(paths@[i]@)));
            }
        }
        return paths;
    }
    // Order by depth, shallowest first (stable insertion).
    let mut order: Vec<(String, Vec<String>)> = Vec::new();
    let mut i: usize = 0;
    let ghost mut pos_of: Seq<int> = Seq::empty();
    while i < paths.len()
        invariant
            i <= paths@.len(),
            pos_of.len() == i,
            forall|q: int| 0 <= q < i ==> 0 <= #[trigger] pos_of[q] < order@.len() && order@[pos_of[q]].0 == paths@[q],
            order@.len() == i,
            forall|a: int, b: int| 0 <= a < b < order@.len() ==> order@[a].1@.len() <= order@[b].1@.len(),
            forall|a: int, b: int| 0 <= a < b < order@.len() ==> coalesce_le(path_components(#[trigger] order@[a].0@), path_components(#[trigger] order@[b].0@)),
            forall|k: int| 0 <= k < order@.len() ==> str_views(#[trigger] order@[k].1@) == path_components(order@[k].0@),
            forall|k: int| 0 <= k < order@.len() ==> paths@.contains(#[trigger] order@[k].0),
            forall|q: int| #![trigger paths@[q]] 0 <= q < i ==> exists|k: int| 0 <= k < order@.len() && #[trigger] order@[k].0 == paths@[q],
        decreases paths@.len() - i,
    {
        let p = paths[i].clone();
        let c = components_of(p.as_str());
        let d = c.len();
        let mut pos: usize = 0;
        let ghost pc = path_components(p@);
        while pos < order.len() && (order[pos].1.len() < d || (order[pos].1.len() == d && !components_before(&c, &order[pos].1)))
            invariant
                pos <= order@.len(),
                str_views(c@) == pc,
                d == c@.len(),
                forall|k: int| 0 <= k < order@.len() ==> str_views(#[trigger] order@[k].1@) == path_components(order@[k].0@),
                forall|k: int| 0 <= k < pos ==> order@[k].1@.len() <= d,
                forall|k: int| 0 <= k < pos ==> coalesce_le(#[trigger] path_components(order@[k].0@), pc),
            decreases order@.len() - pos,
        {
            proof {
                let o = path_components(order@[pos as int].0@);
                assert(str_views(order@[pos as int].1@).len() == order@[pos as int].1@.len());
                lemma_coalesce_order(o, pc, o);
                lemma_components_order(o, pc, o);
            }
            pos = pos + 1;
        }
        proof {
            if pos < order.len() {
                let o = path_components(order@[pos as int].0@);
                assert(str_views(order@[pos as int].1@).len() == order@[pos as int].1@.len());
                lemma_components_order(o, pc, o);
                assert(coalesce_before(pc, o));
            }
        }
        let ghost old_order = order@;
        order.insert(pos, (p, c));
        proof {
            let old_pos = pos_of;
            pos_of = Seq::new((i + 1) as nat, |q: int| if q == i { pos as int } else if old_pos[q] >= pos { old_pos[q] + 1 } else { old_pos[q] });
            assert forall|q: int| 0 <= q < i + 1 implies 0 <= #[trigger] pos_of[q] < order@.len() && order@[pos_of[q]].0 == paths@[q] by {
                if q < i {
                    if old_pos[q] >= pos {
                        assert(order@[old_pos[q] + 1] == old_order[old_pos[q]]);
                    } else {
                        assert(order@[old_pos[q]] == old_order[old_pos[q]]);
                    }
                }
            }
            assert forall|a: int, b: int| 0 <= a < b < order@.len() implies order@[a].1@.len() <= order@[b].1@.len() by {
                if b < pos {
                } else if a < pos && b == pos {
                } else if a < pos && b > pos {
                    assert(order@[b] == old_order[b - 1]);
                    if pos < old_order.len() {
                        assert(old_order[pos as int].1@.len() >= d);
                    }
                } else if a == pos {
                    assert(order@[b] == old_order[b - 1]);
                    assert(old_order[pos as int].1@.len() >= d);
                } else {
                    assert(order@[a] == old_order[a - 1]);
                    assert(order@[b] == old_order[b - 1]);
                }
            }
            assert forall|k: int| 0 <= k < order@.len() implies str_views(#[trigger] order@[k].1@) == path_components(order@[k].0@) by {
                if k < pos {
                    assert(order@[k] == old_order[k]);
                } else if k > pos {
                    assert(order@[k] == old_order[k - 1]);
                }
            }
            assert forall|a: int, b: int| 0 <= a < b < order@.len() implies coalesce_le(path_components(#[trigger] order@[a].0@), path_components(#[trigger] order@[b].0@)) by {
                let pa = path_components(order@[a].0@);
                let pb = path_components(order@[b].0@);
                if b < pos {
                    assert(order@[a] == old_order[a]);
                    assert(order@[b] == old_order[b]);
                } else if b == pos {
                    assert(order@[a] == old_order[a]);
                } else if a == pos {
                    assert(order@[b] == old_order[b - 1]);
                    let o = path_components(old_order[pos as int].0@);
                    if b - 1 > pos {
                        assert(coalesce_le(o, pb));
                    }
                    lemma_coalesce_order(pc, o, pb);
                } else if a < pos {
                    assert(order@[a] == old_order[a]);
                    assert(order@[b] == old_order[b - 1]);
                    let o = path_components(old_order[pos as int].0@);
                    if b - 1 > pos {
                        assert(coalesce_le(o, pb));
                    }
                    lemma_coalesce_order(pa, pc, o);
                    lemma_coalesce_order(pa, o, pb);
                    lemma_coalesce_order(pc, o, pb);
                } else {
                    assert(order@[a] == old_order[a - 1]);
                    assert(order@[b] == old_order[b - 1]);
                }
            }
            assert forall|k: int| 0 <= k < order@.len() implies paths@.contains(#[trigger] order@[k].0) by {
                if k < pos {
                    assert(order@[k] == old_order[k]);
                } else if k > pos {
                    assert(order@[k] == old_order[k - 1]);
                } else {
                    assert(paths@[i as int] == order@[k].0);
                }
            }
            assert forall|q: int| #![trigger paths@[q]] 0 <= q < i + 1 implies exists|k: int| 0 <= k < order@.len() && #[trigger] order@[k].0 == paths@[q] by {
                if q < i {
                    let k = choose|k: int| 0 <= k < old_order.len() && old_order[k].0 == paths@[q];
                    if k < pos {
                        assert(order@[k] == old_order[k]);
                    } else {
                        assert(order@[k + 1] == old_order[k]);
                    }
                } else {
                    assert(order@[pos as int].0 == paths@[q]);
                }
            }
        }
        i = i + 1;
    }
    // Keep each path that no kept path already covers.
    let mut selected: Vec<String> = Vec::new();
    let mut selected_comps: Vec<Vec<String>> = Vec::new();
    let mut j: usize = 0;
    while j < order.len()
        invariant
            j <= order@.len(),
            pos_of.len() == paths@.len(),
            forall|q: int| 0 <= q < paths@.len() ==> 0 <= #[trigger] pos_of[q] < order@.len() && order@[pos_of[q]].0 == paths@[q],
            forall|a: int, b: int| 0 <= a < b < order@.len() ==> order@[a].1@.len() <= order@[b].1@.len(),
            forall|k: int| 0 <= k < order@.len() ==> str_views(#[trigger] order@[k].1@) == path_components(order@[k].0@),
            forall|k: int| 0 <= k < order@.len() ==> paths@.contains(#[trigger] order@[k].0),
            selected@.len() == selected_comps@.len(),
            forall|k: int| 0 <= k < selected@.len() ==> str_views(#[trigger] selected_comps@[k]@) == path_components(selected@[k]@),
            forall|k: int| 0 <= k < selected@.len() ==> paths@.contains(#[trigger] selected@[k]),
            forall|k: int| 0 <= k < selected@.len() ==> path_components(#[trigger] selected@[k]@).len() <= (if j > 0 { order@[j - 1].1@.len() } else { 0 }),
            forall|q: int| #![trigger order@[q]] 0 <= q < j ==> exists|k: int| 0 <= k < selected@.len()
                && ancestor_or_self(path_components(#[trigger] selected@[k]@), path_components(order@[q].0@)),
            forall|a: int, b: int| 0 <= a < selected@.len() && 0 <= b < selected@.len() && a != b
                ==> !ancestor_or_self(path_components(selected@[a]@), path_components(selected@[b]@)),
            forall|a: int, b: int| 0 <= a < order@.len() && 0 <= b < order@.len() && a < b ==> coalesce_le(path_components(#[trigger] order@[a].0@), path_components(#[trigger] order@[b].0@)),
            forall|a: int, b: int| 0 <= a < b < selected@.len()
                ==> coalesce_before(path_components(#[trigger] selected@[a]@), path_components(#[trigger] selected@[b]@)),
            j > 0 ==> forall|k: int| 0 <= k < selected@.len() ==> coalesce_le(path_components(#[trigger] selected@[k]@), path_components(order@[j - 1].0@)),
            j == 0 ==> selected@.len() == 0,
        decreases order@.len() - j,
    {
        let covered = comps_have_selected_ancestor(&order[j].1, &selected_comps);
        let ghost pc = path_components(order@[j as int].0@);
        proof {
            assert(comps_views(selected_comps@).len() == selected@.len());
            assert forall|k: int| 0 <= k < selected@.len() implies #[trigger] comps_views(selected_comps@)[k] == path_components(selected@[k]@) by {}
        }
        if covered {
            proof {
                let s = comps_views(selected_comps@);
                let k = choose|k: int| 0 <= k < s.len() && ancestor_or_self(#[trigger] s[k], pc);
                assert(ancestor_or_self(path_components(selected@[k]@), pc));
            }
        } else {
            let ghost old_sel = selected@;
            let ghost old_comps = selected_comps@;
            let p = order[j].0.clone();
            let c = components_of(p.as_str());
            selected.push(p);
            selected_comps.push(c);
            proof {
                assert(pc.subrange(0, pc.len() as int) =~= pc);
                assert(ancestor_or_self(pc, pc));
                assert forall|a: int, b: int| 0 <= a < selected@.len() && 0 <= b < selected@.len() && a != b
                    implies !ancestor_or_self(path_components(selected@[a]@), path_components(selected@[b]@)) by {
                    let last = old_sel.len() as int;
                    if a == last {
                        // a kept path is no deeper than this one
                        let pb = path_components(selected@[b]@);
                        assert(selected@[b] == old_sel[b]);
                        if ancestor_or_self(pc, pb) {
                            assert(pb.len() <= pc.len());
                            assert(pc.len() <= pb.len());
                            assert(pb.subrange(0, pc.len() as int) =~= pb);
                            assert(ancestor_or_self(pb, pc)) by {
                                assert(pc =~= pb);
                            }
                            assert(comps_views(old_comps)[b] == pb);
                        }
                    } else if b == last {
                        assert(selected@[a] == old_sel[a]);
                        assert(comps_views(old_comps)[a] == path_components(selected@[a]@));
                    } else {
                        assert(selected@[a] == old_sel[a]);
                        assert(selected@[b] == old_sel[b]);
                    }
                }
                assert forall|q: int| #![trigger order@[q]] 0 <= q < j + 1 implies exists|k: int| 0 <= k < selected@.len()
                    && ancestor_or_self(path_components(#[trigger] selected@[k]@), path_components(order@[q].0@)) by {
                    if q < j {
                        let k = choose|k: int| 0 <= k < old_sel.len() && ancestor_or_self(path_components(old_sel[k]@), path_components(order@[q].0@));
                        assert(selected@[k] == old_sel[k]);
                    } else {
                        assert(selected@[old_sel.len() as int] == order@[j as int].0);
                    }
                }
                assert forall|k: int| 0 <= k < selected@.len() implies str_views(#[trigger] selected_comps@[k]@) == path_components(selected@[k]@) by {
                    if k < old_sel.len() {
                        assert(selected@[k] == old_sel[k]);
                        assert(selected_comps@[k] == old_comps[k]);
                    }
                }
                assert forall|k: int| 0 <= k < selected@.len() implies paths@.contains(#[trigger] selected@[k]) by {
                    if k < old_sel.len() {
                        assert(selected@[k] == old_sel[k]);
                    }
                }
                assert forall|k: int| 0 <= k < old_sel.len() implies coalesce_before(path_components(#[trigger] old_sel[k]@), pc) by {
                    let sk = path_components(old_sel[k]@);
                    let o = path_components(order@[j - 1].0@);
                    assert(coalesce_le(sk, o));
                    assert(coalesce_le(o, pc));
                    lemma_coalesce_order(sk, o, pc);
                    assert(comps_views(old_comps)[k] == sk);
                    if sk == pc {
                        assert(pc.subrange(0, pc.len() as int) =~= pc);
                        assert(ancestor_or_self(sk, pc));
                    }
                }
                assert forall|a: int, b: int| 0 <= a < b < selected@.len()
                    implies coalesce_before(path_components(#[trigger] selected@[a]@), path_components(#[trigger] selected@[b]@)) by {
                    assert(selected@[a] == old_sel[a]);
                    if b < old_sel.len() {
                        assert(selected@[b] == old_sel[b]);
                    }
                }
                assert forall|k: int| 0 <= k < selected@.len() implies coalesce_le(path_components(#[trigger] selected@[k]@), pc) by {
                    if k < old_sel.len() {
                        assert(selected@[k] == old_sel[k]);
                    }
                }
            }
        }
        proof {
            if covered && j > 0 {
                assert forall|k: int| 0 <= k < selected@.len() implies coalesce_le(path_components(#[trigger] selected@[k]@), path_components(order@[j as int].0@)) by {
                    let sk = path_components(selected@[k]@);
                    let o = path_components(order@[j - 1].0@);
                    assert(coalesce_le(sk, o));
                    assert(coalesce_le(o, path_components(order@[j as int].0@)));
                    lemma_coalesce_order(sk, o, path_components(order@[j as int].0@));
                }
            }
            assert forall|k: int| 0 <= k < selected@.len() implies path_components(#[trigger] selected@[k]@).len() <= order@[j as int].1@.len() by {
                if j > 0 {
                    assert(order@[j - 1].1@.len() <= order@[j as int].1@.len());
                }
            }
        }
        j = j + 1;
    }
    proof {
        assert forall|i: int| 0 <= i < paths@.len() implies #[trigger] covered_by(selected@, path_components(paths@[i]@)) by {
            let q = pos_of[i];
            assert(0 <= q < order@.len() && order@[q].0 == paths@[i]);
            let k = choose|k: int| 0 <= k < selected@.len()
                && ancestor_or_self(path_components(#[trigger] selected@[k]@), path_components(order@[q].0@));
            assert(ancestor_or_self(path_components(selected@[k]@), path_components(paths@[i]@)));
        }
        assert(covers(selected@, paths@));
    }
    selected
}

} // verus!
