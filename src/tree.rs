//! Assembling the document tree from the flat list of documents found
//! under a root.
use crate::file_tree::{level_sorted, sort_level, FileNode};
use crate::text::views;
use vstd::prelude::*;

verus! {

/// What `std::path::Path::strip_prefix` leaves of `path` once `root` is
/// taken off its front, or `path` itself when it does not start with `root`.
pub uninterp spec fn stripped_path(root: Seq<char>, path: Seq<char>) -> Seq<char>;

/// The components `std::path::Path::components` gives for a path, each as
/// its text.
pub uninterp spec fn components_of(path: Seq<char>) -> Seq<Seq<char>>;

/// The path `std::path::Path::join` makes of `root` and the relative path
/// made of `parts`.
pub uninterp spec fn joined(root: Seq<char>, parts: Seq<Seq<char>>) -> Seq<char>;

/// Relies on `std::path::Path::strip_prefix`: `path` relative to `root`,
/// or `path` unchanged when `root` is no prefix of it.
#[verifier::external_body]
fn strip_root(root: &str, path: &str) -> (r: String)
    ensures
        r@ == stripped_path(root@, path@),
{
    let p = std::path::Path::new(path);
    p.strip_prefix(root).unwrap_or(p).to_string_lossy().to_string()
}

/// Relies on `std::path::Path::components`: the components of `path`, in
/// order, each as its text.
#[verifier::external_body]
fn path_components(path: &str) -> (r: Vec<String>)
    ensures
        views(r@) == components_of(path@),
{
    std::path::Path::new(path).components().map(|c| c.as_os_str().to_string_lossy().to_string()).collect()
}

/// Relies on `std::path::Path::join`: `root` followed by the relative path
/// made of `parts`.
#[verifier::external_body]
fn join_parts(root: &str, parts: &Vec<String>) -> (r: String)
    ensures
        r@ == joined(root@, views(parts@)),
{
    std::path::Path::new(root).join(parts.iter().collect::<std::path::PathBuf>()).to_string_lossy().to_string()
}

/// A document found under the root: the components of its path relative
/// to the root, and its full path.
pub struct TreeEntry {
    pub parts: Vec<String>,
    pub path: String,
}

pub open spec fn entry_view(e: TreeEntry) -> (Seq<Seq<char>>, Seq<char>) {
    (views(e.parts@), e.path@)
}

pub open spec fn entry_views(es: Seq<TreeEntry>) -> Seq<(Seq<Seq<char>>, Seq<char>)> {
    es.map_values(|e: TreeEntry| entry_view(e))
}

/// The directory a document sits in, as components below the root.
pub open spec fn entry_dir(p: Seq<Seq<char>>) -> Seq<Seq<char>> {
    if p.len() == 0 {
        p
    } else {
        p.drop_last()
    }
}

/// The name a document shows: its last component.
pub open spec fn entry_name(p: Seq<Seq<char>>) -> Seq<char> {
    if p.len() == 0 {
        Seq::empty()
    } else {
        p.last()
    }
}

/// The document sits deeper than `d`, inside the subdirectory `p[d.len()]`.
pub open spec fn below(p: Seq<Seq<char>>, d: Seq<Seq<char>>) -> bool {
    p.len() > d.len() + 1 && p.take(d.len() as int) == d
}

pub open spec fn kids(n: FileNode) -> Seq<FileNode> {
    match n.children {
        Some(c) => c@,
        None => Seq::empty(),
    }
}

/// `nodes` is the level at directory `d` of the tree of `es` under
/// `root`: in order; each document of `d` and each subdirectory of `d`
/// that holds documents appears, and nothing else; each subdirectory's
/// path is the root joined with its components, and its children are the
/// level below it, never empty.
pub open spec fn level_ok(
    nodes: Seq<FileNode>,
    root: Seq<char>,
    es: Seq<(Seq<Seq<char>>, Seq<char>)>,
    d: Seq<Seq<char>>,
    fuel: nat,
) -> bool {
    level_has(nodes, root, es, d, fuel, true)
}

/// `level_ok`, with the order of this level itself asked only when
/// `ordered` holds.
pub open spec fn level_has(
    nodes: Seq<FileNode>,
    root: Seq<char>,
    es: Seq<(Seq<Seq<char>>, Seq<char>)>,
    d: Seq<Seq<char>>,
    fuel: nat,
    ordered: bool,
) -> bool
    decreases fuel, 1nat,
{
    &&& ordered ==> level_sorted(nodes)
    &&& files_ok(nodes, es, d)
    &&& files_cover(nodes, es, d)
    &&& dirs_ok(nodes, root, es, d, fuel)
    &&& dirs_cover(nodes, es, d)
    &&& dirs_distinct(nodes)
}

/// No two directory nodes of the level share a name.
pub open spec fn dirs_distinct(nodes: Seq<FileNode>) -> bool {
    forall|i: int, j: int|
        0 <= i < nodes.len() && 0 <= j < nodes.len() && i != j && (#[trigger] nodes[i]).is_dir
            && (#[trigger] nodes[j]).is_dir ==> nodes[i].name@ != nodes[j].name@
}

/// The document `k` of `es` shows as node `n` in directory `d`.
pub open spec fn shows_file(n: FileNode, es: Seq<(Seq<Seq<char>>, Seq<char>)>, k: int, d: Seq<Seq<char>>) -> bool {
    &&& 0 <= k < es.len()
    &&& entry_dir(es[k].0) == d
    &&& !n.is_dir
    &&& n.children is None
    &&& n.name@ == entry_name(es[k].0)
    &&& n.path@ == es[k].1
}

/// Every document node of the level shows a document of `d`.
pub open spec fn files_ok(nodes: Seq<FileNode>, es: Seq<(Seq<Seq<char>>, Seq<char>)>, d: Seq<Seq<char>>) -> bool {
    forall|i: int|
        0 <= i < nodes.len() && !(#[trigger] nodes[i]).is_dir ==> exists|k: int| shows_file(nodes[i], es, k, d)
}

/// Every document of `d` shows in the level.
pub open spec fn files_cover(nodes: Seq<FileNode>, es: Seq<(Seq<Seq<char>>, Seq<char>)>, d: Seq<Seq<char>>) -> bool {
    forall|k: int|
        0 <= k < es.len() && entry_dir(#[trigger] es[k].0) == d ==> exists|i: int|
            0 <= i < nodes.len() && shows_file(#[trigger] nodes[i], es, k, d)
}

/// The document `k` of `es` lies inside the subdirectory `name` of `d`.
pub open spec fn inside(es: Seq<(Seq<Seq<char>>, Seq<char>)>, k: int, d: Seq<Seq<char>>, name: Seq<char>) -> bool {
    0 <= k < es.len() && below(es[k].0, d) && es[k].0[d.len() as int] == name
}

/// Every directory node of the level is a subdirectory of `d` holding
/// documents, at its joined path, with the level below as children.
pub open spec fn dirs_ok(
    nodes: Seq<FileNode>,
    root: Seq<char>,
    es: Seq<(Seq<Seq<char>>, Seq<char>)>,
    d: Seq<Seq<char>>,
    fuel: nat,
) -> bool
    decreases fuel, 0nat,
{
    forall|i: int|
        0 <= i < nodes.len() && (#[trigger] nodes[i]).is_dir ==> {
            &&& nodes[i].children is Some
            &&& kids(nodes[i]).len() > 0
            &&& nodes[i].path@ == joined(root, d.push(nodes[i].name@))
            &&& exists|k: int| inside(es, k, d, nodes[i].name@)
            &&& fuel > 0
            &&& level_has(kids(nodes[i]), root, es, d.push(nodes[i].name@), (fuel - 1) as nat, true)
        }
}

/// Every subdirectory of `d` that holds documents shows in the level.
pub open spec fn dirs_cover(nodes: Seq<FileNode>, es: Seq<(Seq<Seq<char>>, Seq<char>)>, d: Seq<Seq<char>>) -> bool {
    forall|k: int|
        0 <= k < es.len() && below(#[trigger] es[k].0, d) ==> exists|i: int|
            0 <= i < nodes.len() && (#[trigger] nodes[i]).is_dir && nodes[i].name@ == es[k].0[d.len() as int]
}

/// Whether `parts` starts with `d`.
fn starts_with(parts: &Vec<String>, d: &Vec<String>) -> (r: bool)
    ensures
        r == (parts@.len() >= d@.len() && views(parts@).take(d@.len() as int) == views(d@)),
{
    if parts.len() < d.len() {
        return false;
    }
    let mut i: usize = 0;
    while i < d.len()
        invariant
            i <= d@.len() <= parts@.len(),
            views(parts@).take(i as int) == views(d@).take(i as int),
        decreases d@.len() - i,
    {
        if parts[i] != d[i] {
            proof {
                assert(views(parts@).take(d@.len() as int)[i as int] == parts@[i as int]@);
                assert(views(d@)[i as int] == d@[i as int]@);
            }
            return false;
        }
        proof {
            assert(views(parts@).take(i + 1) =~= views(d@).take(i + 1));
        }
        i = i + 1;
    }
    proof {
        assert(views(d@).take(d@.len() as int) =~= views(d@));
    }
    true
}

/// Whether a document with components `parts` sits in directory `d`.
fn sits_in(parts: &Vec<String>, d: &Vec<String>) -> (r: bool)
    ensures
        r == (entry_dir(views(parts@)) == views(d@)),
{
    if parts.len() == 0 {
        proof {
            if views(d@).len() == 0 {
                assert(views(d@) =~= views(parts@));
            }
        }
        d.len() == 0
    } else {
        let r = parts.len() > d.len() && parts.len() - d.len() == 1 && starts_with(parts, d);
        proof {
            let p = views(parts@);
            if r {
                assert(p.drop_last() =~= p.take(d@.len() as int));
            }
            if p.drop_last() == views(d@) {
                assert(p.drop_last() =~= p.take(d@.len() as int));
            }
        }
        r
    }
}

/// Whether a document with components `parts` sits below directory `d`.
fn sits_below(parts: &Vec<String>, d: &Vec<String>) -> (r: bool)
    ensures
        r == below(views(parts@), views(d@)),
{
    parts.len() > d.len() && parts.len() - d.len() > 1 && starts_with(parts, d)
}

/// Whether `names` holds `c`.
fn has_name(names: &Vec<String>, c: &String) -> (r: bool)
    ensures
        r == views(names@).contains(c@),
{
    let mut i: usize = 0;
    while i < names.len()
        invariant
            i <= names@.len(),
            forall|j: int| 0 <= j < i ==> names@[j]@ != c@,
        decreases names@.len() - i,
    {
        if names[i] == *c {
            proof {
                assert(views(names@)[i as int] == c@);
            }
            return true;
        }
        i = i + 1;
    }
    proof {
        if views(names@).contains(c@) {
            let j = choose|j: int| 0 <= j < views(names@).len() && views(names@)[j] == c@;
            assert(names@[j]@ == c@);
        }
    }
    false
}

/// Two sequences with the same multiset hold the same members.
pub open spec fn same_members(a: Seq<FileNode>, b: Seq<FileNode>) -> bool {
    &&& forall|i: int| 0 <= i < a.len() ==> b.contains(#[trigger] a[i])
    &&& forall|i: int| 0 <= i < b.len() ==> a.contains(#[trigger] b[i])
}

proof fn lemma_same_members(raw: Seq<FileNode>, sorted: Seq<FileNode>)
    requires
        sorted.to_multiset() == raw.to_multiset(),
    ensures
        same_members(raw, sorted),
{
    assert forall|i: int| 0 <= i < sorted.len() implies raw.contains(#[trigger] sorted[i]) by {
        vstd::seq_lib::to_multiset_contains(sorted, sorted[i]);
        vstd::seq_lib::to_multiset_contains(raw, sorted[i]);
        assert(sorted.contains(sorted[i]));
    }
    assert forall|i: int| 0 <= i < raw.len() implies sorted.contains(#[trigger] raw[i]) by {
        vstd::seq_lib::to_multiset_contains(sorted, raw[i]);
        vstd::seq_lib::to_multiset_contains(raw, raw[i]);
        assert(raw.contains(raw[i]));
    }
}

proof fn lemma_files_ok_moves(raw: Seq<FileNode>, sorted: Seq<FileNode>, es: Seq<(Seq<Seq<char>>, Seq<char>)>, d: Seq<Seq<char>>)
    requires
        same_members(raw, sorted),
        files_ok(raw, es, d),
    ensures
        files_ok(sorted, es, d),
{
    assert forall|i: int| 0 <= i < sorted.len() && !(#[trigger] sorted[i]).is_dir implies exists|k: int|
        shows_file(sorted[i], es, k, d) by {
        assert(raw.contains(sorted[i]));
        let j = choose|j: int| 0 <= j < raw.len() && raw[j] == sorted[i];
        assert(!raw[j].is_dir);
    }
}

proof fn lemma_files_cover_moves(raw: Seq<FileNode>, sorted: Seq<FileNode>, es: Seq<(Seq<Seq<char>>, Seq<char>)>, d: Seq<Seq<char>>)
    requires
        same_members(raw, sorted),
        files_cover(raw, es, d),
    ensures
        files_cover(sorted, es, d),
{
    assert forall|k: int| 0 <= k < es.len() && entry_dir(#[trigger] es[k].0) == d implies exists|i: int|
        0 <= i < sorted.len() && shows_file(#[trigger] sorted[i], es, k, d) by {
        let j = choose|j: int| 0 <= j < raw.len() && shows_file(#[trigger] raw[j], es, k, d);
        assert(sorted.contains(raw[j]));
        let i = choose|i: int| 0 <= i < sorted.len() && sorted[i] == raw[j];
        assert(shows_file(sorted[i], es, k, d));
    }
}

proof fn lemma_dirs_ok_moves(
    raw: Seq<FileNode>,
    sorted: Seq<FileNode>,
    root: Seq<char>,
    es: Seq<(Seq<Seq<char>>, Seq<char>)>,
    d: Seq<Seq<char>>,
    fuel: nat,
)
    requires
        same_members(raw, sorted),
        dirs_ok(raw, root, es, d, fuel),
    ensures
        dirs_ok(sorted, root, es, d, fuel),
{
    assert forall|i: int| 0 <= i < sorted.len() && (#[trigger] sorted[i]).is_dir implies {
        &&& sorted[i].children is Some
        &&& kids(sorted[i]).len() > 0
        &&& sorted[i].path@ == joined(root, d.push(sorted[i].name@))
        &&& exists|k: int| inside(es, k, d, sorted[i].name@)
        &&& fuel > 0
        &&& level_has(kids(sorted[i]), root, es, d.push(sorted[i].name@), (fuel - 1) as nat, true)
    } by {
        assert(raw.contains(sorted[i]));
        let j = choose|j: int| 0 <= j < raw.len() && raw[j] == sorted[i];
        assert(raw[j].is_dir);
    }
}

proof fn lemma_dirs_cover_moves(raw: Seq<FileNode>, sorted: Seq<FileNode>, es: Seq<(Seq<Seq<char>>, Seq<char>)>, d: Seq<Seq<char>>)
    requires
        same_members(raw, sorted),
        dirs_cover(raw, es, d),
    ensures
        dirs_cover(sorted, es, d),
{
    assert forall|k: int| 0 <= k < es.len() && below(#[trigger] es[k].0, d) implies exists|i: int|
        0 <= i < sorted.len() && (#[trigger] sorted[i]).is_dir && sorted[i].name@ == es[k].0[d.len() as int] by {
        let j = choose|j: int| 0 <= j < raw.len() && (#[trigger] raw[j]).is_dir && raw[j].name@ == es[k].0[d.len() as int];
        assert(sorted.contains(raw[j]));
        let i = choose|i: int| 0 <= i < sorted.len() && sorted[i] == raw[j];
        assert(sorted[i].is_dir);
    }
}

/// Node `n` shows some document of directory `d`.
pub open spec fn file_shown(n: FileNode, es: Seq<(Seq<Seq<char>>, Seq<char>)>, d: Seq<Seq<char>>) -> bool {
    exists|k: int| shows_file(n, es, k, d)
}

/// Some document lies inside the subdirectory `name` of `d`.
pub open spec fn name_inside(es: Seq<(Seq<Seq<char>>, Seq<char>)>, d: Seq<Seq<char>>, name: Seq<char>) -> bool {
    exists|k: int| inside(es, k, d, name)
}

proof fn lemma_dirs_distinct_moves(raw: Seq<FileNode>, sorted: Seq<FileNode>)
    requires
        sorted.to_multiset() == raw.to_multiset(),
        same_members(raw, sorted),
        dirs_distinct(raw),
    ensures
        dirs_distinct(sorted),
{
    assert forall|i: int, j: int|
        0 <= i < sorted.len() && 0 <= j < sorted.len() && i != j && (#[trigger] sorted[i]).is_dir
            && (#[trigger] sorted[j]).is_dir implies sorted[i].name@ != sorted[j].name@ by {
        if sorted[i].name@ == sorted[j].name@ {
            assert(raw.contains(sorted[i]));
            assert(raw.contains(sorted[j]));
            let a = choose|a: int| 0 <= a < raw.len() && raw[a] == sorted[i];
            let b = choose|b: int| 0 <= b < raw.len() && raw[b] == sorted[j];
            assert(raw[a].is_dir && raw[b].is_dir);
            assert(a == b);
            let x = raw[a];
            // x sits twice in sorted but once in raw
            vstd::seq_lib::to_multiset_remove(sorted, i);
            assert(sorted.remove(i).contains(x)) by {
                if j < i {
                    assert(sorted.remove(i)[j] == x);
                } else {
                    assert(sorted.remove(i)[j - 1] == x);
                }
            }
            vstd::seq_lib::to_multiset_contains(sorted.remove(i), x);
            vstd::seq_lib::to_multiset_remove(raw, a);
            assert(!raw.remove(a).contains(x)) by {
                if raw.remove(a).contains(x) {
                    let c = choose|c: int| 0 <= c < raw.remove(a).len() && raw.remove(a)[c] == x;
                    let c0 = if c < a { c } else { c + 1 };
                    assert(raw[c0] == x);
                    assert(raw[c0].is_dir);
                }
            }
            vstd::seq_lib::to_multiset_contains(raw.remove(a), x);
            broadcast use vstd::multiset::group_multiset_axioms;
            assert(sorted.to_multiset().count(x) == sorted.remove(i).to_multiset().count(x) + 1);
            assert(raw.to_multiset().count(x) == raw.remove(a).to_multiset().count(x) + 1);
        }
    }
}

/// `d` with `c` below it.
fn extend_dir(d: &Vec<String>, c: &String) -> (r: Vec<String>)
    ensures
        views(r@) == views(d@).push(c@),
        r@.len() == d@.len() + 1,
{
    let mut r: Vec<String> = Vec::new();
    let mut i: usize = 0;
    while i < d.len()
        invariant
            i <= d@.len(),
            views(r@) == views(d@).take(i as int),
            r@.len() == i,
        decreases d@.len() - i,
    {
        let ghost before = r@;
        r.push(d[i].clone());
        proof {
            assert(views(r@) =~= views(before).push(d@[i as int]@));
            assert(views(d@).take(i + 1) =~= views(d@).take(i as int).push(d@[i as int]@));
        }
        i = i + 1;
    }
    let ghost before = r@;
    r.push(c.clone());
    proof {
        assert(views(d@).take(d@.len() as int) =~= views(d@));
        assert(views(r@) =~= views(before).push(c@));
    }
    r
}

/// The level at directory `d`, built from the documents `es`; `fuel`
/// bounds how much deeper any document lies.
fn build_level(root: &str, es: &Vec<TreeEntry>, d: &Vec<String>, fuel: usize) -> (r: Vec<FileNode>)
    requires
        forall|k: int| 0 <= k < es@.len() ==> (#[trigger] es@[k]).parts@.len() <= d@.len() + fuel,
    ensures
        level_has(r@, root@, entry_views(es@), views(d@), fuel as nat, true),
    decreases fuel,
{
    let ghost ev = entry_views(es@);
    let ghost dv = views(d@);
    let mut raw: Vec<FileNode> = Vec::new();
    let mut k: usize = 0;
    while k < es.len()
        invariant
            k <= es@.len(),
            ev == entry_views(es@),
            dv == views(d@),
            forall|i: int| 0 <= i < raw@.len() ==> file_shown(#[trigger] raw@[i], ev, dv),
            forall|k2: int|
                0 <= k2 < k && entry_dir(#[trigger] ev[k2].0) == dv ==> exists|i: int|
                    0 <= i < raw@.len() && shows_file(#[trigger] raw@[i], ev, k2, dv),
        decreases es@.len() - k,
    {
        proof {
            assert(ev[k as int] == entry_view(es@[k as int]));
        }
        if sits_in(&es[k].parts, d) {
            let n = es[k].parts.len();
            let name = if n == 0 {
                String::new()
            } else {
                es[k].parts[n - 1].clone()
            };
            let node = FileNode { name, path: es[k].path.clone(), is_dir: false, children: None };
            proof {
                if n > 0 {
                    assert(views(es@[k as int].parts@).last() == es@[k as int].parts@[n - 1]@);
                }
                assert(shows_file(node, ev, k as int, dv));
            }
            let ghost before = raw@;
            raw.push(node);
            proof {
                assert forall|i: int| 0 <= i < raw@.len() implies file_shown(#[trigger] raw@[i], ev, dv) by {
                    if i < before.len() {
                        assert(raw@[i] == before[i]);
                    } else {
                        assert(shows_file(raw@[i], ev, k as int, dv));
                    }
                }
                assert forall|k2: int|
                    0 <= k2 < k + 1 && entry_dir(#[trigger] ev[k2].0) == dv implies exists|i: int|
                    0 <= i < raw@.len() && shows_file(#[trigger] raw@[i], ev, k2, dv) by {
                    if k2 < k {
                        let i = choose|i: int| 0 <= i < before.len() && shows_file(#[trigger] before[i], ev, k2, dv);
                        assert(raw@[i] == before[i]);
                    } else {
                        assert(shows_file(raw@[before.len() as int], ev, k2, dv));
                    }
                }
            }
        }
        k = k + 1;
    }
    let mut names: Vec<String> = Vec::new();
    k = 0;
    while k < es.len()
        invariant
            k <= es@.len(),
            ev == entry_views(es@),
            dv == views(d@),
            forall|j: int| 0 <= j < names@.len() ==> name_inside(ev, dv, (#[trigger] names@[j])@),
            forall|k2: int|
                0 <= k2 < k && below(#[trigger] ev[k2].0, dv) ==> views(names@).contains(ev[k2].0[dv.len() as int]),
            forall|a: int, b: int|
                0 <= a < b < names@.len() ==> (#[trigger] names@[a])@ != (#[trigger] names@[b])@,
        decreases es@.len() - k,
    {
        proof {
            assert(ev[k as int] == entry_view(es@[k as int]));
        }
        if sits_below(&es[k].parts, d) {
            let c = es[k].parts[d.len()].clone();
            proof {
                assert(views(es@[k as int].parts@)[d@.len() as int] == c@);
                assert(inside(ev, k as int, dv, c@));
            }
            if !has_name(&names, &c) {
                let ghost before = names@;
                names.push(c);
                proof {
                    assert forall|j: int| 0 <= j < names@.len() implies name_inside(ev, dv, (#[trigger] names@[j])@) by {
                        if j < before.len() {
                            assert(names@[j] == before[j]);
                            assert(name_inside(ev, dv, before[j]@));
                        } else {
                            assert(inside(ev, k as int, dv, names@[j]@));
                        }
                    }
                    assert(views(names@) =~= views(before).push(names@[before.len() as int]@));
                    assert forall|a: int, b: int| 0 <= a < b < names@.len() implies (#[trigger] names@[a])@
                        != (#[trigger] names@[b])@ by {
                        if b == before.len() {
                            assert(names@[a] == before[a]);
                            assert(views(before)[a] == before[a]@);
                        } else {
                            assert(names@[a] == before[a]);
                            assert(names@[b] == before[b]);
                        }
                    }
                    assert forall|k2: int| 0 <= k2 < k + 1 && below(#[trigger] ev[k2].0, dv) implies views(names@).contains(
                        ev[k2].0[dv.len() as int],
                    ) by {
                        if k2 < k {
                            assert(views(before).contains(ev[k2].0[dv.len() as int]));
                            let j = choose|j: int| 0 <= j < views(before).len() && views(before)[j] == ev[k2].0[dv.len() as int];
                            assert(views(names@)[j] == views(before)[j]);
                        } else {
                            assert(views(names@)[before.len() as int] == ev[k2].0[dv.len() as int]);
                        }
                    }
                }
            }
        }
        k = k + 1;
    }
    let ghost files = raw@;
    let nf = raw.len();
    let mut j: usize = 0;
    while j < names.len()
        invariant
            j <= names@.len(),
            ev == entry_views(es@),
            dv == views(d@),
            raw@.len() == nf + j,
            nf == files.len(),
            forall|i: int| 0 <= i < nf ==> raw@[i] == files[i],
            forall|i: int| 0 <= i < files.len() ==> file_shown(#[trigger] files[i], ev, dv),
            forall|j2: int| 0 <= j2 < names@.len() ==> name_inside(ev, dv, (#[trigger] names@[j2])@),
            forall|a: int, b: int|
                0 <= a < b < names@.len() ==> (#[trigger] names@[a])@ != (#[trigger] names@[b])@,
            forall|k: int| 0 <= k < es@.len() ==> (#[trigger] es@[k]).parts@.len() <= d@.len() + fuel,
            forall|i: int|
                nf <= i < raw@.len() ==> (#[trigger] raw@[i]).is_dir && raw@[i].name@ == names@[i - nf]@ && {
                    &&& raw@[i].children is Some
                    &&& kids(raw@[i]).len() > 0
                    &&& raw@[i].path@ == joined(root@, dv.push(raw@[i].name@))
                    &&& exists|k2: int| inside(ev, k2, dv, raw@[i].name@)
                    &&& fuel > 0
                    &&& level_has(kids(raw@[i]), root@, ev, dv.push(raw@[i].name@), (fuel - 1) as nat, true)
                },
        decreases names@.len() - j,
    {
        let name = names[j].clone();
        let child_d = extend_dir(d, &name);
        proof {
            assert(name_inside(ev, dv, names@[j as int]@));
        }
        let ghost k2 = choose|k2: int| inside(ev, k2, dv, names@[j as int]@);
        proof {
            assert(ev[k2] == entry_view(es@[k2]));
            assert(es@[k2].parts@.len() == ev[k2].0.len());
            assert forall|k: int| 0 <= k < es@.len() implies (#[trigger] es@[k]).parts@.len() <= child_d@.len() + (fuel - 1) by {}
        }
        let children = build_level(root, es, &child_d, fuel - 1);
        proof {
            let cd = dv.push(name@);
            let p = ev[k2].0;
            assert(p.take(cd.len() as int) =~= cd) by {
                assert(p.take(dv.len() as int) == dv);
            }
            if p.len() == cd.len() + 1 {
                assert(entry_dir(p) =~= cd);
            } else {
                assert(below(p, cd));
            }
            assert(children@.len() > 0);
        }
        let path = join_parts(root, &child_d);
        let node = FileNode { name, path, is_dir: true, children: Some(children) };
        let ghost before = raw@;
        raw.push(node);
        proof {
            assert(kids(node) == children@);
            assert(inside(ev, k2, dv, node.name@));
            assert forall|i: int| 0 <= i < nf implies raw@[i] == files[i] by {
                assert(raw@[i] == before[i]);
            }
            assert forall|i: int| nf <= i < raw@.len() implies (#[trigger] raw@[i]).is_dir && raw@[i].name@ == names@[i - nf]@ && {
                &&& raw@[i].children is Some
                &&& kids(raw@[i]).len() > 0
                &&& raw@[i].path@ == joined(root@, dv.push(raw@[i].name@))
                &&& exists|k3: int| inside(ev, k3, dv, raw@[i].name@)
                &&& fuel > 0
                &&& level_has(kids(raw@[i]), root@, ev, dv.push(raw@[i].name@), (fuel - 1) as nat, true)
            } by {
                if i < before.len() {
                    assert(raw@[i] == before[i]);
                } else {
                    assert(raw@[i] == node);
                }
            }
        }
        j = j + 1;
    }
    proof {
        assert(files_ok(raw@, ev, dv)) by {
            assert forall|i: int| 0 <= i < raw@.len() && !(#[trigger] raw@[i]).is_dir implies exists|k2: int|
                shows_file(raw@[i], ev, k2, dv) by {
                assert(i < nf);
                assert(raw@[i] == files[i]);
                assert(file_shown(files[i], ev, dv));
            }
        }
        assert(files_cover(raw@, ev, dv)) by {
            assert forall|k2: int| 0 <= k2 < ev.len() && entry_dir(#[trigger] ev[k2].0) == dv implies exists|i: int|
                0 <= i < raw@.len() && shows_file(#[trigger] raw@[i], ev, k2, dv) by {
                let i = choose|i: int| 0 <= i < files.len() && shows_file(#[trigger] files[i], ev, k2, dv);
                assert(raw@[i] == files[i]);
            }
        }
        assert(dirs_ok(raw@, root@, ev, dv, fuel as nat)) by {
            assert forall|i: int| 0 <= i < raw@.len() && (#[trigger] raw@[i]).is_dir implies {
                &&& raw@[i].children is Some
                &&& kids(raw@[i]).len() > 0
                &&& raw@[i].path@ == joined(root@, dv.push(raw@[i].name@))
                &&& exists|k2: int| inside(ev, k2, dv, raw@[i].name@)
                &&& fuel > 0
                &&& level_has(kids(raw@[i]), root@, ev, dv.push(raw@[i].name@), (fuel - 1) as nat, true)
            } by {
                if i < nf {
                    assert(raw@[i] == files[i]);
                    assert(file_shown(files[i], ev, dv));
                    let k2 = choose|k2: int| shows_file(files[i], ev, k2, dv);
                    assert(!files[i].is_dir);
                }
            }
        }
        assert(dirs_distinct(raw@)) by {
            assert forall|i: int, j: int|
                0 <= i < raw@.len() && 0 <= j < raw@.len() && i != j && (#[trigger] raw@[i]).is_dir
                    && (#[trigger] raw@[j]).is_dir implies raw@[i].name@ != raw@[j].name@ by {
                if i < nf {
                    assert(raw@[i] == files[i]);
                    assert(file_shown(files[i], ev, dv));
                } else if j < nf {
                    assert(raw@[j] == files[j]);
                    assert(file_shown(files[j], ev, dv));
                } else if i < j {
                    assert(names@[i - nf]@ != names@[j - nf]@);
                } else {
                    assert(names@[j - nf]@ != names@[i - nf]@);
                }
            }
        }
        assert(dirs_cover(raw@, ev, dv)) by {
            assert forall|k2: int| 0 <= k2 < ev.len() && below(#[trigger] ev[k2].0, dv) implies exists|i: int|
                0 <= i < raw@.len() && (#[trigger] raw@[i]).is_dir && raw@[i].name@ == ev[k2].0[dv.len() as int] by {
                assert(views(names@).contains(ev[k2].0[dv.len() as int]));
                let j2 = choose|j2: int| 0 <= j2 < views(names@).len() && views(names@)[j2] == ev[k2].0[dv.len() as int];
                assert(raw@[nf + j2].is_dir);
            }
        }
    }
    let ghost raw_v = raw@;
    let sorted = sort_level(raw);
    proof {
        lemma_same_members(raw_v, sorted@);
        lemma_files_ok_moves(raw_v, sorted@, ev, dv);
        lemma_files_cover_moves(raw_v, sorted@, ev, dv);
        lemma_dirs_ok_moves(raw_v, sorted@, root@, ev, dv, fuel as nat);
        lemma_dirs_cover_moves(raw_v, sorted@, ev, dv);
        lemma_dirs_distinct_moves(raw_v, sorted@);
    }
    sorted
}

/// The documents `files` under `root`, each as the components of its path
/// relative to the root, and its full path.
pub open spec fn tree_entries(root: Seq<char>, files: Seq<String>) -> Seq<(Seq<Seq<char>>, Seq<char>)> {
    files.map_values(|f: String| (components_of(stripped_path(root, f@)), f@))
}

/// Builds the tree of the documents `files` found under `root`: each
/// level in order, each document in the level of its directory, each
/// directory that holds documents once, with its documents and
/// directories below it; no directory without documents.
pub fn assemble_tree(root: &str, files: &Vec<String>) -> (r: Vec<FileNode>)
    ensures
        exists|fuel: nat| level_ok(r@, root@, tree_entries(root@, files@), Seq::empty(), fuel),
{
    let mut es: Vec<TreeEntry> = Vec::new();
    let mut depth: usize = 0;
    let mut k: usize = 0;
    while k < files.len()
        invariant
            k <= files@.len(),
            es@.len() == k,
            entry_views(es@) == tree_entries(root@, files@).take(k as int),
            forall|j: int| 0 <= j < k ==> (#[trigger] es@[j]).parts@.len() <= depth,
        decreases files@.len() - k,
    {
        let rel = strip_root(root, files[k].as_str());
        let parts = path_components(rel.as_str());
        if parts.len() > depth {
            depth = parts.len();
        }
        let entry = TreeEntry { parts, path: files[k].clone() };
        let ghost before = es@;
        es.push(entry);
        proof {
            assert(entry_views(es@) =~= entry_views(before).push(entry_view(entry)));
            assert(tree_entries(root@, files@).take(k + 1) =~= tree_entries(root@, files@).take(k as int).push(
                entry_view(entry),
            ));
            assert forall|j: int| 0 <= j < k + 1 implies (#[trigger] es@[j]).parts@.len() <= depth by {
                if j < k {
                    assert(es@[j] == before[j]);
                }
            }
        }
        k = k + 1;
    }
    let top: Vec<String> = Vec::new();
    proof {
        assert(tree_entries(root@, files@).take(files@.len() as int) =~= tree_entries(root@, files@));
        assert(views(top@) =~= Seq::<Seq<char>>::empty());
    }
    let r = build_level(root, &es, &top, depth);
    proof {
        assert(entry_views(es@) == tree_entries(root@, files@));
        assert(level_ok(r@, root@, tree_entries(root@, files@), Seq::empty(), depth as nat));
    }
    r
}

} // verus!
