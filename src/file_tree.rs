//! The project root of a document and the nodes of the document tree.
use crate::routing::opt_view;
use vstd::multiset::Multiset;
use vstd::prelude::*;
use vstd::string::StringExecFns;

verus! {

/// A document or a directory of the document tree.
pub struct FileNode {
    pub name: String,
    pub path: String,
    pub is_dir: bool,
    pub children: Option<Vec<FileNode>>,
}

/// Whether the walk leaves out a directory of this name: hidden ones,
/// `node_modules` and `target`.
pub open spec fn skip_dir_spec(name: Seq<char>) -> bool {
    (name.len() > 0 && name[0] == '.') || name == seq!['n', 'o', 'd', 'e', '_', 'm', 'o', 'd', 'u', 'l', 'e', 's']
        || name == seq!['t', 'a', 'r', 'g', 'e', 't']
}

/// Whether the walk leaves out a directory named `name`.
pub fn skip_dir(name: &str) -> (r: bool)
    ensures
        r == skip_dir_spec(name@),
{
    proof {
        reveal_strlit("node_modules");
        reveal_strlit("target");
        assert("node_modules"@ =~= seq!['n', 'o', 'd', 'e', '_', 'm', 'o', 'd', 'u', 'l', 'e', 's']);
        assert("target"@ =~= seq!['t', 'a', 'r', 'g', 'e', 't']);
    }
    let n = String::from_str(name);
    (name.unicode_len() > 0 && name.get_char(0) == '.') || n == String::from_str("node_modules")
        || n == String::from_str("target")
}

/// Whether an extension marks a Markdown document: `md`, `MD` or
/// `markdown`.
pub open spec fn is_markdown_spec(ext: Seq<char>) -> bool {
    ext == seq!['m', 'd'] || ext == seq!['M', 'D'] || ext == seq!['m', 'a', 'r', 'k', 'd', 'o', 'w', 'n']
}

/// Whether a file with extension `ext` is a Markdown document.
pub fn is_markdown_ext(ext: &str) -> (r: bool)
    ensures
        r == is_markdown_spec(ext@),
{
    proof {
        reveal_strlit("md");
        reveal_strlit("MD");
        reveal_strlit("markdown");
        assert("md"@ =~= seq!['m', 'd']);
        assert("MD"@ =~= seq!['M', 'D']);
        assert("markdown"@ =~= seq!['m', 'a', 'r', 'k', 'd', 'o', 'w', 'n']);
    }
    let e = String::from_str(ext);
    e == String::from_str("md") || e == String::from_str("MD") || e == String::from_str("markdown")
}

/// What `str::to_lowercase` gives for a text.
pub uninterp spec fn lower_of(s: Seq<char>) -> Seq<char>;

/// Relies on `str::to_lowercase`: the result depends on the text alone.
#[verifier::external_body]
fn lowercase(s: &str) -> (r: String)
    ensures
        r@ == lower_of(s@),
{
    s.to_lowercase()
}

/// `a` comes no later than `b` in the order of `str`'s `Ord`: character by
/// character, a prefix first.
pub open spec fn text_le(a: Seq<char>, b: Seq<char>) -> bool
    decreases a.len(),
{
    if a.len() == 0 {
        true
    } else if b.len() == 0 {
        false
    } else if (a[0] as u32) != (b[0] as u32) {
        (a[0] as u32) < (b[0] as u32)
    } else {
        text_le(a.drop_first(), b.drop_first())
    }
}

proof fn lemma_text_le_total(a: Seq<char>, b: Seq<char>)
    ensures
        text_le(a, b) || text_le(b, a),
    decreases a.len(),
{
    if a.len() > 0 && b.len() > 0 && (a[0] as u32) == (b[0] as u32) {
        lemma_text_le_total(a.drop_first(), b.drop_first());
    }
}

proof fn lemma_text_le_trans(a: Seq<char>, b: Seq<char>, c: Seq<char>)
    requires
        text_le(a, b),
        text_le(b, c),
    ensures
        text_le(a, c),
    decreases a.len(),
{
    if a.len() > 0 && b.len() > 0 && c.len() > 0 && (a[0] as u32) == (b[0] as u32) && (b[0] as u32) == (c[0] as u32) {
        lemma_text_le_trans(a.drop_first(), b.drop_first(), c.drop_first());
    }
}

/// Compares two texts as `str`'s `Ord` does.
fn text_le_exec(a: &str, b: &str) -> (r: bool)
    ensures
        r == text_le(a@, b@),
{
    let n = a.unicode_len();
    let m = b.unicode_len();
    let mut i: usize = 0;
    proof {
        assert(a@.skip(0) =~= a@);
        assert(b@.skip(0) =~= b@);
    }
    while i < n && i < m
        invariant
            n == a@.len(),
            m == b@.len(),
            i <= n,
            i <= m,
            text_le(a@, b@) == text_le(a@.skip(i as int), b@.skip(i as int)),
        decreases n - i,
    {
        let x = a.get_char(i);
        let y = b.get_char(i);
        proof {
            assert(a@.skip(i as int)[0] == x);
            assert(b@.skip(i as int)[0] == y);
        }
        if x as u32 != y as u32 {
            return (x as u32) < (y as u32);
        }
        proof {
            assert(a@.skip(i as int).drop_first() =~= a@.skip(i + 1));
            assert(b@.skip(i as int).drop_first() =~= b@.skip(i + 1));
        }
        i = i + 1;
    }
    i == n
}

/// A node may stand before another in a level: directories first, then
/// by lower-cased name.
pub open spec fn node_le(a: FileNode, b: FileNode) -> bool {
    (a.is_dir && !b.is_dir) || (a.is_dir == b.is_dir && text_le(lower_of(a.name@), lower_of(b.name@)))
}

proof fn lemma_node_le_total(a: FileNode, b: FileNode)
    ensures
        node_le(a, b) || node_le(b, a),
{
    lemma_text_le_total(lower_of(a.name@), lower_of(b.name@));
}

proof fn lemma_node_le_trans(a: FileNode, b: FileNode, c: FileNode)
    requires
        node_le(a, b),
        node_le(b, c),
    ensures
        node_le(a, c),
{
    if a.is_dir == b.is_dir && b.is_dir == c.is_dir {
        lemma_text_le_trans(lower_of(a.name@), lower_of(b.name@), lower_of(c.name@));
    }
}

fn node_le_exec(a: &FileNode, b: &FileNode) -> (r: bool)
    ensures
        r == node_le(*a, *b),
{
    if a.is_dir != b.is_dir {
        a.is_dir
    } else {
        let la = lowercase(a.name.as_str());
        let lb = lowercase(b.name.as_str());
        text_le_exec(la.as_str(), lb.as_str())
    }
}

/// A level is in order when every node may stand before every later one.
pub open spec fn level_sorted(s: Seq<FileNode>) -> bool {
    forall|i: int, j: int| 0 <= i < j < s.len() ==> node_le(#[trigger] s[i], #[trigger] s[j])
}

/// Orders a level of the tree: directories first, then by name without
/// regard to case.
pub fn sort_level(nodes: Vec<FileNode>) -> (r: Vec<FileNode>)
    ensures
        level_sorted(r@),
        r@.to_multiset() == nodes@.to_multiset(),
{
    let mut rest = nodes;
    let mut out: Vec<FileNode> = Vec::new();
    proof {
        broadcast use vstd::multiset::group_multiset_axioms;
        vstd::seq_lib::to_multiset_len(out@);
        assert(out@.to_multiset() =~= Multiset::empty());
        assert(out@.to_multiset().add(rest@.to_multiset()) =~= nodes@.to_multiset());
    }
    while rest.len() > 0
        invariant
            level_sorted(out@),
            out@.to_multiset().add(rest@.to_multiset()) == nodes@.to_multiset(),
        decreases rest@.len(),
    {
        let ghost rest0 = rest@;
        let x = rest.remove(0);
        proof {
            vstd::seq_lib::to_multiset_remove(rest0, 0);
            assert(rest0.remove(0) =~= rest@);
            vstd::seq_lib::to_multiset_contains(rest0, x);
            assert(rest0.contains(x)) by {
                assert(rest0[0] == x);
            }
        }
        // first place whose node must come after x
        let mut p: usize = 0;
        while p < out.len() && node_le_exec(&out[p], &x)
            invariant
                p <= out@.len(),
                forall|k: int| 0 <= k < p ==> node_le(#[trigger] out@[k], x),
            decreases out@.len() - p,
        {
            p = p + 1;
        }
        let ghost out0 = out@;
        out.insert(p, x);
        proof {
            assert(out@ =~= out0.insert(p as int, x));
            vstd::seq_lib::to_multiset_insert(out0, p as int, x);
            broadcast use vstd::multiset::group_multiset_axioms;
            assert(out@.to_multiset().add(rest@.to_multiset()) =~= out0.to_multiset().add(
                rest0.to_multiset(),
            ));
            if p < out0.len() {
                lemma_node_le_total(out0[p as int], x);
            }
            assert forall|i: int, j: int| 0 <= i < j < out@.len() implies node_le(
                #[trigger] out@[i],
                #[trigger] out@[j],
            ) by {
                if j == p {
                    assert(node_le(out0[i], x));
                } else if i == p {
                    // x is strictly before out0[p] and out0[p] before the rest
                    if j - 1 > p {
                        assert(node_le(out0[p as int], out0[j - 1]));
                        lemma_node_le_trans(x, out0[p as int], out0[j - 1]);
                    }
                } else {
                    let i0 = if i < p { i } else { i - 1 };
                    let j0 = if j < p { j } else { j - 1 };
                    assert(node_le(out0[i0], out0[j0]));
                }
            }
        }
    }
    proof {
        broadcast use vstd::multiset::group_multiset_axioms;
        vstd::seq_lib::to_multiset_len(rest@);
        assert(out@.to_multiset().add(rest@.to_multiset()) =~= out@.to_multiset());
    }
    out
}

/// The root a document's view is built from, and whether it is a
/// repository's top level.
pub struct FileContext {
    pub root: String,
    pub is_git: bool,
}

/// What `std::path::Path::parent` gives for a path.
pub uninterp spec fn parent_of(path: Seq<char>) -> Option<Seq<char>>;

/// Relies on `std::path::Path::parent`: the path without its last
/// component, or none for a root or an empty path.
#[verifier::external_body]
pub(crate) fn path_parent(path: &str) -> (r: Option<String>)
    ensures
        opt_view(r) == parent_of(path@),
{
    std::path::Path::new(path).parent().map(|p| p.to_string_lossy().to_string())
}

/// The root of a document: its repository's top level if it has one, else
/// the directory holding it (for a file) or the path itself.
pub open spec fn resolve_root_spec(path: Seq<char>, git_root: Option<Seq<char>>, is_file: bool) -> Seq<char> {
    match git_root {
        Some(g) => g,
        None => if is_file {
            match parent_of(path) {
                Some(p) => p,
                None => path,
            }
        } else {
            path
        },
    }
}

/// The root of `path`, given the repository top level found for it and
/// whether it names a file.
pub fn resolve_root(path: &str, git_root: Option<String>, is_file: bool) -> (r: String)
    ensures
        r@ == resolve_root_spec(path@, opt_view(git_root), is_file),
{
    match git_root {
        Some(g) => g,
        None => if is_file {
            match path_parent(path) {
                Some(p) => p,
                None => String::from_str(path),
            }
        } else {
            String::from_str(path)
        },
    }
}

/// The context of `path`: its root, and whether a repository gave it.
pub fn get_context(path: &str, git_root: Option<String>, is_file: bool) -> (r: FileContext)
    ensures
        r.root@ == resolve_root_spec(path@, opt_view(git_root), is_file),
        r.is_git == git_root is Some,
{
    let is_git = git_root.is_some();
    FileContext { root: resolve_root(path, git_root, is_file), is_git }
}

} // verus!
