//! The directory tree of the layout stage: one node per file and per directory on the way to it,
//! with each directory carrying the totals of what lies under it.

use vstd::prelude::*;
use vstd::hash_map::StringHashMap;
use crate::strings::{chars_of, push_char, string_of};
use crate::tile::FeatureKind;

verus! {

/// The index of the first `/` at or after `i`, or the length of `p`.
pub open spec fn next_slash(p: Seq<char>, i: int) -> int
    decreases p.len() - i,
{
    if i >= p.len() {
        p.len() as int
    } else if p[i] == '/' {
        i
    } else {
        next_slash(p, i + 1)
    }
}

/// The non-empty `/`-separated components of `p[i..]`.
pub open spec fn components_from(p: Seq<char>, i: int) -> Seq<Seq<char>>
    decreases p.len() - i,
{
    if i < 0 || i >= p.len() {
        seq![]
    } else {
        let k = next_slash(p, i);
        let rest = if i <= k < p.len() { components_from(p, k + 1) } else { seq![] };
        if k > i {
            seq![p.subrange(i, k)] + rest
        } else {
            rest
        }
    }
}

/// The non-empty `/`-separated components of a path, as `split('/')` without the empty pieces.
pub open spec fn components(p: Seq<char>) -> Seq<Seq<char>> {
    components_from(p, 0)
}

proof fn lemma_next_slash(p: Seq<char>, i: int)
    requires
        0 <= i <= p.len(),
    ensures
        i <= next_slash(p, i) <= p.len(),
        next_slash(p, i) < p.len() ==> p[next_slash(p, i)] == '/',
        forall|j: int| i <= j < next_slash(p, i) ==> p[j] != '/',
    decreases p.len() - i,
{
    if i < p.len() && p[i] != '/' {
        lemma_next_slash(p, i + 1);
    }
}

/// The components of `path`.
pub fn split_components(path: &str) -> (r: Vec<String>)
    ensures
        r@.len() == components(path@).len(),
        forall|j: int| 0 <= j < r@.len() ==> #[trigger] r@[j]@ == components(path@)[j],
{
    let cs = chars_of(path);
    let n = cs.len();
    let ghost p = cs@;
    let mut out: Vec<String> = Vec::new();
    let ghost mut done: Seq<Seq<char>> = seq![];
    let mut i: usize = 0;
    while i < n
        invariant
            p == cs@,
            p == path@,
            n == p.len(),
            i <= n,
            out@.len() == done.len(),
            forall|j: int| 0 <= j < out@.len() ==> #[trigger] out@[j]@ == done[j],
            components(p) == done + components_from(p, i as int),
        decreases n - i,
    {
        let mut k = i;
        while k < n && cs[k] != '/'
            invariant
                i <= k <= n == cs@.len(),
                p == cs@,
                forall|j: int| i <= j < k ==> p[j] != '/',
            decreases n - k,
        {
            k = k + 1;
        }
        proof {
            lemma_next_slash(p, i as int);
            if next_slash(p, i as int) < k {
                assert(p[next_slash(p, i as int)] == '/');
            }
            assert(k == next_slash(p, i as int));
        }
        let ghost rest = if k < n { components_from(p, k + 1) } else { Seq::<Seq<char>>::empty() };
        if k > i {
            let piece = string_of(&cs, i, k);
            let ghost before = out@;
            out.push(piece);
            proof {
                assert(components_from(p, i as int) == seq![p.subrange(i as int, k as int)] + rest);
                assert forall|j: int| 0 <= j < out@.len() implies #[trigger] out@[j]@ == (done + seq![p.subrange(i as int, k as int)])[j] by {
                    if j < before.len() {
                        assert(out@[j] == before[j]);
                    }
                }
                assert(components(p) =~= (done + seq![p.subrange(i as int, k as int)]) + rest);
                done = done + seq![p.subrange(i as int, k as int)];
            }
        } else {
            assert(components_from(p, i as int) == rest);
        }
        proof {
            if k >= n {
                assert(components_from(p, n as int) =~= Seq::<Seq<char>>::empty());
                assert(rest =~= components_from(p, n as int));
            }
        }
        i = if k < n { k + 1 } else { n };
    }
    proof {
        assert(components_from(p, i as int) =~= Seq::<Seq<char>>::empty());
        assert(done + components_from(p, i as int) =~= done);
    }
    out
}

/// Each component is a non-empty run of characters other than `/`.
proof fn lemma_components_shape(p: Seq<char>, i: int)
    requires
        0 <= i,
    ensures
        forall|j: int| 0 <= j < components_from(p, i).len() ==> #[trigger] components_from(p, i)[j].len() > 0
            && !components_from(p, i)[j].contains('/'),
    decreases p.len() - i,
{
    if 0 <= i < p.len() {
        let k = next_slash(p, i);
        lemma_next_slash(p, i);
        if i <= k < p.len() {
            lemma_components_shape(p, k + 1);
        }
        let rest = if i <= k < p.len() { components_from(p, k + 1) } else { seq![] };
        if k > i {
            let piece = p.subrange(i, k);
            assert forall|j: int| 0 <= j < components_from(p, i).len() implies #[trigger] components_from(p, i)[j].len() > 0
                && !components_from(p, i)[j].contains('/') by {
                if j == 0 {
                    assert(components_from(p, i)[j] == piece);
                    if piece.contains('/') {
                        let t = choose|t: int| 0 <= t < piece.len() && piece[t] == '/';
                        assert(p[i + t] == '/');
                    }
                } else {
                    assert(components_from(p, i)[j] == rest[j - 1]);
                }
            }
        }
    }
}

/// `p` extended by one more component `name`: `name` alone under the root, else `p/name`.
pub open spec fn extend(p: Seq<char>, name: Seq<char>) -> Seq<char> {
    if p.len() == 0 { name } else { p + seq!['/'] + name }
}

/// Components joined with `/`.
pub open spec fn join(cs: Seq<Seq<char>>) -> Seq<char>
    decreases cs.len(),
{
    if cs.len() == 0 {
        seq![]
    } else {
        extend(join(cs.drop_last()), cs.last())
    }
}

/// A file of the index, as the layout reads it.
pub struct FileRow {
    pub id: u32,
    pub path: String,
    pub language: String,
    pub bytes: u64,
    pub lines: u64,
}

/// One node of the tree: a directory or a file. `parent` is the index of the parent node (the
/// root is its own parent), `children` the indices of its children in creation order.
pub struct Node {
    pub id: u32,
    pub kind: FeatureKind,
    pub path: String,
    pub depth: u8,
    pub parent: usize,
    pub parent_id: u32,
    pub children: Vec<usize>,
    pub lines: u64,
    pub bytes: u64,
    pub weight: u64,
    pub language: String,
    pub appear_z: u8,
    pub split_z: u8,
}

/// The root: feature id 0, a directory with the empty path, never emitted.
pub open spec fn is_root(n: Node) -> bool {
    &&& n.id == 0
    &&& n.kind == FeatureKind::Dir
    &&& n.path@ == Seq::<char>::empty()
    &&& n.depth == 0
    &&& n.parent == 0
    &&& n.parent_id == 0
}

/// `a` is a tree rooted at index 0: every other node hangs under an earlier directory, one level
/// deeper, carrying that directory's id; each node lists exactly its children, in index order.
pub open spec fn shaped(a: Seq<Node>) -> bool {
    &&& a.len() >= 1
    &&& is_root(a[0])
    &&& forall|k: int| 1 <= k < a.len() ==> {
        let p = #[trigger] a[k].parent as int;
        &&& p < k
        &&& a[p].kind == FeatureKind::Dir
        &&& a[k].depth == a[p].depth + 1
        &&& a[k].parent_id == a[p].id
    }
    &&& forall|p: int, x: int, y: int| 0 <= p < a.len() && 0 <= x < y < a[p].children@.len() ==>
        #[trigger] a[p].children@[x] < #[trigger] a[p].children@[y]
    &&& forall|p: int, x: int| 0 <= p < a.len() && 0 <= x < a[p].children@.len() ==> {
        let c = #[trigger] a[p].children@[x] as int;
        &&& 1 <= c < a.len()
        &&& a[c].parent == p
    }
    &&& forall|k: int| 1 <= k < a.len() ==> a[a[k].parent as int].children@.contains(k as usize)
}


/// `x` and `y` agree on everything but their children.
pub open spec fn same_but_children(x: Node, y: Node) -> bool {
    &&& x.id == y.id
    &&& x.kind == y.kind
    &&& x.path == y.path
    &&& x.depth == y.depth
    &&& x.parent == y.parent
    &&& x.parent_id == y.parent_id
    &&& x.lines == y.lines
    &&& x.bytes == y.bytes
    &&& x.weight == y.weight
    &&& x.language == y.language
    &&& x.appear_z == y.appear_z
    &&& x.split_z == y.split_z
}

/// `b` is `a` with `node` appended under its parent.
pub open spec fn appended(a: Seq<Node>, b: Seq<Node>, node: Node) -> bool {
    let p = node.parent as int;
    &&& b.len() == a.len() + 1
    &&& b[a.len() as int] == node
    &&& forall|k: int| 0 <= k < a.len() && k != p ==> #[trigger] b[k] == a[k]
    &&& same_but_children(b[p], a[p])
    &&& b[p].children@ == a[p].children@.push(a.len() as usize)
}

/// Append `node` and list it among its parent's children.
fn add_node(arena: &mut Vec<Node>, node: Node) -> (idx: usize)
    requires
        node.parent < old(arena)@.len(),
        old(arena)@.len() < usize::MAX,
    ensures
        idx == old(arena)@.len(),
        appended(old(arena)@, final(arena)@, node),
{
    let idx = arena.len();
    let p = node.parent;
    arena.push(node);
    arena[p].children.push(idx);
    idx
}

proof fn lemma_append_shaped(a: Seq<Node>, b: Seq<Node>, node: Node)
    requires
        shaped(a),
        a.len() < usize::MAX,
        appended(a, b, node),
        node.parent < a.len(),
        a[node.parent as int].kind == FeatureKind::Dir,
        node.depth == a[node.parent as int].depth + 1,
        node.parent_id == a[node.parent as int].id,
        node.children@.len() == 0,
    ensures
        shaped(b),
{
    let p = node.parent as int;
    let n = a.len() as int;
    assert(b[0].id == a[0].id);
    assert forall|k: int| 1 <= k < b.len() implies {
        let q = #[trigger] b[k].parent as int;
        &&& q < k
        &&& b[q].kind == FeatureKind::Dir
        &&& b[k].depth == b[q].depth + 1
        &&& b[k].parent_id == b[q].id
    } by {
        if k < n {
            let q = a[k].parent as int;
            assert(b[k].parent == a[k].parent);
            assert(same_but_children(b[q], a[q]));
        } else {
            assert(same_but_children(b[p], a[p]));
        }
    }
    assert forall|q: int, x: int, y: int| 0 <= q < b.len() && 0 <= x < y < b[q].children@.len() implies
        #[trigger] b[q].children@[x] < #[trigger] b[q].children@[y] by {
        if q == p {
            assert(b[q].children@[x] == a[p].children@[x]);
            let cx = a[p].children@[x];
            assert(1 <= cx < n);
            if y == a[p].children@.len() {
                assert(b[q].children@[y] == n as usize);
            } else {
                assert(b[q].children@[y] == a[p].children@[y]);
                assert(a[p].children@[x] < a[p].children@[y]);
            }
        } else if q < n {
            assert(b[q] == a[q]);
            assert(a[q].children@[x] < a[q].children@[y]);
        } else {
            assert(b[q] == node);
        }
    }
    assert forall|q: int, x: int| 0 <= q < b.len() && 0 <= x < b[q].children@.len() implies {
        let c = #[trigger] b[q].children@[x] as int;
        &&& 1 <= c < b.len()
        &&& b[c].parent == q
    } by {
        if q == p {
            if x < a[p].children@.len() {
                let c = a[p].children@[x] as int;
                assert(b[q].children@[x] == a[p].children@[x]);
                assert(1 <= c < n && a[c].parent == q);
                if c != p {
                    assert(b[c] == a[c]);
                } else {
                    assert(same_but_children(b[c], a[c]));
                }
            } else {
                assert(b[q].children@[x] == n as usize);
                assert(b[n] == node);
            }
        } else if q < n {
            assert(b[q] == a[q]);
            let c = a[q].children@[x] as int;
            assert(1 <= c < n && a[c].parent == q);
            if c != p {
                assert(b[c] == a[c]);
            } else {
                assert(same_but_children(b[c], a[c]));
            }
        } else {
            assert(b[q] == node);
        }
    }
    assert forall|k: int| 1 <= k < b.len() implies b[b[k].parent as int].children@.contains(k as usize) by {
        if k < n {
            let q = a[k].parent as int;
            assert(b[k].parent == a[k].parent);
            assert(a[q].children@.contains(k as usize));
            if q == p {
                let x = choose|x: int| 0 <= x < a[p].children@.len() && a[p].children@[x] == k as usize;
                assert(b[p].children@[x] == k as usize);
            } else {
                assert(b[q] == a[q]);
            }
        } else {
            assert(b[p].children@[a[p].children@.len() as int] == k as usize);
        }
    }
}

/// The files that make nodes: those whose path has at least one component, in order.
pub open spec fn kept_files(files: Seq<FileRow>) -> Seq<FileRow>
    decreases files.len(),
{
    if files.len() == 0 {
        seq![]
    } else {
        kept_files(files.drop_last()) + if components(files.last().path@).len() > 0 {
            seq![files.last()]
        } else {
            seq![]
        }
    }
}

/// The indices of the nodes of `kind` below the root, in index order.
pub open spec fn nodes_of_kind(a: Seq<Node>, kind: FeatureKind) -> Seq<int>
    decreases a.len(),
{
    if a.len() <= 1 {
        seq![]
    } else {
        nodes_of_kind(a.drop_last(), kind) + if a.last().kind == kind {
            seq![a.len() - 1]
        } else {
            seq![]
        }
    }
}

/// Directory `k` is its parent's path extended by one component.
pub open spec fn dir_named(a: Seq<Node>, k: int) -> bool {
    exists|name: Seq<char>| name.len() > 0 && !name.contains('/') && #[trigger] extend(a[a[k].parent as int].path@, name) == a[k].path@
}

/// Every directory below the root is named by one component under its parent.
pub open spec fn dir_paths_ok(a: Seq<Node>) -> bool {
    forall|k: int| 1 <= k < a.len() && #[trigger] a[k].kind == FeatureKind::Dir ==> dir_named(a, k)
}

/// No two directories share a path.
pub open spec fn dir_paths_distinct(a: Seq<Node>) -> bool {
    forall|j: int, k: int| 0 <= j < k < a.len() && #[trigger] a[j].kind == FeatureKind::Dir && #[trigger] a[k].kind
        == FeatureKind::Dir ==> a[j].path@ != a[k].path@
}

/// `m` maps each directory path to its node.
pub open spec fn dir_map_ok(a: Seq<Node>, m: Map<Seq<char>, usize>) -> bool {
    &&& forall|path: Seq<char>| #[trigger] m.dom().contains(path) ==> m[path] < a.len() && a[m[path] as int].kind
        == FeatureKind::Dir && a[m[path] as int].path@ == path
    &&& forall|k: int| 0 <= k < a.len() && #[trigger] a[k].kind == FeatureKind::Dir ==> m.dom().contains(a[k].path@)
        && m[a[k].path@] == k
}

/// Node `k` is the node of file `f`: same id, path, language and counts, weight its line count
/// (at least 1), as deep as its path has components, under the directory of its path's other
/// components, and without children.
pub open spec fn file_node(a: Seq<Node>, k: int, f: FileRow) -> bool {
    let cs = components(f.path@);
    &&& a[k].kind == FeatureKind::File
    &&& a[k].id == f.id
    &&& a[k].path@ == f.path@
    &&& a[k].language@ == f.language@
    &&& a[k].lines == f.lines
    &&& a[k].bytes == f.bytes
    &&& a[k].weight == (if f.lines > 0 { f.lines } else { 1 })
    &&& a[k].depth == cs.len()
    &&& a[a[k].parent as int].path@ == join(cs.take(cs.len() - 1))
    &&& a[k].children@.len() == 0
}

/// The file nodes, in order, are the nodes of `fs`.
pub open spec fn files_ok(a: Seq<Node>, fs: Seq<FileRow>) -> bool {
    let ix = nodes_of_kind(a, FeatureKind::File);
    &&& ix.len() == fs.len()
    &&& forall|m: int| 0 <= m < ix.len() ==> file_node(a, #[trigger] ix[m], fs[m])
}

/// The directories below the root, in order, have the ids after `base`.
pub open spec fn dir_ids_ok(a: Seq<Node>, base: int) -> bool {
    let ix = nodes_of_kind(a, FeatureKind::Dir);
    forall|m: int| 0 <= m < ix.len() ==> a[#[trigger] ix[m]].id == base + 1 + m
}

proof fn lemma_nodes_of_kind_bounds(a: Seq<Node>, kind: FeatureKind)
    ensures
        forall|m: int| 0 <= m < nodes_of_kind(a, kind).len() ==> 1 <= #[trigger] nodes_of_kind(a, kind)[m] < a.len()
            && a[nodes_of_kind(a, kind)[m]].kind == kind,
        nodes_of_kind(a, kind).len() < a.len() || a.len() == 0,
    decreases a.len(),
{
    if a.len() > 1 {
        lemma_nodes_of_kind_bounds(a.drop_last(), kind);
        let prev = nodes_of_kind(a.drop_last(), kind);
        assert forall|m: int| 0 <= m < nodes_of_kind(a, kind).len() implies 1 <= #[trigger] nodes_of_kind(a, kind)[m] < a.len()
            && a[nodes_of_kind(a, kind)[m]].kind == kind by {
            if m < prev.len() {
                assert(nodes_of_kind(a, kind)[m] == prev[m]);
                assert(a.drop_last()[prev[m]] == a[prev[m]]);
            }
        }
    }
}

proof fn lemma_nodes_of_kind_same(a: Seq<Node>, b: Seq<Node>, kind: FeatureKind)
    requires
        a.len() == b.len(),
        forall|k: int| 0 <= k < a.len() ==> #[trigger] a[k].kind == b[k].kind,
    ensures
        nodes_of_kind(a, kind) == nodes_of_kind(b, kind),
    decreases a.len(),
{
    if a.len() > 1 {
        assert forall|k: int| 0 <= k < a.drop_last().len() implies #[trigger] a.drop_last()[k].kind == b.drop_last()[k].kind by {
            assert(a[k].kind == b[k].kind);
        }
        lemma_nodes_of_kind_same(a.drop_last(), b.drop_last(), kind);
        assert(a.last().kind == b.last().kind);
    }
}

/// Appending a node adds it to the nodes of its kind and changes nothing else.
proof fn lemma_append_kinds(a: Seq<Node>, b: Seq<Node>, node: Node, kind: FeatureKind)
    requires
        appended(a, b, node),
        a.len() >= 1,
        node.parent < a.len(),
    ensures
        nodes_of_kind(b, kind) == nodes_of_kind(a, kind) + if node.kind == kind { seq![a.len() as int] } else { seq![] },
{
    let p = node.parent as int;
    assert forall|k: int| 0 <= k < a.len() implies #[trigger] a[k].kind == b.drop_last()[k].kind by {
        if k == p {
            assert(same_but_children(b[p], a[p]));
        } else {
            assert(b[k] == a[k]);
        }
    }
    lemma_nodes_of_kind_same(a, b.drop_last(), kind);
}

/// Old nodes keep everything but (for the parent) their children.
proof fn lemma_append_old(a: Seq<Node>, b: Seq<Node>, node: Node, k: int)
    requires
        appended(a, b, node),
        node.parent < a.len(),
        0 <= k < a.len(),
    ensures
        same_but_children(b[k], a[k]),
        k != node.parent ==> b[k] == a[k],
{
}

proof fn lemma_append_dir(
    a: Seq<Node>,
    b: Seq<Node>,
    node: Node,
    m: Map<Seq<char>, usize>,
    fs: Seq<FileRow>,
    base: int,
    name: Seq<char>,
)
    requires
        shaped(a),
        a.len() < usize::MAX,
        appended(a, b, node),
        node.parent < a.len(),
        a[node.parent as int].kind == FeatureKind::Dir,
        node.kind == FeatureKind::Dir,
        name.len() > 0,
        !name.contains('/'),
        node.path@ == extend(a[node.parent as int].path@, name),
        !m.dom().contains(node.path@),
        dir_paths_ok(a),
        dir_map_ok(a, m),
        files_ok(a, fs),
        dir_ids_ok(a, base),
        dir_depths_ok(a),
        node.path@.len() > 0,
        node.depth == slashes(node.path@) + 1,
        node.id == base + 1 + nodes_of_kind(a, FeatureKind::Dir).len(),
    ensures
        dir_depths_ok(b),
        dir_paths_ok(b),
        dir_map_ok(b, m.insert(node.path@, a.len() as usize)),
        files_ok(b, fs),
        dir_ids_ok(b, base),
{
    let p = node.parent as int;
    let n = a.len() as int;
    lemma_append_kinds(a, b, node, FeatureKind::Dir);
    lemma_append_kinds(a, b, node, FeatureKind::File);
    assert forall|k: int| 1 <= k < b.len() && #[trigger] b[k].kind == FeatureKind::Dir implies b[k].path@.len() > 0
        && b[k].depth == slashes(b[k].path@) + 1 by {
        if k < n {
            lemma_append_old(a, b, node, k);
        }
    }
    lemma_nodes_of_kind_bounds(a, FeatureKind::Dir);
    lemma_nodes_of_kind_bounds(a, FeatureKind::File);
    assert forall|k: int| 1 <= k < b.len() && #[trigger] b[k].kind == FeatureKind::Dir implies dir_named(b, k) by {
        if k < n {
            lemma_append_old(a, b, node, k);
            assert(a[k].kind == FeatureKind::Dir);
            assert(dir_named(a, k));
            let q = a[k].parent as int;
            assert(q < k);
            lemma_append_old(a, b, node, q);
            let w = choose|w: Seq<char>| w.len() > 0 && !w.contains('/') && #[trigger] extend(a[q].path@, w) == a[k].path@;
            assert(extend(b[q].path@, w) == b[k].path@);
        } else {
            lemma_append_old(a, b, node, p);
            assert(extend(b[p].path@, name) == b[k].path@);
        }
    }
    let m2 = m.insert(node.path@, a.len() as usize);
    assert forall|path: Seq<char>| #[trigger] m2.dom().contains(path) implies m2[path] < b.len() && b[m2[path] as int].kind
        == FeatureKind::Dir && b[m2[path] as int].path@ == path by {
        if path != node.path@ {
            lemma_append_old(a, b, node, m[path] as int);
        }
    }
    assert forall|k: int| 0 <= k < b.len() && #[trigger] b[k].kind == FeatureKind::Dir implies m2.dom().contains(b[k].path@)
        && m2[b[k].path@] == k by {
        if k < n {
            lemma_append_old(a, b, node, k);
            assert(a[k].kind == FeatureKind::Dir);
            assert(m.dom().contains(a[k].path@));
        }
    }
    let fx = nodes_of_kind(a, FeatureKind::File);
    assert forall|j: int| 0 <= j < fx.len() implies file_node(b, #[trigger] nodes_of_kind(b, FeatureKind::File)[j], fs[j]) by {
        assert(nodes_of_kind(b, FeatureKind::File)[j] == fx[j]);
        assert(file_node(a, fx[j], fs[j]));
        let k = fx[j];
        lemma_append_old(a, b, node, k);
        assert(k != p);
        let q = a[k].parent as int;
        assert(q < k) by {
            assert(1 <= k);
        }
        lemma_append_old(a, b, node, q);
    }
    let dx = nodes_of_kind(a, FeatureKind::Dir);
    assert forall|j: int| 0 <= j < nodes_of_kind(b, FeatureKind::Dir).len() implies b[#[trigger] nodes_of_kind(b, FeatureKind::Dir)[j]].id == base + 1 + j by {
        if j < dx.len() {
            assert(nodes_of_kind(b, FeatureKind::Dir)[j] == dx[j]);
            lemma_append_old(a, b, node, dx[j]);
        } else {
            assert(nodes_of_kind(b, FeatureKind::Dir)[j] == n);
        }
    }
}

proof fn lemma_append_file(
    a: Seq<Node>,
    b: Seq<Node>,
    node: Node,
    m: Map<Seq<char>, usize>,
    fs: Seq<FileRow>,
    f: FileRow,
    base: int,
)
    requires
        shaped(a),
        a.len() < usize::MAX,
        appended(a, b, node),
        node.parent < a.len(),
        a[node.parent as int].kind == FeatureKind::Dir,
        node.kind == FeatureKind::File,
        node.id == f.id,
        node.path@ == f.path@,
        node.language@ == f.language@,
        node.lines == f.lines,
        node.bytes == f.bytes,
        node.weight == (if f.lines > 0 { f.lines } else { 1 }),
        node.depth == components(f.path@).len(),
        node.children@.len() == 0,
        a[node.parent as int].path@ == join(components(f.path@).take(components(f.path@).len() - 1)),
        dir_paths_ok(a),
        dir_map_ok(a, m),
        files_ok(a, fs),
        dir_ids_ok(a, base),
        dir_depths_ok(a),
    ensures
        dir_depths_ok(b),
        dir_paths_ok(b),
        dir_map_ok(b, m),
        files_ok(b, fs.push(f)),
        dir_ids_ok(b, base),
{
    let p = node.parent as int;
    let n = a.len() as int;
    lemma_append_kinds(a, b, node, FeatureKind::Dir);
    lemma_append_kinds(a, b, node, FeatureKind::File);
    assert forall|k: int| 1 <= k < b.len() && #[trigger] b[k].kind == FeatureKind::Dir implies b[k].path@.len() > 0
        && b[k].depth == slashes(b[k].path@) + 1 by {
        if k < n {
            lemma_append_old(a, b, node, k);
        }
    }
    lemma_nodes_of_kind_bounds(a, FeatureKind::Dir);
    lemma_nodes_of_kind_bounds(a, FeatureKind::File);
    assert forall|k: int| 1 <= k < b.len() && #[trigger] b[k].kind == FeatureKind::Dir implies dir_named(b, k) by {
        lemma_append_old(a, b, node, k);
        assert(a[k].kind == FeatureKind::Dir);
        assert(dir_named(a, k));
        let q = a[k].parent as int;
        assert(q < k);
        lemma_append_old(a, b, node, q);
        let w = choose|w: Seq<char>| w.len() > 0 && !w.contains('/') && #[trigger] extend(a[q].path@, w) == a[k].path@;
        assert(extend(b[q].path@, w) == b[k].path@);
    }
    assert forall|path: Seq<char>| #[trigger] m.dom().contains(path) implies m[path] < b.len() && b[m[path] as int].kind
        == FeatureKind::Dir && b[m[path] as int].path@ == path by {
        lemma_append_old(a, b, node, m[path] as int);
    }
    assert forall|k: int| 0 <= k < b.len() && #[trigger] b[k].kind == FeatureKind::Dir implies m.dom().contains(b[k].path@)
        && m[b[k].path@] == k by {
        lemma_append_old(a, b, node, k);
        assert(a[k].kind == FeatureKind::Dir);
    }
    let fx = nodes_of_kind(a, FeatureKind::File);
    let fs2 = fs.push(f);
    assert forall|j: int| 0 <= j < nodes_of_kind(b, FeatureKind::File).len() implies file_node(b, #[trigger] nodes_of_kind(b, FeatureKind::File)[j], fs2[j]) by {
        if j < fx.len() {
            assert(nodes_of_kind(b, FeatureKind::File)[j] == fx[j]);
            assert(file_node(a, fx[j], fs[j]));
            let k = fx[j];
            lemma_append_old(a, b, node, k);
            let q = a[k].parent as int;
            assert(q < k);
            lemma_append_old(a, b, node, q);
        } else {
            assert(nodes_of_kind(b, FeatureKind::File)[j] == n);
            lemma_append_old(a, b, node, p);
        }
    }
    let dx = nodes_of_kind(a, FeatureKind::Dir);
    assert forall|j: int| 0 <= j < nodes_of_kind(b, FeatureKind::Dir).len() implies b[#[trigger] nodes_of_kind(b, FeatureKind::Dir)[j]].id == base + 1 + j by {
        assert(nodes_of_kind(b, FeatureKind::Dir)[j] == dx[j]);
        lemma_append_old(a, b, node, dx[j]);
    }
}

/// The number of `/` in `s`.
pub open spec fn slashes(s: Seq<char>) -> nat
    decreases s.len(),
{
    if s.len() == 0 {
        0
    } else {
        slashes(s.drop_last()) + if s.last() == '/' { 1nat } else { 0nat }
    }
}

/// Each directory below the root has a non-empty path, one level deeper than its slashes.
pub open spec fn dir_depths_ok(a: Seq<Node>) -> bool {
    forall|k: int| 1 <= k < a.len() && #[trigger] a[k].kind == FeatureKind::Dir ==> a[k].path@.len() > 0
        && a[k].depth == slashes(a[k].path@) + 1
}

proof fn lemma_slashes_concat(x: Seq<char>, y: Seq<char>)
    ensures
        slashes(x + y) == slashes(x) + slashes(y),
    decreases y.len(),
{
    if y.len() > 0 {
        lemma_slashes_concat(x, y.drop_last());
        assert((x + y).drop_last() =~= x + y.drop_last());
    } else {
        assert(x + y =~= x);
    }
}

proof fn lemma_slashes_free(name: Seq<char>)
    requires
        !name.contains('/'),
    ensures
        slashes(name) == 0,
    decreases name.len(),
{
    if name.len() > 0 {
        assert(!name.drop_last().contains('/')) by {
            if name.drop_last().contains('/') {
                let t = choose|t: int| 0 <= t < name.drop_last().len() && name.drop_last()[t] == '/';
                assert(name[t] == '/');
            }
        }
        lemma_slashes_free(name.drop_last());
        assert(name[name.len() - 1] != '/');
    }
}

/// Joining components that are non-empty and free of `/` gives a non-empty path with one `/`
/// fewer than components.
proof fn lemma_join_shape(cs: Seq<Seq<char>>)
    requires
        cs.len() >= 1,
        forall|j: int| 0 <= j < cs.len() ==> #[trigger] cs[j].len() > 0 && !cs[j].contains('/'),
    ensures
        join(cs).len() > 0,
        slashes(join(cs)) + 1 == cs.len(),
    decreases cs.len(),
{
    let last = cs.last();
    lemma_slashes_free(last);
    if cs.len() == 1 {
        assert(cs.drop_last().len() == 0);
        assert(join(cs.drop_last()) =~= Seq::<char>::empty());
    } else {
        assert forall|j: int| 0 <= j < cs.drop_last().len() implies #[trigger] cs.drop_last()[j].len() > 0 && !cs.drop_last()[j].contains('/') by {
            assert(cs.drop_last()[j] == cs[j]);
        }
        lemma_join_shape(cs.drop_last());
        let p = join(cs.drop_last());
        lemma_slashes_concat(p + seq!['/'], last);
        lemma_slashes_concat(p, seq!['/']);
        assert(seq!['/'].drop_last() =~= Seq::<char>::empty());
        assert(slashes(Seq::<char>::empty()) == 0);
        assert(seq!['/'].last() == '/');
        assert(slashes(seq!['/']) == slashes(seq!['/'].drop_last()) + 1);
        assert(slashes(seq!['/']) == 1);
        assert(join(cs) == p + seq!['/'] + last);
    }
}

/// The largest file id, or 0 for no files.
pub open spec fn max_file_id(files: Seq<FileRow>) -> u32
    decreases files.len(),
{
    if files.len() == 0 {
        0
    } else {
        let m = max_file_id(files.drop_last());
        if files.last().id > m { files.last().id } else { m }
    }
}

/// The joins of the first 1 to `j` components of `cs`.
pub open spec fn prefix_dirs(cs: Seq<Seq<char>>, j: nat) -> Set<Seq<char>>
    decreases j,
{
    if j == 0 {
        Set::empty()
    } else {
        prefix_dirs(cs, (j - 1) as nat).insert(join(cs.take(j as int)))
    }
}

/// The directory paths above a file: the joins of all but the last of its components.
pub open spec fn file_dirs(path: Seq<char>) -> Set<Seq<char>> {
    let cs = components(path);
    if cs.len() == 0 { Set::empty() } else { prefix_dirs(cs, (cs.len() - 1) as nat) }
}

/// The directory paths of all the files.
pub open spec fn dir_paths_of(files: Seq<FileRow>) -> Set<Seq<char>>
    decreases files.len(),
{
    if files.len() == 0 {
        Set::empty()
    } else {
        dir_paths_of(files.drop_last()).union(file_dirs(files.last().path@))
    }
}

/// How many directories the tree of `files` has below its root.
pub open spec fn dir_count(files: Seq<FileRow>) -> nat {
    dir_paths_of(files).len()
}

/// The paths of the directories of `a` below its root.
pub open spec fn arena_dirs(a: Seq<Node>) -> Set<Seq<char>> {
    Set::new(|p: Seq<char>| exists|k: int| 1 <= k < a.len() && #[trigger] a[k].kind == FeatureKind::Dir && a[k].path@ == p)
}

proof fn lemma_prefix_dirs_finite(cs: Seq<Seq<char>>, j: nat)
    ensures
        prefix_dirs(cs, j).finite(),
    decreases j,
{
    if j > 0 {
        lemma_prefix_dirs_finite(cs, (j - 1) as nat);
    }
}

proof fn lemma_prefix_dirs_grow(cs: Seq<Seq<char>>, i: nat, j: nat)
    requires
        i <= j,
    ensures
        prefix_dirs(cs, i).subset_of(prefix_dirs(cs, j)),
    decreases j,
{
    if i < j {
        lemma_prefix_dirs_grow(cs, i, (j - 1) as nat);
    }
}

proof fn lemma_dir_paths_finite(files: Seq<FileRow>)
    ensures
        dir_paths_of(files).finite(),
    decreases files.len(),
{
    if files.len() > 0 {
        lemma_dir_paths_finite(files.drop_last());
        let cs = components(files.last().path@);
        if cs.len() > 0 {
            lemma_prefix_dirs_finite(cs, (cs.len() - 1) as nat);
        }
    }
}

proof fn lemma_dir_paths_grow(files: Seq<FileRow>, i: int)
    requires
        0 <= i <= files.len(),
    ensures
        dir_paths_of(files.take(i)).subset_of(dir_paths_of(files)),
    decreases files.len(),
{
    if i < files.len() {
        assert(files.drop_last().take(i) =~= files.take(i));
        lemma_dir_paths_grow(files.drop_last(), i);
    } else {
        assert(files.take(i) =~= files);
    }
}

proof fn lemma_dir_paths_step(files: Seq<FileRow>, i: int)
    requires
        0 <= i < files.len(),
    ensures
        dir_paths_of(files.take(i + 1)) == dir_paths_of(files.take(i)).union(file_dirs(files[i].path@)),
{
    assert(files.take(i + 1).drop_last() =~= files.take(i));
}

/// Appending a node adds its path to the directory paths if it is a directory.
proof fn lemma_append_arena_dirs(a: Seq<Node>, b: Seq<Node>, node: Node)
    requires
        appended(a, b, node),
        a.len() >= 1,
        node.parent < a.len(),
    ensures
        arena_dirs(b) == if node.kind == FeatureKind::Dir { arena_dirs(a).insert(node.path@) } else { arena_dirs(a) },
{
    let want = if node.kind == FeatureKind::Dir { arena_dirs(a).insert(node.path@) } else { arena_dirs(a) };
    assert forall|p: Seq<char>| arena_dirs(b).contains(p) <==> #[trigger] want.contains(p) by {
        if arena_dirs(b).contains(p) {
            let k = choose|k: int| 1 <= k < b.len() && #[trigger] b[k].kind == FeatureKind::Dir && b[k].path@ == p;
            if k < a.len() {
                lemma_append_old(a, b, node, k);
                assert(a[k].kind == FeatureKind::Dir && a[k].path@ == p);
            }
        }
        if arena_dirs(a).contains(p) {
            let k = choose|k: int| 1 <= k < a.len() && #[trigger] a[k].kind == FeatureKind::Dir && a[k].path@ == p;
            lemma_append_old(a, b, node, k);
            assert(b[k].kind == FeatureKind::Dir && b[k].path@ == p);
        }
        if node.kind == FeatureKind::Dir && p == node.path@ {
            assert(b[a.len() as int] == node);
        }
    }
    assert(arena_dirs(b) =~= want);
}

proof fn lemma_kinds_count(a: Seq<Node>)
    requires
        a.len() >= 1,
    ensures
        nodes_of_kind(a, FeatureKind::Dir).len() + nodes_of_kind(a, FeatureKind::File).len() + 1 == a.len(),
    decreases a.len(),
{
    if a.len() > 1 {
        lemma_kinds_count(a.drop_last());
    }
}

/// The directories made so far, while file `i` adds its first `j` prefixes, are among the
/// directories of all the files.
proof fn lemma_partial_dirs(files: Seq<FileRow>, i: int, j: nat)
    requires
        0 <= i < files.len(),
        j < components(files[i].path@).len(),
    ensures
        dir_paths_of(files.take(i)).union(prefix_dirs(components(files[i].path@), j)).subset_of(dir_paths_of(files)),
        dir_paths_of(files.take(i)).union(prefix_dirs(components(files[i].path@), j)).finite(),
{
    let cs = components(files[i].path@);
    lemma_dir_paths_grow(files, i);
    lemma_dir_paths_grow(files, i + 1);
    lemma_dir_paths_step(files, i);
    lemma_prefix_dirs_grow(cs, j, (cs.len() - 1) as nat);
    lemma_dir_paths_finite(files.take(i));
    lemma_prefix_dirs_finite(cs, j);
}

proof fn lemma_kept_len(files: Seq<FileRow>)
    ensures
        kept_files(files).len() <= files.len(),
    decreases files.len(),
{
    if files.len() > 0 {
        lemma_kept_len(files.drop_last());
    }
}

/// `a` is the tree of `files`: shaped, with one node per kept file in order, one directory per
/// path prefix (each named by one component under its parent, no two alike, each one level
/// deeper than its slashes), and directory ids numbered on from the largest file id.
pub open spec fn tree_of(a: Seq<Node>, files: Seq<FileRow>) -> bool {
    &&& shaped(a)
    &&& dir_paths_ok(a)
    &&& dir_paths_distinct(a)
    &&& dir_depths_ok(a)
    &&& files_ok(a, kept_files(files))
    &&& dir_ids_ok(a, max_file_id(files) as int)
}

proof fn lemma_map_distinct(a: Seq<Node>, m: Map<Seq<char>, usize>)
    requires
        dir_map_ok(a, m),
    ensures
        dir_paths_distinct(a),
{
    assert forall|j: int, k: int| 0 <= j < k < a.len() && #[trigger] a[j].kind == FeatureKind::Dir && #[trigger] a[k].kind
        == FeatureKind::Dir implies a[j].path@ != a[k].path@ by {
        assert(m[a[j].path@] == j);
        assert(m[a[k].path@] == k);
    }
}

proof fn lemma_kept_step(files: Seq<FileRow>, i: int)
    requires
        0 <= i < files.len(),
    ensures
        kept_files(files.take(i + 1)) == kept_files(files.take(i)) + if components(files[i].path@).len() > 0 {
            seq![files[i]]
        } else {
            seq![]
        },
{
    assert(files.take(i + 1).drop_last() =~= files.take(i));
}

proof fn lemma_join_step(cs: Seq<Seq<char>>, j: int)
    requires
        0 <= j < cs.len(),
    ensures
        join(cs.take(j + 1)) == extend(join(cs.take(j)), cs[j]),
{
    assert(cs.take(j + 1).drop_last() =~= cs.take(j));
}

/// Why the tree of a list of files cannot be built.
#[derive(Debug, Clone, Copy, PartialEq, Eq, Structural)]
pub enum TreeLimit {
    /// A path has more than 255 components; depths are bytes.
    Depth,
    /// Directory ids, counted on from the largest file id, would pass `u32::MAX`.
    DirectoryIds,
    /// The files and directories together are more nodes than memory can index.
    Nodes,
}

/// Whether every path of `files` has at most 255 components.
pub open spec fn depths_fit(files: Seq<FileRow>) -> bool {
    forall|i: int| 0 <= i < files.len() ==> components(#[trigger] files[i].path@).len() <= 255
}

/// What [`check_tree_limits`] says of `files`: the first limit they break, in the order depth,
/// directory ids, nodes.
pub open spec fn tree_limit(files: Seq<FileRow>) -> Option<TreeLimit> {
    if !depths_fit(files) {
        Some(TreeLimit::Depth)
    } else if max_file_id(files) + dir_count(files) >= u32::MAX {
        Some(TreeLimit::DirectoryIds)
    } else if files.len() + dir_count(files) >= usize::MAX {
        Some(TreeLimit::Nodes)
    } else {
        None
    }
}

/// Check the bounds within which [`build_tree`] builds the tree of `files`: `Ok` exactly when
/// they hold, else the first one broken.
pub fn check_tree_limits(files: &Vec<FileRow>) -> (r: Result<(), TreeLimit>)
    ensures
        match tree_limit(files@) {
            None => r is Ok,
            Some(l) => r == Err::<(), TreeLimit>(l),
        },
{
    let n = files.len();
    let mut base: u32 = 0;
    let mut i: usize = 0;
    while i < n
        invariant
            n == files@.len(),
            i <= n,
            base == max_file_id(files@.take(i as int)),
            forall|k: int| 0 <= k < i ==> components(#[trigger] files@[k].path@).len() <= 255,
        decreases n - i,
    {
        assert(files@.take(i + 1).drop_last() =~= files@.take(i as int));
        let comps = split_components(files[i].path.as_str());
        if comps.len() > 255 {
            assert(!depths_fit(files@)) by {
                assert(components(files@[i as int].path@).len() > 255);
            }
            return Err(TreeLimit::Depth);
        }
        if files[i].id > base {
            base = files[i].id;
        }
        i = i + 1;
    }
    assert(files@.take(n as int) =~= files@);
    proof {
        lemma_dir_paths_finite(files@);
        assert(dir_paths_of(files@.take(0)) == Set::<Seq<char>>::empty()) by {
            assert(files@.take(0) =~= Seq::<FileRow>::empty());
        }
    }
    if base == 0xFFFF_FFFFu32 {
        return Err(TreeLimit::DirectoryIds);
    }
    let mut seen: StringHashMap<()> = StringHashMap::new();
    let mut count: u64 = 0;
    i = 0;
    while i < n
        invariant
            n == files@.len(),
            i <= n,
            base == max_file_id(files@),
            depths_fit(files@),
            dir_paths_of(files@).finite(),
            seen@.dom() == dir_paths_of(files@.take(i as int)),
            count == seen@.dom().len(),
            base + count < u32::MAX,
        decreases n - i,
    {
        let f = &files[i];
        let comps = split_components(f.path.as_str());
        let ghost cs = components(f.path@);
        proof {
            lemma_dir_paths_step(files@, i as int);
            lemma_components_shape(f.path@, 0);
            lemma_dir_paths_finite(files@.take(i as int));
            assert(prefix_dirs(cs, 0) == Set::<Seq<char>>::empty());
            assert(dir_paths_of(files@.take(i as int)).union(prefix_dirs(cs, 0)) =~= dir_paths_of(files@.take(i as int)));
        }
        let nc = comps.len();
        let mut j: usize = 0;
        if nc > 0 {
            let mut acc = String::new();
            proof {
                assert(cs.take(0) =~= Seq::<Seq<char>>::empty());
            }
            while j + 1 < nc
                invariant
                    nc == cs.len(),
                    1 <= nc <= 255,
                    j + 1 <= nc,
                    comps@.len() == nc,
                    forall|t: int| 0 <= t < nc ==> #[trigger] comps@[t]@ == cs[t],
                    forall|t: int| 0 <= t < cs.len() ==> #[trigger] cs[t].len() > 0 && !cs[t].contains('/'),
                    i < files@.len(),
                    cs == components(files@[i as int].path@),
                    base == max_file_id(files@),
                    depths_fit(files@),
                    dir_paths_of(files@).finite(),
                    seen@.dom() == dir_paths_of(files@.take(i as int)).union(prefix_dirs(cs, j as nat)),
                    seen@.dom().finite(),
                    count == seen@.dom().len(),
                    base + count < u32::MAX,
                    acc@ == join(cs.take(j as int)),
                decreases nc - j,
            {
                proof {
                    lemma_join_step(cs, j as int);
                    lemma_join_shape(cs.take(j + 1));
                    if j > 0 {
                        lemma_join_shape(cs.take(j as int));
                    }
                    lemma_partial_dirs(files@, i as int, (j + 1) as nat);
                }
                if j > 0 {
                    push_char(&mut acc, '/');
                }
                acc.append(comps[j].as_str());
                assert(acc@ == join(cs.take(j + 1)));
                let ghost grown = dir_paths_of(files@.take(i as int)).union(prefix_dirs(cs, (j + 1) as nat));
                assert(grown =~= seen@.dom().insert(acc@));
                if !seen.contains_key(acc.as_str()) {
                    proof {
                        assert(!seen@.dom().contains(acc@));
                        assert(grown.len() == count + 1);
                        vstd::set_lib::lemma_len_subset(grown, dir_paths_of(files@));
                        assert(dir_count(files@) >= count + 1);
                    }
                    if base as u64 + count + 1 >= 0xFFFF_FFFFu64 {
                        return Err(TreeLimit::DirectoryIds);
                    }
                    seen.insert(acc.clone(), ());
                    count = count + 1;
                } else {
                    assert(seen@.dom().insert(acc@) =~= seen@.dom());
                }
                j = j + 1;
            }
        }
        proof {
            if cs.len() > 0 {
                assert(file_dirs(f.path@) == prefix_dirs(cs, j as nat));
            } else {
                assert(file_dirs(f.path@) == Set::<Seq<char>>::empty());
                assert(dir_paths_of(files@.take(i as int)).union(Set::<Seq<char>>::empty()) =~= dir_paths_of(files@.take(i as int)));
            }
        }
        i = i + 1;
    }
    assert(files@.take(n as int) =~= files@);
    if (n as u128) + (count as u128) >= (usize::MAX as u128) {
        return Err(TreeLimit::Nodes);
    }
    Ok(())
}

/// The nodes of the tree of `files` before any totals: the root, then for each file (in order)
/// the directories on its path that do not exist yet and the file itself.
pub fn build_arena(files: &Vec<FileRow>) -> (a: Vec<Node>)
    requires
        forall|i: int| 0 <= i < files@.len() ==> components(#[trigger] files@[i].path@).len() <= 255,
        max_file_id(files@) + dir_count(files@) < u32::MAX,
        files@.len() + dir_count(files@) < usize::MAX,
    ensures
        tree_of(a@, files@),
{
    let mut base: u32 = 0;
    let mut i: usize = 0;
    while i < files.len()
        invariant
            i <= files@.len(),
            base == max_file_id(files@.take(i as int)),
        decreases files.len() - i,
    {
        assert(files@.take(i + 1).drop_last() =~= files@.take(i as int));
        if files[i].id > base {
            base = files[i].id;
        }
        i = i + 1;
    }
    assert(files@.take(files@.len() as int) =~= files@);
    let mut arena: Vec<Node> = Vec::new();
    arena.push(Node {
        id: 0,
        kind: FeatureKind::Dir,
        path: String::new(),
        depth: 0,
        parent: 0,
        parent_id: 0,
        children: Vec::new(),
        lines: 0,
        bytes: 0,
        weight: 0,
        language: String::from_str("Other"),
        appear_z: 0,
        split_z: 0,
    });
    let mut dir_of: StringHashMap<usize> = StringHashMap::new();
    dir_of.insert(String::new(), 0);
    let mut next_dir_id: u32 = base + 1;
    proof {
        assert(nodes_of_kind(arena@, FeatureKind::Dir) =~= Seq::<int>::empty());
        assert(nodes_of_kind(arena@, FeatureKind::File) =~= Seq::<int>::empty());
        assert(kept_files(files@.take(0)) =~= Seq::<FileRow>::empty()) by {
            assert(files@.take(0) =~= Seq::<FileRow>::empty());
        }
        assert(dir_paths_of(files@.take(0)) == Set::<Seq<char>>::empty()) by {
            assert(files@.take(0) =~= Seq::<FileRow>::empty());
        }
        assert(arena_dirs(arena@) =~= Set::<Seq<char>>::empty());
        lemma_dir_paths_finite(files@);
    }
    let mut i: usize = 0;
    while i < files.len()
        invariant
            i <= files@.len(),
            files@.len() + dir_count(files@) < usize::MAX,
            forall|k: int| 0 <= k < files@.len() ==> components(#[trigger] files@[k].path@).len() <= 255,
            base == max_file_id(files@),
            base + dir_count(files@) < u32::MAX,
            dir_paths_of(files@).finite(),
            shaped(arena@),
            arena@.len() == 1 + nodes_of_kind(arena@, FeatureKind::File).len() + nodes_of_kind(arena@, FeatureKind::Dir).len(),
            arena_dirs(arena@) == dir_paths_of(files@.take(i as int)),
            nodes_of_kind(arena@, FeatureKind::Dir).len() == arena_dirs(arena@).len(),
            dir_paths_ok(arena@),
            dir_depths_ok(arena@),
            dir_map_ok(arena@, dir_of@),
            files_ok(arena@, kept_files(files@.take(i as int))),
            dir_ids_ok(arena@, base as int),
            next_dir_id == base + 1 + nodes_of_kind(arena@, FeatureKind::Dir).len(),
        decreases files.len() - i,
    {
        let f = &files[i];
        let comps = split_components(f.path.as_str());
        let ghost cs = components(f.path@);
        proof {
            lemma_kept_step(files@, i as int);
            lemma_components_shape(f.path@, 0);
            lemma_nodes_of_kind_bounds(arena@, FeatureKind::Dir);
            lemma_dir_paths_step(files@, i as int);
            lemma_kept_len(files@.take(i as int));
            assert(prefix_dirs(cs, 0) == Set::<Seq<char>>::empty());
            assert(dir_paths_of(files@.take(i as int)).union(prefix_dirs(cs, 0)) =~= dir_paths_of(files@.take(i as int)));
        }
        if comps.len() > 0 {
            let n = comps.len();
            let mut parent: usize = 0;
            let mut acc = String::new();
            let mut j: usize = 0;
            proof {
                assert(cs.take(0) =~= Seq::<Seq<char>>::empty());
            }
            while j + 1 < n
                invariant
                    n == cs.len(),
                    1 <= n <= 255,
                    j + 1 <= n,
                    comps@.len() == n,
                    forall|t: int| 0 <= t < n ==> #[trigger] comps@[t]@ == cs[t],
                    forall|t: int| 0 <= t < cs.len() ==> #[trigger] cs[t].len() > 0 && !cs[t].contains('/'),
                    i < files@.len(),
                    files@.len() + dir_count(files@) < usize::MAX,
                    cs == components(files@[i as int].path@),
                    base == max_file_id(files@),
                    base + dir_count(files@) < u32::MAX,
                    dir_paths_of(files@).finite(),
                    shaped(arena@),
                    arena@.len() == 1 + nodes_of_kind(arena@, FeatureKind::File).len() + nodes_of_kind(arena@, FeatureKind::Dir).len(),
                    nodes_of_kind(arena@, FeatureKind::File).len() <= i,
                    arena_dirs(arena@) == dir_paths_of(files@.take(i as int)).union(prefix_dirs(cs, j as nat)),
                    nodes_of_kind(arena@, FeatureKind::Dir).len() == arena_dirs(arena@).len(),
                    dir_paths_ok(arena@),
                    dir_depths_ok(arena@),
                    dir_map_ok(arena@, dir_of@),
                    files_ok(arena@, kept_files(files@.take(i as int))),
                    dir_ids_ok(arena@, base as int),
                    next_dir_id == base + 1 + nodes_of_kind(arena@, FeatureKind::Dir).len(),
                    parent < arena@.len(),
                    arena@[parent as int].kind == FeatureKind::Dir,
                    arena@[parent as int].path@ == join(cs.take(j as int)),
                    arena@[parent as int].depth == j,
                    acc@ == join(cs.take(j as int)),
                decreases n - j,
            {
                proof {
                    lemma_join_step(cs, j as int);
                    lemma_join_shape(cs.take(j + 1));
                    if j > 0 {
                        lemma_join_shape(cs.take(j as int));
                    }
                    lemma_nodes_of_kind_bounds(arena@, FeatureKind::Dir);
                    lemma_partial_dirs(files@, i as int, j as nat);
                    lemma_partial_dirs(files@, i as int, (j + 1) as nat);
                    let grown = dir_paths_of(files@.take(i as int)).union(prefix_dirs(cs, (j + 1) as nat));
                    assert(grown =~= arena_dirs(arena@).insert(join(cs.take(j + 1))));
                    vstd::set_lib::lemma_len_subset(grown, dir_paths_of(files@));
                }
                if j > 0 {
                    push_char(&mut acc, '/');
                }
                acc.append(comps[j].as_str());
                assert(acc@ == join(cs.take(j + 1)));
                match dir_of.get(acc.as_str()) {
                    Some(idx) => {
                        proof {
                            assert(arena@[*idx as int].path@ == acc@);
                            assert(*idx != 0) by {
                                assert(arena@[0].path@.len() == 0);
                            }
                            assert(arena_dirs(arena@).contains(acc@)) by {
                                assert(arena@[*idx as int].kind == FeatureKind::Dir);
                            }
                            assert(arena_dirs(arena@).insert(acc@) =~= arena_dirs(arena@));
                        }
                        parent = *idx;
                    },
                    None => {
                        let node = Node {
                            id: next_dir_id,
                            kind: FeatureKind::Dir,
                            path: acc.clone(),
                            depth: arena[parent].depth + 1,
                            parent,
                            parent_id: arena[parent].id,
                            children: Vec::new(),
                            lines: 0,
                            bytes: 0,
                            weight: 0,
                            language: String::from_str("Other"),
                            appear_z: 0,
                            split_z: 0,
                        };
                        let ghost before = arena@;
                        let idx = add_node(&mut arena, node);
                        proof {
                            lemma_append_shaped(before, arena@, node);
                            lemma_append_dir(before, arena@, node, dir_of@, kept_files(files@.take(i as int)), base as int, cs[j as int]);
                            lemma_append_kinds(before, arena@, node, FeatureKind::Dir);
                            lemma_append_kinds(before, arena@, node, FeatureKind::File);
                            lemma_append_arena_dirs(before, arena@, node);
                            assert(!arena_dirs(before).contains(acc@)) by {
                                if arena_dirs(before).contains(acc@) {
                                    let k = choose|k: int| 1 <= k < before.len() && #[trigger] before[k].kind == FeatureKind::Dir
                                        && before[k].path@ == acc@;
                                    assert(dir_of@.dom().contains(before[k].path@));
                                }
                            }
                        }
                        dir_of.insert(acc.clone(), idx);
                        next_dir_id = next_dir_id + 1;
                        parent = idx;
                    },
                }
                j = j + 1;
            }
            proof {
                lemma_partial_dirs(files@, i as int, j as nat);
                vstd::set_lib::lemma_len_subset(arena_dirs(arena@), dir_paths_of(files@));
                assert(file_dirs(f.path@) == prefix_dirs(cs, j as nat));
            }
            let node = Node {
                id: f.id,
                kind: FeatureKind::File,
                path: f.path.clone(),
                depth: arena[parent].depth + 1,
                parent,
                parent_id: arena[parent].id,
                children: Vec::new(),
                lines: f.lines,
                bytes: f.bytes,
                weight: if f.lines > 0 { f.lines } else { 1 },
                language: f.language.clone(),
                appear_z: 0,
                split_z: 0,
            };
            let ghost before = arena@;
            let idx = add_node(&mut arena, node);
            proof {
                lemma_append_shaped(before, arena@, node);
                lemma_append_file(before, arena@, node, dir_of@, kept_files(files@.take(i as int)), *f, base as int);
                lemma_append_kinds(before, arena@, node, FeatureKind::Dir);
                lemma_append_kinds(before, arena@, node, FeatureKind::File);
                lemma_append_arena_dirs(before, arena@, node);
            }
        } else {
            proof {
                assert(file_dirs(f.path@) == Set::<Seq<char>>::empty());
                assert(dir_paths_of(files@.take(i as int)).union(Set::<Seq<char>>::empty()) =~= dir_paths_of(files@.take(i as int)));
            }
        }
        i = i + 1;
    }
    proof {
        assert(files@.take(files@.len() as int) =~= files@);
        lemma_map_distinct(arena@, dir_of@);
    }
    arena
}

/// What lies under a node: its lines, bytes and weight, and its lines per language.
pub struct Totals {
    pub lines: nat,
    pub bytes: nat,
    pub weight: nat,
    pub tally: Map<Seq<char>, nat>,
}

/// Two tallies added language by language.
pub open spec fn add_tally(x: Map<Seq<char>, nat>, y: Map<Seq<char>, nat>) -> Map<Seq<char>, nat> {
    Map::new(
        |l: Seq<char>| x.dom().contains(l) || y.dom().contains(l),
        |l: Seq<char>| (if x.dom().contains(l) { x[l] } else { 0 }) + (if y.dom().contains(l) { y[l] } else { 0 }),
    )
}

/// The sum of two totals.
pub open spec fn add_totals(x: Totals, y: Totals) -> Totals {
    Totals {
        lines: x.lines + y.lines,
        bytes: x.bytes + y.bytes,
        weight: x.weight + y.weight,
        tally: add_tally(x.tally, y.tally),
    }
}

pub open spec fn no_totals() -> Totals {
    Totals { lines: 0, bytes: 0, weight: 0, tally: Map::empty() }
}

/// The totals of node `k`: a file counts its own lines, bytes and weight, and its lines (at
/// least 1) for its language; a directory adds up its children, with a weight of at least 1.
pub open spec fn totals(a: Seq<Node>, k: int) -> Totals
    decreases a.len() - k, 1int, 0int,
{
    if k < 0 || k >= a.len() {
        no_totals()
    } else if a[k].kind == FeatureKind::File {
        Totals {
            lines: a[k].lines as nat,
            bytes: a[k].bytes as nat,
            weight: a[k].weight as nat,
            tally: map![a[k].language@ => if a[k].lines > 0 { a[k].lines as nat } else { 1nat }],
        }
    } else {
        let s = children_totals(a, k, a[k].children@.len() as int);
        Totals { weight: if s.weight > 0 { s.weight } else { 1 }, ..s }
    }
}

/// The totals of the first `x` children of node `k`, added up.
pub open spec fn children_totals(a: Seq<Node>, k: int, x: int) -> Totals
    decreases a.len() - k, 0int, x,
{
    if x <= 0 || k < 0 || k >= a.len() || x > a[k].children@.len() {
        no_totals()
    } else {
        let c = a[k].children@[x - 1] as int;
        let before = children_totals(a, k, x - 1);
        if k < c < a.len() {
            add_totals(before, totals(a, c))
        } else {
            before
        }
    }
}

/// `x` sorts before `y`: compared character by character (by code point), a proper prefix first.
/// For UTF-8 text this is the order of `String`'s `cmp`.
pub open spec fn lex_lt(x: Seq<char>, y: Seq<char>) -> bool
    decreases x.len(),
{
    if x.len() == 0 {
        y.len() > 0
    } else if y.len() == 0 {
        false
    } else if x[0] != y[0] {
        x[0] < y[0]
    } else {
        lex_lt(x.drop_first(), y.drop_first())
    }
}

/// [`lex_lt`] is a strict total order: asymmetric and total on distinct texts.
pub(crate) proof fn lemma_lex_order(x: Seq<char>, y: Seq<char>)
    ensures
        lex_lt(x, y) ==> !lex_lt(y, x),
        x != y ==> lex_lt(x, y) || lex_lt(y, x),
        !lex_lt(x, x),
    decreases x.len(),
{
    if x.len() > 0 && y.len() > 0 && x[0] == y[0] {
        lemma_lex_order(x.drop_first(), y.drop_first());
        if x != y {
            assert(x.drop_first() != y.drop_first()) by {
                if x.drop_first() == y.drop_first() {
                    assert(x =~= y) by {
                        assert forall|i: int| 0 <= i < x.len() implies x[i] == y[i] by {
                            if i > 0 {
                                assert(x[i] == x.drop_first()[i - 1]);
                                assert(y[i] == y.drop_first()[i - 1]);
                            }
                        }
                    }
                }
            }
        }
    } else if x.len() > 0 && y.len() > 0 {
    } else if x.len() == 0 && y.len() == 0 {
        assert(x =~= y);
    }
    if x.len() > 0 {
        lemma_lex_order(x.drop_first(), x.drop_first());
    }
}

/// [`lex_lt`] is transitive.
pub(crate) proof fn lemma_lex_trans(x: Seq<char>, y: Seq<char>, z: Seq<char>)
    requires
        lex_lt(x, y),
        lex_lt(y, z),
    ensures
        lex_lt(x, z),
    decreases x.len(),
{
    if x.len() > 0 && y.len() > 0 && z.len() > 0 && x[0] == y[0] && y[0] == z[0] {
        lemma_lex_trans(x.drop_first(), y.drop_first(), z.drop_first());
    }
}

/// Whether `x` sorts before `y` (see [`lex_lt`]).
pub fn text_less(x: &str, y: &str) -> (r: bool)
    ensures
        r == lex_lt(x@, y@),
{
    let a = chars_of(x);
    let b = chars_of(y);
    assert(a@.skip(0) =~= a@);
    assert(b@.skip(0) =~= b@);
    let mut i: usize = 0;
    while i < a.len() && i < b.len() && a[i] == b[i]
        invariant
            i <= a@.len(),
            i <= b@.len(),
            a@ == x@,
            b@ == y@,
            forall|j: int| 0 <= j < i ==> a@[j] == b@[j],
            lex_lt(a@, b@) == lex_lt(a@.skip(i as int), b@.skip(i as int)),
        decreases a.len() - i,
    {
        proof {
            assert(a@.skip(i as int).drop_first() =~= a@.skip(i + 1));
            assert(b@.skip(i as int).drop_first() =~= b@.skip(i + 1));
        }
        i = i + 1;
    }
    if i == a.len() {
        i < b.len()
    } else if i == b.len() {
        false
    } else {
        a[i] < b[i]
    }
}

/// Language `l` beats language `o` in tally `t`: more lines, or as many and an earlier name.
pub open spec fn beats(t: Map<Seq<char>, nat>, l: Seq<char>, o: Seq<char>) -> bool {
    t[l] > t[o] || (t[l] == t[o] && lex_lt(l, o))
}

/// `l` is in `t` and beats every other language of `t`.
pub open spec fn is_best(t: Map<Seq<char>, nat>, l: Seq<char>) -> bool {
    t.dom().contains(l) && forall|o: Seq<char>| #[trigger] t.dom().contains(o) && o != l ==> beats(t, l, o)
}

/// A directory's dominant language: the one with the most lines, ties broken by name; `Other`
/// for a directory with no files.
pub open spec fn dominant(t: Map<Seq<char>, nat>) -> Seq<char> {
    if exists|l: Seq<char>| is_best(t, l) {
        choose|l: Seq<char>| is_best(t, l)
    } else {
        "Other"@
    }
}

proof fn lemma_best_unique(t: Map<Seq<char>, nat>, l: Seq<char>)
    requires
        is_best(t, l),
    ensures
        dominant(t) == l,
{
    let d = choose|x: Seq<char>| is_best(t, x);
    assert(is_best(t, d));
    if d != l {
        assert(beats(t, l, d));
        assert(beats(t, d, l));
        lemma_lex_order(l, d);
    }
}

/// Tally entries `(language, lines)` as a map.
pub open spec fn tally_map(e: Seq<(String, u64)>) -> Map<Seq<char>, nat>
    decreases e.len(),
{
    if e.len() == 0 {
        Map::empty()
    } else {
        tally_map(e.drop_last()).insert(e.last().0@, e.last().1 as nat)
    }
}

/// No language occurs twice among the entries.
pub open spec fn tally_distinct(e: Seq<(String, u64)>) -> bool {
    forall|i: int, j: int| 0 <= i < j < e.len() ==> e[i].0@ != e[j].0@
}

proof fn lemma_tally_absent(e: Seq<(String, u64)>, l: Seq<char>)
    requires
        forall|i: int| 0 <= i < e.len() ==> e[i].0@ != l,
    ensures
        !tally_map(e).dom().contains(l),
    decreases e.len(),
{
    if e.len() > 0 {
        lemma_tally_absent(e.drop_last(), l);
    }
}

proof fn lemma_tally_dom(e: Seq<(String, u64)>, l: Seq<char>)
    requires
        tally_map(e).dom().contains(l),
    ensures
        exists|i: int| 0 <= i < e.len() && e[i].0@ == l,
    decreases e.len(),
{
    if e.len() > 0 && e.last().0@ != l {
        lemma_tally_dom(e.drop_last(), l);
        let i = choose|i: int| 0 <= i < e.drop_last().len() && e.drop_last()[i].0@ == l;
        assert(e[i].0@ == l);
    }
}

proof fn lemma_tally_at(e: Seq<(String, u64)>, i: int)
    requires
        tally_distinct(e),
        0 <= i < e.len(),
    ensures
        tally_map(e).dom().contains(e[i].0@),
        tally_map(e)[e[i].0@] == e[i].1 as nat,
    decreases e.len(),
{
    if i < e.len() - 1 {
        lemma_tally_at(e.drop_last(), i);
    }
}

proof fn lemma_tally_update(e: Seq<(String, u64)>, i: int, v: u64)
    requires
        tally_distinct(e),
        0 <= i < e.len(),
    ensures
        tally_map(e.update(i, (e[i].0, v))) == tally_map(e).insert(e[i].0@, v as nat),
    decreases e.len(),
{
    let u = e.update(i, (e[i].0, v));
    if i == e.len() - 1 {
        assert(u.drop_last() =~= e.drop_last());
        assert(tally_map(u) =~= tally_map(e).insert(e[i].0@, v as nat));
    } else {
        assert(u.drop_last() =~= e.drop_last().update(i, (e[i].0, v)));
        lemma_tally_update(e.drop_last(), i, v);
        assert(tally_map(u) =~= tally_map(e).insert(e[i].0@, v as nat));
    }
}

/// Where language `l` stands among the entries, if it does.
fn tally_position(e: &Vec<(String, u64)>, l: &str) -> (r: Option<usize>)
    ensures
        r matches Some(i) ==> i < e@.len() && e@[i as int].0@ == l@,
        r is None ==> forall|k: int| 0 <= k < e@.len() ==> e@[k].0@ != l@,
{
    let mut i: usize = 0;
    while i < e.len()
        invariant
            i <= e@.len(),
            forall|k: int| 0 <= k < i ==> e@[k].0@ != l@,
        decreases e.len() - i,
    {
        if crate::strings::str_equal(e[i].0.as_str(), l) {
            return Some(i);
        }
        i = i + 1;
    }
    None
}

/// `x` capped at `u64::MAX`.
pub open spec fn cap(x: nat) -> nat {
    if x > u64::MAX { u64::MAX as nat } else { x }
}

/// A tally with every count capped at `u64::MAX`.
pub open spec fn cap_tally(t: Map<Seq<char>, nat>) -> Map<Seq<char>, nat> {
    Map::new(|l: Seq<char>| t.dom().contains(l), |l: Seq<char>| cap(t[l]))
}

/// Add the tally `other` into `acc`, language by language, each count saturating at
/// `u64::MAX`.
fn merge_tally(acc: &mut Vec<(String, u64)>, other: &Vec<(String, u64)>)
    requires
        tally_distinct(old(acc)@),
        tally_distinct(other@),
    ensures
        tally_distinct(final(acc)@),
        tally_map(final(acc)@) == cap_tally(add_tally(tally_map(old(acc)@), tally_map(other@))),
{
    let ghost a0 = tally_map(acc@);
    let mut y: usize = 0;
    proof {
        assert(other@.take(0) =~= Seq::<(String, u64)>::empty());
        lemma_tally_bounded(acc@);
        assert(cap_tally(add_tally(a0, tally_map(other@.take(0)))) =~= a0);
    }
    while y < other.len()
        invariant
            y <= other@.len(),
            tally_distinct(other@),
            tally_distinct(acc@),
            a0 == tally_map(old(acc)@),
            tally_map(acc@) == cap_tally(add_tally(a0, tally_map(other@.take(y as int)))),
        decreases other.len() - y,
    {
        let ghost before = other@.take(y as int);
        let ghost after = other@.take(y + 1);
        proof {
            assert(after.drop_last() =~= before);
            assert(after.last() == other@[y as int]);
            assert forall|i: int| 0 <= i < before.len() implies before[i].0@ != other@[y as int].0@ by {
                assert(before[i] == other@[i]);
            }
            lemma_tally_absent(before, other@[y as int].0@);
        }
        let name = &other[y].0;
        let n = other[y].1;
        let ghost l = name@;
        let ghost m = tally_map(acc@);
        let ghost target = cap_tally(add_tally(a0, tally_map(after)));
        proof {
            assert(tally_map(after) == tally_map(before).insert(l, n as nat));
        }
        match tally_position(acc, name.as_str()) {
            Some(i) => {
                let ghost e = acc@;
                proof {
                    lemma_tally_at(e, i as int);
                    assert(m.dom().contains(l));
                    assert(a0.dom().contains(l));
                    assert(m[l] == cap(a0[l]));
                }
                let v = acc[i].1.saturating_add(n);
                let nm = acc[i].0.clone();
                acc.set(i, (nm, v));
                proof {
                    assert(acc@ == e.update(i as int, (e[i as int].0, v)));
                    lemma_tally_update(e, i as int, v);
                    assert(v == cap(a0[l] + n as nat));
                    assert(target =~= m.insert(l, v as nat));
                    assert forall|p: int, q: int| 0 <= p < q < acc@.len() implies acc@[p].0@ != acc@[q].0@ by {
                        assert(e[p].0@ != e[q].0@);
                    }
                }
            },
            None => {
                let ghost e = acc@;
                proof {
                    lemma_tally_absent(e, l);
                    assert(!a0.dom().contains(l));
                }
                acc.push((name.clone(), n));
                proof {
                    assert(acc@.drop_last() =~= e);
                    assert(target =~= m.insert(l, n as nat));
                }
            },
        }
        y = y + 1;
    }
    assert(other@.take(other@.len() as int) =~= other@);
}

/// Tally counts are `u64`s.
proof fn lemma_tally_bounded(e: Seq<(String, u64)>)
    ensures
        forall|l: Seq<char>| #[trigger] tally_map(e).dom().contains(l) ==> tally_map(e)[l] <= u64::MAX,
    decreases e.len(),
{
    if e.len() > 0 {
        lemma_tally_bounded(e.drop_last());
        assert forall|l: Seq<char>| #[trigger] tally_map(e).dom().contains(l) implies tally_map(e)[l] <= u64::MAX by {
            if l != e.last().0@ {
                assert(tally_map(e.drop_last()).dom().contains(l));
            }
        }
    }
}

/// Entry `x` beats entry `y`: more lines, or as many and an earlier name.
pub open spec fn beats_entry(e: Seq<(String, u64)>, x: int, y: int) -> bool {
    e[x].1 > e[y].1 || (e[x].1 == e[y].1 && lex_lt(e[x].0@, e[y].0@))
}

/// The dominant language of a tally.
fn dominant_of(e: &Vec<(String, u64)>) -> (r: String)
    requires
        tally_distinct(e@),
    ensures
        r@ == dominant(tally_map(e@)),
{
    let ghost t = tally_map(e@);
    if e.len() == 0 {
        proof {
            assert(!(exists|l: Seq<char>| is_best(t, l)));
        }
        return String::from_str("Other");
    }
    let mut best: usize = 0;
    let mut i: usize = 1;
    while i < e.len()
        invariant
            1 <= i <= e@.len(),
            best < i,
            tally_distinct(e@),
            forall|j: int| 0 <= j < i && j != best ==> #[trigger] beats_entry(e@, best as int, j),
        decreases e.len() - i,
    {
        let better = e[i].1 > e[best].1 || (e[i].1 == e[best].1 && text_less(e[i].0.as_str(), e[best].0.as_str()));
        proof {
            lemma_lex_order(e@[i as int].0@, e@[best as int].0@);
        }
        if better {
            proof {
                assert forall|j: int| 0 <= j < i + 1 && j != i implies #[trigger] beats_entry(e@, i as int, j) by {
                    if j != best {
                        assert(beats_entry(e@, best as int, j));
                        if e@[i as int].1 == e@[best as int].1 && e@[best as int].1 == e@[j].1 {
                            lemma_lex_trans(e@[i as int].0@, e@[best as int].0@, e@[j].0@);
                        }
                    }
                }
            }
            best = i;
        } else {
            proof {
                assert(e@[i as int].0@ != e@[best as int].0@);
                assert(beats_entry(e@, best as int, i as int));
            }
        }
        i = i + 1;
    }
    let l = e[best].0.clone();
    proof {
        lemma_tally_at(e@, best as int);
        assert forall|o: Seq<char>| #[trigger] t.dom().contains(o) && o != l@ implies beats(t, l@, o) by {
            lemma_tally_dom(e@, o);
            let j = choose|j: int| 0 <= j < e@.len() && e@[j].0@ == o;
            lemma_tally_at(e@, j);
            assert(j != best);
            assert(beats_entry(e@, best as int, j));
        }
        assert(is_best(t, l@));
        lemma_best_unique(t, l@);
    }
    l
}

/// `x` and `y` agree on everything but the totals a directory carries.
pub open spec fn same_shape(x: Node, y: Node) -> bool {
    &&& x.id == y.id
    &&& x.kind == y.kind
    &&& x.path == y.path
    &&& x.depth == y.depth
    &&& x.parent == y.parent
    &&& x.parent_id == y.parent_id
    &&& x.children == y.children
    &&& x.appear_z == y.appear_z
    &&& x.split_z == y.split_z
}

/// Every file's weight is its line count, at least 1.
pub open spec fn file_weights_ok(a: Seq<Node>) -> bool {
    forall|k: int| 0 <= k < a.len() && #[trigger] a[k].kind == FeatureKind::File ==> a[k].weight == (if a[k].lines
        > 0 { a[k].lines } else { 1 })
}

/// Node `k` of `b` is node `k` of `a` with its totals filled in: its lines, bytes and weight
/// (each saturating at `u64::MAX`) and its dominant language.
pub open spec fn aggregated(a: Seq<Node>, b: Seq<Node>, k: int) -> bool {
    &&& same_shape(b[k], a[k])
    &&& a[k].kind == FeatureKind::File ==> b[k] == a[k]
    &&& a[k].kind == FeatureKind::Dir ==> {
        let t = totals(a, k);
        &&& b[k].lines == cap(t.lines)
        &&& b[k].bytes == cap(t.bytes)
        &&& b[k].weight == cap(t.weight)
        &&& b[k].language@ == dominant(cap_tally(t.tally))
    }
}

proof fn lemma_children_step(a: Seq<Node>, k: int, x: int)
    requires
        shaped(a),
        0 <= k < a.len(),
        0 <= x < a[k].children@.len(),
    ensures
        children_totals(a, k, x + 1) == add_totals(children_totals(a, k, x), totals(a, a[k].children@[x] as int)),
        k < a[k].children@[x] < a.len(),
{
    let c = a[k].children@[x] as int;
    assert(1 <= c < a.len() && a[c].parent == k);
}

proof fn lemma_cap_add(x: nat, y: nat)
    ensures
        cap(cap(x) + cap(y)) == cap(x + y),
{
}

proof fn lemma_cap_tally_add(x: Map<Seq<char>, nat>, y: Map<Seq<char>, nat>)
    ensures
        cap_tally(add_tally(cap_tally(x), cap_tally(y))) == cap_tally(add_tally(x, y)),
{
    assert forall|l: Seq<char>| #[trigger] add_tally(x, y).dom().contains(l) implies cap_tally(add_tally(cap_tally(x), cap_tally(y)))[l]
        == cap_tally(add_tally(x, y))[l] by {
        let u = if x.dom().contains(l) { x[l] } else { 0 };
        let v = if y.dom().contains(l) { y[l] } else { 0 };
        lemma_cap_add(u, v);
    }
    assert(cap_tally(add_tally(cap_tally(x), cap_tally(y))) =~= cap_tally(add_tally(x, y)));
}

/// Fill in every directory's totals: the lines, bytes and weight of its children added up (the
/// weight at least 1) and its dominant language. Sums saturate at `u64::MAX`.
pub fn aggregate(arena: &mut Vec<Node>)
    requires
        shaped(old(arena)@),
        file_weights_ok(old(arena)@),
    ensures
        final(arena)@.len() == old(arena)@.len(),
        forall|k: int| 0 <= k < old(arena)@.len() ==> #[trigger] aggregated(old(arena)@, final(arena)@, k),
{
    let ghost a0 = arena@;
    let n = arena.len();
    let mut tallies: Vec<Vec<(String, u64)>> = Vec::new();
    let mut t: usize = 0;
    while t < n
        invariant
            t <= n,
            tallies@.len() == t,
        decreases n - t,
    {
        tallies.push(Vec::new());
        t = t + 1;
    }
    let mut k: usize = n;
    while k > 0
        invariant
            k <= n == a0.len() == arena@.len(),
            tallies@.len() == n,
            shaped(a0),
            file_weights_ok(a0),
            forall|j: int| 0 <= j < k ==> #[trigger] arena@[j] == a0[j],
            forall|j: int| k <= j < n ==> #[trigger] aggregated(a0, arena@, j),
            forall|j: int| k <= j < n ==> tally_distinct(#[trigger] tallies@[j]@) && tally_map(tallies@[j]@) == cap_tally(
                totals(a0, j).tally,
            ),
        decreases k,
    {
        k = k - 1;
        assert(arena@[k as int] == a0[k as int]);
        if arena[k].kind == FeatureKind::File {
            let lang = arena[k].language.clone();
            let w = if arena[k].lines > 0 { arena[k].lines } else { 1 };
            let entry = vec![(lang, w)];
            proof {
                assert(entry@.drop_last() =~= Seq::<(String, u64)>::empty());
                assert(tally_map(Seq::<(String, u64)>::empty()) == Map::<Seq<char>, nat>::empty());
                assert(tally_map(entry@) == tally_map(entry@.drop_last()).insert(entry@.last().0@, entry@.last().1 as nat));
                assert(tally_map(entry@) =~= cap_tally(totals(a0, k as int).tally));
            }
            tallies.set(k, entry);
        } else {
            let ghost kids = a0[k as int].children@;
            let nc = arena[k].children.len();
            let mut lines: u64 = 0;
            let mut bytes: u64 = 0;
            let mut weight: u64 = 0;
            let mut acc: Vec<(String, u64)> = Vec::new();
            proof {
                assert(tally_map(acc@) =~= cap_tally(children_totals(a0, k as int, 0).tally));
            }
            let mut x: usize = 0;
            while x < nc
                invariant
                    k < n == a0.len() == arena@.len(),
                    tallies@.len() == n,
                    shaped(a0),
                    arena@[k as int] == a0[k as int],
                    a0[k as int].kind == FeatureKind::Dir,
                    nc == kids.len(),
                    kids == a0[k as int].children@,
                    x <= nc,
                    forall|j: int| k < j < n ==> #[trigger] aggregated(a0, arena@, j),
                    forall|j: int| k < j < n ==> tally_distinct(#[trigger] tallies@[j]@) && tally_map(tallies@[j]@) == cap_tally(
                        totals(a0, j).tally,
                    ),
                    lines == cap(children_totals(a0, k as int, x as int).lines),
                    bytes == cap(children_totals(a0, k as int, x as int).bytes),
                    weight == cap(children_totals(a0, k as int, x as int).weight),
                    tally_distinct(acc@),
                    tally_map(acc@) == cap_tally(children_totals(a0, k as int, x as int).tally),
                decreases nc - x,
            {
                let c = arena[k].children[x];
                let ghost before = children_totals(a0, k as int, x as int);
                let ghost tc = totals(a0, c as int);
                proof {
                    lemma_children_step(a0, k as int, x as int);
                    assert(aggregated(a0, arena@, c as int));
                    if a0[c as int].kind == FeatureKind::File {
                        assert(arena@[c as int] == a0[c as int]);
                    }
                    assert(arena@[c as int].lines == cap(tc.lines));
                    assert(arena@[c as int].bytes == cap(tc.bytes));
                    assert(arena@[c as int].weight == cap(tc.weight));
                    assert(tally_distinct(tallies@[c as int]@));
                    lemma_cap_add(before.lines, tc.lines);
                    lemma_cap_add(before.bytes, tc.bytes);
                    lemma_cap_add(before.weight, tc.weight);
                    lemma_cap_tally_add(before.tally, tc.tally);
                }
                lines = lines.saturating_add(arena[c].lines);
                bytes = bytes.saturating_add(arena[c].bytes);
                weight = weight.saturating_add(arena[c].weight);
                merge_tally(&mut acc, &tallies[c]);
                x = x + 1;
            }
            let language = dominant_of(&acc);
            let final_weight = if weight > 0 { weight } else { 1 };
            let ghost snapshot = arena@;
            arena[k].lines = lines;
            arena[k].bytes = bytes;
            arena[k].weight = final_weight;
            arena[k].language = language;
            tallies.set(k, acc);
            proof {
                assert forall|j: int| k < j < n implies #[trigger] aggregated(a0, arena@, j) by {
                    assert(arena@[j] == snapshot[j]);
                    assert(aggregated(a0, snapshot, j));
                }
            }
        }
        proof {
            assert(aggregated(a0, arena@, k as int));
        }
    }
}

/// `a` and `b` have the same shape and the same files.
pub open spec fn same_tree(a: Seq<Node>, b: Seq<Node>) -> bool {
    &&& a.len() == b.len()
    &&& forall|k: int| 0 <= k < a.len() ==> same_shape(#[trigger] b[k], a[k])
    &&& forall|k: int| 0 <= k < a.len() && #[trigger] a[k].kind == FeatureKind::File ==> b[k] == a[k]
}

proof fn lemma_totals_same(a: Seq<Node>, b: Seq<Node>, k: int)
    requires
        same_tree(a, b),
    ensures
        totals(a, k) == totals(b, k),
    decreases a.len() - k, 1int, 0int,
{
    if 0 <= k < a.len() {
        assert(same_shape(b[k], a[k]));
        if a[k].kind == FeatureKind::Dir {
            lemma_children_totals_same(a, b, k, a[k].children@.len() as int);
        }
    }
}

proof fn lemma_children_totals_same(a: Seq<Node>, b: Seq<Node>, k: int, x: int)
    requires
        same_tree(a, b),
    ensures
        children_totals(a, k, x) == children_totals(b, k, x),
    decreases a.len() - k, 0int, x,
{
    if 0 <= k < a.len() {
        assert(same_shape(b[k], a[k]));
        if 0 < x <= a[k].children@.len() {
            lemma_children_totals_same(a, b, k, x - 1);
            let c = a[k].children@[x - 1] as int;
            if k < c < a.len() {
                lemma_totals_same(a, b, c);
            }
        }
    }
}

proof fn lemma_nodes_of_kind_complete(a: Seq<Node>, kind: FeatureKind, k: int)
    requires
        1 <= k < a.len(),
        a[k].kind == kind,
    ensures
        exists|m: int| 0 <= m < nodes_of_kind(a, kind).len() && #[trigger] nodes_of_kind(a, kind)[m] == k,
    decreases a.len(),
{
    if k < a.len() - 1 {
        lemma_nodes_of_kind_complete(a.drop_last(), kind, k);
        let m = choose|m: int| 0 <= m < nodes_of_kind(a.drop_last(), kind).len() && #[trigger] nodes_of_kind(a.drop_last(), kind)[m] == k;
        assert(nodes_of_kind(a, kind)[m] == k);
    } else {
        let m = nodes_of_kind(a.drop_last(), kind).len() as int;
        assert(nodes_of_kind(a, kind)[m] == k);
    }
}

proof fn lemma_tree_keeps(a: Seq<Node>, b: Seq<Node>, files: Seq<FileRow>)
    requires
        tree_of(a, files),
        same_tree(a, b),
    ensures
        tree_of(b, files),
{
    assert forall|k: int| 0 <= k < a.len() implies #[trigger] a[k].kind == b[k].kind by {
        assert(same_shape(b[k], a[k]));
    }
    lemma_nodes_of_kind_same(a, b, FeatureKind::File);
    lemma_nodes_of_kind_same(a, b, FeatureKind::Dir);
    lemma_nodes_of_kind_bounds(a, FeatureKind::File);
    lemma_nodes_of_kind_bounds(a, FeatureKind::Dir);
    assert(same_shape(b[0], a[0]));
    assert forall|k: int| 1 <= k < b.len() implies {
        let p = #[trigger] b[k].parent as int;
        &&& p < k
        &&& b[p].kind == FeatureKind::Dir
        &&& b[k].depth == b[p].depth + 1
        &&& b[k].parent_id == b[p].id
    } by {
        assert(same_shape(b[k], a[k]));
        assert(same_shape(b[a[k].parent as int], a[a[k].parent as int]));
    }
    assert forall|p: int, x: int, y: int| 0 <= p < b.len() && 0 <= x < y < b[p].children@.len() implies
        #[trigger] b[p].children@[x] < #[trigger] b[p].children@[y] by {
        assert(same_shape(b[p], a[p]));
    }
    assert forall|p: int, x: int| 0 <= p < b.len() && 0 <= x < b[p].children@.len() implies {
        let c = #[trigger] b[p].children@[x] as int;
        &&& 1 <= c < b.len()
        &&& b[c].parent == p
    } by {
        assert(same_shape(b[p], a[p]));
        let c = a[p].children@[x] as int;
        assert(same_shape(b[c], a[c]));
    }
    assert forall|k: int| 1 <= k < b.len() implies b[b[k].parent as int].children@.contains(k as usize) by {
        assert(same_shape(b[k], a[k]));
        assert(same_shape(b[a[k].parent as int], a[a[k].parent as int]));
    }
    assert forall|k: int| 1 <= k < b.len() && #[trigger] b[k].kind == FeatureKind::Dir implies dir_named(b, k) by {
        assert(same_shape(b[k], a[k]));
        assert(dir_named(a, k));
        let q = a[k].parent as int;
        assert(same_shape(b[q], a[q]));
        let w = choose|w: Seq<char>| w.len() > 0 && !w.contains('/') && #[trigger] extend(a[q].path@, w) == a[k].path@;
        assert(extend(b[q].path@, w) == b[k].path@);
    }
    assert forall|j: int, k: int| 0 <= j < k < b.len() && #[trigger] b[j].kind == FeatureKind::Dir && #[trigger] b[k].kind
        == FeatureKind::Dir implies b[j].path@ != b[k].path@ by {
        assert(same_shape(b[j], a[j]));
        assert(same_shape(b[k], a[k]));
    }
    assert forall|k: int| 1 <= k < b.len() && #[trigger] b[k].kind == FeatureKind::Dir implies b[k].path@.len() > 0
        && b[k].depth == slashes(b[k].path@) + 1 by {
        assert(same_shape(b[k], a[k]));
    }
    let fx = nodes_of_kind(a, FeatureKind::File);
    let fs = kept_files(files);
    assert forall|m: int| 0 <= m < fx.len() implies file_node(b, #[trigger] nodes_of_kind(b, FeatureKind::File)[m], fs[m]) by {
        let k = fx[m];
        assert(file_node(a, k, fs[m]));
        assert(b[k] == a[k]);
        let q = a[k].parent as int;
        assert(same_shape(b[q], a[q]));
    }
    let dx = nodes_of_kind(a, FeatureKind::Dir);
    assert forall|m: int| 0 <= m < dx.len() implies b[#[trigger] nodes_of_kind(b, FeatureKind::Dir)[m]].id == max_file_id(files) + 1 + m by {
        assert(same_shape(b[dx[m]], a[dx[m]]));
    }
}

/// Build the tree of `files` where [`check_tree_limits`] finds them within bounds, else the
/// first bound they break.
pub fn try_build_tree(files: &Vec<FileRow>) -> (r: Result<(Vec<Node>, usize), TreeLimit>)
    ensures
        match tree_limit(files@) {
            Some(l) => r == Err::<(Vec<Node>, usize), TreeLimit>(l),
            None => r matches Ok(t) && t.1 == 0 && tree_of(t.0@, files@),
        },
{
    match check_tree_limits(files) {
        Err(l) => Err(l),
        Ok(()) => Ok(build_tree(files)),
    }
}

/// The directory tree of `files`, with every directory's totals, and the index of its root.
/// Depths are bytes, so no path may have more than 255 components; directory ids count on from
/// the largest file id and must fit in a `u32`; and the nodes must fit in a `Vec`.
pub fn build_tree(files: &Vec<FileRow>) -> (r: (Vec<Node>, usize))
    requires
        forall|i: int| 0 <= i < files@.len() ==> components(#[trigger] files@[i].path@).len() <= 255,
        max_file_id(files@) + dir_count(files@) < u32::MAX,
        files@.len() + dir_count(files@) < usize::MAX,
    ensures
        r.1 == 0,
        tree_of(r.0@, files@),
        forall|k: int| 0 <= k < r.0@.len() && #[trigger] r.0@[k].kind == FeatureKind::Dir ==> {
            let t = totals(r.0@, k);
            &&& r.0@[k].lines == cap(t.lines)
            &&& r.0@[k].bytes == cap(t.bytes)
            &&& r.0@[k].weight == cap(t.weight)
            &&& r.0@[k].language@ == dominant(cap_tally(t.tally))
        },
{
    let mut arena = build_arena(files);
    let ghost a0 = arena@;
    proof {
        assert forall|k: int| 0 <= k < a0.len() && #[trigger] a0[k].kind == FeatureKind::File implies a0[k].weight == (if a0[k].lines
            > 0 { a0[k].lines } else { 1 }) by {
            if k == 0 {
                assert(is_root(a0[0]));
            }
            lemma_nodes_of_kind_complete(a0, FeatureKind::File, k);
            let m = choose|m: int| 0 <= m < nodes_of_kind(a0, FeatureKind::File).len() && #[trigger] nodes_of_kind(a0, FeatureKind::File)[m] == k;
            assert(file_node(a0, nodes_of_kind(a0, FeatureKind::File)[m], kept_files(files@)[m]));
        }
    }
    aggregate(&mut arena);
    proof {
        assert forall|k: int| 0 <= k < a0.len() implies same_shape(#[trigger] arena@[k], a0[k]) by {
            assert(aggregated(a0, arena@, k));
        }
        assert forall|k: int| 0 <= k < a0.len() && #[trigger] a0[k].kind == FeatureKind::File implies arena@[k] == a0[k] by {
            assert(aggregated(a0, arena@, k));
        }
        lemma_tree_keeps(a0, arena@, files@);
        assert forall|k: int| 0 <= k < arena@.len() && #[trigger] arena@[k].kind == FeatureKind::Dir implies {
            let t = totals(arena@, k);
            &&& arena@[k].lines == cap(t.lines)
            &&& arena@[k].bytes == cap(t.bytes)
            &&& arena@[k].weight == cap(t.weight)
            &&& arena@[k].language@ == dominant(cap_tally(t.tally))
        } by {
            assert(aggregated(a0, arena@, k));
            lemma_totals_same(a0, arena@, k);
        }
    }
    (arena, 0)
}

/// The visible cut under node `idx` at zoom `z`: files, and directories that have not split yet
/// (or are empty), taken whole; directories that have split are replaced by their own cut.
pub open spec fn visible_from(a: Seq<Node>, idx: int, z: u8) -> Seq<usize>
    decreases a.len() - idx, 1int, 0int,
{
    if 0 <= idx < a.len() {
        visible_children(a, idx, z, a[idx].children@.len() as int)
    } else {
        seq![]
    }
}

/// The visible cut contributed by the first `x` children of node `idx`.
pub open spec fn visible_children(a: Seq<Node>, idx: int, z: u8, x: int) -> Seq<usize>
    decreases a.len() - idx, 0int, x,
{
    if x <= 0 || idx < 0 || idx >= a.len() || x > a[idx].children@.len() {
        seq![]
    } else {
        let c = a[idx].children@[x - 1] as int;
        let before = visible_children(a, idx, z, x - 1);
        if !(idx < c < a.len()) {
            before
        } else if a[c].kind == FeatureKind::File || z < a[c].split_z || a[c].children@.len() == 0 {
            before.push(c as usize)
        } else {
            before + visible_from(a, c, z)
        }
    }
}

/// Append the visible cut at zoom `z` under node `idx`: the shallowest nodes whose cells are the
/// right size, forming a partition of the world.
pub fn collect_visible(arena: &Vec<Node>, idx: usize, z: u8, out: &mut Vec<usize>)
    requires
        shaped(arena@),
        idx < arena@.len(),
    ensures
        final(out)@ == old(out)@ + visible_from(arena@, idx as int, z),
    decreases arena@.len() - idx,
{
    let ghost a = arena@;
    let ghost start = out@;
    let n = arena[idx].children.len();
    let mut x: usize = 0;
    proof {
        assert(start + visible_children(a, idx as int, z, 0) =~= start);
    }
    while x < n
        invariant
            a == arena@,
            shaped(a),
            idx < a.len(),
            n == a[idx as int].children@.len(),
            x <= n,
            out@ == start + visible_children(a, idx as int, z, x as int),
        decreases n - x,
    {
        let c = arena[idx].children[x];
        proof {
            assert(1 <= c < a.len() && a[c as int].parent == idx);
            assert(idx < c) by {
                assert(a[c as int].parent < c);
            }
        }
        if arena[c].kind == FeatureKind::File || z < arena[c].split_z || arena[c].children.len() == 0 {
            out.push(c);
            proof {
                assert(out@ =~= start + visible_children(a, idx as int, z, x + 1));
            }
        } else {
            let ghost mid = out@;
            collect_visible(arena, c, z, out);
            proof {
                assert(out@ =~= start + visible_children(a, idx as int, z, x + 1));
            }
        }
        x = x + 1;
    }
}

/// Hard cap on quadtree depth, a safety net for pathological inputs.
pub const MAX_ZOOM: u8 = 24;

/// The smallest natural zoom among the first `x` children of node `k` (`MAX_ZOOM` for none).
pub open spec fn min_natural(a: Seq<Node>, k: int, natural: Seq<u8>, x: int) -> u8
    decreases x,
{
    if x <= 0 {
        MAX_ZOOM
    } else {
        let m = min_natural(a, k, natural, x - 1);
        let g = natural[a[k].children@[x - 1] as int];
        if g < m { g } else { m }
    }
}

/// The zoom at which node `k` splits into its children, given the zoom at which it appears: a
/// directory with children splits once it has appeared and its smallest child is worth drawing
/// on its own (capped at [`MAX_ZOOM`]); anything else never splits past where it appears.
pub open spec fn split_zoom(a: Seq<Node>, k: int, natural: Seq<u8>, appear: u8) -> u8 {
    if a[k].kind == FeatureKind::Dir && a[k].children@.len() > 0 {
        let m = min_natural(a, k, natural, a[k].children@.len() as int);
        let s = if appear > m { appear } else { m };
        if s > MAX_ZOOM { MAX_ZOOM } else { s }
    } else {
        appear
    }
}

/// Zooms as [`assign_zooms`] leaves them: the root appears and splits at 0, every other node
/// appears where its parent splits and splits at its [`split_zoom`].
pub open spec fn zooms_assigned(a: Seq<Node>, natural: Seq<u8>) -> bool {
    &&& a[0].appear_z == 0
    &&& a[0].split_z == 0
    &&& forall|k: int| 1 <= k < a.len() ==> #[trigger] a[k].appear_z == a[a[k].parent as int].split_z
        && a[k].split_z == split_zoom(a, k, natural, a[k].appear_z)
}

/// `x` and `y` agree on everything but their zooms.
pub open spec fn same_but_zooms(x: Node, y: Node) -> bool {
    &&& x.id == y.id
    &&& x.kind == y.kind
    &&& x.path == y.path
    &&& x.depth == y.depth
    &&& x.parent == y.parent
    &&& x.parent_id == y.parent_id
    &&& x.children == y.children
    &&& x.lines == y.lines
    &&& x.bytes == y.bytes
    &&& x.weight == y.weight
    &&& x.language == y.language
}

/// Assign each node an appear zoom (when it becomes visible) and a split zoom (when its children
/// replace it), from the natural zoom of each node's cell. A directory's children all appear at
/// its split zoom, so each zoom level is a gap-free partition of the world.
#[verifier::spinoff_prover]
pub fn assign_zooms(arena: &mut Vec<Node>, natural: &Vec<u8>)
    requires
        shaped(old(arena)@),
        natural@.len() == old(arena)@.len(),
    ensures
        final(arena)@.len() == old(arena)@.len(),
        forall|k: int| 0 <= k < old(arena)@.len() ==> same_but_zooms(#[trigger] final(arena)@[k], old(arena)@[k]),
        zooms_assigned(final(arena)@, natural@),
        forall|k: int| 0 <= k < final(arena)@.len() ==> #[trigger] final(arena)@[k].appear_z <= final(arena)@[k].split_z
            <= MAX_ZOOM,
        shaped(final(arena)@),
{
    let ghost a0 = arena@;
    let n = arena.len();
    arena[0].appear_z = 0;
    arena[0].split_z = 0;
    let mut k: usize = 1;
    while k < n
        invariant
            1 <= k <= n == a0.len() == arena@.len() == natural@.len(),
            shaped(a0),
            forall|j: int| 0 <= j < n ==> same_but_zooms(#[trigger] arena@[j], a0[j]),
            arena@[0].appear_z == 0,
            arena@[0].split_z == 0,
            forall|j: int| 1 <= j < k ==> #[trigger] arena@[j].appear_z == arena@[arena@[j].parent as int].split_z
                && arena@[j].split_z == split_zoom(arena@, j, natural@, arena@[j].appear_z),
            zooms_bounded(arena@, k as int),
        decreases n - k,
    {
        let ghost start = arena@;
        let p = arena[k].parent;
        proof {
            assert(same_but_zooms(arena@[k as int], a0[k as int]));
            assert(a0[k as int].parent < k);
            assert(arena@[p as int].appear_z <= arena@[p as int].split_z <= MAX_ZOOM);
        }
        let appear = arena[p].split_z;
        let nc = arena[k].children.len();
        let split: u8 = if arena[k].kind == FeatureKind::Dir && nc > 0 {
            let mut m: u8 = MAX_ZOOM;
            let mut x: usize = 0;
            assert(same_but_zooms(arena@[k as int], a0[k as int]));
            while x < nc
                invariant
                    k < n == arena@.len() == natural@.len() == a0.len(),
                    nc == arena@[k as int].children@.len(),
                    nc == a0[k as int].children@.len(),
                    arena@[k as int].children == a0[k as int].children,
                    shaped(a0),
                    x <= nc,
                    m == min_natural(arena@, k as int, natural@, x as int),
                decreases nc - x,
            {
                let g = arena[k].children[x];
                proof {
                    assert(1 <= a0[k as int].children@[x as int] < n);
                }
                if natural[g] < m {
                    m = natural[g];
                }
                x = x + 1;
            }
            let s = if appear > m { appear } else { m };
            if s > MAX_ZOOM { MAX_ZOOM } else { s }
        } else {
            appear
        };
        let ghost snapshot = arena@;
        arena[k].appear_z = appear;
        arena[k].split_z = split;
        proof {
            assert forall|j: int| 0 <= j < n implies same_but_zooms(#[trigger] arena@[j], a0[j]) by {
                assert(same_but_zooms(snapshot[j], a0[j]));
            }
            assert forall|j: int| 0 <= j < n implies min_natural(arena@, j, natural@, arena@[j].children@.len() as int) == min_natural(snapshot, j, natural@, snapshot[j].children@.len() as int) by {
                lemma_min_natural_same(snapshot, arena@, j, natural@, arena@[j].children@.len() as int);
            }
            assert(appear <= split <= MAX_ZOOM);
            assert(snapshot == start);
            assert(zooms_bounded(arena@, k + 1)) by {
                assert forall|j: int| 0 <= j < k + 1 implies #[trigger] arena@[j].appear_z <= arena@[j].split_z <= MAX_ZOOM by {
                    if j < k {
                        assert(arena@[j] == start[j]);
                        assert(start[j].appear_z <= start[j].split_z <= MAX_ZOOM);
                    } else {
                        assert(arena@[j].appear_z == appear && arena@[j].split_z == split);
                    }
                }
            }
            assert forall|j: int| 1 <= j < k + 1 implies #[trigger] arena@[j].appear_z == arena@[arena@[j].parent as int].split_z
                && arena@[j].split_z == split_zoom(arena@, j, natural@, arena@[j].appear_z) by {
                assert(same_but_zooms(arena@[j], a0[j]));
                assert(a0[j].parent < j);
                if j < k {
                    assert(arena@[j] == snapshot[j]);
                    assert(arena@[j].parent != k);
                }
            }
        }
        k = k + 1;
    }
    proof {
        lemma_shaped_same(a0, arena@);
    }
}

/// The first `k` nodes appear no later than they split, and split by [`MAX_ZOOM`].
spec fn zooms_bounded(a: Seq<Node>, k: int) -> bool {
    forall|j: int| 0 <= j < k ==> #[trigger] a[j].appear_z <= a[j].split_z <= MAX_ZOOM
}

/// Changing only the zooms of the nodes keeps the tree's shape.
proof fn lemma_shaped_same(a0: Seq<Node>, a1: Seq<Node>)
    requires
        shaped(a0),
        a1.len() == a0.len(),
        forall|k: int| 0 <= k < a0.len() ==> same_but_zooms(#[trigger] a1[k], a0[k]),
    ensures
        shaped(a1),
{
    assert(same_but_zooms(a1[0], a0[0]));
    assert forall|k: int| 1 <= k < a1.len() implies {
        let p = #[trigger] a1[k].parent as int;
        &&& p < k
        &&& a1[p].kind == FeatureKind::Dir
        &&& a1[k].depth == a1[p].depth + 1
        &&& a1[k].parent_id == a1[p].id
    } by {
        assert(same_but_zooms(a1[k], a0[k]));
        assert(a0[k].parent < k);
        assert(same_but_zooms(a1[a0[k].parent as int], a0[a0[k].parent as int]));
    }
    assert forall|p: int, x: int, y: int| 0 <= p < a1.len() && 0 <= x < y < a1[p].children@.len() implies
        #[trigger] a1[p].children@[x] < #[trigger] a1[p].children@[y] by {
        assert(same_but_zooms(a1[p], a0[p]));
    }
    assert forall|p: int, x: int| 0 <= p < a1.len() && 0 <= x < a1[p].children@.len() implies {
        let c = #[trigger] a1[p].children@[x] as int;
        &&& 1 <= c < a1.len()
        &&& a1[c].parent == p
    } by {
        assert(same_but_zooms(a1[p], a0[p]));
        let c = a0[p].children@[x] as int;
        assert(same_but_zooms(a1[c], a0[c]));
    }
    assert forall|k: int| 1 <= k < a1.len() implies a1[a1[k].parent as int].children@.contains(k as usize) by {
        assert(same_but_zooms(a1[k], a0[k]));
        assert(a0[k].parent < k);
        assert(same_but_zooms(a1[a0[k].parent as int], a0[a0[k].parent as int]));
    }
}

proof fn lemma_min_natural_same(a: Seq<Node>, b: Seq<Node>, k: int, natural: Seq<u8>, x: int)
    requires
        0 <= k < a.len() == b.len(),
        a[k].children == b[k].children,
    ensures
        min_natural(a, k, natural, x) == min_natural(b, k, natural, x),
    decreases x,
{
    if x > 0 {
        lemma_min_natural_same(a, b, k, natural, x - 1);
    }
}

/// The child of node `k` with the smallest natural zoom among its first `x` children, and what
/// [`min_natural`] makes of them.
proof fn lemma_min_natural(a: Seq<Node>, k: int, natural: Seq<u8>, x: int) -> (c: int)
    requires
        0 <= k < a.len(),
        0 < x <= a[k].children@.len(),
        forall|d: int| 0 <= d < x ==> 0 <= #[trigger] a[k].children@[d] < natural.len(),
    ensures
        0 <= c < x,
        forall|d: int| 0 <= d < x ==> natural[a[k].children@[c] as int] <= #[trigger] natural[a[k].children@[d] as int],
        min_natural(a, k, natural, x) == (if natural[a[k].children@[c] as int] < MAX_ZOOM {
            natural[a[k].children@[c] as int]
        } else {
            MAX_ZOOM
        }),
    decreases x,
{
    assert(min_natural(a, k, natural, 0) == MAX_ZOOM);
    if x == 1 {
        0
    } else {
        let c0 = lemma_min_natural(a, k, natural, x - 1);
        let g = natural[a[k].children@[x - 1] as int];
        if g < natural[a[k].children@[c0] as int] {
            x - 1
        } else {
            c0
        }
    }
}

/// Law: a directory with children splits at the later of the zoom where it appears and the
/// smallest natural zoom of its children, capped at [`MAX_ZOOM`].
pub proof fn law_directory_splits_at_its_smallest_child(a: Seq<Node>, k: int, natural: Seq<u8>, appear: u8)
    requires
        0 <= k < a.len(),
        a[k].kind == FeatureKind::Dir,
        a[k].children@.len() > 0,
        forall|d: int| 0 <= d < a[k].children@.len() ==> 0 <= #[trigger] a[k].children@[d] < natural.len(),
    ensures
        exists|c: int| 0 <= c < a[k].children@.len() && {
            let m = #[trigger] natural[a[k].children@[c] as int];
            &&& forall|d: int| 0 <= d < a[k].children@.len() ==> m <= #[trigger] natural[a[k].children@[d] as int]
            &&& split_zoom(a, k, natural, appear) == (if appear > m {
                if appear > MAX_ZOOM { MAX_ZOOM } else { appear }
            } else {
                if m > MAX_ZOOM { MAX_ZOOM } else { m }
            })
        },
{
    let c = lemma_min_natural(a, k, natural, a[k].children@.len() as int);
    assert(natural[a[k].children@[c] as int] == natural[a[k].children@[c] as int]);
}

/// Law: a node that is not a directory with children never splits past where it appears.
pub proof fn law_leaves_do_not_split(a: Seq<Node>, k: int, natural: Seq<u8>, appear: u8)
    requires
        0 <= k < a.len(),
        a[k].kind != FeatureKind::Dir || a[k].children@.len() == 0,
    ensures
        split_zoom(a, k, natural, appear) == appear,
{
}

} // verus!
