//! In-memory model of a navigable, filterable directory tree.
//!
//! Nodes live in an arena (`Vec<TreeNode>`); a node's id is its index, so ids
//! are never reused. The flattened, currently rendered ordering of nodes is
//! kept in `visible`, which is always the preorder flattening of the tree
//! restricted to open directories. Directory listings are read outside this
//! crate and handed in as plain `ListedEntry` values; the model records them
//! once (lazy indexing) so that a directory can be collapsed and re-expanded
//! without reading the disk again.

use vstd::prelude::*;
use vstd::string::StringExecFns;

verus! {

broadcast use vstd::string::group_string_axioms;

/// One entry of a directory listing, as read from disk by the caller.
pub struct ListedEntry {
    pub name: String,
    pub is_dir: bool,
}

/// A node of the tree arena.
pub struct TreeNode {
    /// Path relative to the base directory of the tree.
    pub rel_path: String,
    pub is_dir: bool,
    /// Arena id of the containing directory; `None` for children of the base.
    pub parent: Option<usize>,
    /// Arena id of the preceding sibling in read order, if any.
    pub last_sibling: Option<usize>,
    /// Arena id of the following sibling in read order, if any.
    pub next_sibling: Option<usize>,
    /// Whether the node is showing its contents. Meaningful only for
    /// directories.
    pub open: bool,
    /// Children of the base directory have depth 0.
    pub depth: usize,
    /// Ids of the direct children in read order; `None` until the directory
    /// has been indexed from a listing.
    pub children: Option<Vec<usize>>,
}

/// The direct children of node `id`, empty if the node was never indexed.
pub open spec fn kids(nodes: Seq<TreeNode>, id: usize) -> Seq<usize> {
    if nodes[id as int].children is Some {
        nodes[id as int].children->Some_0@
    } else {
        Seq::empty()
    }
}

/// Preorder flattening of the subtree rooted at `id`, descending only into
/// open directories.
pub open spec fn flat(nodes: Seq<TreeNode>, id: usize) -> Seq<usize>
    decreases nodes.len() - id, 1int, 0int,
    when id < nodes.len()
{
    seq![id] + if nodes[id as int].open {
        flat_kids(nodes, id, 0)
    } else {
        Seq::empty()
    }
}

/// Concatenated flattenings of the children of `p`, starting at child
/// position `k`.
pub open spec fn flat_kids(nodes: Seq<TreeNode>, p: usize, k: int) -> Seq<usize>
    decreases nodes.len() - p, 0int, kids(nodes, p).len() - k,
    when p < nodes.len()
{
    let cs = kids(nodes, p);
    if 0 <= k < cs.len() {
        (if p < cs[k] < nodes.len() {
            flat(nodes, cs[k])
        } else {
            Seq::empty()
        }) + flat_kids(nodes, p, k + 1)
    } else {
        Seq::empty()
    }
}

/// Concatenated flattenings of the root nodes `k .. nroots`.
pub open spec fn flat_roots(nodes: Seq<TreeNode>, nroots: int, k: int) -> Seq<usize>
    decreases nroots - k,
{
    if 0 <= k < nroots {
        (if k < nodes.len() {
            flat(nodes, k as usize)
        } else {
            Seq::empty()
        }) + flat_roots(nodes, nroots, k + 1)
    } else {
        Seq::empty()
    }
}

/// Whether `anc` lies on the parent chain of `id` (strictly above it).
pub open spec fn ancestor_of(nodes: Seq<TreeNode>, anc: usize, id: usize) -> bool
    decreases id,
{
    &&& id < nodes.len()
    &&& match nodes[id as int].parent {
        None => false,
        Some(p) => p < id && (p == anc || ancestor_of(nodes, anc, p)),
    }
}

/// Structural conditions on the ids stored inside one node.
pub open spec fn node_ok(nodes: Seq<TreeNode>, i: int) -> bool {
    let n = nodes[i];
    &&& (n.open ==> n.children is Some)
    &&& (n.children is Some ==> n.is_dir)
    &&& match n.parent {
        None => n.depth == 0,
        Some(p) => p < i && nodes[p as int].is_dir && n.depth == nodes[p as int].depth + 1,
    }
    &&& match n.children {
        Some(cs) => kid_list_ok(nodes, i, cs@),
        None => true,
    }
}

/// Children ids point forward in the arena, into range, and back to their
/// parent; they are pairwise distinct.
pub open spec fn kid_list_ok(nodes: Seq<TreeNode>, i: int, cs: Seq<usize>) -> bool {
    &&& forall|k: int|
        0 <= k < cs.len() ==> i < #[trigger] cs[k] < nodes.len() && nodes[cs[k] as int].parent
            == Some(i as usize)
    &&& forall|k1: int, k2: int| 0 <= k1 < k2 < cs.len() ==> cs[k1] != cs[k2]
}

/// Every node of the arena is structurally sound, and nodes without a parent
/// are exactly the first `nroots` entries.
pub open spec fn arena_ok(nodes: Seq<TreeNode>, nroots: int) -> bool {
    &&& 0 <= nroots <= nodes.len()
    &&& forall|i: int| 0 <= i < nodes.len() ==> #[trigger] node_ok(nodes, i)
    &&& forall|i: int|
        0 <= i < nodes.len() ==> ((#[trigger] nodes[i].parent is None) <==> i < nroots)
}

/// A list display of a file tree, where directories can be expanded and
/// contracted, and files can be included or excluded.
pub struct FileList {
    /// The node arena; a node's id is its index. Ids are never reused.
    pub nodes: Vec<TreeNode>,
    /// Ids of the nodes currently rendered, in display order.
    pub visible: Vec<usize>,
    /// Texts of the registered exclusion patterns, in registration order,
    /// without duplicates. Every entry compiles as a glob pattern.
    pub patterns: Vec<String>,
    /// Ids forced in, overriding exclusion that would otherwise apply.
    pub explicit_exception: Vec<usize>,
    /// Ids forced out.
    pub explicit_exclude: Vec<usize>,
    /// Number of root nodes; roots are ids `0 .. root_count`.
    pub root_count: usize,
    /// Cursor position into `visible`.
    pub highlight: usize,
}

/// A list of ids without duplicates, all below `bound`.
pub open spec fn id_list_ok(ids: Seq<usize>, bound: int) -> bool {
    &&& forall|k: int| 0 <= k < ids.len() ==> #[trigger] ids[k] < bound
    &&& forall|k1: int, k2: int| 0 <= k1 < k2 < ids.len() ==> ids[k1] != ids[k2]
}

impl FileList {
    /// Well-formedness: the arena is sound, `visible` is exactly the preorder
    /// flattening of the open part of the tree, the cursor is in range, and
    /// the exclusion state holds valid, duplicate-free entries.
    pub open spec fn wf(&self) -> bool {
        &&& arena_ok(self.nodes@, self.root_count as int)
        &&& self.visible@ == flat_roots(self.nodes@, self.root_count as int, 0)
        &&& if self.visible@.len() == 0 {
            self.highlight == 0
        } else {
            self.highlight < self.visible@.len()
        }
        &&& id_list_ok(self.explicit_exception@, self.nodes@.len() as int)
        &&& id_list_ok(self.explicit_exclude@, self.nodes@.len() as int)
        &&& forall|j: int|
            0 <= j < self.patterns@.len() ==> glob_accepts(#[trigger] self.patterns@[j]@)
        &&& forall|j1: int, j2: int|
            0 <= j1 < j2 < self.patterns@.len() ==> self.patterns@[j1]@ != self.patterns@[j2]@
    }

    /// Number of entries currently displayed.
    pub fn len(&self) -> (r: usize)
        ensures
            r == self.visible@.len(),
    {
        self.visible.len()
    }

    /// Builds the tree over the listed children of the base directory, in
    /// read order, all closed, linked into a sibling chain in that order,
    /// with the cursor at the top.
    pub fn new(entries: Vec<ListedEntry>) -> (r: FileList)
        ensures
            r.wf(),
            r.nodes@.len() == entries@.len(),
            forall|k: int|
                0 <= k < entries@.len() ==> {
                    let n = #[trigger] r.nodes@[k];
                    &&& n.rel_path@ == entries@[k].name@
                    &&& n.is_dir == entries@[k].is_dir
                    &&& n.parent is None
                    &&& n.last_sibling == (if k == 0 {
                        Option::<usize>::None
                    } else {
                        Option::<usize>::Some((k - 1) as usize)
                    })
                    &&& n.next_sibling == (if k + 1 == entries@.len() {
                        Option::<usize>::None
                    } else {
                        Option::<usize>::Some((k + 1) as usize)
                    })
                    &&& n.open == false
                    &&& n.depth == 0
                    &&& n.children is None
                },
            r.visible@.len() == entries@.len(),
            forall|k: int| 0 <= k < entries@.len() ==> #[trigger] r.visible@[k] == k,
            r.patterns@.len() == 0,
            r.explicit_exception@.len() == 0,
            r.explicit_exclude@.len() == 0,
            r.highlight == 0,
            r.root_count == entries@.len(),
    {
        let n = entries.len();
        let mut nodes: Vec<TreeNode> = Vec::new();
        let mut i: usize = 0;
        while i < n
            invariant
                n == entries@.len(),
                0 <= i <= n,
                nodes@.len() == i,
                forall|k: int|
                    0 <= k < nodes@.len() ==> {
                        let nd = #[trigger] nodes@[k];
                        &&& nd.rel_path@ == entries@[k].name@
                        &&& nd.is_dir == entries@[k].is_dir
                        &&& nd.parent is None
                        &&& nd.last_sibling == (if k == 0 {
                            Option::<usize>::None
                        } else {
                            Option::<usize>::Some((k - 1) as usize)
                        })
                        &&& nd.next_sibling == (if k + 1 == entries@.len() {
                            Option::<usize>::None
                        } else {
                            Option::<usize>::Some((k + 1) as usize)
                        })
                        &&& nd.open == false
                        &&& nd.depth == 0
                        &&& nd.children is None
                    },
            decreases n - i,
        {
            let last = if i == 0 {
                None
            } else {
                Some(i - 1)
            };
            let next = if i + 1 == n {
                None
            } else {
                Some(i + 1)
            };
            nodes.push(
                TreeNode {
                    rel_path: entries[i].name.clone(),
                    is_dir: entries[i].is_dir,
                    parent: None,
                    last_sibling: last,
                    next_sibling: next,
                    open: false,
                    depth: 0,
                    children: None,
                },
            );
            i = i + 1;
        }
        let root_count = nodes.len();
        let visible = build_visible(&nodes, root_count);
        let r = FileList {
            nodes,
            visible,
            patterns: Vec::new(),
            explicit_exception: Vec::new(),
            explicit_exclude: Vec::new(),
            root_count,
            highlight: 0,
        };
        proof {
            assert forall|i2: int| 0 <= i2 < r.nodes@.len() implies #[trigger] node_ok(
                r.nodes@,
                i2,
            ) by {}
            lemma_flat_roots_closed(r.nodes@, r.root_count as int, 0);
            assert(r.visible@.len() == entries@.len());
            assert forall|k: int| 0 <= k < entries@.len() implies #[trigger] r.visible@[k]
                == k by {
                lemma_flat_roots_closed(r.nodes@, r.root_count as int, 0);
            }
        }
        r
    }

    /// Moves the cursor up one entry, saturating at the top.
    pub fn go_up(&mut self)
        requires
            old(self).wf(),
        ensures
            final(self).wf(),
            *final(self) == (FileList {
                highlight: if old(self).highlight == 0 {
                    0
                } else {
                    (old(self).highlight - 1) as usize
                },
                ..*old(self)
            }),
    {
        if self.highlight > 0 {
            self.highlight = self.highlight - 1;
        }
    }

    /// Moves the cursor down one entry, saturating at the bottom.
    pub fn go_down(&mut self)
        requires
            old(self).wf(),
        ensures
            final(self).wf(),
            *final(self) == (FileList {
                highlight: if old(self).highlight + 1 < old(self).visible@.len() {
                    (old(self).highlight + 1) as usize
                } else {
                    old(self).highlight
                },
                ..*old(self)
            }),
    {
        let l = self.visible.len();
        if self.highlight < l && self.highlight + 1 < l {
            self.highlight = self.highlight + 1;
        }
    }
}

/// When every node in the arena is closed, the flattening of roots `k..n` is
/// just `k, k+1, ..., n-1`.
proof fn lemma_flat_roots_closed(nodes: Seq<TreeNode>, nroots: int, k: int)
    requires
        0 <= k,
        0 <= nroots <= nodes.len(),
        nodes.len() <= usize::MAX,
        forall|i: int| 0 <= i < nodes.len() ==> !(#[trigger] nodes[i].open),
    ensures
        flat_roots(nodes, nroots, k).len() == if k < nroots {
            nroots - k
        } else {
            0
        },
        forall|j: int|
            0 <= j < flat_roots(nodes, nroots, k).len() ==> #[trigger] flat_roots(
                nodes,
                nroots,
                k,
            )[j] == k + j,
    decreases nroots - k,
{
    if 0 <= k < nroots {
        lemma_flat_roots_closed(nodes, nroots, k + 1);
        assert(flat(nodes, k as usize) == seq![k as usize]);
    }
}

/// Appends to `out` the preorder flattening of the subtree at `id`.
fn flatten_into(nodes: &Vec<TreeNode>, id: usize, out: &mut Vec<usize>)
    requires
        forall|i: int| 0 <= i < nodes@.len() ==> #[trigger] node_ok(nodes@, i),
        id < nodes@.len(),
    ensures
        final(out)@ == old(out)@ + flat(nodes@, id),
    decreases nodes@.len() - id,
{
    out.push(id);
    let open_now = nodes[id].open;
    if open_now {
        assert(node_ok(nodes@, id as int));
        let ghost cs_spec = kids(nodes@, id);
        let cs_len = match &nodes[id].children {
            Some(cs) => cs.len(),
            None => 0,
        };
        assert(cs_len == cs_spec.len());
        let mut k: usize = 0;
        while k < cs_len
            invariant
                forall|i: int| 0 <= i < nodes@.len() ==> #[trigger] node_ok(nodes@, i),
                id < nodes@.len(),
                nodes@[id as int].open,
                nodes@[id as int].children is Some,
                cs_spec == kids(nodes@, id),
                cs_len == cs_spec.len(),
                0 <= k <= cs_len,
                out@ + flat_kids(nodes@, id, k as int) == old(out)@ + flat(nodes@, id),
            decreases cs_len - k,
        {
            let c = match &nodes[id].children {
                Some(cs) => cs[k],
                None => 0,
            };
            assert(c == cs_spec[k as int]);
            assert(id < c < nodes@.len()) by {
                assert(node_ok(nodes@, id as int));
            }
            flatten_into(nodes, c, out);
            k = k + 1;
        }
        assert(flat_kids(nodes@, id, cs_len as int) == Seq::<usize>::empty());
        assert(out@ =~= out@ + flat_kids(nodes@, id, cs_len as int));
    } else {
        assert(flat(nodes@, id) == seq![id]);
        assert(final(out)@ =~= old(out)@ + flat(nodes@, id));
    }
}

/// Computes the preorder flattening of the whole forest.
fn build_visible(nodes: &Vec<TreeNode>, root_count: usize) -> (r: Vec<usize>)
    requires
        forall|i: int| 0 <= i < nodes@.len() ==> #[trigger] node_ok(nodes@, i),
        root_count <= nodes@.len(),
    ensures
        r@ == flat_roots(nodes@, root_count as int, 0),
{
    let mut out: Vec<usize> = Vec::new();
    let mut k: usize = 0;
    while k < root_count
        invariant
            forall|i: int| 0 <= i < nodes@.len() ==> #[trigger] node_ok(nodes@, i),
            root_count <= nodes@.len(),
            0 <= k <= root_count,
            out@ + flat_roots(nodes@, root_count as int, k as int) == flat_roots(
                nodes@,
                root_count as int,
                0,
            ),
        decreases root_count - k,
    {
        flatten_into(nodes, k, &mut out);
        k = k + 1;
    }
    assert(flat_roots(nodes@, root_count as int, root_count as int) == Seq::<usize>::empty());
    assert(out@ =~= out@ + flat_roots(nodes@, root_count as int, root_count as int));
    out
}

/// The part of the flattening contributed by the contents of `c`: its
/// children's flattenings when open, nothing when closed.
pub open spec fn kid_block(nodes: Seq<TreeNode>, c: usize) -> Seq<usize> {
    if nodes[c as int].open {
        flat_kids(nodes, c, 0)
    } else {
        Seq::empty()
    }
}

/// An ancestor's id is always smaller than the descendant's.
proof fn lemma_ancestor_lt(nodes: Seq<TreeNode>, a: usize, c: usize)
    requires
        forall|i: int| 0 <= i < nodes.len() ==> #[trigger] node_ok(nodes, i),
        ancestor_of(nodes, a, c),
    ensures
        a < c,
    decreases c,
{
    match nodes[c as int].parent {
        None => {},
        Some(p) => {
            if p != a {
                lemma_ancestor_lt(nodes, a, p);
            }
        },
    }
}

/// Extending an ancestor chain by one more parent step.
proof fn lemma_ancestor_extend(nodes: Seq<TreeNode>, x: usize, p: usize, e: usize)
    requires
        forall|i: int| 0 <= i < nodes.len() ==> #[trigger] node_ok(nodes, i),
        x < nodes.len(),
        ancestor_of(nodes, x, e),
        nodes[x as int].parent == Some(p),
    ensures
        ancestor_of(nodes, p, e),
    decreases e,
{
    assert(node_ok(nodes, x as int));
    match nodes[e as int].parent {
        None => {},
        Some(q) => {
            if q == x {
                assert(p < x);
                assert(ancestor_of(nodes, p, x));
                assert(ancestor_of(nodes, p, e));
            } else {
                lemma_ancestor_extend(nodes, x, p, q);
                assert(ancestor_of(nodes, p, e));
            }
        },
    }
}

/// Two nodes with the same parent that both lie on (or at the end of) the
/// ancestor chain of `c` must be the same node.
proof fn lemma_chain_unique(nodes: Seq<TreeNode>, a: usize, b: usize, c: usize)
    requires
        forall|i: int| 0 <= i < nodes.len() ==> #[trigger] node_ok(nodes, i),
        a < nodes.len(),
        b < nodes.len(),
        c < nodes.len(),
        a == c || ancestor_of(nodes, a, c),
        b == c || ancestor_of(nodes, b, c),
        nodes[a as int].parent == nodes[b as int].parent,
    ensures
        a == b,
    decreases c,
{
    assert(node_ok(nodes, a as int));
    assert(node_ok(nodes, b as int));
    assert(node_ok(nodes, c as int));
    if a == c && b == c {
    } else if a == c && b != c {
        match nodes[c as int].parent {
            None => {
                assert(!ancestor_of(nodes, b, c));
            },
            Some(p) => {
                if p == b {
                    assert(nodes[b as int].parent == Some(p));
                    assert(false);
                } else {
                    assert(ancestor_of(nodes, b, p));
                    lemma_ancestor_lt(nodes, b, p);
                    assert(false);
                }
            },
        }
    } else if b == c && a != c {
        match nodes[c as int].parent {
            None => {
                assert(!ancestor_of(nodes, a, c));
            },
            Some(p) => {
                if p == a {
                    assert(false);
                } else {
                    assert(ancestor_of(nodes, a, p));
                    lemma_ancestor_lt(nodes, a, p);
                    assert(false);
                }
            },
        }
    } else {
        match nodes[c as int].parent {
            None => {},
            Some(p) => {
                assert(p < c);
                assert(node_ok(nodes, p as int));
                assert(a == p || ancestor_of(nodes, a, p));
                assert(b == p || ancestor_of(nodes, b, p));
                lemma_chain_unique(nodes, a, b, p);
            },
        }
    }
}

/// Everything in the flattening of `id` is `id` itself or a strict
/// descendant.
proof fn lemma_flat_anc(nodes: Seq<TreeNode>, id: usize)
    requires
        forall|i: int| 0 <= i < nodes.len() ==> #[trigger] node_ok(nodes, i),
        id < nodes.len(),
    ensures
        forall|j: int|
            0 <= j < flat(nodes, id).len() ==> {
                let e = #[trigger] flat(nodes, id)[j];
                &&& id <= e < nodes.len()
                &&& (e == id || ancestor_of(nodes, id, e))
            },
    decreases nodes.len() - id, 1int, 0int,
{
    if nodes[id as int].open {
        assert(node_ok(nodes, id as int));
        lemma_flat_kids_anc(nodes, id, 0);
        assert forall|j: int| 0 <= j < flat(nodes, id).len() implies {
            let e = #[trigger] flat(nodes, id)[j];
            &&& id <= e < nodes.len()
            &&& (e == id || ancestor_of(nodes, id, e))
        } by {
            assert(flat(nodes, id) == seq![id] + flat_kids(nodes, id, 0));
            if j == 0 {
                assert(flat(nodes, id)[0] == id);
            } else {
                assert(flat(nodes, id)[j] == flat_kids(nodes, id, 0)[j - 1]);
            }
        }
    } else {
        assert(flat(nodes, id) == seq![id] + Seq::<usize>::empty());
        assert forall|j: int| 0 <= j < flat(nodes, id).len() implies {
            let e = #[trigger] flat(nodes, id)[j];
            &&& id <= e < nodes.len()
            &&& (e == id || ancestor_of(nodes, id, e))
        } by {
            assert(flat(nodes, id).len() == 1);
            assert(flat(nodes, id)[0] == id);
        }
    }
}

/// Whether node `e` is the `m`-th child of `p` or descends from it.
pub open spec fn kid_covers(nodes: Seq<TreeNode>, p: usize, m: int, e: usize) -> bool {
    kids(nodes, p)[m] == e || ancestor_of(nodes, kids(nodes, p)[m], e)
}

/// Everything in the flattenings of children `k..` of `p` descends from `p`,
/// by way of one of those children.
proof fn lemma_flat_kids_anc(nodes: Seq<TreeNode>, p: usize, k: int)
    requires
        forall|i: int| 0 <= i < nodes.len() ==> #[trigger] node_ok(nodes, i),
        p < nodes.len(),
        nodes[p as int].children is Some,
    ensures
        forall|j: int|
            0 <= j < flat_kids(nodes, p, k).len() ==> {
                let e = #[trigger] flat_kids(nodes, p, k)[j];
                &&& p < e < nodes.len()
                &&& ancestor_of(nodes, p, e)
                &&& exists|m: int| k <= m < kids(nodes, p).len() && #[trigger] kid_covers(nodes, p, m, e)
            },
    decreases nodes.len() - p, 0int, kids(nodes, p).len() - k,
{
    let cs = kids(nodes, p);
    assert(node_ok(nodes, p as int));
    if 0 <= k < cs.len() {
        let x = cs[k];
        assert(p < x < nodes.len());
        assert(nodes[x as int].parent == Some(p));
        lemma_flat_anc(nodes, x);
        lemma_flat_kids_anc(nodes, p, k + 1);
        assert(node_ok(nodes, x as int));
        assert forall|j: int| 0 <= j < flat_kids(nodes, p, k).len() implies {
            let e = #[trigger] flat_kids(nodes, p, k)[j];
            &&& p < e < nodes.len()
            &&& ancestor_of(nodes, p, e)
            &&& exists|m: int| k <= m < kids(nodes, p).len() && #[trigger] kid_covers(nodes, p, m, e)
        } by {
            let e = flat_kids(nodes, p, k)[j];
            assert(flat_kids(nodes, p, k) == flat(nodes, x) + flat_kids(nodes, p, k + 1));
            if j < flat(nodes, x).len() {
                assert(e == flat(nodes, x)[j]);
                if e == x {
                    assert(ancestor_of(nodes, p, e));
                } else {
                    assert(ancestor_of(nodes, x, e));
                    lemma_ancestor_extend(nodes, x, p, e);
                }
                assert(kid_covers(nodes, p, k, e));
                assert(k <= k < kids(nodes, p).len() && kid_covers(nodes, p, k, e));
            } else {
                let j2 = j - flat(nodes, x).len();
                assert(e == flat_kids(nodes, p, k + 1)[j2]);
                let m = choose|m: int|
                    k + 1 <= m < kids(nodes, p).len() && #[trigger] kid_covers(nodes, p, m, e);
                assert(k <= m < kids(nodes, p).len() && kid_covers(nodes, p, m, e));
            }
        }
    }
}

/// Whether node `e` is root `m` itself or descends from it.
pub open spec fn root_covers(nodes: Seq<TreeNode>, m: int, e: usize) -> bool {
    m == e || ancestor_of(nodes, m as usize, e)
}

/// Everything in the flattening of roots `k..` descends from one of those
/// roots.
proof fn lemma_flat_roots_anc(nodes: Seq<TreeNode>, nroots: int, k: int)
    requires
        forall|i: int| 0 <= i < nodes.len() ==> #[trigger] node_ok(nodes, i),
        0 <= nroots <= nodes.len(),
        nodes.len() <= usize::MAX,
    ensures
        forall|j: int|
            0 <= j < flat_roots(nodes, nroots, k).len() ==> {
                let e = #[trigger] flat_roots(nodes, nroots, k)[j];
                &&& e < nodes.len()
                &&& exists|m: int| k <= m < nroots && #[trigger] root_covers(nodes, m, e)
            },
    decreases nroots - k,
{
    if 0 <= k < nroots {
        lemma_flat_anc(nodes, k as usize);
        lemma_flat_roots_anc(nodes, nroots, k + 1);
        assert forall|j: int| 0 <= j < flat_roots(nodes, nroots, k).len() implies {
            let e = #[trigger] flat_roots(nodes, nroots, k)[j];
            &&& e < nodes.len()
            &&& exists|m: int| k <= m < nroots && #[trigger] root_covers(nodes, m, e)
        } by {
            let e = flat_roots(nodes, nroots, k)[j];
            if j < flat(nodes, k as usize).len() {
                assert(e == flat(nodes, k as usize)[j]);
                assert(root_covers(nodes, k, e));
                assert(k <= k < nroots && root_covers(nodes, k, e));
            } else {
                let j2 = j - flat(nodes, k as usize).len();
                assert(e == flat_roots(nodes, nroots, k + 1)[j2]);
                let m = choose|m: int| k + 1 <= m < nroots && #[trigger] root_covers(nodes, m, e);
                assert(k <= m < nroots && root_covers(nodes, m, e));
            }
        }
    }
}

/// The relation between the arena before and after one toggle: only node `c`
/// may change, and only in its `open` and `children` fields; fresh nodes may
/// be appended.
pub open spec fn arena_sibling(nodes: Seq<TreeNode>, nodes2: Seq<TreeNode>, c: usize) -> bool {
    &&& c < nodes.len() <= nodes2.len() <= usize::MAX
    &&& forall|j: int| 0 <= j < nodes.len() && j != c ==> nodes2[j] == nodes[j]
    &&& forall|i: int| 0 <= i < nodes.len() ==> #[trigger] node_ok(nodes, i)
    &&& forall|i: int| 0 <= i < nodes2.len() ==> #[trigger] node_ok(nodes2, i)
}

/// Decomposes the flattening of `id` around the occurrence of `c`: the parts
/// before and after `c`'s own block are unchanged by the toggle.
#[verifier::rlimit(100)]
#[verifier::spinoff_prover]
proof fn decomp_node(nodes: Seq<TreeNode>, nodes2: Seq<TreeNode>, c: usize, id: usize) -> (r: (
    Seq<usize>,
    Seq<usize>,
))
    requires
        arena_sibling(nodes, nodes2, c),
        id < nodes.len(),
    ensures
        flat(nodes, id).contains(c) ==> {
            &&& flat(nodes, id) == r.0 + seq![c] + kid_block(nodes, c) + r.1
            &&& flat(nodes2, id) == r.0 + seq![c] + kid_block(nodes2, c) + r.1
            &&& !r.0.contains(c)
            &&& !r.1.contains(c)
        },
        !flat(nodes, id).contains(c) ==> flat(nodes2, id) == flat(nodes, id),
    decreases nodes.len() - id, 1int, 0int,
{
    if id == c {
        assert(flat(nodes, c) == seq![c] + kid_block(nodes, c));
        assert(flat(nodes2, c) == seq![c] + kid_block(nodes2, c));
        assert(flat(nodes, c)[0] == c);
        assert(flat(nodes, id).contains(c));
        let r = (Seq::<usize>::empty(), Seq::<usize>::empty());
        assert(flat(nodes, id) =~= r.0 + seq![c] + kid_block(nodes, c) + r.1);
        assert(flat(nodes2, id) =~= r.0 + seq![c] + kid_block(nodes2, c) + r.1);
        r
    } else {
        assert(nodes2[id as int] == nodes[id as int]);
        if nodes[id as int].open {
            assert(node_ok(nodes, id as int));
            assert(kids(nodes2, id) == kids(nodes, id));
            let r = decomp_kids(nodes, nodes2, c, id, 0);
            assert(flat(nodes, id) == seq![id] + flat_kids(nodes, id, 0));
            assert(flat(nodes2, id) == seq![id] + flat_kids(nodes2, id, 0));
            if flat_kids(nodes, id, 0).contains(c) {
                let j = choose|j: int|
                    0 <= j < flat_kids(nodes, id, 0).len() && flat_kids(nodes, id, 0)[j] == c;
                assert(flat(nodes, id)[j + 1] == c);
                assert(flat(nodes, id).contains(c));
                let rr = (seq![id] + r.0, r.1);
                assert(flat(nodes, id) =~= rr.0 + seq![c] + kid_block(nodes, c) + rr.1);
                assert(flat(nodes2, id) =~= rr.0 + seq![c] + kid_block(nodes2, c) + rr.1);
                assert(!rr.0.contains(c)) by {
                    assert(forall|j2: int|
                        0 <= j2 < rr.0.len() && j2 >= 1 ==> rr.0[j2] == r.0[j2 - 1]);
                }
                rr
            } else {
                assert(flat(nodes2, id) == flat(nodes, id));
                assert(!flat(nodes, id).contains(c)) by {
                    assert forall|j: int|
                        0 <= j < flat(nodes, id).len() implies flat(nodes, id)[j] != c by {
                        if j >= 1 {
                            assert(flat(nodes, id)[j] == flat_kids(nodes, id, 0)[j - 1]);
                        }
                    }
                }
                (Seq::<usize>::empty(), Seq::<usize>::empty())
            }
        } else {
            assert(flat(nodes, id) == seq![id] + Seq::<usize>::empty());
            assert(flat(nodes, id) =~= seq![id]);
            assert(flat(nodes2, id) =~= seq![id]);
            assert(!flat(nodes, id).contains(c));
            (Seq::<usize>::empty(), Seq::<usize>::empty())
        }
    }
}

/// Decomposition step over a run of children.
#[verifier::rlimit(100)]
#[verifier::spinoff_prover]
proof fn decomp_kids(nodes: Seq<TreeNode>, nodes2: Seq<TreeNode>, c: usize, p: usize, k: int) -> (r:
    (Seq<usize>, Seq<usize>))
    requires
        arena_sibling(nodes, nodes2, c),
        p < nodes.len(),
        p != c,
        nodes[p as int].children is Some,
    ensures
        flat_kids(nodes, p, k).contains(c) ==> {
            &&& flat_kids(nodes, p, k) == r.0 + seq![c] + kid_block(nodes, c) + r.1
            &&& flat_kids(nodes2, p, k) == r.0 + seq![c] + kid_block(nodes2, c) + r.1
            &&& !r.0.contains(c)
            &&& !r.1.contains(c)
        },
        !flat_kids(nodes, p, k).contains(c) ==> flat_kids(nodes2, p, k) == flat_kids(nodes, p, k),
    decreases nodes.len() - p, 0int, kids(nodes, p).len() - k,
{
    let cs = kids(nodes, p);
    assert(node_ok(nodes, p as int));
    assert(nodes2[p as int] == nodes[p as int]);
    assert(kids(nodes2, p) == cs);
    if 0 <= k < cs.len() {
        let x = cs[k];
        assert(p < x < nodes.len());
        assert(nodes[x as int].parent == Some(p));
        let head = flat(nodes, x);
        let tail = flat_kids(nodes, p, k + 1);
        assert(flat_kids(nodes, p, k) == head + tail);
        let ra = decomp_node(nodes, nodes2, c, x);
        let rb = decomp_kids(nodes, nodes2, c, p, k + 1);
        if head.contains(c) && tail.contains(c) {
            // Impossible: `c` would descend from two distinct siblings.
            lemma_flat_anc(nodes, x);
            let jh = choose|jh: int| 0 <= jh < head.len() && head[jh] == c;
            assert(c == head[jh]);
            assert(x == c || ancestor_of(nodes, x, c));
            lemma_flat_kids_anc(nodes, p, k + 1);
            let jt = choose|jt: int| 0 <= jt < tail.len() && tail[jt] == c;
            assert(c == tail[jt]);
            let m = choose|m: int|
                k + 1 <= m < kids(nodes, p).len() && #[trigger] kid_covers(nodes, p, m, c);
            assert(nodes[cs[m] as int].parent == Some(p));
            assert(c < nodes.len());
            lemma_chain_unique(nodes, x, cs[m], c);
            assert(cs[k] != cs[m]);
            assert(false);
            (ra.0, ra.1)
        } else if head.contains(c) {
            let jh = choose|jh: int| 0 <= jh < head.len() && head[jh] == c;
            assert(flat_kids(nodes, p, k)[jh] == c);
            assert(flat_kids(nodes, p, k).contains(c));
            let r = (ra.0, ra.1 + tail);
            assert(flat_kids(nodes, p, k) =~= r.0 + seq![c] + kid_block(nodes, c) + r.1);
            assert(flat_kids(nodes2, p, k) =~= r.0 + seq![c] + kid_block(nodes2, c) + r.1);
            assert(!r.1.contains(c)) by {
                assert(forall|j: int|
                    0 <= j < ra.1.len() ==> r.1[j] == ra.1[j]);
                assert(forall|j: int|
                    ra.1.len() <= j < r.1.len() ==> r.1[j] == tail[j - ra.1.len()]);
            }
            r
        } else if tail.contains(c) {
            let jt = choose|jt: int| 0 <= jt < tail.len() && tail[jt] == c;
            assert(flat_kids(nodes, p, k)[head.len() + jt] == c);
            assert(flat_kids(nodes, p, k).contains(c));
            let r = (head + rb.0, rb.1);
            assert(flat_kids(nodes, p, k) =~= r.0 + seq![c] + kid_block(nodes, c) + r.1);
            assert(flat_kids(nodes2, p, k) =~= r.0 + seq![c] + kid_block(nodes2, c) + r.1);
            assert(!r.0.contains(c)) by {
                assert(forall|j: int| 0 <= j < head.len() ==> r.0[j] == head[j]);
                assert(forall|j: int|
                    head.len() <= j < r.0.len() ==> r.0[j] == rb.0[j - head.len()]);
            }
            r
        } else {
            assert(flat_kids(nodes2, p, k) == flat_kids(nodes, p, k));
            assert(!flat_kids(nodes, p, k).contains(c)) by {
                assert forall|j: int|
                    0 <= j < flat_kids(nodes, p, k).len() implies flat_kids(nodes, p, k)[j]
                    != c by {
                    if j < head.len() {
                        assert(flat_kids(nodes, p, k)[j] == head[j]);
                    } else {
                        assert(flat_kids(nodes, p, k)[j] == tail[j - head.len()]);
                    }
                }
            }
            (Seq::<usize>::empty(), Seq::<usize>::empty())
        }
    } else {
        assert(flat_kids(nodes, p, k) == Seq::<usize>::empty());
        assert(flat_kids(nodes2, p, k) == Seq::<usize>::empty());
        (Seq::<usize>::empty(), Seq::<usize>::empty())
    }
}

/// Decomposition of the whole forest flattening around the block of `c`.
#[verifier::rlimit(100)]
#[verifier::spinoff_prover]
proof fn decomp_roots(nodes: Seq<TreeNode>, nodes2: Seq<TreeNode>, c: usize, nroots: int, k: int) -> (r: (
    Seq<usize>,
    Seq<usize>,
))
    requires
        arena_sibling(nodes, nodes2, c),
        0 <= nroots <= nodes.len(),
        forall|i: int| 0 <= i < nodes.len() ==> ((#[trigger] nodes[i].parent is None) <==> i < nroots),
    ensures
        flat_roots(nodes, nroots, k).contains(c) ==> {
            &&& flat_roots(nodes, nroots, k) == r.0 + seq![c] + kid_block(nodes, c) + r.1
            &&& flat_roots(nodes2, nroots, k) == r.0 + seq![c] + kid_block(nodes2, c) + r.1
            &&& !r.0.contains(c)
            &&& !r.1.contains(c)
        },
        !flat_roots(nodes, nroots, k).contains(c) ==> flat_roots(nodes2, nroots, k) == flat_roots(
            nodes,
            nroots,
            k,
        ),
    decreases nroots - k,
{
    if 0 <= k < nroots {
        let x = k as usize;
        let head = flat(nodes, x);
        let tail = flat_roots(nodes, nroots, k + 1);
        assert(flat_roots(nodes, nroots, k) == head + tail);
        let ra = decomp_node(nodes, nodes2, c, x);
        let rb = decomp_roots(nodes, nodes2, c, nroots, k + 1);
        assert(flat_roots(nodes2, nroots, k) == flat(nodes2, x) + flat_roots(nodes2, nroots, k + 1));
        if head.contains(c) && tail.contains(c) {
            lemma_flat_anc(nodes, x);
            let jh = choose|jh: int| 0 <= jh < head.len() && head[jh] == c;
            assert(c == head[jh]);
            assert(x == c || ancestor_of(nodes, x, c));
            lemma_flat_roots_anc(nodes, nroots, k + 1);
            let jt = choose|jt: int| 0 <= jt < tail.len() && tail[jt] == c;
            assert(c == tail[jt]);
            let m = choose|m: int| k + 1 <= m < nroots && #[trigger] root_covers(nodes, m, c);
            assert(nodes[m].parent is None);
            assert(nodes[k].parent is None);
            assert(nodes[(m as usize) as int].parent == nodes[x as int].parent);
            lemma_chain_unique(nodes, x, m as usize, c);
            assert(false);
            (ra.0, ra.1)
        } else if head.contains(c) {
            let jh = choose|jh: int| 0 <= jh < head.len() && head[jh] == c;
            assert(flat_roots(nodes, nroots, k)[jh] == c);
            assert(flat_roots(nodes, nroots, k).contains(c));
            assert(!tail.contains(c));
            let r = (ra.0, ra.1 + tail);
            assert(flat_roots(nodes, nroots, k) =~= r.0 + seq![c] + kid_block(nodes, c) + r.1);
            assert(flat_roots(nodes2, nroots, k) =~= r.0 + seq![c] + kid_block(nodes2, c) + r.1);
            assert(!r.1.contains(c)) by {
                assert(forall|j: int| 0 <= j < ra.1.len() ==> r.1[j] == ra.1[j]);
                assert(forall|j: int|
                    ra.1.len() <= j < r.1.len() ==> r.1[j] == tail[j - ra.1.len()]);
            }
            r
        } else if tail.contains(c) {
            let jt = choose|jt: int| 0 <= jt < tail.len() && tail[jt] == c;
            assert(flat_roots(nodes, nroots, k)[head.len() + jt] == c);
            assert(flat_roots(nodes, nroots, k).contains(c));
            let r = (head + rb.0, rb.1);
            assert(flat_roots(nodes, nroots, k) =~= r.0 + seq![c] + kid_block(nodes, c) + r.1);
            assert(flat_roots(nodes2, nroots, k) =~= r.0 + seq![c] + kid_block(nodes2, c) + r.1);
            assert(!r.0.contains(c)) by {
                assert(forall|j: int| 0 <= j < head.len() ==> r.0[j] == head[j]);
                assert(forall|j: int|
                    head.len() <= j < r.0.len() ==> r.0[j] == rb.0[j - head.len()]);
            }
            r
        } else {
            assert(flat_roots(nodes2, nroots, k) == flat_roots(nodes, nroots, k));
            assert(!flat_roots(nodes, nroots, k).contains(c)) by {
                assert forall|j: int|
                    0 <= j < flat_roots(nodes, nroots, k).len() implies flat_roots(
                    nodes,
                    nroots,
                    k,
                )[j] != c by {
                    if j < head.len() {
                        assert(flat_roots(nodes, nroots, k)[j] == head[j]);
                    } else {
                        assert(flat_roots(nodes, nroots, k)[j] == tail[j - head.len()]);
                    }
                }
            }
            (Seq::<usize>::empty(), Seq::<usize>::empty())
        }
    } else {
        assert(flat_roots(nodes, nroots, k) == Seq::<usize>::empty());
        assert(flat_roots(nodes2, nroots, k) == Seq::<usize>::empty());
        (Seq::<usize>::empty(), Seq::<usize>::empty())
    }
}

/// A node sits no deeper than its own id.
proof fn lemma_depth_le(nodes: Seq<TreeNode>, i: usize)
    requires
        forall|i2: int| 0 <= i2 < nodes.len() ==> #[trigger] node_ok(nodes, i2),
        i < nodes.len(),
    ensures
        nodes[i as int].depth <= i,
    decreases i,
{
    assert(node_ok(nodes, i as int));
    match nodes[i as int].parent {
        None => {},
        Some(p) => {
            lemma_depth_le(nodes, p);
        },
    }
}

/// The parts of the list that one toggle never touches.
pub open spec fn toggle_same_rest(pre: FileList, post: FileList) -> bool {
    &&& post.patterns == pre.patterns
    &&& post.explicit_exception == pre.explicit_exception
    &&& post.explicit_exclude == pre.explicit_exclude
    &&& post.root_count == pre.root_count
    &&& post.highlight == pre.highlight
}

/// Collapsing the directory under the cursor: its flag is cleared and the
/// contiguous run of its flattened descendants, sitting immediately after
/// the cursor, leaves `visible`.
pub open spec fn toggle_closes(pre: FileList, post: FileList) -> bool {
    let h = pre.highlight as int;
    let c = pre.visible@[h];
    let t = flat_kids(pre.nodes@, c, 0).len() as int;
    &&& post.nodes@ == pre.nodes@.update(
        c as int,
        TreeNode { open: false, ..pre.nodes@[c as int] },
    )
    &&& h + 1 + t <= pre.visible@.len()
    &&& pre.visible@.subrange(h + 1, h + 1 + t) == flat_kids(pre.nodes@, c, 0)
    &&& post.visible@ == pre.visible@.take(h + 1) + pre.visible@.skip(h + 1 + t)
    &&& toggle_same_rest(pre, post)
}

/// Expanding an already indexed directory: its flag is set and the
/// flattening of its recorded children is spliced in right after the cursor.
pub open spec fn toggle_opens(pre: FileList, post: FileList) -> bool {
    let h = pre.highlight as int;
    let c = pre.visible@[h];
    &&& post.nodes@ == pre.nodes@.update(c as int, TreeNode { open: true, ..pre.nodes@[c as int] })
    &&& post.visible@ == pre.visible@.take(h + 1) + flat_kids(post.nodes@, c, 0)
        + pre.visible@.skip(h + 1)
    &&& toggle_same_rest(pre, post)
}

/// Expanding a directory for the first time: the listing becomes fresh
/// arena nodes, recorded as the directory's children, and their ids are
/// spliced in right after the cursor.
pub open spec fn toggle_opens_indexed(pre: FileList, post: FileList, listing: Seq<ListedEntry>) -> bool {
    let h = pre.highlight as int;
    let c = pre.visible@[h];
    let n0 = pre.nodes@.len() as int;
    &&& post.nodes@.len() == n0 + listing.len()
    &&& forall|j: int| 0 <= j < n0 && j != c ==> post.nodes@[j] == pre.nodes@[j]
    &&& post.nodes@[c as int].rel_path == pre.nodes@[c as int].rel_path
    &&& post.nodes@[c as int].is_dir == pre.nodes@[c as int].is_dir
    &&& post.nodes@[c as int].parent == pre.nodes@[c as int].parent
    &&& post.nodes@[c as int].last_sibling == pre.nodes@[c as int].last_sibling
    &&& post.nodes@[c as int].next_sibling == pre.nodes@[c as int].next_sibling
    &&& post.nodes@[c as int].depth == pre.nodes@[c as int].depth
    &&& post.nodes@[c as int].open == true
    &&& post.nodes@[c as int].children is Some
    &&& post.nodes@[c as int].children->Some_0@ == Seq::new(
        listing.len(),
        |k: int| (n0 + k) as usize,
    )
    &&& forall|k: int|
        0 <= k < listing.len() ==> {
            let nd = #[trigger] post.nodes@[n0 + k];
            &&& nd.rel_path@ == pre.nodes@[c as int].rel_path@ + "/"@ + listing[k].name@
            &&& nd.is_dir == listing[k].is_dir
            &&& nd.parent == Some(c)
            &&& nd.last_sibling == (if k == 0 {
                Option::<usize>::None
            } else {
                Option::<usize>::Some((n0 + k - 1) as usize)
            })
            &&& nd.next_sibling == (if k + 1 == listing.len() {
                Option::<usize>::None
            } else {
                Option::<usize>::Some((n0 + k + 1) as usize)
            })
            &&& nd.open == false
            &&& nd.depth == pre.nodes@[c as int].depth + 1
            &&& nd.children is None
        }
    &&& post.visible@ == pre.visible@.take(h + 1) + flat_kids(post.nodes@, c, 0)
        + pre.visible@.skip(h + 1)
    &&& toggle_same_rest(pre, post)
}

/// How one `toggle_folder` call relates the state before and after.
pub open spec fn toggle_rel(pre: FileList, post: FileList) -> bool {
    if pre.visible@.len() == 0 {
        post == pre
    } else {
        let c = pre.visible@[pre.highlight as int];
        if !(c < pre.nodes@.len()) || !pre.nodes@[c as int].is_dir {
            post == pre
        } else if pre.nodes@[c as int].open {
            toggle_closes(pre, post)
        } else if pre.nodes@[c as int].children is Some {
            toggle_opens(pre, post)
        } else {
            exists|listing: Seq<ListedEntry>| toggle_opens_indexed(pre, post, listing)
        }
    }
}

impl FileList {
    /// The id under the cursor.
    pub open spec fn cursor(&self) -> usize {
        self.visible@[self.highlight as int]
    }

    /// Whether the next `toggle_folder` call needs a directory listing: the
    /// cursor sits on a directory whose contents were never indexed.
    pub open spec fn needs_listing(&self) -> bool {
        &&& self.visible@.len() > 0
        &&& self.cursor() < self.nodes@.len()
        &&& self.nodes@[self.cursor() as int].is_dir
        &&& self.nodes@[self.cursor() as int].children is None
    }

    /// Returns the relative path of the directory whose listing the next
    /// `toggle_folder` call would need, if any.
    pub fn listing_needed(&self) -> (r: Option<String>)
        requires
            self.wf(),
        ensures
            r is Some <==> self.needs_listing(),
            r matches Some(p) ==> p@ == self.nodes@[self.cursor() as int].rel_path@,
    {
        if self.visible.len() == 0 {
            return None;
        }
        let nodes_len = self.nodes.len();
        proof {
            lemma_flat_roots_anc(self.nodes@, self.root_count as int, 0);
        }
        let c = self.visible[self.highlight];
        assert(c < self.nodes@.len());
        if self.nodes[c].is_dir && self.nodes[c].children.is_none() {
            Some(self.nodes[c].rel_path.clone())
        } else {
            None
        }
    }

    /// No-op unless the cursor is on a directory. Otherwise flips the
    /// directory open or closed: opening splices the flattening of its
    /// children right after the cursor (indexing them first from `listing`
    /// if this is the first expansion); closing removes that contiguous run,
    /// leaving the recorded tree intact for later re-expansion.
    pub fn toggle_folder(&mut self, listing: Option<Vec<ListedEntry>>)
        requires
            old(self).wf(),
            old(self).needs_listing() ==> listing is Some,
            listing is Some ==> old(self).nodes@.len() + listing->Some_0@.len() <= usize::MAX,
        ensures
            final(self).wf(),
            toggle_rel(*old(self), *final(self)),
            old(self).needs_listing() ==> toggle_opens_indexed(
                *old(self),
                *final(self),
                listing->Some_0@,
            ),
    {
        let ghost pre = *self;
        if self.visible.len() == 0 {
            return ;
        }
        let nodes_len = self.nodes.len();
        proof {
            lemma_flat_roots_anc(self.nodes@, self.root_count as int, 0);
            assert(pre.visible@[pre.highlight as int] == self.visible@[self.highlight as int]);
        }
        let c = self.visible[self.highlight];
        assert(c < self.nodes@.len());
        if !self.nodes[c].is_dir {
            return ;
        }
        let was_open = self.nodes[c].open;
        proof {
            assert(node_ok(pre.nodes@, c as int));
        }
        if was_open {
            let mut nd = self.nodes.remove(c);
            nd.open = false;
            self.nodes.insert(c, nd);
            proof {
                assert(self.nodes@ =~= pre.nodes@.update(
                    c as int,
                    TreeNode { open: false, ..pre.nodes@[c as int] },
                ));
                lemma_toggle_arena_ok(pre.nodes@, self.nodes@, c, pre.root_count as int);
            }
            let nodes_len2 = self.nodes.len();
            let vis = build_visible(&self.nodes, self.root_count);
            self.visible = vis;
            proof {
                toggle_close_post(pre, *self, c);
            }
        } else {
            let needs_index = self.nodes[c].children.is_none();
            if needs_index {
                let l = match listing {
                    Some(l) => l,
                    None => {
                        proof {
                            assert(false);
                        }
                        return ;
                    },
                };
                proof {
                    lemma_depth_le(pre.nodes@, c);
                }
                let parent_rel = self.nodes[c].rel_path.clone();
                let parent_depth = self.nodes[c].depth;
                let child_depth = parent_depth + 1;
                let n0 = self.nodes.len();
                let m = l.len();
                let mut ids: Vec<usize> = Vec::new();
                let mut k: usize = 0;
                while k < m
                    invariant
                        0 <= k <= m,
                        m == l@.len(),
                        n0 == pre.nodes@.len(),
                        n0 + m <= usize::MAX,
                        c < n0,
                        parent_rel@ == pre.nodes@[c as int].rel_path@,
                        child_depth == pre.nodes@[c as int].depth + 1,
                        self.nodes@.len() == n0 + k,
                        forall|j: int| 0 <= j < n0 ==> self.nodes@[j] == pre.nodes@[j],
                        ids@.len() == k,
                        forall|j: int| 0 <= j < k ==> #[trigger] ids@[j] == (n0 + j) as usize,
                        forall|j: int|
                            0 <= j < k ==> {
                                let nd = #[trigger] self.nodes@[n0 + j];
                                &&& nd.rel_path@ == pre.nodes@[c as int].rel_path@ + "/"@
                                    + l@[j].name@
                                &&& nd.is_dir == l@[j].is_dir
                                &&& nd.parent == Some(c)
                                &&& nd.last_sibling == (if j == 0 {
                                    Option::<usize>::None
                                } else {
                                    Option::<usize>::Some((n0 + j - 1) as usize)
                                })
                                &&& nd.next_sibling == (if j + 1 == l@.len() {
                                    Option::<usize>::None
                                } else {
                                    Option::<usize>::Some((n0 + j + 1) as usize)
                                })
                                &&& nd.open == false
                                &&& nd.depth == pre.nodes@[c as int].depth + 1
                                &&& nd.children is None
                            },
                        self.visible == pre.visible,
                        self.patterns == pre.patterns,
                        self.explicit_exception == pre.explicit_exception,
                        self.explicit_exclude == pre.explicit_exclude,
                        self.root_count == pre.root_count,
                        self.highlight == pre.highlight,
                    decreases m - k,
                {
                    let id = self.nodes.len();
                    let mut rp = parent_rel.clone();
                    rp.append("/");
                    rp.append(l[k].name.as_str());
                    let last = if k == 0 {
                        None
                    } else {
                        Some(id - 1)
                    };
                    let next = if k + 1 == m {
                        None
                    } else {
                        Some(id + 1)
                    };
                    ids.push(id);
                    self.nodes.push(
                        TreeNode {
                            rel_path: rp,
                            is_dir: l[k].is_dir,
                            parent: Some(c),
                            last_sibling: last,
                            next_sibling: next,
                            open: false,
                            depth: child_depth,
                            children: None,
                        },
                    );
                    k = k + 1;
                }
                let ghost mid = self.nodes@;
                let mut nd = self.nodes.remove(c);
                nd.children = Some(ids);
                nd.open = true;
                self.nodes.insert(c, nd);
                let nodes_len2 = self.nodes.len();
                proof {
                    assert(self.nodes@ =~= mid.update(c as int, self.nodes@[c as int]));
                    assert(self.nodes@[c as int].children->Some_0@ =~= Seq::new(
                        l@.len(),
                        |k: int| (pre.nodes@.len() + k) as usize,
                    ));
                    assert forall|k: int|
                        pre.nodes@.len() <= k < self.nodes@.len() implies {
                            let nd2 = #[trigger] self.nodes@[k];
                            &&& nd2.parent == Some(c)
                            &&& nd2.open == false
                            &&& nd2.depth == pre.nodes@[c as int].depth + 1
                            &&& nd2.children is None
                        } by {
                        let j = k - pre.nodes@.len();
                        assert(mid[pre.nodes@.len() + j] == mid[k]);
                        assert(self.nodes@[k] == mid[k]);
                    }
                    lemma_index_arena_ok(pre.nodes@, self.nodes@, c, pre.root_count as int);
                }
                let vis = build_visible(&self.nodes, self.root_count);
                self.visible = vis;
                proof {
                    toggle_open_post(pre, *self, c);
                    assert(toggle_opens_indexed(pre, *self, l@));
                }
            } else {
                let mut nd = self.nodes.remove(c);
                nd.open = true;
                self.nodes.insert(c, nd);
                proof {
                    assert(self.nodes@ =~= pre.nodes@.update(
                        c as int,
                        TreeNode { open: true, ..pre.nodes@[c as int] },
                    ));
                    lemma_toggle_arena_ok(pre.nodes@, self.nodes@, c, pre.root_count as int);
                }
                let nodes_len2 = self.nodes.len();
                let vis = build_visible(&self.nodes, self.root_count);
                self.visible = vis;
                proof {
                    toggle_open_post(pre, *self, c);
                }
            }
        }
    }
}

/// Flipping the `open` flag of one node preserves arena soundness.
proof fn lemma_toggle_arena_ok(nodes: Seq<TreeNode>, nodes2: Seq<TreeNode>, c: usize, nroots: int)
    requires
        arena_ok(nodes, nroots),
        c < nodes.len(),
        nodes2.len() == nodes.len(),
        forall|j: int| 0 <= j < nodes.len() && j != c ==> nodes2[j] == nodes[j],
        nodes2[c as int].rel_path == nodes[c as int].rel_path,
        nodes2[c as int].is_dir == nodes[c as int].is_dir,
        nodes2[c as int].parent == nodes[c as int].parent,
        nodes2[c as int].depth == nodes[c as int].depth,
        nodes2[c as int].children == nodes[c as int].children,
        nodes2[c as int].open ==> nodes2[c as int].children is Some,
    ensures
        arena_ok(nodes2, nroots),
{
    assert forall|i: int| 0 <= i < nodes2.len() implies #[trigger] node_ok(nodes2, i) by {
        assert(node_ok(nodes, i));
        match nodes2[i].children {
            Some(cs) => {
                assert(cs@ == nodes[i].children->Some_0@);
                assert forall|k: int|
                    0 <= k < cs@.len() implies i < #[trigger] cs@[k] < nodes2.len()
                        && nodes2[cs@[k] as int].parent == Some(i as usize) by {
                    assert(kid_list_ok(nodes, i, nodes[i].children->Some_0@));
                }
            },
            None => {},
        }
    }
}

/// Recording a fresh batch of children for `c` preserves arena soundness.
proof fn lemma_index_arena_ok(nodes: Seq<TreeNode>, nodes2: Seq<TreeNode>, c: usize, nroots: int)
    requires
        arena_ok(nodes, nroots),
        c < nodes.len(),
        nodes[c as int].is_dir,
        nodes[c as int].children is None,
        nodes.len() <= nodes2.len() <= usize::MAX,
        forall|j: int| 0 <= j < nodes.len() && j != c ==> nodes2[j] == nodes[j],
        nodes2[c as int].rel_path == nodes[c as int].rel_path,
        nodes2[c as int].is_dir == nodes[c as int].is_dir,
        nodes2[c as int].parent == nodes[c as int].parent,
        nodes2[c as int].depth == nodes[c as int].depth,
        nodes2[c as int].open == true,
        nodes2[c as int].children is Some,
        nodes2[c as int].children->Some_0@ == Seq::new(
            (nodes2.len() - nodes.len()) as nat,
            |k: int| (nodes.len() + k) as usize,
        ),
        forall|k: int|
            nodes.len() <= k < nodes2.len() ==> {
                let nd = #[trigger] nodes2[k];
                &&& nd.parent == Some(c)
                &&& nd.open == false
                &&& nd.depth == nodes[c as int].depth + 1
                &&& nd.children is None
            },
    ensures
        arena_ok(nodes2, nroots),
{
    let n0 = nodes.len() as int;
    assert forall|i: int| 0 <= i < nodes2.len() implies #[trigger] node_ok(nodes2, i) by {
        if i < n0 {
            assert(node_ok(nodes, i));
            if i == c {
                let cs = nodes2[i].children->Some_0@;
                assert forall|k: int|
                    0 <= k < cs.len() implies i < #[trigger] cs[k] < nodes2.len()
                        && nodes2[cs[k] as int].parent == Some(i as usize) by {
                    assert(cs[k] == (n0 + k) as usize);
                }
                assert forall|k1: int, k2: int|
                    0 <= k1 < k2 < cs.len() implies cs[k1] != cs[k2] by {
                    assert(cs[k1] == (n0 + k1) as usize);
                    assert(cs[k2] == (n0 + k2) as usize);
                }
                assert(kid_list_ok(nodes2, i, cs));
            } else {
                match nodes2[i].children {
                    Some(cs) => {
                        assert(cs@ == nodes[i].children->Some_0@);
                        assert forall|k: int|
                            0 <= k < cs@.len() implies i < #[trigger] cs@[k] < nodes2.len()
                                && nodes2[cs@[k] as int].parent == Some(i as usize) by {
                            assert(kid_list_ok(nodes, i, nodes[i].children->Some_0@));
                        }
                    },
                    None => {},
                }
            }
        } else {
            assert(nodes2[c as int].is_dir);
        }
    }
    assert forall|i: int|
        0 <= i < nodes2.len() implies ((#[trigger] nodes2[i].parent is None) <==> i < nroots) by {
        if i < n0 {
        } else {
            assert(nodes2[i].parent == Some(c));
            assert(nroots <= n0);
        }
    }
}

/// Establishes the close-splice description of `visible` after one collapse.
proof fn toggle_close_post(pre: FileList, post: FileList, c: usize)
    requires
        pre.wf(),
        pre.visible@.len() > 0,
        pre.highlight < pre.visible@.len(),
        c == pre.visible@[pre.highlight as int],
        c < pre.nodes@.len(),
        pre.nodes@[c as int].open,
        post.nodes@ == pre.nodes@.update(c as int, TreeNode { open: false, ..pre.nodes@[c as int] }),
        post.nodes@.len() <= usize::MAX,
        arena_ok(post.nodes@, post.root_count as int),
        post.visible@ == flat_roots(post.nodes@, post.root_count as int, 0),
        toggle_same_rest(pre, post),
    ensures
        toggle_closes(pre, post),
        post.highlight < post.visible@.len(),
{
    let h = pre.highlight as int;
    let t = flat_kids(pre.nodes@, c, 0).len() as int;
    let r = decomp_roots(pre.nodes@, post.nodes@, c, pre.root_count as int, 0);
    assert(pre.visible@.contains(c)) by {
        assert(pre.visible@[h] == c);
    }
    let a = r.0;
    let b = r.1;
    assert(pre.visible@ == a + seq![c] + kid_block(pre.nodes@, c) + b);
    assert(post.visible@ == a + seq![c] + kid_block(post.nodes@, c) + b);
    assert(kid_block(pre.nodes@, c) == flat_kids(pre.nodes@, c, 0));
    assert(kid_block(post.nodes@, c) == Seq::<usize>::empty());
    // the block holds only strict descendants of c, never c itself
    assert(node_ok(pre.nodes@, c as int));
    lemma_flat_kids_anc(pre.nodes@, c, 0);
    assert(h == a.len()) by {
        if h < a.len() {
            assert(pre.visible@[h] == a[h]);
            assert(a.contains(c)) by {
                assert(a[h] == c);
            }
            assert(false);
        } else if h > a.len() {
            let off = h - a.len() - 1;
            if off < kid_block(pre.nodes@, c).len() {
                assert(pre.visible@[h] == flat_kids(pre.nodes@, c, 0)[off]);
                assert(flat_kids(pre.nodes@, c, 0)[off] > c);
                assert(false);
            } else {
                let off2 = off - kid_block(pre.nodes@, c).len();
                assert(pre.visible@[h] == b[off2]);
                assert(b.contains(c)) by {
                    assert(b[off2] == c);
                }
                assert(false);
            }
        }
    }
    assert(h + 1 + t <= pre.visible@.len());
    assert(pre.visible@.subrange(h + 1, h + 1 + t) =~= flat_kids(pre.nodes@, c, 0));
    assert(pre.visible@.take(h + 1) =~= a + seq![c]);
    assert(pre.visible@.skip(h + 1 + t) =~= b);
    assert(post.visible@ =~= pre.visible@.take(h + 1) + pre.visible@.skip(h + 1 + t));
    assert(post.highlight < post.visible@.len()) by {
        assert(post.visible@.len() == a.len() + 1 + b.len());
    }
}

/// Establishes the open-splice description of `visible` after one expansion.
proof fn toggle_open_post(pre: FileList, post: FileList, c: usize)
    requires
        pre.wf(),
        pre.visible@.len() > 0,
        pre.highlight < pre.visible@.len(),
        c == pre.visible@[pre.highlight as int],
        c < pre.nodes@.len(),
        !pre.nodes@[c as int].open,
        c < post.nodes@.len(),
        pre.nodes@.len() <= post.nodes@.len() <= usize::MAX,
        forall|j: int| 0 <= j < pre.nodes@.len() && j != c ==> post.nodes@[j] == pre.nodes@[j],
        post.nodes@[c as int].open,
        arena_ok(post.nodes@, post.root_count as int),
        arena_ok(pre.nodes@, pre.root_count as int),
        post.visible@ == flat_roots(post.nodes@, post.root_count as int, 0),
        toggle_same_rest(pre, post),
    ensures
        post.visible@ == pre.visible@.take(pre.highlight + 1) + flat_kids(post.nodes@, c, 0)
            + pre.visible@.skip(pre.highlight + 1),
        post.highlight < post.visible@.len(),
{
    let h = pre.highlight as int;
    let r = decomp_roots(pre.nodes@, post.nodes@, c, pre.root_count as int, 0);
    assert(pre.visible@.contains(c)) by {
        assert(pre.visible@[h] == c);
    }
    let a = r.0;
    let b = r.1;
    assert(pre.visible@ == a + seq![c] + kid_block(pre.nodes@, c) + b);
    assert(post.visible@ == a + seq![c] + kid_block(post.nodes@, c) + b);
    assert(kid_block(pre.nodes@, c) == Seq::<usize>::empty());
    assert(kid_block(post.nodes@, c) == flat_kids(post.nodes@, c, 0));
    assert(h == a.len()) by {
        if h < a.len() {
            assert(pre.visible@[h] == a[h]);
            assert(a.contains(c)) by {
                assert(a[h] == c);
            }
            assert(false);
        } else if h > a.len() {
            let off2 = h - a.len() - 1;
            assert(pre.visible@[h] == b[off2]);
            assert(b.contains(c)) by {
                assert(b[off2] == c);
            }
            assert(false);
        }
    }
    assert(pre.visible@.take(h + 1) =~= a + seq![c]);
    assert(pre.visible@.skip(h + 1) =~= b);
    assert(post.visible@ =~= pre.visible@.take(h + 1) + flat_kids(post.nodes@, c, 0)
        + pre.visible@.skip(h + 1));
    assert(post.highlight < post.visible@.len()) by {
        assert(post.visible@.len() == a.len() + 1 + kid_block(post.nodes@, c).len() + b.len());
    }
}

/// Open/close involution: toggling the folder under the cursor twice
/// restores the visible list (content, order and length) and the cursor,
/// provided the directory contents recorded in between do not change —
/// which holds because indexing is kept across a collapse.
pub proof fn lemma_toggle_folder_involution(s1: FileList, s2: FileList, s3: FileList)
    requires
        s1.wf(),
        s2.wf(),
        toggle_rel(s1, s2),
        toggle_rel(s2, s3),
    ensures
        s3.visible@ == s1.visible@,
        s3.highlight == s1.highlight,
{
    if s1.visible@.len() == 0 {
        assert(s2 == s1);
        assert(s3 == s2);
    } else {
        let h = s1.highlight as int;
        let c = s1.visible@[h];
        if !(c < s1.nodes@.len()) || !s1.nodes@[c as int].is_dir {
            assert(s2 == s1);
            assert(s3 == s2);
        } else if s1.nodes@[c as int].open {
            // close, then re-open
            assert(toggle_closes(s1, s2));
            let t = flat_kids(s1.nodes@, c, 0).len() as int;
            assert(s2.visible@ == s1.visible@.take(h + 1) + s1.visible@.skip(h + 1 + t));
            assert(s2.visible@.len() > 0) by {
                assert(s1.visible@.take(h + 1).len() == h + 1);
            }
            assert(s2.highlight == s1.highlight);
            assert(s2.visible@[h] == c) by {
                assert(s2.visible@[h] == s1.visible@.take(h + 1)[h]);
            }
            assert(s2.nodes@[c as int].open == false);
            assert(s2.nodes@[c as int].is_dir);
            assert(s2.nodes@[c as int].children == s1.nodes@[c as int].children);
            assert(node_ok(s1.nodes@, c as int));
            assert(s2.nodes@[c as int].children is Some);
            assert(toggle_opens(s2, s3));
            assert(s3.nodes@ == s2.nodes@.update(
                c as int,
                TreeNode { open: true, ..s2.nodes@[c as int] },
            ));
            assert(s3.nodes@ =~= s1.nodes@);
            assert(s3.visible@ == s2.visible@.take(h + 1) + flat_kids(s3.nodes@, c, 0)
                + s2.visible@.skip(h + 1));
            assert(flat_kids(s3.nodes@, c, 0) == flat_kids(s1.nodes@, c, 0));
            assert(s2.visible@.take(h + 1) =~= s1.visible@.take(h + 1));
            assert(s2.visible@.skip(h + 1) =~= s1.visible@.skip(h + 1 + t));
            assert(s1.visible@.subrange(h + 1, h + 1 + t) == flat_kids(s1.nodes@, c, 0));
            assert(s3.visible@ =~= s1.visible@);
        } else {
            // open (indexing or not), then close
            let t2 = if s1.nodes@[c as int].children is Some {
                flat_kids(s2.nodes@, c, 0).len() as int
            } else {
                flat_kids(s2.nodes@, c, 0).len() as int
            };
            assert(s2.visible@ == s1.visible@.take(h + 1) + flat_kids(s2.nodes@, c, 0)
                + s1.visible@.skip(h + 1) && s2.nodes@[c as int].open
                && s2.nodes@[c as int].is_dir && s2.highlight == s1.highlight) by {
                if s1.nodes@[c as int].children is Some {
                    assert(toggle_opens(s1, s2));
                } else {
                    let listing = choose|listing: Seq<ListedEntry>|
                        toggle_opens_indexed(s1, s2, listing);
                    assert(toggle_opens_indexed(s1, s2, listing));
                }
            }
            assert(s2.visible@.len() > 0) by {
                assert(s1.visible@.take(h + 1).len() == h + 1);
            }
            assert(s2.visible@[h] == c) by {
                assert(s2.visible@[h] == s1.visible@.take(h + 1)[h]);
            }
            assert(toggle_closes(s2, s3));
            let t3 = flat_kids(s2.nodes@, c, 0).len() as int;
            assert(s3.visible@ == s2.visible@.take(h + 1) + s2.visible@.skip(h + 1 + t3));
            assert(s2.visible@.take(h + 1) =~= s1.visible@.take(h + 1));
            assert(s2.visible@.skip(h + 1 + t3) =~= s1.visible@.skip(h + 1));
            assert(s3.visible@ =~= s1.visible@);
        }
    }
}

/// Whether a pattern text compiles as a glob pattern: a function of the text
/// alone.
pub uninterp spec fn glob_accepts(pattern: Seq<char>) -> bool;

/// Whether a glob pattern matches a path: a function of the two texts alone.
pub uninterp spec fn glob_matches(pattern: Seq<char>, path: Seq<char>) -> bool;

/// Relies on glob::Pattern::new: whether a pattern text compiles depends on
/// the text alone.
#[verifier::external_body]
fn glob_pattern_ok(pattern: &str) -> (r: bool)
    ensures
        r == glob_accepts(pattern@),
{
    glob::Pattern::new(pattern).is_ok()
}

/// Relies on glob::Pattern::matches (after glob::Pattern::new): whether a
/// compiled pattern matches a path depends on the pattern and path texts
/// alone.
#[verifier::external_body]
fn glob_match(pattern: &str, path: &str) -> (r: bool)
    requires
        glob_accepts(pattern@),
    ensures
        r == glob_matches(pattern@, path@),
{
    match glob::Pattern::new(pattern) {
        Ok(p) => p.matches(path),
        Err(_) => false,
    }
}

/// Rendering data for one visible entry.
pub struct FileListIterElement {
    /// Path relative to the base directory.
    pub path: String,
    /// Effective inclusion of the entry.
    pub included: bool,
    /// Indentation depth (children of the base directory sit at 0).
    pub depth: usize,
}

/// A pattern text that does not compile as a glob pattern was rejected;
/// the model is left unchanged.
#[derive(Debug)]
pub struct InvalidPatternError;

impl InvalidPatternError {
    /// A short description for display.
    pub fn message(&self) -> (r: String)
        ensures
            r@ == "invalid glob pattern"@,
    {
        "invalid glob pattern".to_owned()
    }
}

/// Whether some registered pattern matches the given path.
pub open spec fn pattern_excluded(patterns: Seq<String>, path: Seq<char>) -> bool {
    exists|j: int| 0 <= j < patterns.len() && glob_matches(#[trigger] patterns[j]@, path)
}

/// Whether a pattern with exactly this text is registered.
pub open spec fn pattern_in(patterns: Seq<String>, text: Seq<char>) -> bool {
    exists|j: int| 0 <= j < patterns.len() && #[trigger] patterns[j]@ == text
}

/// Effective inclusion of node `id`: an explicit exception forces it in,
/// before anything else is consulted — even exclusion inherited from an
/// ancestor; otherwise an explicit exclusion or a matching pattern forces it
/// out; otherwise the parent decides, and nodes without a parent are in.
pub open spec fn spec_included(
    nodes: Seq<TreeNode>,
    exceptions: Seq<usize>,
    excluded: Seq<usize>,
    patterns: Seq<String>,
    id: usize,
) -> bool
    decreases id,
{
    if exceptions.contains(id) {
        true
    } else if excluded.contains(id) || pattern_excluded(patterns, nodes[id as int].rel_path@) {
        false
    } else {
        match nodes[id as int].parent {
            None => true,
            Some(p) => p < id && spec_included(nodes, exceptions, excluded, patterns, p),
        }
    }
}

/// Looks for the first node whose relative path is `path`, from index `i` on.
pub open spec fn find_path(nodes: Seq<TreeNode>, path: Seq<char>, i: int) -> Option<usize>
    decreases nodes.len() - i,
{
    if i < 0 || i >= nodes.len() {
        None
    } else if nodes[i].rel_path@ == path {
        Some(i as usize)
    } else {
        find_path(nodes, path, i + 1)
    }
}

/// Index of the last path separator in `path`, or -1 if there is none.
pub open spec fn last_slash(path: Seq<char>) -> int
    decreases path.len(),
{
    if path.len() == 0 {
        -1
    } else if path[path.len() - 1] == '/' {
        path.len() - 1
    } else {
        last_slash(path.drop_last())
    }
}

/// Whether walking up the path components from `path` eventually reaches a
/// known node.
pub open spec fn path_resolvable(s: FileList, path: Seq<char>) -> bool
    decreases path.len(),
{
    match find_path(s.nodes@, path, 0) {
        Some(_) => true,
        None => {
            let cut = last_slash(path);
            &&& 0 <= cut < path.len()
            &&& path_resolvable(s, path.take(cut))
        },
    }
}

/// Effective inclusion of a path discovered by filesystem traversal: if the
/// path belongs to a known node, that node decides; otherwise the nearest
/// known ancestor decides — an unindexed descendant was never matched
/// against the patterns, so it follows its ancestor.
pub open spec fn spec_included_path(s: FileList, path: Seq<char>) -> bool
    decreases path.len(),
{
    match find_path(s.nodes@, path, 0) {
        Some(id) => s.included(id),
        None => {
            let cut = last_slash(path);
            if 0 <= cut < path.len() {
                spec_included_path(s, path.take(cut))
            } else {
                true
            }
        },
    }
}

/// The parts of the list that toggling a file's inclusion never touches.
pub open spec fn exclude_same_rest(pre: FileList, post: FileList) -> bool {
    &&& post.nodes == pre.nodes
    &&& post.visible == pre.visible
    &&& post.patterns == pre.patterns
    &&& post.root_count == pre.root_count
    &&& post.highlight == pre.highlight
}

/// The id list without every occurrence of `c`.
pub open spec fn marks_without(ids: Seq<usize>, c: usize) -> Seq<usize> {
    ids.filter(|x: usize| x != c)
}

/// Effective inclusion of `c` once its own exception (if any) is dropped.
pub open spec fn included_sans_exception(s: FileList, c: usize) -> bool {
    spec_included(
        s.nodes@,
        marks_without(s.explicit_exception@, c),
        s.explicit_exclude@,
        s.patterns@,
        c,
    )
}

/// Effective inclusion of `c` once its own explicit exclusion (if any) is
/// dropped.
pub open spec fn included_sans_exclusion(s: FileList, c: usize) -> bool {
    spec_included(
        s.nodes@,
        s.explicit_exception@,
        marks_without(s.explicit_exclude@, c),
        s.patterns@,
        c,
    )
}

/// How one `toggle_exclude_file` call relates the state before and after.
/// The rule, stated once: one toggle always flips the node's effective
/// inclusion. An included node loses its exception, and gains an explicit
/// exclusion exactly when dropping the exception does not already exclude
/// it; an excluded node loses its explicit exclusion, and gains an
/// exception exactly when dropping that flag does not already include it
/// (the exception then overrides patterns and excluded ancestors alike).
/// Marks of every other node are untouched.
pub open spec fn toggle_exclude_rel(pre: FileList, post: FileList) -> bool {
    let c = pre.cursor();
    &&& exclude_same_rest(pre, post)
    &&& post.included(c) == !pre.included(c)
    &&& forall|x: usize|
        x != c ==> (post.explicit_exception@.contains(x) <==> pre.explicit_exception@.contains(x))
    &&& forall|x: usize|
        x != c ==> (post.explicit_exclude@.contains(x) <==> pre.explicit_exclude@.contains(x))
    &&& if pre.included(c) {
        &&& !post.explicit_exception@.contains(c)
        &&& (post.explicit_exclude@.contains(c) <==> (pre.explicit_exclude@.contains(c)
            || included_sans_exception(pre, c)))
    } else {
        &&& !post.explicit_exclude@.contains(c)
        &&& (post.explicit_exception@.contains(c) <==> !included_sans_exclusion(pre, c))
    }
}

/// How one successful `exclude_pattern` call relates the state before and
/// after: entries of both explicit sets whose paths the new pattern matches
/// are dropped (the pattern subsumes them), and the pattern joins the set.
pub open spec fn exclude_pattern_rel(pre: FileList, post: FileList, text: Seq<char>) -> bool {
    &&& post.nodes == pre.nodes
    &&& post.visible == pre.visible
    &&& post.root_count == pre.root_count
    &&& post.highlight == pre.highlight
    &&& forall|x: usize|
        post.explicit_exception@.contains(x) <==> (pre.explicit_exception@.contains(x)
            && !glob_matches(text, pre.nodes@[x as int].rel_path@))
    &&& forall|x: usize|
        post.explicit_exclude@.contains(x) <==> (pre.explicit_exclude@.contains(x) && !glob_matches(
            text,
            pre.nodes@[x as int].rel_path@,
        ))
    &&& forall|t: Seq<char>| #[trigger] pattern_in(post.patterns@, t) <==> (pattern_in(pre.patterns@, t) || t
        == text)
}

/// Membership in a pushed sequence.
proof fn lemma_push_contains<A>(s: Seq<A>, e: A)
    ensures
        forall|y: A| #[trigger] s.push(e).contains(y) <==> (s.contains(y) || y == e),
{
    assert forall|y: A| #[trigger] s.push(e).contains(y) implies (s.contains(y) || y == e) by {
        let j = choose|j: int| 0 <= j < s.push(e).len() && s.push(e)[j] == y;
        if j < s.len() {
            assert(s[j] == y);
        }
    }
    assert forall|y: A| (s.contains(y) || y == e) implies #[trigger] s.push(e).contains(y) by {
        if s.contains(y) {
            let j = choose|j: int| 0 <= j < s.len() && s[j] == y;
            assert(s.push(e)[j] == y);
        } else {
            assert(s.push(e)[s.len() as int] == y);
        }
    }
}

/// A prefix one longer is the prefix plus the next element.
proof fn lemma_take_succ<A>(s: Seq<A>, i: int)
    requires
        0 <= i < s.len(),
    ensures
        s.take(i + 1) == s.take(i).push(s[i]),
{
    assert(s.take(i + 1) =~= s.take(i).push(s[i]));
}

/// In a duplicate-free sequence, the next element is not in the prefix.
proof fn lemma_distinct_take(s: Seq<usize>, i: int)
    requires
        0 <= i < s.len(),
        forall|k1: int, k2: int| 0 <= k1 < k2 < s.len() ==> s[k1] != s[k2],
    ensures
        !s.take(i).contains(s[i]),
{
    if s.take(i).contains(s[i]) {
        let j = choose|j: int| 0 <= j < i && s.take(i)[j] == s[i];
        assert(s[j] == s[i]);
        assert(false);
    }
}

/// Whether a list of ids holds `x`.
fn contains_id(ids: &Vec<usize>, x: usize) -> (r: bool)
    ensures
        r == ids@.contains(x),
{
    let n = ids.len();
    let mut i: usize = 0;
    while i < n
        invariant
            n == ids@.len(),
            0 <= i <= n,
            forall|j: int| 0 <= j < i ==> ids@[j] != x,
        decreases n - i,
    {
        if ids[i] == x {
            return true;
        }
        i += 1;
    }
    false
}

/// Removes `x` from a duplicate-free id list.
fn remove_id(ids: &Vec<usize>, x: usize) -> (r: Vec<usize>)
    requires
        forall|k1: int, k2: int| 0 <= k1 < k2 < ids@.len() ==> ids@[k1] != ids@[k2],
    ensures
        forall|y: usize| r@.contains(y) <==> (ids@.contains(y) && y != x),
        forall|k1: int, k2: int| 0 <= k1 < k2 < r@.len() ==> r@[k1] != r@[k2],
        forall|k: int| 0 <= k < r@.len() ==> ids@.contains(#[trigger] r@[k]),
{
    let n = ids.len();
    let mut out: Vec<usize> = Vec::new();
    let mut i: usize = 0;
    while i < n
        invariant
            n == ids@.len(),
            0 <= i <= n,
            forall|k1: int, k2: int| 0 <= k1 < k2 < ids@.len() ==> ids@[k1] != ids@[k2],
            forall|y: usize|
                #[trigger] out@.contains(y) <==> (ids@.take(i as int).contains(y) && y != x),
            forall|k1: int, k2: int| 0 <= k1 < k2 < out@.len() ==> out@[k1] != out@[k2],
            forall|k: int| 0 <= k < out@.len() ==> ids@.contains(#[trigger] out@[k]),
        decreases n - i,
    {
        let ghost out0 = out@;
        proof {
            lemma_take_succ(ids@, i as int);
            lemma_push_contains(ids@.take(i as int), ids@[i as int]);
            lemma_distinct_take(ids@, i as int);
        }
        if ids[i] != x {
            proof {
                lemma_push_contains(out@, ids@[i as int]);
            }
            out.push(ids[i]);
            proof {
                assert(ids@.contains(ids@[i as int]));
                assert forall|k1: int, k2: int|
                    0 <= k1 < k2 < out@.len() implies out@[k1] != out@[k2] by {
                    if k2 == out@.len() - 1 {
                        assert(out0.contains(out0[k1]));
                    }
                }
            }
        }
        i += 1;
    }
    proof {
        assert(ids@.take(n as int) =~= ids@);
    }
    out
}

impl FileList {
    /// Effective inclusion of node `id`, per the precedence rule: exception,
    /// then explicit exclusion or pattern match, then the parent's verdict.
    pub open spec fn included(&self, id: usize) -> bool {
        spec_included(
            self.nodes@,
            self.explicit_exception@,
            self.explicit_exclude@,
            self.patterns@,
            id,
        )
    }

    /// Whether some registered pattern matches node `id`'s relative path.
    fn matches_any_pattern(&self, id: usize) -> (r: bool)
        requires
            self.wf(),
            id < self.nodes@.len(),
        ensures
            r == pattern_excluded(self.patterns@, self.nodes@[id as int].rel_path@),
    {
        let n = self.patterns.len();
        let mut j: usize = 0;
        while j < n
            invariant
                self.wf(),
                id < self.nodes@.len(),
                n == self.patterns@.len(),
                0 <= j <= n,
                forall|j2: int|
                    0 <= j2 < j ==> !glob_matches(
                        #[trigger] self.patterns@[j2]@,
                        self.nodes@[id as int].rel_path@,
                    ),
            decreases n - j,
        {
            if glob_match(self.patterns[j].as_str(), self.nodes[id].rel_path.as_str()) {
                return true;
            }
            j += 1;
        }
        false
    }

    /// Whether node `id` is effectively included.
    pub fn is_included(&self, id: usize) -> (r: bool)
        requires
            self.wf(),
            id < self.nodes@.len(),
        ensures
            r == self.included(id),
        decreases id,
    {
        if contains_id(&self.explicit_exception, id) {
            return true;
        }
        if contains_id(&self.explicit_exclude, id) {
            return false;
        }
        if self.matches_any_pattern(id) {
            return false;
        }
        proof {
            assert(node_ok(self.nodes@, id as int));
        }
        match self.nodes[id].parent {
            None => true,
            Some(p) => self.is_included(p),
        }
    }

    /// Flips the effective inclusion of the node under the cursor. An
    /// included node loses its exception and, when that alone does not
    /// exclude it, is explicitly excluded; an excluded node loses its
    /// explicit exclusion and, when that alone does not include it, gains
    /// an exception, which overrides patterns and excluded ancestors alike.
    pub fn toggle_exclude_file(&mut self)
        requires
            old(self).wf(),
            old(self).visible@.len() > 0,
        ensures
            final(self).wf(),
            toggle_exclude_rel(*old(self), *final(self)),
    {
        let nodes_len = self.nodes.len();
        proof {
            lemma_flat_roots_anc(self.nodes@, self.root_count as int, 0);
        }
        let c = self.visible[self.highlight];
        assert(c < self.nodes@.len());
        if self.is_included(c) {
            let cleaned = remove_id(&self.explicit_exception, c);
            self.explicit_exception = cleaned;
            proof {
                lemma_marks_without(old(self).explicit_exception@, c);
                lemma_spec_included_marks(
                    self.nodes@,
                    self.explicit_exception@,
                    marks_without(old(self).explicit_exception@, c),
                    self.explicit_exclude@,
                    self.explicit_exclude@,
                    self.patterns@,
                    c,
                );
            }
            let still = self.is_included(c);
            assert(still == included_sans_exception(*old(self), c));
            if still {
                proof {
                    // still included without an exception, so not flagged
                    if self.explicit_exclude@.contains(c) {
                        assert(!self.included(c));
                    }
                }
                let ghost excl_pre = self.explicit_exclude@;
                self.explicit_exclude.push(c);
                proof {
                    lemma_push_contains(excl_pre, c);
                    assert forall|k1: int, k2: int|
                        0 <= k1 < k2 < self.explicit_exclude@.len() implies self.explicit_exclude@[k1]
                        != self.explicit_exclude@[k2] by {
                        if k2 == self.explicit_exclude@.len() - 1 {
                            if self.explicit_exclude@[k1] == c {
                                assert(excl_pre.contains(c)) by {
                                    assert(excl_pre[k1] == c);
                                }
                            }
                        }
                    }
                    assert(!self.included(c));
                }
            }
        } else {
            let cleaned = remove_id(&self.explicit_exclude, c);
            self.explicit_exclude = cleaned;
            proof {
                lemma_marks_without(old(self).explicit_exclude@, c);
                lemma_spec_included_marks(
                    self.nodes@,
                    self.explicit_exception@,
                    self.explicit_exception@,
                    self.explicit_exclude@,
                    marks_without(old(self).explicit_exclude@, c),
                    self.patterns@,
                    c,
                );
            }
            let still = self.is_included(c);
            assert(still == included_sans_exclusion(*old(self), c));
            if !still {
                proof {
                    // excluded, so it cannot carry an exception
                    if self.explicit_exception@.contains(c) {
                        assert(self.included(c));
                    }
                }
                let ghost exc_pre = self.explicit_exception@;
                self.explicit_exception.push(c);
                proof {
                    lemma_push_contains(exc_pre, c);
                    assert forall|k1: int, k2: int|
                        0 <= k1 < k2 < self.explicit_exception@.len() implies self.explicit_exception@[k1]
                        != self.explicit_exception@[k2] by {
                        if k2 == self.explicit_exception@.len() - 1 {
                            if self.explicit_exception@[k1] == c {
                                assert(exc_pre.contains(c)) by {
                                    assert(exc_pre[k1] == c);
                                }
                            }
                        }
                    }
                    assert(self.explicit_exception@.contains(c));
                    assert(self.included(c));
                }
            }
        }
    }

    /// Whether a pattern with exactly this text is already registered.
    fn has_pattern(&self, text: &str) -> (r: bool)
        ensures
            r == pattern_in(self.patterns@, text@),
    {
        let owned = text.to_owned();
        let n = self.patterns.len();
        let mut j: usize = 0;
        while j < n
            invariant
                n == self.patterns@.len(),
                owned@ == text@,
                0 <= j <= n,
                forall|j2: int| 0 <= j2 < j ==> #[trigger] self.patterns@[j2]@ != text@,
            decreases n - j,
        {
            if self.patterns[j].eq(&owned) {
                assert(self.patterns@[j as int]@ == text@);
                return true;
            }
            j += 1;
        }
        false
    }

    /// Registers a glob pattern for bulk exclusion. A malformed pattern is
    /// rejected without touching any state. On success, explicit marks that
    /// the pattern subsumes are dropped and the pattern joins the set;
    /// registering a text already present changes nothing further.
    pub fn exclude_pattern(&mut self, pattern: &str) -> (r: Result<(), InvalidPatternError>)
        requires
            old(self).wf(),
        ensures
            final(self).wf(),
            r is Ok <==> glob_accepts(pattern@),
            !glob_accepts(pattern@) ==> *final(self) == *old(self),
            glob_accepts(pattern@) ==> exclude_pattern_rel(*old(self), *final(self), pattern@),
    {
        if !glob_pattern_ok(pattern) {
            return Err(InvalidPatternError);
        }
        let cleaned_exc = self.retain_unmatched(&self.explicit_exception, pattern);
        let cleaned_excl = self.retain_unmatched(&self.explicit_exclude, pattern);
        self.explicit_exception = cleaned_exc;
        self.explicit_exclude = cleaned_excl;
        if !self.has_pattern(pattern) {
            self.patterns.push(pattern.to_owned());
            proof {
                assert forall|j1: int, j2: int|
                    0 <= j1 < j2 < self.patterns@.len() implies self.patterns@[j1]@
                    != self.patterns@[j2]@ by {
                    if j2 == self.patterns@.len() - 1 {
                        assert(!pattern_in(old(self).patterns@, pattern@));
                        if self.patterns@[j1]@ == pattern@ {
                            assert(pattern_in(old(self).patterns@, pattern@)) by {
                                assert(old(self).patterns@[j1]@ == pattern@);
                            }
                        }
                    }
                }
                assert forall|t: Seq<char>| #[trigger]
                    pattern_in(self.patterns@, t) implies (pattern_in(old(self).patterns@, t) || t
                    == pattern@) by {
                    let j = choose|j: int|
                        0 <= j < self.patterns@.len() && #[trigger] self.patterns@[j]@ == t;
                    if j < self.patterns@.len() - 1 {
                        assert(old(self).patterns@[j]@ == t);
                    }
                }
                assert forall|t: Seq<char>|
                    (pattern_in(old(self).patterns@, t) || t == pattern@) implies #[trigger]
                    pattern_in(self.patterns@, t) by {
                    if pattern_in(old(self).patterns@, t) {
                        let j = choose|j: int|
                            0 <= j < old(self).patterns@.len() && #[trigger] old(
                                self,
                            ).patterns@[j]@ == t;
                        assert(self.patterns@[j]@ == t);
                    } else {
                        assert(self.patterns@[self.patterns@.len() - 1]@ == t);
                    }
                }
            }
        } else {
            proof {
                assert forall|t: Seq<char>| #[trigger]
                    pattern_in(self.patterns@, t) implies (pattern_in(old(self).patterns@, t) || t
                    == pattern@) by {}
                assert forall|t: Seq<char>|
                    (pattern_in(old(self).patterns@, t) || t == pattern@) implies #[trigger]
                    pattern_in(self.patterns@, t) by {}
            }
        }
        Ok(())
    }

    /// Keeps the ids whose paths the new pattern does not match.
    fn retain_unmatched(&self, ids: &Vec<usize>, pattern: &str) -> (r: Vec<usize>)
        requires
            self.wf(),
            glob_accepts(pattern@),
            id_list_ok(ids@, self.nodes@.len() as int),
        ensures
            forall|x: usize|
                r@.contains(x) <==> (ids@.contains(x) && !glob_matches(
                    pattern@,
                    self.nodes@[x as int].rel_path@,
                )),
            id_list_ok(r@, self.nodes@.len() as int),
    {
        let n = ids.len();
        let mut out: Vec<usize> = Vec::new();
        let mut i: usize = 0;
        while i < n
            invariant
                self.wf(),
                glob_accepts(pattern@),
                id_list_ok(ids@, self.nodes@.len() as int),
                n == ids@.len(),
                0 <= i <= n,
                forall|x: usize|
                    #[trigger] out@.contains(x) <==> (ids@.take(i as int).contains(x)
                        && !glob_matches(pattern@, self.nodes@[x as int].rel_path@)),
                id_list_ok(out@, self.nodes@.len() as int),
            decreases n - i,
        {
            let id = ids[i];
            proof {
                lemma_take_succ(ids@, i as int);
                lemma_push_contains(ids@.take(i as int), ids@[i as int]);
                lemma_distinct_take(ids@, i as int);
            }
            let ghost out0 = out@;
            if !glob_match(pattern, self.nodes[id].rel_path.as_str()) {
                proof {
                    lemma_push_contains(out@, ids@[i as int]);
                }
                out.push(id);
                proof {
                    assert forall|k1: int, k2: int|
                        0 <= k1 < k2 < out@.len() implies out@[k1] != out@[k2] by {
                        if k2 == out@.len() - 1 {
                            assert(out0.contains(out0[k1]));
                        }
                    }
                }
            }
            i += 1;
        }
        proof {
            assert(ids@.take(n as int) =~= ids@);
        }
        out
    }

    /// Rendering data for the entries of `visible` in positions
    /// `start .. end`: the relative path, the effective inclusion and the
    /// indentation depth of each.
    pub fn iter_paths(&self, start: usize, end: usize) -> (r: Vec<FileListIterElement>)
        requires
            self.wf(),
            start <= end <= self.visible@.len(),
        ensures
            r@.len() == end - start,
            forall|i: int|
                0 <= i < r@.len() ==> {
                    let id = self.visible@[start + i];
                    &&& (#[trigger] r@[i]).path@ == self.nodes@[id as int].rel_path@
                    &&& r@[i].included == self.included(id)
                    &&& r@[i].depth == self.nodes@[id as int].depth
                },
    {
        let nodes_len = self.nodes.len();
        proof {
            lemma_flat_roots_anc(self.nodes@, self.root_count as int, 0);
        }
        let mut out: Vec<FileListIterElement> = Vec::new();
        let mut i: usize = start;
        while i < end
            invariant
                self.wf(),
                start <= i <= end <= self.visible@.len(),
                out@.len() == i - start,
                forall|j: int|
                    0 <= j < out@.len() ==> {
                        let id = self.visible@[start + j];
                        &&& (#[trigger] out@[j]).path@ == self.nodes@[id as int].rel_path@
                        &&& out@[j].included == self.included(id)
                        &&& out@[j].depth == self.nodes@[id as int].depth
                    },
            decreases end - i,
        {
            let nodes_len2 = self.nodes.len();
            proof {
                lemma_flat_roots_anc(self.nodes@, self.root_count as int, 0);
            }
            let id = self.visible[i];
            assert(id < self.nodes@.len());
            let included = self.is_included(id);
            out.push(
                FileListIterElement {
                    path: self.nodes[id].rel_path.clone(),
                    included,
                    depth: self.nodes[id].depth,
                },
            );
            i += 1;
        }
        out
    }

    /// Finds the first node whose relative path equals the buffer.
    fn find_node_by_chars(&self, pv: &Vec<char>) -> (r: Option<usize>)
        ensures
            r == find_path(self.nodes@, pv@, 0),
            r matches Some(id) ==> id < self.nodes@.len(),
    {
        let n = self.nodes.len();
        let mut i: usize = 0;
        while i < n
            invariant
                n == self.nodes@.len(),
                0 <= i <= n,
                find_path(self.nodes@, pv@, 0) == find_path(self.nodes@, pv@, i as int),
            decreases n - i,
        {
            let nv = crate::text::chars_of(self.nodes[i].rel_path.as_str());
            if crate::text::eq_chars(&nv, pv) {
                return Some(i);
            }
            i += 1;
        }
        None
    }

    /// Effective inclusion decision for a path buffer, walking up to the
    /// nearest known node.
    fn included_for_chars(&self, pv: Vec<char>) -> (r: bool)
        requires
            self.wf(),
            path_resolvable(*self, pv@),
        ensures
            r == spec_included_path(*self, pv@),
        decreases pv@.len(),
    {
        match self.find_node_by_chars(&pv) {
            Some(id) => self.is_included(id),
            None => {
                let mut cut: usize = 0;
                let mut found = false;
                let n = pv.len();
                let mut i: usize = 0;
                // locate the last separator
                while i < n
                    invariant
                        n == pv@.len(),
                        0 <= i <= n,
                        found ==> (cut < i && pv@[cut as int] == '/' && forall|j: int|
                            cut < j < i ==> pv@[j] != '/'),
                        !found ==> forall|j: int| 0 <= j < i ==> pv@[j] != '/',
                    decreases n - i,
                {
                    if pv[i] == '/' {
                        cut = i;
                        found = true;
                    }
                    i += 1;
                }
                proof {
                    lemma_last_slash(pv@, found, cut as int);
                }
                if !found {
                    proof {
                        assert(false);
                    }
                    return true;
                }
                let mut pv2 = pv;
                pv2.truncate(cut);
                self.included_for_chars(pv2)
            },
        }
    }

    /// Whether walking up the path's components reaches a known node.
    fn resolves_chars(&self, pv: Vec<char>) -> (r: bool)
        ensures
            r == path_resolvable(*self, pv@),
        decreases pv@.len(),
    {
        match self.find_node_by_chars(&pv) {
            Some(_) => true,
            None => {
                let mut cut: usize = 0;
                let mut found = false;
                let n = pv.len();
                let mut i: usize = 0;
                // locate the last separator
                while i < n
                    invariant
                        n == pv@.len(),
                        0 <= i <= n,
                        found ==> (cut < i && pv@[cut as int] == '/' && forall|j: int|
                            cut < j < i ==> pv@[j] != '/'),
                        !found ==> forall|j: int| 0 <= j < i ==> pv@[j] != '/',
                    decreases n - i,
                {
                    if pv[i] == '/' {
                        cut = i;
                        found = true;
                    }
                    i += 1;
                }
                proof {
                    lemma_last_slash(pv@, found, cut as int);
                }
                if !found {
                    return false;
                }
                let mut pv2 = pv;
                pv2.truncate(cut);
                self.resolves_chars(pv2)
            },
        }
    }

    /// Whether an inclusion decision exists for this path: some prefix of
    /// its components names a known node. Paths discovered under the base
    /// directory always resolve, since the base's children are indexed on
    /// construction; a path that appeared after that listing may not.
    pub fn resolves(&self, path: &str) -> (r: bool)
        ensures
            r == path_resolvable(*self, path@),
    {
        let pv = crate::text::chars_of(path);
        self.resolves_chars(pv)
    }

    /// Effective inclusion of a path relative to the base directory, for use
    /// during replication: a known node decides for itself; an unknown path
    /// follows its nearest known ancestor.
    pub fn is_included_for_path(&self, path: &str) -> (r: bool)
        requires
            self.wf(),
            path_resolvable(*self, path@),
        ensures
            r == spec_included_path(*self, path@),
    {
        let pv = crate::text::chars_of(path);
        self.included_for_chars(pv)
    }

    /// The memoizing variant used during replication, where many entries
    /// under the same directories are queried: a hit answers from the memo;
    /// a miss computes the answer and, when the path is a directory worth
    /// remembering (`cache`), records it. Callers sharing the memo across
    /// workers serialize access to it around this call.
    pub fn is_included_memoized(&self, path: &str, cache: bool, memo: &mut Vec<(String, bool)>) -> (r: bool)
        requires
            self.wf(),
            path_resolvable(*self, path@),
            memo_consistent(*self, old(memo)@),
        ensures
            r == spec_included_path(*self, path@),
            memo_consistent(*self, final(memo)@),
            forall|k: int| 0 <= k < old(memo)@.len() ==> final(memo)@[k] == old(memo)@[k],
            memo_has(old(memo)@, path@) || !cache ==> final(memo)@ == old(memo)@,
            !memo_has(old(memo)@, path@) && cache ==> final(memo)@.len() == old(memo)@.len() + 1
                && final(memo)@.last().0@ == path@ && final(memo)@.last().1 == r,
    {
        let n = memo.len();
        let mut j: usize = 0;
        while j < n
            invariant
                self.wf(),
                n == memo@.len(),
                memo@ == old(memo)@,
                memo_consistent(*self, memo@),
                0 <= j <= n,
                forall|k: int| 0 <= k < j ==> (#[trigger] memo@[k]).0@ != path@,
            decreases n - j,
        {
            let hit = {
                let entry_path = crate::text::chars_of(memo[j].0.as_str());
                let query = crate::text::chars_of(path);
                crate::text::eq_chars(&entry_path, &query)
            };
            if hit {
                assert(memo_entry_ok(*self, memo@[j as int]));
                assert(memo_has(memo@, path@)) by {
                    assert(memo@[j as int].0@ == path@);
                }
                return memo[j].1;
            }
            j += 1;
        }
        proof {
            assert(!memo_has(memo@, path@)) by {
                if memo_has(memo@, path@) {
                    let k = choose|k: int|
                        0 <= k < memo@.len() && (#[trigger] memo@[k]).0@ == path@;
                    assert(false);
                }
            }
        }
        let answer = self.is_included_for_path(path);
        if cache {
            let ghost memo_pre = memo@;
            memo.push((path.to_owned(), answer));
            proof {
                assert forall|k: int|
                    0 <= k < memo@.len() implies memo_entry_ok(*self, #[trigger] memo@[k]) by {
                    if k < memo_pre.len() {
                        assert(memo@[k] == memo_pre[k]);
                    }
                }
            }
        }
        answer
    }
}

/// Whether the memo already holds an entry for this path.
pub open spec fn memo_has(memo: Seq<(String, bool)>, path: Seq<char>) -> bool {
    exists|k: int| 0 <= k < memo.len() && (#[trigger] memo[k]).0@ == path
}

/// One memo entry is consistent: it records the effective inclusion of the
/// path it names.
pub open spec fn memo_entry_ok(s: FileList, entry: (String, bool)) -> bool {
    entry.1 == spec_included_path(s, entry.0@)
}

/// A memo is consistent when every entry is.
pub open spec fn memo_consistent(s: FileList, memo: Seq<(String, bool)>) -> bool {
    forall|k: int| 0 <= k < memo.len() ==> memo_entry_ok(s, #[trigger] memo[k])
}

/// Connects a left-to-right scan for the last separator with `last_slash`.
proof fn lemma_last_slash(path: Seq<char>, found: bool, cut: int)
    requires
        found ==> (0 <= cut < path.len() && path[cut] == '/' && forall|j: int|
            cut < j < path.len() ==> path[j] != '/'),
        !found ==> forall|j: int| 0 <= j < path.len() ==> path[j] != '/',
    ensures
        found ==> last_slash(path) == cut,
        !found ==> last_slash(path) == -1,
    decreases path.len(),
{
    if path.len() == 0 {
    } else if path[path.len() - 1] == '/' {
        if !found {
            assert(false);
        }
        assert(cut == path.len() - 1);
    } else {
        if found {
            assert(cut < path.len() - 1);
            lemma_last_slash(path.drop_last(), found, cut);
        } else {
            lemma_last_slash(path.drop_last(), found, cut);
        }
    }
}

/// Exception precedence: a node with an active inclusion exception is
/// included, regardless of any exclusion that ancestors or patterns would
/// impose.
pub proof fn lemma_exception_precedence(s: FileList, id: usize)
    requires
        s.wf(),
        id < s.nodes@.len(),
        s.explicit_exception@.contains(id),
    ensures
        s.included(id),
{
}

/// Inclusion depends on the two explicit mark lists only through
/// membership.
proof fn lemma_spec_included_marks(
    nodes: Seq<TreeNode>,
    exc1: Seq<usize>,
    exc2: Seq<usize>,
    excl1: Seq<usize>,
    excl2: Seq<usize>,
    pats: Seq<String>,
    id: usize,
)
    requires
        id < nodes.len(),
        forall|i: int| 0 <= i < nodes.len() ==> #[trigger] node_ok(nodes, i),
        forall|x: usize| #[trigger] exc1.contains(x) <==> exc2.contains(x),
        forall|x: usize| #[trigger] excl1.contains(x) <==> excl2.contains(x),
    ensures
        spec_included(nodes, exc1, excl1, pats, id) == spec_included(nodes, exc2, excl2, pats, id),
    decreases id,
{
    assert(node_ok(nodes, id as int));
    match nodes[id as int].parent {
        None => {},
        Some(p) => {
            lemma_spec_included_marks(nodes, exc1, exc2, excl1, excl2, pats, p);
        },
    }
}

/// Membership in a mark list with one id dropped.
proof fn lemma_marks_without(ids: Seq<usize>, c: usize)
    ensures
        forall|y: usize|
            #[trigger] marks_without(ids, c).contains(y) <==> (ids.contains(y) && y != c),
    decreases ids.len(),
{
    reveal_with_fuel(Seq::filter, 2);
    let pred = |x: usize| x != c;
    if ids.len() == 0 {
        assert forall|y: usize|
            #[trigger] marks_without(ids, c).contains(y) <==> (ids.contains(y) && y != c) by {
            assert(!ids.contains(y));
        }
    } else {
        let prefix = ids.drop_last();
        let l = ids.last();
        lemma_marks_without(prefix, c);
        lemma_push_contains(prefix, l);
        assert(prefix.push(l) =~= ids);
        if l != c {
            assert(marks_without(ids, c) == marks_without(prefix, c).push(l));
            lemma_push_contains(marks_without(prefix, c), l);
        } else {
            assert(marks_without(ids, c) == marks_without(prefix, c));
        }
    }
}

/// Inclusion depends on the explicit sets and the pattern set only through
/// membership: states agreeing on those decide every node alike.
proof fn lemma_included_congruent(s1: FileList, s2: FileList, id: usize)
    requires
        s1.nodes == s2.nodes,
        id < s1.nodes@.len(),
        forall|i: int| 0 <= i < s1.nodes@.len() ==> #[trigger] node_ok(s1.nodes@, i),
        forall|x: usize|
            #[trigger] s1.explicit_exception@.contains(x) <==> s2.explicit_exception@.contains(x),
        forall|x: usize|
            #[trigger] s1.explicit_exclude@.contains(x) <==> s2.explicit_exclude@.contains(x),
        forall|t: Seq<char>| #[trigger] pattern_in(s1.patterns@, t) <==> pattern_in(s2.patterns@, t),
    ensures
        s1.included(id) == s2.included(id),
    decreases id,
{
    assert(node_ok(s1.nodes@, id as int));
    let path = s1.nodes@[id as int].rel_path@;
    assert(pattern_excluded(s1.patterns@, path) == pattern_excluded(s2.patterns@, path)) by {
        if pattern_excluded(s1.patterns@, path) {
            let j = choose|j: int|
                0 <= j < s1.patterns@.len() && glob_matches(#[trigger] s1.patterns@[j]@, path);
            assert(pattern_in(s1.patterns@, s1.patterns@[j]@));
            assert(pattern_in(s2.patterns@, s1.patterns@[j]@));
            let j2 = choose|j2: int|
                0 <= j2 < s2.patterns@.len() && #[trigger] s2.patterns@[j2]@ == s1.patterns@[j]@;
            assert(glob_matches(s2.patterns@[j2]@, path));
        }
        if pattern_excluded(s2.patterns@, path) {
            let j = choose|j: int|
                0 <= j < s2.patterns@.len() && glob_matches(#[trigger] s2.patterns@[j]@, path);
            assert(pattern_in(s2.patterns@, s2.patterns@[j]@));
            assert(pattern_in(s1.patterns@, s2.patterns@[j]@));
            let j2 = choose|j2: int|
                0 <= j2 < s1.patterns@.len() && #[trigger] s1.patterns@[j2]@ == s2.patterns@[j]@;
            assert(glob_matches(s1.patterns@[j2]@, path));
        }
    }
    match s1.nodes@[id as int].parent {
        None => {},
        Some(p) => {
            lemma_included_congruent(s1, s2, p);
        },
    }
}

/// Pattern idempotence: registering the same pattern text twice yields the
/// same effective inclusion for every node as registering it once.
pub proof fn lemma_pattern_idempotent(
    s1: FileList,
    s2: FileList,
    s3: FileList,
    text: Seq<char>,
    id: usize,
)
    requires
        s1.wf(),
        glob_accepts(text),
        exclude_pattern_rel(s1, s2, text),
        exclude_pattern_rel(s2, s3, text),
        id < s1.nodes@.len(),
    ensures
        s3.included(id) == s2.included(id),
{
    assert forall|x: usize| #[trigger]
        s3.explicit_exception@.contains(x) <==> s2.explicit_exception@.contains(x) by {
        if s2.explicit_exception@.contains(x) {
            assert(!glob_matches(text, s1.nodes@[x as int].rel_path@));
        }
    }
    assert forall|x: usize| #[trigger]
        s3.explicit_exclude@.contains(x) <==> s2.explicit_exclude@.contains(x) by {
        if s2.explicit_exclude@.contains(x) {
            assert(!glob_matches(text, s1.nodes@[x as int].rel_path@));
        }
    }
    assert forall|t: Seq<char>| #[trigger]
        pattern_in(s3.patterns@, t) <==> pattern_in(s2.patterns@, t) by {
        assert(pattern_in(s2.patterns@, text));
    }
    lemma_included_congruent(s2, s3, id);
}

} // verus!
