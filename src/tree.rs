use vstd::prelude::*;

verus! {

/// Most nodes a tree may hold; it keeps every metric's arithmetic inside `u128`.
pub const MAX_NODES: usize = 4294967294;

/// One node of a syntax tree: its grammar kind, whether the grammar names it,
/// its depth below the root and the byte range of the source it covers.
pub struct SyntaxNode {
    pub kind: String,
    pub named: bool,
    pub depth: usize,
    pub start: usize,
    pub end: usize,
}

/// A syntax tree held as its nodes in depth-first (pre-)order; the depths give
/// the shape: the subtree of a node is the run of deeper nodes that follow it.
pub struct SyntaxTree {
    pub nodes: Vec<SyntaxNode>,
}

/// A node as plain values: kind, named, depth, start and end.
pub open spec fn node_view(n: SyntaxNode) -> (Seq<char>, bool, nat, nat, nat) {
    (n.kind@, n.named, n.depth as nat, n.start as nat, n.end as nat)
}

/// Trees whose nodes agree in depth and byte range agree on where each
/// subtree ends.
pub proof fn lemma_scan_end_same_shape(a: SyntaxTree, b: SyntaxTree, i: int, j: int)
    requires
        a.view_nodes() == b.view_nodes(),
    ensures
        a.scan_end(i, j) == b.scan_end(i, j),
    decreases a.nodes@.len() - j,
{
    assert(a.nodes@.len() == a.view_nodes().len());
    assert(b.nodes@.len() == b.view_nodes().len());
    if 0 <= i < j < a.nodes@.len() {
        assert(a.view_nodes()[i] == b.view_nodes()[i]);
        assert(a.view_nodes()[j] == b.view_nodes()[j]);
        lemma_scan_end_same_shape(a, b, i, j + 1);
    }
}

/// Well-formedness depends only on the nodes' plain values.
pub proof fn lemma_wf_same_shape(a: SyntaxTree, b: SyntaxTree)
    requires
        a.view_nodes() == b.view_nodes(),
        b.wf(),
    ensures
        a.wf(),
{
    assert(a.nodes@.len() == a.view_nodes().len());
    assert(b.nodes@.len() == b.view_nodes().len());
    assert(a.view_nodes()[0] == b.view_nodes()[0]);
    assert forall|i: int| 0 <= i < a.nodes@.len() - 1 implies #[trigger] a.step_ok(i) by {
        assert(a.view_nodes()[i] == b.view_nodes()[i]);
        assert(a.view_nodes()[i + 1] == b.view_nodes()[i + 1]);
        assert(b.step_ok(i));
    }
    assert forall|i: int, j: int|
        0 <= i < j < a.subtree_end(i) && j < a.nodes@.len() implies #[trigger] a.nested(i, j) by {
        lemma_scan_end_same_shape(a, b, i, i + 1);
        assert(a.view_nodes()[i] == b.view_nodes()[i]);
        assert(a.view_nodes()[j] == b.view_nodes()[j]);
        assert(b.nested(i, j));
    }
}

impl SyntaxTree {
    pub open spec fn len(&self) -> int {
        self.nodes@.len() as int
    }

    pub open spec fn depth(&self, i: int) -> int {
        self.nodes@[i].depth as int
    }

    pub open spec fn kind(&self, i: int) -> Seq<char> {
        self.nodes@[i].kind@
    }

    /// Going from one node to the next, the depth grows by at most one.
    pub open spec fn step_ok(&self, i: int) -> bool {
        self.nodes@[i + 1].depth <= self.nodes@[i].depth + 1
    }

    /// Node `j` lies within the byte range of node `i`.
    pub open spec fn nested(&self, i: int, j: int) -> bool {
        self.nodes@[i].start <= self.nodes@[j].start && self.nodes@[j].end <= self.nodes@[i].end
    }

    /// A root at depth zero first, depths that step down by at most one
    /// level, each node's byte range inside those of its ancestors, and at
    /// most `MAX_NODES` nodes.
    pub open spec fn wf(&self) -> bool {
        &&& 1 <= self.nodes@.len() <= MAX_NODES
        &&& self.nodes@[0].depth == 0
        &&& forall|i: int| 0 <= i < self.nodes@.len() - 1 ==> #[trigger] self.step_ok(i)
        &&& forall|i: int, j: int|
            0 <= i < j < self.subtree_end(i) && j < self.nodes@.len() ==> #[trigger] self.nested(i, j)
    }

    /// The nodes as plain values: kind, named, depth, start and end.
    pub open spec fn view_nodes(&self) -> Seq<(Seq<char>, bool, nat, nat, nat)> {
        self.nodes@.map_values(|n: SyntaxNode| node_view(n))
    }

    /// Whether the tree is well formed.
    pub fn check_wf(&self) -> (r: bool)
        ensures
            r == self.wf(),
    {
        let n = self.nodes.len();
        if n == 0 || n > MAX_NODES || self.nodes[0].depth != 0 {
            return false;
        }
        let mut i: usize = 0;
        while i + 1 < n
            invariant
                n == self.nodes@.len(),
                1 <= n <= MAX_NODES,
                i < n,
                forall|k: int| 0 <= k < i ==> #[trigger] self.step_ok(k),
            decreases n - i,
        {
            if self.nodes[i + 1].depth > self.nodes[i].depth && self.nodes[i + 1].depth - self.nodes[i].depth > 1 {
                assert(!self.step_ok(i as int));
                return false;
            }
            i += 1;
        }
        let mut i: usize = 0;
        while i < n
            invariant
                n == self.nodes@.len(),
                1 <= n <= MAX_NODES,
                i <= n,
                forall|a: int, b: int|
                    0 <= a < i && a < b < self.subtree_end(a) && b < n ==> #[trigger] self.nested(a, b),
            decreases n - i,
        {
            let e = self.subtree_end_of(i);
            let mut j: usize = i + 1;
            while j < e
                invariant
                    n == self.nodes@.len(),
                    i < j <= e <= n,
                    e == self.subtree_end(i as int),
                    forall|b: int| i < b < j ==> #[trigger] self.nested(i as int, b),
                decreases e - j,
            {
                if self.nodes[j].start < self.nodes[i].start || self.nodes[j].end > self.nodes[i].end {
                    assert(!self.nested(i as int, j as int));
                    return false;
                }
                j += 1;
            }
            i += 1;
        }
        true
    }

    /// Scanning from `j`, the first node that is not below node `i`.
    pub open spec fn scan_end(&self, i: int, j: int) -> int
        decreases self.nodes@.len() - j,
    {
        if 0 <= i < j < self.nodes@.len() && self.depth(j) > self.depth(i) {
            self.scan_end(i, j + 1)
        } else {
            j
        }
    }

    /// One past the last node of the subtree rooted at `i`.
    pub open spec fn subtree_end(&self, i: int) -> int {
        self.scan_end(i, i + 1)
    }

    /// Node `j` is a child of node `i`.
    pub open spec fn is_child(&self, i: int, j: int) -> bool {
        i < j < self.subtree_end(i) && self.depth(j) == self.depth(i) + 1
    }

    /// One past the last node of the subtree rooted at `i`.
    pub fn subtree_end_of(&self, i: usize) -> (e: usize)
        requires
            i < self.nodes@.len(),
        ensures
            e == self.subtree_end(i as int),
            i < e <= self.nodes@.len(),
    {
        let n = self.nodes.len();
        let mut j: usize = i + 1;
        while j < n && self.nodes[j].depth > self.nodes[i].depth
            invariant
                i < j <= self.nodes@.len(),
                n == self.nodes@.len(),
                self.scan_end(i as int, j as int) == self.subtree_end(i as int),
            decreases self.nodes@.len() - j,
        {
            j += 1;
        }
        j
    }
}

/// Number of indices in `lo..hi` at which `p` holds.
pub open spec fn count_where(lo: int, hi: int, p: spec_fn(int) -> bool) -> nat
    decreases hi - lo,
{
    if hi <= lo {
        0
    } else {
        count_where(lo, hi - 1, p) + if p(hi - 1) {
            1nat
        } else {
            0nat
        }
    }
}

/// Sum of `f` over the indices in `lo..hi`.
pub open spec fn sum_over(lo: int, hi: int, f: spec_fn(int) -> int) -> int
    decreases hi - lo,
{
    if hi <= lo {
        0
    } else {
        sum_over(lo, hi - 1, f) + f(hi - 1)
    }
}

pub proof fn lemma_count_bound(lo: int, hi: int, p: spec_fn(int) -> bool)
    requires
        lo <= hi,
    ensures
        count_where(lo, hi, p) <= hi - lo,
    decreases hi - lo,
{
    if lo < hi {
        lemma_count_bound(lo, hi - 1, p);
    }
}

} // verus!
