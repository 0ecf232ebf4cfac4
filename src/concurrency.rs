use vstd::prelude::*;
use crate::metrics::SCALE;
use crate::tree::{SyntaxTree, MAX_NODES};
use vstd::string::StringSliceAdditionalSpecFns;

verus! {

/// `pat` occurs in `text` as a run of consecutive bytes.
pub open spec fn text_contains(text: Seq<u8>, pat: Seq<u8>) -> bool {
    exists|i: int| 0 <= i <= text.len() - pat.len() && #[trigger] text.subrange(i, i + pat.len()) == pat
}

/// Some keyword of the pool occurs in `text`.
pub open spec fn related(text: Seq<u8>, pool: Seq<Seq<u8>>) -> bool {
    exists|k: int| 0 <= k < pool.len() && text_contains(text, #[trigger] pool[k])
}

pub open spec fn pool_view(pool: Seq<Vec<u8>>) -> Seq<Seq<u8>> {
    pool.map_values(|v: Vec<u8>| v@)
}

/// The keywords every scan starts from: thread, async-runtime and
/// data-parallelism markers.
pub open spec fn seed_pool() -> Seq<Seq<u8>> {
    seq![
        "std::thread".spec_bytes(),
        "tokio".spec_bytes(),
        "rayon".spec_bytes(),
        "async".spec_bytes(),
        "await".spec_bytes(),
    ]
}

/// The source bytes a node covers; empty where its range does not fit the source.
pub open spec fn text_of(t: SyntaxTree, src: Seq<u8>, i: int) -> Seq<u8> {
    let n = t.nodes@[i];
    if n.start <= n.end <= src.len() {
        src.subrange(n.start as int, n.end as int)
    } else {
        Seq::empty()
    }
}

fn text_range(t: &SyntaxTree, src: &[u8], i: usize) -> (r: (usize, usize))
    requires
        i < t.nodes@.len(),
    ensures
        r.0 <= r.1 <= src@.len(),
        src@.subrange(r.0 as int, r.1 as int) == text_of(*t, src@, i as int),
{
    let s = t.nodes[i].start;
    let e = t.nodes[i].end;
    if s <= e && e <= src.len() {
        (s, e)
    } else {
        assert(src@.subrange(0, 0) =~= Seq::<u8>::empty());
        (0, 0)
    }
}

fn contains_in(src: &[u8], lo: usize, hi: usize, pat: &Vec<u8>) -> (r: bool)
    requires
        lo <= hi <= src@.len(),
    ensures
        r == text_contains(src@.subrange(lo as int, hi as int), pat@),
{
    let ghost text = src@.subrange(lo as int, hi as int);
    let m = pat.len();
    if m > hi - lo {
        return false;
    }
    let last = hi - lo - m;
    let mut i: usize = 0;
    while i <= last
        invariant
            m == pat@.len(),
            lo <= hi <= src@.len(),
            text == src@.subrange(lo as int, hi as int),
            last == hi - lo - m,
            i <= last + 1,
            forall|q: int| 0 <= q < i ==> #[trigger] text.subrange(q, q + m) != pat@,
        decreases last + 1 - i,
    {
        let mut k: usize = 0;
        while k < m && src[lo + i + k] == pat[k]
            invariant
                m == pat@.len(),
                lo <= hi <= src@.len(),
                i <= last,
                last == hi - lo - m,
                k <= m,
                forall|x: int| 0 <= x < k ==> src@[lo + i + x] == pat@[x],
            decreases m - k,
        {
            k += 1;
        }
        if k == m {
            assert(text.subrange(i as int, i + m) =~= pat@);
            return true;
        }
        assert(text.subrange(i as int, i + m)[k as int] == src@[lo + i + k]);
        i += 1;
    }
    false
}

fn related_in(src: &[u8], lo: usize, hi: usize, pool: &Vec<Vec<u8>>) -> (r: bool)
    requires
        lo <= hi <= src@.len(),
    ensures
        r == related(src@.subrange(lo as int, hi as int), pool_view(pool@)),
{
    let ghost text = src@.subrange(lo as int, hi as int);
    let mut k: usize = 0;
    while k < pool.len()
        invariant
            lo <= hi <= src@.len(),
            text == src@.subrange(lo as int, hi as int),
            k <= pool@.len(),
            forall|j: int| 0 <= j < k ==> !text_contains(text, #[trigger] pool_view(pool@)[j]),
        decreases pool@.len() - k,
    {
        if contains_in(src, lo, hi, &pool[k]) {
            assert(text_contains(text, pool_view(pool@)[k as int]));
            return true;
        }
        k += 1;
    }
    false
}

/// Whether some keyword of the pool occurs in `code`.
pub fn is_concurrency_related(code: &[u8], pool: &Vec<Vec<u8>>) -> (r: bool)
    ensures
        r == related(code@, pool_view(pool@)),
{
    assert(code@.subrange(0, code@.len() as int) =~= code@);
    related_in(code, 0, code.len(), pool)
}

pub(crate) fn copy_range(src: &[u8], lo: usize, hi: usize) -> (r: Vec<u8>)
    requires
        lo <= hi <= src@.len(),
    ensures
        r@ == src@.subrange(lo as int, hi as int),
{
    let mut r: Vec<u8> = Vec::new();
    let mut i: usize = lo;
    while i < hi
        invariant
            lo <= i <= hi <= src@.len(),
            r@ == src@.subrange(lo as int, i as int),
        decreases hi - i,
    {
        r.push(src[i]);
        assert(r@ =~= src@.subrange(lo as int, i + 1));
        i += 1;
    }
    r
}

pub(crate) fn keyword(s: &str) -> (r: Vec<u8>)
    ensures
        r@ == s.spec_bytes(),
{
    let b = s.as_bytes();
    assert(b@.subrange(0, b@.len() as int) =~= b@);
    copy_range(b, 0, b.len())
}

/// Scanning from `j`, the last child of node `c` seen so far, or `best`.
pub open spec fn last_child_from(t: SyntaxTree, c: int, j: int, best: int) -> int
    decreases t.nodes@.len() - j,
{
    if c < j < t.subtree_end(c) && j < t.len() {
        last_child_from(t, c, j + 1, if t.depth(j) == t.depth(c) + 1 { j } else { best })
    } else {
        best
    }
}

/// The pool after the children of use declaration `i` from `j` on: a scoped
/// path that mentions a keyword adds the text of its last segment.
pub open spec fn use_pool(t: SyntaxTree, src: Seq<u8>, i: int, j: int, pool: Seq<Seq<u8>>) -> Seq<Seq<u8>>
    decreases t.nodes@.len() - j,
{
    if i < j < t.subtree_end(i) && j < t.len() {
        let next = if t.depth(j) == t.depth(i) + 1 && t.kind(j) == "scoped_identifier"@ && related(
            text_of(t, src, j),
            pool,
        ) {
            let l = last_child_from(t, j, j + 1, -1);
            if 0 <= l < t.len() {
                pool.push(text_of(t, src, l))
            } else {
                pool
            }
        } else {
            pool
        };
        use_pool(t, src, i, j + 1, next)
    } else {
        pool
    }
}

/// Identifiers and scoped identifiers under `root` that mention a keyword,
/// scanning from `j`. After a match the scan leaves that subtree and does not
/// look at the node that follows it either, only below it.
pub open spec fn hits_from(t: SyntaxTree, src: Seq<u8>, pool: Seq<Seq<u8>>, root: int, j: int) -> int
    decreases t.nodes@.len() + 1 - j,
{
    if 0 <= root <= j < t.subtree_end(root) && j < t.len() {
        if (t.kind(j) == "scoped_identifier"@ || t.kind(j) == "identifier"@) && related(
            text_of(t, src, j),
            pool,
        ) {
            let e = t.subtree_end(j);
            if j < e <= t.len() {
                1 + hits_from(t, src, pool, root, e + 1)
            } else {
                1
            }
        } else {
            hits_from(t, src, pool, root, j + 1)
        }
    } else {
        0
    }
}

/// Keyword pool and count after the nodes before `i`.
pub open spec fn scan(t: SyntaxTree, src: Seq<u8>, i: int) -> (Seq<Seq<u8>>, int)
    decreases i,
{
    if i <= 0 {
        (seed_pool(), 0)
    } else {
        let (pool, count) = scan(t, src, i - 1);
        let k = i - 1;
        if t.kind(k) == "use_declaration"@ {
            (use_pool(t, src, k, k + 1, pool), count)
        } else if t.kind(k) == "async_block"@ {
            (pool, count + 1)
        } else if (t.kind(k) == "call_expression"@ || t.kind(k) == "macro_invocation"@) && related(
            text_of(t, src, k),
            pool,
        ) {
            (pool, count + hits_from(t, src, pool, k, k))
        } else {
            (pool, count)
        }
    }
}

fn find_parallel_call_in_call_macro(t: &SyntaxTree, src: &[u8], root: usize, pool: &Vec<Vec<u8>>) -> (r: u128)
    requires
        t.wf(),
        root < t.nodes@.len(),
    ensures
        r == hits_from(*t, src@, pool_view(pool@), root as int, root as int),
        r <= t.nodes@.len() + 1,
{
    let e_root = t.subtree_end_of(root);
    let sk = "scoped_identifier".to_owned();
    let ik = "identifier".to_owned();
    let mut j: usize = root;
    let mut c: u128 = 0;
    while j < e_root
        invariant
            t.wf(),
            root <= j <= t.nodes@.len() + 1,
            e_root == t.subtree_end(root as int),
            e_root <= t.nodes@.len(),
            sk@ == "scoped_identifier"@,
            ik@ == "identifier"@,
            c + hits_from(*t, src@, pool_view(pool@), root as int, j as int) == hits_from(
                *t,
                src@,
                pool_view(pool@),
                root as int,
                root as int,
            ),
            c <= j - root,
        decreases t.nodes@.len() + 1 - j,
    {
        let mut hit = false;
        if t.nodes[j].kind == sk || t.nodes[j].kind == ik {
            let (lo, hi) = text_range(t, src, j);
            hit = related_in(src, lo, hi, pool);
        }
        if hit {
            let e = t.subtree_end_of(j);
            assert(e <= MAX_NODES);
            c = c + 1;
            j = e + 1;
        } else {
            j += 1;
        }
    }
    c
}

fn last_child(t: &SyntaxTree, c: usize) -> (r: Option<usize>)
    requires
        t.wf(),
        c < t.nodes@.len(),
    ensures
        match r {
            Some(l) => l == last_child_from(*t, c as int, c + 1, -1) && l < t.nodes@.len(),
            None => !(0 <= last_child_from(*t, c as int, c + 1, -1) < t.len()),
        },
{
    let e = t.subtree_end_of(c);
    let mut best: Option<usize> = None;
    let mut j: usize = c + 1;
    while j < e
        invariant
            c < j <= e <= t.nodes@.len(),
            e == t.subtree_end(c as int),
            last_child_from(*t, c as int, j as int, match best { Some(b) => b as int, None => -1 })
                == last_child_from(*t, c as int, c + 1, -1),
            best matches Some(b) ==> b < t.nodes@.len(),
        decreases e - j,
    {
        if t.nodes[j].depth == t.nodes[c].depth + 1 {
            best = Some(j);
        }
        j += 1;
    }
    best
}

fn add_use_imports(t: &SyntaxTree, src: &[u8], i: usize, pool: &mut Vec<Vec<u8>>)
    requires
        t.wf(),
        i < t.nodes@.len(),
    ensures
        pool_view(final(pool)@) == use_pool(*t, src@, i as int, i + 1, pool_view(old(pool)@)),
{
    let ghost start = pool_view(pool@);
    let e = t.subtree_end_of(i);
    let sk = "scoped_identifier".to_owned();
    let mut j: usize = i + 1;
    while j < e
        invariant
            t.wf(),
            i < j <= e <= t.nodes@.len(),
            e == t.subtree_end(i as int),
            sk@ == "scoped_identifier"@,
            use_pool(*t, src@, i as int, j as int, pool_view(pool@)) == use_pool(*t, src@, i as int, i + 1, start),
        decreases e - j,
    {
        if t.nodes[j].depth == t.nodes[i].depth + 1 && t.nodes[j].kind == sk {
            let (lo, hi) = text_range(t, src, j);
            if related_in(src, lo, hi, pool) {
                match last_child(t, j) {
                    Some(l) => {
                        let (a, b) = text_range(t, src, l);
                        let name = copy_range(src, a, b);
                        let ghost before = pool_view(pool@);
                        pool.push(name);
                        assert(pool_view(pool@) =~= before.push(text_of(*t, src@, l as int)));
                    },
                    None => {},
                }
            }
        }
        j += 1;
    }
}

/// Counts uses of concurrency: each async block once, and in each call or
/// macro invocation whose text mentions a keyword, the identifiers that
/// mention one (the first per subtree). A use declaration whose path mentions
/// a keyword adds the name it binds to the keywords.
pub fn parallel_calls(tree: &SyntaxTree, src: &[u8]) -> (r: (String, u128))
    requires
        tree.wf(),
    ensures
        r.0@ == "parallel_calls"@,
        r.1 == scan(*tree, src@, tree.len()).1 * SCALE,
{
    let n = tree.nodes.len();
    let mut pool: Vec<Vec<u8>> = Vec::new();
    pool.push(keyword("std::thread"));
    pool.push(keyword("tokio"));
    pool.push(keyword("rayon"));
    pool.push(keyword("async"));
    pool.push(keyword("await"));
    assert(pool_view(pool@) =~= seed_pool());
    let uk = "use_declaration".to_owned();
    let ak = "async_block".to_owned();
    let ck = "call_expression".to_owned();
    let mk = "macro_invocation".to_owned();
    let mut count: u128 = 0;
    let mut i: usize = 0;
    while i < n
        invariant
            tree.wf(),
            n == tree.nodes@.len(),
            i <= n,
            uk@ == "use_declaration"@,
            ak@ == "async_block"@,
            ck@ == "call_expression"@,
            mk@ == "macro_invocation"@,
            scan(*tree, src@, i as int) == (pool_view(pool@), count as int),
            count <= i * (n + 1),
        decreases n - i,
    {
        proof {
            assert((i + 1) * (n + 1) == i * (n + 1) + n + 1) by (nonlinear_arith);
            assert((i + 1) * (n + 1) <= 4294967295 * 4294967296) by (nonlinear_arith)
                requires
                    i < n,
                    n <= 4294967295,
            ;
        }
        if tree.nodes[i].kind == uk {
            add_use_imports(tree, src, i, &mut pool);
        } else if tree.nodes[i].kind == ak {
            count = count + 1;
        } else if tree.nodes[i].kind == ck || tree.nodes[i].kind == mk {
            let (lo, hi) = text_range(tree, src, i);
            if related_in(src, lo, hi, &pool) {
                let h = find_parallel_call_in_call_macro(tree, src, i, &pool);
                count = count + h;
            }
        }
        i += 1;
    }
    proof {
        assert(count * SCALE <= u128::MAX) by (nonlinear_arith)
            requires
                count <= n * (n + 1),
                n <= 4294967295,
                SCALE == 1000000,
        ;
    }
    ("parallel_calls".to_owned(), count * SCALE)
}

} // verus!
