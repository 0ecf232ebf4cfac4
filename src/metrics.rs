use vstd::prelude::*;
use vstd::arithmetic::div_mod::{lemma_div_is_ordered, lemma_div_multiples_vanish};
use crate::tree::{count_where, lemma_count_bound, sum_over, SyntaxTree, MAX_NODES};

verus! {

/// Metric values are fixed-point numbers: this many units make one.
pub const SCALE: u128 = 1000000;

pub open spec fn of_kinds(t: SyntaxTree, a: Seq<char>, b: Seq<char>) -> spec_fn(int) -> bool {
    |i: int| t.kind(i) == a || t.kind(i) == b
}

/// Number of nodes in `lo..hi` whose kind is `a` or `b`.
pub open spec fn count_kinds(t: SyntaxTree, a: Seq<char>, b: Seq<char>, lo: int, hi: int) -> nat {
    count_where(lo, hi, of_kinds(t, a, b))
}

/// `num / den` in fixed point, or zero where `den` is zero.
pub open spec fn ratio(num: int, den: int) -> int {
    if den == 0 {
        0
    } else {
        num * SCALE / den
    }
}

pub proof fn lemma_subtree_deeper(t: SyntaxTree, i: int, j: int)
    requires
        0 <= i < j,
    ensures
        forall|k: int| j <= k < t.scan_end(i, j) ==> #[trigger] t.depth(k) > t.depth(i),
    decreases t.nodes@.len() - j,
{
    if j < t.len() && t.depth(j) > t.depth(i) {
        lemma_subtree_deeper(t, i, j + 1);
    }
}

/// Counts the nodes in `lo..hi` whose kind is `a` or `b`.
pub fn count_kinds_in(t: &SyntaxTree, a: &String, b: &String, lo: usize, hi: usize) -> (r: usize)
    requires
        lo <= hi <= t.nodes@.len(),
    ensures
        r == count_kinds(*t, a@, b@, lo as int, hi as int),
{
    let mut r: usize = 0;
    let mut i: usize = lo;
    while i < hi
        invariant
            lo <= i <= hi <= t.nodes@.len(),
            r == count_kinds(*t, a@, b@, lo as int, i as int),
        decreases hi - i,
    {
        proof {
            lemma_count_bound(lo as int, i as int, of_kinds(*t, a@, b@));
        }
        if t.nodes[i].kind == *a || t.nodes[i].kind == *b {
            r = r + 1;
        }
        i += 1;
    }
    r
}

fn fixed_ratio(num: u128, den: u128) -> (r: u128)
    requires
        num <= 1267650600228229401496703205376,
    ensures
        r == ratio(num as int, den as int),
{
    if den == 0 {
        0
    } else {
        assert(num * 1000000 <= u128::MAX) by (nonlinear_arith)
            requires
                num <= 1267650600228229401496703205376,
        ;
        num * SCALE / den
    }
}

/// The number of nodes, the root included.
pub fn count_nodes(tree: &SyntaxTree, src: &[u8]) -> (r: (String, u128))
    requires
        tree.wf(),
    ensures
        r.0@ == "Node count"@,
        r.1 == tree.nodes@.len() * SCALE,
{
    let n = tree.nodes.len() as u128;
    ("Node count".to_owned(), n * SCALE)
}

/// The number of nodes, the root included, under the name `node_count`.
pub fn node_type(tree: &SyntaxTree, src: &[u8]) -> (r: (String, u128))
    requires
        tree.wf(),
    ensures
        r.0@ == "node_count"@,
        r.1 == tree.nodes@.len() * SCALE,
{
    let n = tree.nodes.len() as u128;
    ("node_count".to_owned(), n * SCALE)
}

/// One per file, so that summing counts the files.
pub fn file_number(tree: &SyntaxTree, src: &[u8]) -> (r: (String, u128))
    ensures
        r.0@ == "file_number"@,
        r.1 == SCALE,
{
    ("file_number".to_owned(), SCALE)
}

/// Macro invocations plus one over macro definitions plus one, or zero where
/// the file has neither.
pub open spec fn macro_value(calls: int, defs: int) -> int {
    if calls == 0 && defs == 0 {
        0
    } else {
        ratio(calls + 1, defs + 1)
    }
}

/// Ratio of macro invocations to macro definitions, each plus one; zero where
/// the file has neither.
pub fn macro_count(tree: &SyntaxTree, src: &[u8]) -> (r: (String, u128))
    requires
        tree.wf(),
    ensures
        r.0@ == "macro"@,
        r.1 == macro_value(
            count_kinds(*tree, "macro_invocation"@, "macro_invocation"@, 0, tree.len()) as int,
            count_kinds(*tree, "macro_definition"@, "macro_definition"@, 0, tree.len()) as int,
        ),
        count_kinds(*tree, "macro_invocation"@, "macro_invocation"@, 0, tree.len()) == 0
            && count_kinds(*tree, "macro_definition"@, "macro_definition"@, 0, tree.len()) == 0
            ==> r.1 == 0,
{
    let n = tree.nodes.len();
    let inv = "macro_invocation".to_owned();
    let def = "macro_definition".to_owned();
    let calls = count_kinds_in(tree, &inv, &inv, 0, n);
    let defs = count_kinds_in(tree, &def, &def, 0, n);
    let v = if calls == 0 && defs == 0 {
        0
    } else {
        fixed_ratio(calls as u128 + 1, defs as u128 + 1)
    };
    ("macro".to_owned(), v)
}


/// Scanning from `j`, the first child of node `i` whose kind is `k`, or -1.
pub open spec fn first_child_of_kind(t: SyntaxTree, i: int, k: Seq<char>, j: int) -> int
    decreases t.nodes@.len() - j,
{
    if i < j < t.subtree_end(i) && j < t.len() {
        if t.depth(j) == t.depth(i) + 1 && t.kind(j) == k {
            j
        } else {
            first_child_of_kind(t, i, k, j + 1)
        }
    } else {
        -1
    }
}

pub open spec fn named_child_of(t: SyntaxTree, p: int) -> spec_fn(int) -> bool {
    |j: int| t.depth(j) == t.depth(p) + 1 && t.nodes@[j].named
}

/// Named children of the first `parameters` child of node `i`.
pub open spec fn param_count(t: SyntaxTree, i: int) -> int {
    let p = first_child_of_kind(t, i, "parameters"@, i + 1);
    if p < 0 {
        0
    } else {
        count_where(p + 1, t.subtree_end(p), named_child_of(t, p)) as int
    }
}

pub open spec fn params_term(t: SyntaxTree) -> spec_fn(int) -> int {
    |i: int|
        if t.kind(i) == "function_item"@ {
            param_count(t, i)
        } else {
            0
        }
}

fn count_function_parameters(t: &SyntaxTree, i: usize) -> (r: u128)
    requires
        t.wf(),
        i < t.nodes@.len(),
    ensures
        r == param_count(*t, i as int),
        r <= t.nodes@.len(),
{
    let e = t.subtree_end_of(i);
    let params = "parameters".to_owned();
    let mut j: usize = i + 1;
    while j < e && !(t.nodes[j].depth == t.nodes[i].depth + 1 && t.nodes[j].kind == params)
        invariant
            t.wf(),
            i < j <= e <= t.nodes@.len(),
            e == t.subtree_end(i as int),
            first_child_of_kind(*t, i as int, params@, j as int) == first_child_of_kind(
                *t,
                i as int,
                params@,
                i + 1,
            ),
        decreases e - j,
    {
        j += 1;
    }
    if j >= e {
        return 0;
    }
    let p = j;
    let pe = t.subtree_end_of(p);
    let mut c: u128 = 0;
    let mut q: usize = p + 1;
    while q < pe
        invariant
            p < q <= pe <= t.nodes@.len(),
            pe == t.subtree_end(p as int),
            c == count_where(p + 1, q as int, named_child_of(*t, p as int)),
            c <= q - p - 1,
        decreases pe - q,
    {
        if t.nodes[q].depth == t.nodes[p].depth + 1 && t.nodes[q].named {
            c = c + 1;
        }
        q += 1;
    }
    c
}

/// Declared parameters per function definition, averaged over the file; zero
/// where it defines no function.
pub fn avg_args(tree: &SyntaxTree, src: &[u8]) -> (r: (String, u128))
    requires
        tree.wf(),
    ensures
        r.0@ == "avg_args"@,
        r.1 == ratio(
            sum_over(0, tree.len(), params_term(*tree)),
            count_kinds(*tree, "function_item"@, "function_item"@, 0, tree.len()) as int,
        ),
        count_kinds(*tree, "function_item"@, "function_item"@, 0, tree.len()) == 0 ==> r.1 == 0,
{
    let n = tree.nodes.len();
    let fk = "function_item".to_owned();
    let mut functions: u128 = 0;
    let mut total: u128 = 0;
    let mut i: usize = 0;
    while i < n
        invariant
            tree.wf(),
            n == tree.nodes@.len(),
            i <= n,
            fk@ == "function_item"@,
            functions == count_kinds(*tree, fk@, fk@, 0, i as int),
            functions <= i,
            total == sum_over(0, i as int, params_term(*tree)),
            total <= i * n,
        decreases n - i,
    {
        if tree.nodes[i].kind == fk {
            functions = functions + 1;
            let c = count_function_parameters(tree, i);
            proof {
                assert((i + 1) * n == i * n + n) by (nonlinear_arith);
                assert((i + 1) * n <= 18446744065119617025) by (nonlinear_arith)
                    requires
                        i < n,
                        n <= 4294967295,
                ;
            }
            total = total + c;
        }
        proof {
            assert((i + 1) * n == i * n + n) by (nonlinear_arith);
        }
        i += 1;
    }
    proof {
        assert(total <= MAX_NODES * MAX_NODES) by (nonlinear_arith)
            requires
                total <= n * n,
                n <= MAX_NODES,
        ;
    }
    ("avg_args".to_owned(), fixed_ratio(total, functions))
}


pub open spec fn members_term(t: SyntaxTree) -> spec_fn(int) -> int {
    |i: int|
        if t.kind(i) == "struct_item"@ || t.kind(i) == "enum_item"@ {
            count_kinds(t, "field_declaration"@, "enum_variant"@, i, t.subtree_end(i)) as int
        } else {
            0
        }
}

/// Struct fields and enum variants per struct or enum declaration, averaged
/// over the file; zero where it declares none.
pub fn field_count(tree: &SyntaxTree, src: &[u8]) -> (r: (String, u128))
    requires
        tree.wf(),
    ensures
        r.0@ == "fields"@,
        r.1 == ratio(
            sum_over(0, tree.len(), members_term(*tree)),
            count_kinds(*tree, "struct_item"@, "enum_item"@, 0, tree.len()) as int,
        ),
{
    let n = tree.nodes.len();
    let sk = "struct_item".to_owned();
    let ek = "enum_item".to_owned();
    let fd = "field_declaration".to_owned();
    let ev = "enum_variant".to_owned();
    let mut types: u128 = 0;
    let mut total: u128 = 0;
    let mut i: usize = 0;
    while i < n
        invariant
            tree.wf(),
            n == tree.nodes@.len(),
            i <= n,
            sk@ == "struct_item"@,
            ek@ == "enum_item"@,
            fd@ == "field_declaration"@,
            ev@ == "enum_variant"@,
            types == count_kinds(*tree, sk@, ek@, 0, i as int),
            types <= i,
            total == sum_over(0, i as int, members_term(*tree)),
            total <= i * n,
        decreases n - i,
    {
        if tree.nodes[i].kind == sk || tree.nodes[i].kind == ek {
            types = types + 1;
            let e = tree.subtree_end_of(i);
            let c = count_kinds_in(tree, &fd, &ev, i, e);
            proof {
                lemma_count_bound(i as int, e as int, of_kinds(*tree, fd@, ev@));
                assert((i + 1) * n == i * n + n) by (nonlinear_arith);
                assert((i + 1) * n <= 18446744065119617025) by (nonlinear_arith)
                    requires
                        i < n,
                        n <= 4294967295,
                ;
            }
            total = total + c as u128;
        }
        proof {
            assert((i + 1) * n == i * n + n) by (nonlinear_arith);
        }
        i += 1;
    }
    proof {
        assert(total <= MAX_NODES * MAX_NODES) by (nonlinear_arith)
            requires
                total <= n * n,
                n <= MAX_NODES,
        ;
    }
    ("fields".to_owned(), fixed_ratio(total, types))
}

/// Function items under node `i`, scanning from `j`; the scan does not look
/// inside a function item once it has counted it.
pub open spec fn methods_from(t: SyntaxTree, i: int, j: int) -> int
    decreases t.nodes@.len() - j,
{
    if 0 <= j < t.subtree_end(i) && j < t.len() {
        if t.kind(j) == "function_item"@ {
            let e = t.subtree_end(j);
            if j < e <= t.len() {
                1 + methods_from(t, i, e)
            } else {
                1
            }
        } else {
            methods_from(t, i, j + 1)
        }
    } else {
        0
    }
}

pub open spec fn methods_term(t: SyntaxTree) -> spec_fn(int) -> int {
    |i: int|
        if t.kind(i) == "impl_item"@ {
            methods_from(t, i, i)
        } else {
            0
        }
}

fn find_methods(t: &SyntaxTree, i: usize) -> (r: u128)
    requires
        t.wf(),
        i < t.nodes@.len(),
    ensures
        r == methods_from(*t, i as int, i as int),
        r <= t.nodes@.len(),
{
    let e = t.subtree_end_of(i);
    let fk = "function_item".to_owned();
    let mut j: usize = i;
    let mut c: u128 = 0;
    while j < e
        invariant
            i <= j <= t.nodes@.len(),
            e == t.subtree_end(i as int),
            e <= t.nodes@.len(),
            fk@ == "function_item"@,
            c + methods_from(*t, i as int, j as int) == methods_from(*t, i as int, i as int),
            c <= j - i,
        decreases t.nodes@.len() - j,
    {
        if t.nodes[j].kind == fk {
            let je = t.subtree_end_of(j);
            c = c + 1;
            j = je;
        } else {
            j += 1;
        }
    }
    c
}

/// Function items inside impl blocks, over the number of struct
/// declarations of the file; zero where it declares no struct.
pub fn struct_methods(tree: &SyntaxTree, src: &[u8]) -> (r: (String, u128))
    requires
        tree.wf(),
    ensures
        r.0@ == "struct_methods"@,
        r.1 == ratio(
            sum_over(0, tree.len(), methods_term(*tree)),
            count_kinds(*tree, "struct_item"@, "struct_item"@, 0, tree.len()) as int,
        ),
{
    let n = tree.nodes.len();
    let sk = "struct_item".to_owned();
    let ik = "impl_item".to_owned();
    let mut structs: u128 = 0;
    let mut total: u128 = 0;
    let mut i: usize = 0;
    while i < n
        invariant
            tree.wf(),
            n == tree.nodes@.len(),
            i <= n,
            sk@ == "struct_item"@,
            ik@ == "impl_item"@,
            structs == count_kinds(*tree, sk@, sk@, 0, i as int),
            structs <= i,
            total == sum_over(0, i as int, methods_term(*tree)),
            total <= i * n,
        decreases n - i,
    {
        if tree.nodes[i].kind == sk {
            proof {
                reveal_strlit("struct_item");
                reveal_strlit("impl_item");
                assert("struct_item"@.len() != "impl_item"@.len());
                assert(methods_term(*tree)(i as int) == 0);
            }
            structs = structs + 1;
        } else if tree.nodes[i].kind == ik {
            let c = find_methods(tree, i);
            proof {
                assert((i + 1) * n == i * n + n) by (nonlinear_arith);
                assert((i + 1) * n <= 18446744065119617025) by (nonlinear_arith)
                    requires
                        i < n,
                        n <= 4294967295,
                ;
            }
            total = total + c;
        }
        proof {
            assert((i + 1) * n == i * n + n) by (nonlinear_arith);
        }
        i += 1;
    }
    proof {
        assert(total <= MAX_NODES * MAX_NODES) by (nonlinear_arith)
            requires
                total <= n * n,
                n <= MAX_NODES,
        ;
    }
    ("struct_methods".to_owned(), fixed_ratio(total, structs))
}

pub open spec fn depth_term(t: SyntaxTree, i: int) -> spec_fn(int) -> int {
    |j: int| t.depth(j) - t.depth(i) + 1
}

/// Mean depth of the nodes of the subtree at `i`, its root at depth one, in
/// fixed point.
pub open spec fn mean_depth(t: SyntaxTree, i: int) -> int {
    ratio(sum_over(i, t.subtree_end(i), depth_term(t, i)), t.subtree_end(i) - i)
}

pub open spec fn mean_term(t: SyntaxTree) -> spec_fn(int) -> int {
    |i: int|
        if t.kind(i) == "function_item"@ {
            mean_depth(t, i)
        } else {
            0
        }
}

/// The value of `fn_avg_depth`: the mean of the functions' mean depths.
pub open spec fn fn_avg_depth_value(t: SyntaxTree) -> int {
    let f = count_kinds(t, "function_item"@, "function_item"@, 0, t.len());
    if f == 0 {
        0
    } else {
        sum_over(0, t.len(), mean_term(t)) / f as int
    }
}

const DEPTH_BOUND: u128 = 18446744073709551616;

const MEAN_BOUND: u128 = 18446744073709551616000000;

fn calculate_node_depth(t: &SyntaxTree, i: usize) -> (r: u128)
    requires
        t.wf(),
        i < t.nodes@.len(),
    ensures
        r == mean_depth(*t, i as int),
        r <= MEAN_BOUND,
{
    let e = t.subtree_end_of(i);
    proof {
        lemma_subtree_deeper(*t, i as int, i + 1);
    }
    let mut sum: u128 = 0;
    let mut j: usize = i;
    while j < e
        invariant
            i <= j <= e <= t.nodes@.len(),
            e == t.subtree_end(i as int),
            e <= MAX_NODES,
            forall|k: int| i < k < e ==> #[trigger] t.depth(k) > t.depth(i as int),
            sum == sum_over(i as int, j as int, depth_term(*t, i as int)),
            sum <= (j - i) * DEPTH_BOUND,
        decreases e - j,
    {
        proof {
            assert((j + 1 - i) * DEPTH_BOUND == (j - i) * DEPTH_BOUND + DEPTH_BOUND) by (nonlinear_arith);
            assert((j + 1 - i) * DEPTH_BOUND <= 4294967295 * 18446744073709551616) by (nonlinear_arith)
                requires
                    j + 1 - i <= 4294967295,
                    DEPTH_BOUND == 18446744073709551616,
            ;
        }
        assert(j == i || t.depth(j as int) > t.depth(i as int));
        let term = (t.nodes[j].depth - t.nodes[i].depth) as u128 + 1;
        sum = sum + term;
        j += 1;
    }
    let c = (e - i) as u128;
    proof {
        assert(sum <= 1267650600228229401496703205376) by (nonlinear_arith)
            requires
                sum <= (e - i) * DEPTH_BOUND,
                e - i <= 4294967295,
                DEPTH_BOUND == 18446744073709551616,
        ;
        assert(sum * SCALE <= c * MEAN_BOUND) by (nonlinear_arith)
            requires
                sum <= c * DEPTH_BOUND,
                DEPTH_BOUND == 18446744073709551616,
                MEAN_BOUND == 18446744073709551616000000,
                SCALE == 1000000,
        ;
        lemma_div_is_ordered(sum * SCALE, c * MEAN_BOUND, c as int);
        lemma_div_multiples_vanish(MEAN_BOUND as int, c as int);
        assert(c * MEAN_BOUND == MEAN_BOUND * c) by (nonlinear_arith);
    }
    fixed_ratio(sum, c)
}

/// Mean node depth of each function definition, averaged over the file's
/// function definitions; zero where it defines none.
pub fn fn_avg_depth(tree: &SyntaxTree, src: &[u8]) -> (r: (String, u128))
    requires
        tree.wf(),
    ensures
        r.0@ == "fn_avg_depth"@,
        r.1 == fn_avg_depth_value(*tree),
        count_kinds(*tree, "function_item"@, "function_item"@, 0, tree.len()) == 0 ==> r.1 == 0,
{
    let n = tree.nodes.len();
    let fk = "function_item".to_owned();
    let mut functions: u128 = 0;
    let mut total: u128 = 0;
    let mut i: usize = 0;
    while i < n
        invariant
            tree.wf(),
            n == tree.nodes@.len(),
            i <= n,
            fk@ == "function_item"@,
            functions == count_kinds(*tree, fk@, fk@, 0, i as int),
            functions <= i,
            total == sum_over(0, i as int, mean_term(*tree)),
            total <= i * MEAN_BOUND,
        decreases n - i,
    {
        if tree.nodes[i].kind == fk {
            functions = functions + 1;
            proof {
                lemma_count_bound(0, i as int, of_kinds(*tree, fk@, fk@));
            }
            let m = calculate_node_depth(tree, i);
            proof {
                assert((i + 1) * MEAN_BOUND <= 4294967295 * 18446744073709551616000000) by (nonlinear_arith)
                    requires
                        i < n,
                        n <= 4294967295,
                        MEAN_BOUND == 18446744073709551616000000,
                ;
            }
            total = total + m;
        }
        proof {
            assert((i + 1) * MEAN_BOUND == i * MEAN_BOUND + MEAN_BOUND) by (nonlinear_arith);
        }
        i += 1;
    }
    let v = if functions == 0 {
        0
    } else {
        total / functions
    };
    ("fn_avg_depth".to_owned(), v)
}

} // verus!


