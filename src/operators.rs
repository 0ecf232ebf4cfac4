use vstd::prelude::*;
use crate::concurrency::{parallel_calls, scan};
use crate::metrics::{
    avg_args, count_kinds, count_nodes, field_count, file_number, fn_avg_depth, fn_avg_depth_value,
    macro_count, macro_value, members_term, methods_term, params_term, ratio, struct_methods, SCALE,
};
use crate::parser::{has_wf_tree, parse_rust, rust_tree_of};
use crate::stats::{sat_add, value_or_zero, Stats};
use crate::tree::{sum_over, SyntaxTree};

verus! {

/// The metric operators, each a full walk of one file's tree giving one
/// named value.
#[derive(Clone, Copy, PartialEq, Eq, Structural, Debug)]
pub enum Operator {
    FileNumber,
    CountNodes,
    FnAvgDepth,
    AvgArgs,
    MacroCount,
    FieldCount,
    StructMethods,
    ParallelCalls,
}

/// The name and value that operator `op` gives for a tree and its source.
pub open spec fn metric(op: Operator, t: SyntaxTree, src: Seq<u8>) -> (Seq<char>, int) {
    match op {
        Operator::FileNumber => ("file_number"@, SCALE as int),
        Operator::CountNodes => ("Node count"@, t.len() * SCALE),
        Operator::FnAvgDepth => ("fn_avg_depth"@, fn_avg_depth_value(t)),
        Operator::AvgArgs => (
            "avg_args"@,
            ratio(
                sum_over(0, t.len(), params_term(t)),
                count_kinds(t, "function_item"@, "function_item"@, 0, t.len()) as int,
            ),
        ),
        Operator::MacroCount => (
            "macro"@,
            macro_value(
                count_kinds(t, "macro_invocation"@, "macro_invocation"@, 0, t.len()) as int,
                count_kinds(t, "macro_definition"@, "macro_definition"@, 0, t.len()) as int,
            ),
        ),
        Operator::FieldCount => (
            "fields"@,
            ratio(
                sum_over(0, t.len(), members_term(t)),
                count_kinds(t, "struct_item"@, "enum_item"@, 0, t.len()) as int,
            ),
        ),
        Operator::StructMethods => (
            "struct_methods"@,
            ratio(
                sum_over(0, t.len(), methods_term(t)),
                count_kinds(t, "struct_item"@, "struct_item"@, 0, t.len()) as int,
            ),
        ),
        Operator::ParallelCalls => ("parallel_calls"@, scan(t, src, t.len()).1 * SCALE),
    }
}

/// The map after adding each operator's metric for one tree, in order.
pub open spec fn fold_metrics(
    m: Map<Seq<char>, u128>,
    ops: Seq<Operator>,
    t: SyntaxTree,
    src: Seq<u8>,
) -> Map<Seq<char>, u128>
    decreases ops.len(),
{
    if ops.len() == 0 {
        m
    } else {
        let prev = fold_metrics(m, ops.drop_last(), t, src);
        let (k, v) = metric(ops.last(), t, src);
        prev.insert(k, sat_add(value_or_zero(prev, k), v as u128))
    }
}

impl Operator {
    /// Runs the operator over a tree.
    pub fn evaluate(&self, tree: &SyntaxTree, src: &[u8]) -> (r: (String, u128))
        requires
            tree.wf(),
        ensures
            (r.0@, r.1 as int) == metric(*self, *tree, src@),
    {
        match self {
            Operator::FileNumber => file_number(tree, src),
            Operator::CountNodes => count_nodes(tree, src),
            Operator::FnAvgDepth => fn_avg_depth(tree, src),
            Operator::AvgArgs => avg_args(tree, src),
            Operator::MacroCount => macro_count(tree, src),
            Operator::FieldCount => field_count(tree, src),
            Operator::StructMethods => struct_methods(tree, src),
            Operator::ParallelCalls => parallel_calls(tree, src),
        }
    }
}

/// The operator set, in the order in which results are added.
pub fn ast_ops() -> (r: Vec<Operator>)
    ensures
        r@ == seq![
            Operator::FileNumber,
            Operator::CountNodes,
            Operator::FnAvgDepth,
            Operator::AvgArgs,
            Operator::MacroCount,
            Operator::FieldCount,
            Operator::StructMethods,
            Operator::ParallelCalls,
        ],
{
    let r = vec![
        Operator::FileNumber,
        Operator::CountNodes,
        Operator::FnAvgDepth,
        Operator::AvgArgs,
        Operator::MacroCount,
        Operator::FieldCount,
        Operator::StructMethods,
        Operator::ParallelCalls,
    ];
    assert(r@ =~= seq![
        Operator::FileNumber,
        Operator::CountNodes,
        Operator::FnAvgDepth,
        Operator::AvgArgs,
        Operator::MacroCount,
        Operator::FieldCount,
        Operator::StructMethods,
        Operator::ParallelCalls,
    ]);
    r
}

/// Adds every operator's metric for a parsed file into `stats`.
pub fn apply_ops(tree: &SyntaxTree, src: &[u8], ops: &Vec<Operator>, stats: &mut Stats)
    requires
        tree.wf(),
        old(stats).wf(),
    ensures
        final(stats).wf(),
        final(stats)@ == fold_metrics(old(stats)@, ops@, *tree, src@),
{
    let ghost start = stats@;
    let mut i: usize = 0;
    while i < ops.len()
        invariant
            tree.wf(),
            stats.wf(),
            i <= ops@.len(),
            stats@ == fold_metrics(start, ops@.take(i as int), *tree, src@),
        decreases ops@.len() - i,
    {
        let (name, value) = ops[i].evaluate(tree, src);
        stats.add_or_insert(name, value);
        proof {
            assert(ops@.take(i + 1).drop_last() =~= ops@.take(i as int));
        }
        i += 1;
    }
    assert(ops@.take(ops@.len() as int) =~= ops@);
}

/// Parses one source file and adds every operator's metric into `stats`;
/// a file whose tree is not well formed adds nothing.
pub fn analyze_source(src: &[u8], ops: &Vec<Operator>, stats: &mut Stats)
    requires
        old(stats).wf(),
    ensures
        final(stats).wf(),
        !has_wf_tree(rust_tree_of(src@)) ==> final(stats)@ == old(stats)@,
        has_wf_tree(rust_tree_of(src@)) ==> exists|t: SyntaxTree|
            t.wf() && #[trigger] t.view_nodes() == rust_tree_of(src@) && final(stats)@ == fold_metrics(
                old(stats)@,
                ops@,
                t,
                src@,
            ),
{
    match parse_rust(src) {
        Some(tree) => apply_ops(&tree, src, ops, stats),
        None => {},
    }
}

} // verus!
