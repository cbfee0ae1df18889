use vstd::prelude::*;
use earley::Grammar;
use crate::grammar::starting_rule_name;
use crate::table::{Item, ParseState, Trigger};
use crate::tree::{
    copy_forest, forest_view, lemma_forest_view_index, lemma_forest_view_len,
    lemma_forest_view_concat, lemma_forest_view_push, tree_view, Subtree, Tree,
};

verus! {

/// A node with the given label and no children.
pub open spec fn bare_node(label: Seq<char>) -> Tree {
    Tree::Internal(label, Seq::empty())
}

/// The label of the node that an item with no back-pointers gives: the synthetic
/// empty label for a bare prediction (it only ever serves as a prefix, which is
/// flattened), and the rule's own label for a complete item of an empty rule.
pub open spec fn bare_label(item: Item) -> Seq<char> {
    if item.spec_complete() {
        item.label@
    } else {
        Seq::empty()
    }
}

/// The symbols matched so far by a prefix tree: a leaf is its own sequence.
pub open spec fn flatten(t: Tree) -> Seq<Tree> {
    match t {
        Tree::Leaf(_, _) => seq![t],
        Tree::Internal(_, children) => children,
    }
}

/// Each prefix extended by a scanned leaf, under the rule's label.
pub open spec fn scan_trees(prefixes: Seq<Tree>, sym: Seq<char>, text: Seq<char>, label: Seq<char>) -> Seq<Tree>
    decreases prefixes.len(),
{
    if prefixes.len() == 0 {
        Seq::empty()
    } else {
        scan_trees(prefixes.drop_last(), sym, text, label).push(
            Tree::Internal(label, flatten(prefixes.last()).push(Tree::Leaf(sym, text))),
        )
    }
}

/// One prefix extended by each completed tree in turn.
pub open spec fn completion_row(prefix: Seq<Tree>, completed: Seq<Tree>, label: Seq<char>) -> Seq<Tree> {
    completed.map_values(|c: Tree| Tree::Internal(label, prefix.push(c)))
}

/// The cross product of prefixes (outer) and completed trees (inner).
pub open spec fn completion_trees(prefixes: Seq<Tree>, completed: Seq<Tree>, label: Seq<char>) -> Seq<Tree>
    decreases prefixes.len(),
{
    if prefixes.len() == 0 {
        Seq::empty()
    } else {
        completion_trees(prefixes.drop_last(), completed, label) + completion_row(
            flatten(prefixes.last()),
            completed,
            label,
        )
    }
}

/// The name of the symbol after the dot, empty where there is none.
pub open spec fn symbol_name(s: Option<String>) -> Seq<char> {
    match s {
        Some(name) => name@,
        None => Seq::empty(),
    }
}

/// Every tree consistent with the back-pointer graph of item `i`.
pub open spec fn derivations(ps: ParseState, i: int) -> Seq<Tree>
    decreases i, 1int, 0int, 0int,
{
    if 0 <= i < ps.items.len() {
        if ps.items@[i].back_pointers.len() == 0 {
            seq![bare_node(bare_label(ps.items@[i]))]
        } else {
            derivations_upto(ps, i, ps.items@[i].back_pointers.len() as int)
        }
    } else {
        Seq::empty()
    }
}

/// The trees that the first `n` back-pointers of item `i` give, in order.
pub open spec fn derivations_upto(ps: ParseState, i: int, n: int) -> Seq<Tree>
    decreases i, 0int, n, 1int,
{
    if 0 <= i < ps.items.len() && 0 < n <= ps.items@[i].back_pointers.len() {
        derivations_upto(ps, i, n - 1) + back_pointer_trees(ps, i, n - 1)
    } else {
        Seq::empty()
    }
}

/// The trees that back-pointer `k` of item `i` gives.
pub open spec fn back_pointer_trees(ps: ParseState, i: int, k: int) -> Seq<Tree>
    decreases i, 0int, k + 1, 0int,
{
    if 0 <= i < ps.items.len() && 0 <= k < ps.items@[i].back_pointers.len() {
        let item = ps.items@[i];
        let bp = item.back_pointers@[k];
        let p = bp.prediction as int;
        if p < i {
            match bp.trigger {
                Trigger::Scan(text) => scan_trees(
                    derivations(ps, p),
                    symbol_name(ps.items@[p].next_symbol),
                    text@,
                    item.label@,
                ),
                Trigger::Completion(c) => if (c as int) < i {
                    completion_trees(derivations(ps, p), derivations(ps, c as int), item.label@)
                } else {
                    Seq::empty()
                },
            }
        } else {
            Seq::empty()
        }
    } else {
        Seq::empty()
    }
}

/// The symbols matched so far by a prefix tree, as a fresh sequence.
fn flatten_tree(t: &Subtree) -> (r: Vec<Subtree>)
    ensures
        forest_view(r@) == flatten(t@),
{
    match t {
        Subtree::Node(_, _) => {
            let c = t.deep_copy();
            let r = vec![c];
            proof {
                lemma_forest_view_push(Seq::empty(), c);
                assert(r@ =~= Seq::<Subtree>::empty().push(c));
                assert(forest_view(Seq::empty()) =~= Seq::<Tree>::empty());
                assert(seq![t@] =~= Seq::<Tree>::empty().push(c@));
            }
            r
        },
        Subtree::SubT(_, children) => copy_forest(children),
    }
}

/// Appends each prefix extended by the scanned leaf `(sym, text)`.
fn append_scans(trees: &mut Vec<Subtree>, prefixes: &Vec<Subtree>, sym: &String, text: &String, label: &String)
    ensures
        forest_view(final(trees)@) == forest_view(old(trees)@) + scan_trees(
            forest_view(prefixes@),
            sym@,
            text@,
            label@,
        ),
{
    let ghost fp = forest_view(prefixes@);
    proof {
        lemma_forest_view_len(prefixes@);
    }
    let mut j: usize = 0;
    while j < prefixes.len()
        invariant
            j <= prefixes.len(),
            fp == forest_view(prefixes@),
            fp.len() == prefixes.len(),
            forest_view(trees@) == forest_view(old(trees)@) + scan_trees(fp.subrange(0, j as int), sym@, text@, label@),
        decreases prefixes.len() - j,
    {
        let mut seq_j = flatten_tree(&prefixes[j]);
        let leaf = Subtree::Node(sym.clone(), text.clone());
        proof {
            lemma_forest_view_push(seq_j@, leaf);
        }
        seq_j.push(leaf);
        let node = Subtree::SubT(label.clone(), seq_j);
        proof {
            lemma_forest_view_index(prefixes@, j as int);
            lemma_forest_view_push(trees@, node);
            let fj = fp.subrange(0, j + 1);
            assert(fj.drop_last() =~= fp.subrange(0, j as int));
            assert(fj.last() == tree_view(prefixes@[j as int]));
        }
        trees.push(node);
        j = j + 1;
    }
    assert(fp.subrange(0, prefixes.len() as int) =~= fp);
}

/// Appends the cross product of prefixes (outer) and completed trees (inner).
fn append_completions(
    trees: &mut Vec<Subtree>,
    prefixes: &Vec<Subtree>,
    completed: &Vec<Subtree>,
    label: &String,
)
    ensures
        forest_view(final(trees)@) == forest_view(old(trees)@) + completion_trees(
            forest_view(prefixes@),
            forest_view(completed@),
            label@,
        ),
{
    let ghost fp = forest_view(prefixes@);
    let ghost fc = forest_view(completed@);
    proof {
        lemma_forest_view_len(prefixes@);
        lemma_forest_view_len(completed@);
    }
    let mut j: usize = 0;
    while j < prefixes.len()
        invariant
            j <= prefixes.len(),
            fp == forest_view(prefixes@),
            fc == forest_view(completed@),
            fp.len() == prefixes.len(),
            fc.len() == completed.len(),
            forest_view(trees@) == forest_view(old(trees)@) + completion_trees(fp.subrange(0, j as int), fc, label@),
        decreases prefixes.len() - j,
    {
        let prefix = flatten_tree(&prefixes[j]);
        let ghost before = forest_view(trees@);
        let mut m: usize = 0;
        while m < completed.len()
            invariant
                j < prefixes.len(),
                m <= completed.len(),
                fc == forest_view(completed@),
                fc.len() == completed.len(),
                forest_view(trees@) == before + completion_row(forest_view(prefix@), fc.subrange(0, m as int), label@),
            decreases completed.len() - m,
        {
            let mut p = copy_forest(&prefix);
            let c = completed[m].deep_copy();
            proof {
                lemma_forest_view_push(p@, c);
            }
            p.push(c);
            let node = Subtree::SubT(label.clone(), p);
            proof {
                lemma_forest_view_index(completed@, m as int);
                lemma_forest_view_push(trees@, node);
                assert(completion_row(forest_view(prefix@), fc.subrange(0, m + 1), label@) =~= completion_row(
                    forest_view(prefix@),
                    fc.subrange(0, m as int),
                    label@,
                ).push(tree_view(node)));
            }
            trees.push(node);
            m = m + 1;
        }
        proof {
            lemma_forest_view_index(prefixes@, j as int);
            let fj = fp.subrange(0, j + 1);
            assert(fj.drop_last() =~= fp.subrange(0, j as int));
            assert(fc.subrange(0, completed.len() as int) =~= fc);
        }
        j = j + 1;
    }
    assert(fp.subrange(0, prefixes.len() as int) =~= fp);
}

/// Every derivation tree of item `root`: one per combination of its back-pointers'
/// prefixes and triggers, in back-pointer order. An item with no back-pointers
/// gives one node without children: the synthetic empty-label node for a bare
/// prediction, its rule's node for a complete item of an empty rule.
pub fn bt_helper(pstate: &ParseState, root: usize) -> (trees: Vec<Subtree>)
    requires
        pstate.wf(),
        root < pstate.items.len(),
    ensures
        forest_view(trees@) == derivations(*pstate, root as int),
    decreases root,
{
    let item = &pstate.items[root];
    let n = item.back_pointers.len();
    let mut trees: Vec<Subtree> = Vec::new();
    if n == 0 {
        let children: Vec<Subtree> = Vec::new();
        proof {
            assert(forest_view(children@) =~= Seq::<Tree>::empty());
        }
        let label = if item.complete() {
            item.label.clone()
        } else {
            String::new()
        };
        let empty = Subtree::SubT(label, children);
        proof {
            lemma_forest_view_push(trees@, empty);
            assert(forest_view(Seq::<Subtree>::empty()) =~= Seq::<Tree>::empty());
            assert(forest_view(trees@.push(empty)) =~= seq![bare_node(bare_label(*item))]);
        }
        trees.push(empty);
        return trees;
    }
    let mut k: usize = 0;
    while k < n
        invariant
            pstate.wf(),
            root < pstate.items.len(),
            item == pstate.items@[root as int],
            n == item.back_pointers.len(),
            k <= n,
            forest_view(trees@) == derivations_upto(*pstate, root as int, k as int),
        decreases n - k,
    {
        let bp = &item.back_pointers[k];
        assert(pstate.back_pointer_ok(root as int, k as int));
        let prefixes = bt_helper(pstate, bp.prediction);
        match &bp.trigger {
            Trigger::Completion(c) => {
                let completed = bt_helper(pstate, *c);
                append_completions(&mut trees, &prefixes, &completed, &item.label);
                assert(back_pointer_trees(*pstate, root as int, k as int) == completion_trees(
                    derivations(*pstate, bp.prediction as int),
                    derivations(*pstate, *c as int),
                    item.label@,
                ));
            },
            Trigger::Scan(text) => {
                let sym = pstate.items[bp.prediction].next_symbol.as_ref().unwrap();
                append_scans(&mut trees, &prefixes, sym, text, &item.label);
                assert(back_pointer_trees(*pstate, root as int, k as int) == scan_trees(
                    derivations(*pstate, bp.prediction as int),
                    sym@,
                    text@,
                    item.label@,
                ));
            },
        }
        assert(derivations_upto(*pstate, root as int, k + 1) == derivations_upto(
            *pstate,
            root as int,
            k as int,
        ) + back_pointer_trees(*pstate, root as int, k as int));
        k = k + 1;
    }
    trees
}

/// Whether item `i` is a root: an item of the start rule, started at offset 0, complete.
pub open spec fn is_root(ps: ParseState, start: Seq<char>, i: int) -> bool {
    let item = ps.items@[i];
    item.rule@ == start && item.start == 0 && item.spec_complete()
}

/// The derivations of the roots among the first `n` items of the final set, in order.
pub open spec fn roots_trees(ps: ParseState, start: Seq<char>, n: int) -> Seq<Tree>
    decreases n,
{
    if n <= 0 {
        Seq::empty()
    } else {
        let i = ps.last_set()[n - 1] as int;
        roots_trees(ps, start, n - 1) + if is_root(ps, start, i) {
            derivations(ps, i)
        } else {
            Seq::empty()
        }
    }
}

/// Every tree that derives the whole input from the start rule named `start`.
pub open spec fn parse_trees(ps: ParseState, start: Seq<char>) -> Seq<Tree> {
    roots_trees(ps, start, ps.last_set().len() as int)
}

/// The trees of every root in the final item set, concatenated in the set's order.
pub fn trees_for_start(start: &String, pstate: &ParseState) -> (trees: Vec<Subtree>)
    requires
        pstate.wf(),
    ensures
        forest_view(trees@) == parse_trees(*pstate, start@),
{
    let last = &pstate.states[pstate.states.len() - 1];
    let mut trees: Vec<Subtree> = Vec::new();
    let mut j: usize = 0;
    while j < last.len()
        invariant
            pstate.wf(),
            last@ == pstate.last_set(),
            j <= last.len(),
            forest_view(trees@) == roots_trees(*pstate, start@, j as int),
        decreases last.len() - j,
    {
        let i = last[j];
        assert(pstate.states@[pstate.states.len() - 1]@[j as int] < pstate.items.len());
        let item = &pstate.items[i];
        if item.rule == *start && item.start == 0 && item.complete() {
            let mut found = bt_helper(pstate, i);
            let ghost a = trees@;
            let ghost b = found@;
            trees.append(&mut found);
            proof {
                lemma_forest_view_concat(a, b);
            }
        } else {
            assert(roots_trees(*pstate, start@, j as int) + Seq::<Tree>::empty() =~= roots_trees(
                *pstate,
                start@,
                j as int,
            ));
        }
        j = j + 1;
    }
    trees
}

/// The trees of `trees_for_start`, for the start rule name that earley's grammar
/// reports. That name is read through an outside call of which nothing is proved,
/// so the contract leaves it open; `trees_for_start` states the result exactly
/// for a given start name.
pub fn build_trees<T>(grammar: &Grammar<T>, pstate: &ParseState) -> (trees: Vec<Subtree>)
    requires
        pstate.wf(),
    ensures
        exists|start: Seq<char>| forest_view(trees@) == parse_trees(*pstate, start),
{
    let start = starting_rule_name(grammar);
    trees_for_start(&start, pstate)
}

} // verus!
