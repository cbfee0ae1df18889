use vstd::prelude::*;
use crate::assemble::{
    back_pointer_trees, bare_label, bare_node, completion_row, completion_trees, derivations, derivations_upto,
    flatten, is_root, parse_trees, roots_trees, scan_trees, symbol_name,
};
use crate::table::{ParseState, Trigger};
use crate::tree::{forest_view, Subtree, Tree};

verus! {

/// The assembler is a function of the state table: two results for the same item
/// of the same table are structurally equal.
pub proof fn lemma_assembler_deterministic(ps: ParseState, i: int, a: Seq<Subtree>, b: Seq<Subtree>)
    requires
        forest_view(a) == derivations(ps, i),
        forest_view(b) == derivations(ps, i),
    ensures
        forest_view(a) == forest_view(b),
{
}

/// Roots among the first `n` positions of the final set contribute nothing when
/// none of those positions holds a root.
proof fn lemma_roots_none(ps: ParseState, start: Seq<char>, n: int)
    requires
        0 <= n <= ps.last_set().len(),
        forall|j: int| 0 <= j < n ==> !is_root(ps, start, #[trigger] ps.last_set()[j] as int),
    ensures
        roots_trees(ps, start, n) == Seq::<Tree>::empty(),
    decreases n,
{
    if n > 0 {
        lemma_roots_none(ps, start, n - 1);
        assert(!is_root(ps, start, ps.last_set()[n - 1] as int));
        assert(roots_trees(ps, start, n) =~= Seq::<Tree>::empty());
    }
}

/// An input that no root of the start rule derives has no tree: when the final
/// item set holds no complete start-rule item begun at offset 0, the result is empty.
pub proof fn lemma_no_root_no_tree(ps: ParseState, start: Seq<char>)
    requires
        forall|j: int|
            0 <= j < ps.last_set().len() ==> !is_root(ps, start, #[trigger] ps.last_set()[j] as int),
    ensures
        parse_trees(ps, start) == Seq::<Tree>::empty(),
{
    lemma_roots_none(ps, start, ps.last_set().len() as int);
}

/// Neither item `i` nor any item reachable from it through back-pointers has more
/// than one back-pointer.
pub open spec fn single_derivation_from(ps: ParseState, i: int) -> bool
    decreases i,
{
    if 0 <= i < ps.items.len() {
        let bps = ps.items@[i].back_pointers;
        &&& bps.len() <= 1
        &&& bps.len() == 1 ==> {
            let bp = bps@[0];
            let p = bp.prediction as int;
            &&& p < i
            &&& single_derivation_from(ps, p)
            &&& match bp.trigger {
                Trigger::Scan(_) => true,
                Trigger::Completion(c) => (c as int) < i && single_derivation_from(ps, c as int),
            }
        }
    } else {
        false
    }
}

/// The texts of a tree's leaves, left to right.
pub open spec fn leaves(t: Tree) -> Seq<Seq<char>>
    decreases t,
{
    match t {
        Tree::Leaf(_, text) => seq![text],
        Tree::Internal(_, children) => leaves_of(children),
    }
}

/// The texts of the leaves of a sequence of trees, left to right.
pub open spec fn leaves_of(s: Seq<Tree>) -> Seq<Seq<char>>
    decreases s,
{
    if s.len() == 0 {
        Seq::empty()
    } else {
        leaves_of(s.subrange(0, s.len() - 1)) + leaves(s[s.len() - 1])
    }
}

/// The input texts that item `i` consumed, following its first back-pointer.
pub open spec fn scanned(ps: ParseState, i: int) -> Seq<Seq<char>>
    decreases i,
{
    if 0 <= i < ps.items.len() && ps.items@[i].back_pointers.len() > 0 {
        let bp = ps.items@[i].back_pointers@[0];
        let p = bp.prediction as int;
        if p < i {
            match bp.trigger {
                Trigger::Scan(text) => scanned(ps, p).push(text@),
                Trigger::Completion(c) => if (c as int) < i {
                    scanned(ps, p) + scanned(ps, c as int)
                } else {
                    Seq::empty()
                },
            }
        } else {
            Seq::empty()
        }
    } else {
        Seq::empty()
    }
}

proof fn lemma_leaves_of_push(s: Seq<Tree>, t: Tree)
    ensures
        leaves_of(s.push(t)) == leaves_of(s) + leaves(t),
{
    assert(s.push(t).subrange(0, s.len() as int) =~= s);
}

/// An item from which no item with two back-pointers is reachable has exactly one
/// derivation: a node whose leaves read what the item consumed.
proof fn lemma_single_derivation(ps: ParseState, i: int)
    requires
        ps.wf(),
        0 <= i < ps.items.len(),
        single_derivation_from(ps, i),
    ensures
        derivations(ps, i).len() == 1,
        derivations(ps, i)[0] is Internal,
        leaves(derivations(ps, i)[0]) == scanned(ps, i),
    decreases i,
{
    let item = ps.items@[i];
    if item.back_pointers.len() == 0 {
        assert(leaves_of(Seq::<Tree>::empty()) == Seq::<Seq<char>>::empty());
        assert(leaves(bare_node(bare_label(item))) == Seq::<Seq<char>>::empty());
    } else {
        assert(item.back_pointers.len() == 1);
        assert(ps.back_pointer_ok(i, 0));
        let bp = item.back_pointers@[0];
        let p = bp.prediction as int;
        lemma_single_derivation(ps, p);
        let dp = derivations(ps, p);
        let chp = flatten(dp[0]);
        assert(derivations_upto(ps, i, 0) == Seq::<Tree>::empty());
        assert(derivations(ps, i) == derivations_upto(ps, i, 0) + back_pointer_trees(ps, i, 0));
        assert(dp.drop_last() =~= Seq::<Tree>::empty());
        match bp.trigger {
            Trigger::Scan(text) => {
                let leaf = Tree::Leaf(symbol_name(ps.items@[p].next_symbol), text@);
                let t = Tree::Internal(item.label@, chp.push(leaf));
                assert(scan_trees(dp.drop_last(), symbol_name(ps.items@[p].next_symbol), text@, item.label@)
                    == Seq::<Tree>::empty());
                assert(back_pointer_trees(ps, i, 0) =~= seq![t]);
                assert(derivations(ps, i) =~= seq![t]);
                lemma_leaves_of_push(chp, leaf);
                assert(leaves_of(chp) == leaves(dp[0]));
                assert(leaves(leaf) == seq![text@]);
            },
            Trigger::Completion(c) => {
                lemma_single_derivation(ps, c as int);
                let dc = derivations(ps, c as int);
                let t = Tree::Internal(item.label@, chp.push(dc[0]));
                assert(completion_trees(dp.drop_last(), dc, item.label@) == Seq::<Tree>::empty());
                assert(completion_row(chp, dc, item.label@) =~= seq![t]);
                assert(Seq::<Tree>::empty() + seq![t] =~= seq![t]);
                assert(back_pointer_trees(ps, i, 0) =~= seq![t]);
                assert(derivations(ps, i) =~= seq![t]);
                lemma_leaves_of_push(chp, dc[0]);
                assert(leaves_of(chp) == leaves(dp[0]));
            },
        }
    }
}

/// With exactly one root, at position `jr` of the final set, the roots among the
/// first `n` positions give nothing before it and its derivations after it.
proof fn lemma_roots_single(ps: ParseState, start: Seq<char>, jr: int, n: int)
    requires
        0 <= jr < ps.last_set().len(),
        0 <= n <= ps.last_set().len(),
        forall|j: int|
            0 <= j < ps.last_set().len() && j != jr ==> !is_root(ps, start, #[trigger] ps.last_set()[j] as int),
        is_root(ps, start, ps.last_set()[jr] as int),
    ensures
        n <= jr ==> roots_trees(ps, start, n) == Seq::<Tree>::empty(),
        n > jr ==> roots_trees(ps, start, n) == derivations(ps, ps.last_set()[jr] as int),
    decreases n,
{
    if n > 0 {
        lemma_roots_single(ps, start, jr, n - 1);
        if n - 1 == jr {
            assert(Seq::<Tree>::empty() + derivations(ps, ps.last_set()[jr] as int) =~= derivations(
                ps,
                ps.last_set()[jr] as int,
            ));
        } else {
            assert(!is_root(ps, start, ps.last_set()[n - 1] as int));
            assert(roots_trees(ps, start, n) =~= roots_trees(ps, start, n - 1));
        }
    }
}

/// An unambiguous parse has exactly one tree: when the final set holds exactly
/// one root (at position `jr`) and no item reachable from it has two
/// back-pointers, the result is a single tree whose leaves, read left to right,
/// are the input texts that the root consumed.
pub proof fn lemma_unambiguous_parse(ps: ParseState, start: Seq<char>, jr: int)
    requires
        ps.wf(),
        0 <= jr < ps.last_set().len(),
        is_root(ps, start, ps.last_set()[jr] as int),
        single_derivation_from(ps, ps.last_set()[jr] as int),
        forall|j: int|
            0 <= j < ps.last_set().len() && j != jr ==> !is_root(ps, start, #[trigger] ps.last_set()[j] as int),
    ensures
        parse_trees(ps, start).len() == 1,
        leaves(parse_trees(ps, start)[0]) == scanned(ps, ps.last_set()[jr] as int),
{
    let n = ps.last_set().len() as int;
    lemma_roots_single(ps, start, jr, n);
    assert(ps.states@[ps.states.len() - 1]@[jr] < ps.items.len());
    lemma_single_derivation(ps, ps.last_set()[jr] as int);
}

/// Back-pointer `k` of item `i` advances its prediction by one symbol, and a
/// completion's item is complete.
pub open spec fn dot_step_ok(ps: ParseState, i: int, k: int) -> bool {
    let bp = ps.items@[i].back_pointers@[k];
    &&& ps.items@[bp.prediction as int].dot + 1 == ps.items@[i].dot
    &&& match bp.trigger {
        Trigger::Scan(_) => true,
        Trigger::Completion(c) => ps.items@[c as int].dot == ps.items@[c as int].arity,
    }
}

/// The dots of the table agree with its back-pointers: no dot passes the end of
/// its right-hand side, an item with no back-pointers has matched nothing, and
/// each back-pointer accounts for one symbol.
pub open spec fn dots_coherent(ps: ParseState) -> bool {
    &&& forall|i: int| 0 <= i < ps.items.len() ==> #[trigger] ps.items@[i].dot <= ps.items@[i].arity
    &&& forall|i: int|
        0 <= i < ps.items.len() && #[trigger] ps.items@[i].back_pointers.len() == 0 ==> ps.items@[i].dot
            == 0
    &&& forall|i: int, k: int|
        0 <= i < ps.items.len() && 0 <= k < ps.items@[i].back_pointers.len() ==> #[trigger] dot_step_ok(
            ps,
            i,
            k,
        )
}

/// Some production of the table is labelled `label` and has `n` symbols.
pub open spec fn rule_has_arity(ps: ParseState, label: Seq<char>, n: int) -> bool {
    exists|i: int| 0 <= i < ps.items.len() && ps.items@[i].label@ == label && ps.items@[i].arity == n
}

/// Every internal node of `t` has as many children as its rule has symbols.
pub open spec fn well_shaped(ps: ParseState, t: Tree) -> bool
    decreases t,
{
    match t {
        Tree::Leaf(_, _) => true,
        Tree::Internal(label, children) => {
            &&& rule_has_arity(ps, label, children.len() as int)
            &&& forall|k: int| 0 <= k < children.len() ==> well_shaped(ps, #[trigger] children[k])
        },
    }
}

/// `t` is a node labelled `label` with `d` well-shaped children.
pub open spec fn shaped(ps: ParseState, t: Tree, label: Seq<char>, d: int) -> bool {
    match t {
        Tree::Leaf(_, _) => false,
        Tree::Internal(l, children) => {
            &&& l == label
            &&& children.len() == d
            &&& forall|k: int| 0 <= k < children.len() ==> well_shaped(ps, #[trigger] children[k])
        },
    }
}

proof fn lemma_scan_shaped(
    ps: ParseState,
    prefixes: Seq<Tree>,
    plabel: Seq<char>,
    d: int,
    sym: Seq<char>,
    text: Seq<char>,
    label: Seq<char>,
)
    requires
        forall|m: int| 0 <= m < prefixes.len() ==> shaped(ps, #[trigger] prefixes[m], plabel, d),
    ensures
        forall|m: int|
            0 <= m < scan_trees(prefixes, sym, text, label).len() ==> shaped(
                ps,
                #[trigger] scan_trees(prefixes, sym, text, label)[m],
                label,
                d + 1,
            ),
    decreases prefixes.len(),
{
    if prefixes.len() > 0 {
        let rest = prefixes.drop_last();
        lemma_scan_shaped(ps, rest, plabel, d, sym, text, label);
        let last = prefixes.last();
        assert(shaped(ps, last, plabel, d));
        let ch = flatten(last).push(Tree::Leaf(sym, text));
        assert(well_shaped(ps, Tree::Leaf(sym, text)));
        assert forall|k: int| 0 <= k < ch.len() implies well_shaped(ps, #[trigger] ch[k]) by {
            if k < ch.len() - 1 {
                assert(ch[k] == flatten(last)[k]);
            }
        }
        let all = scan_trees(prefixes, sym, text, label);
        assert forall|m: int| 0 <= m < all.len() implies shaped(ps, #[trigger] all[m], label, d + 1) by {
            if m < all.len() - 1 {
                assert(all[m] == scan_trees(rest, sym, text, label)[m]);
            }
        }
    }
}

proof fn lemma_completion_shaped(
    ps: ParseState,
    prefixes: Seq<Tree>,
    plabel: Seq<char>,
    d: int,
    completed: Seq<Tree>,
    label: Seq<char>,
)
    requires
        forall|m: int| 0 <= m < prefixes.len() ==> shaped(ps, #[trigger] prefixes[m], plabel, d),
        forall|m: int| 0 <= m < completed.len() ==> well_shaped(ps, #[trigger] completed[m]),
    ensures
        forall|m: int|
            0 <= m < completion_trees(prefixes, completed, label).len() ==> shaped(
                ps,
                #[trigger] completion_trees(prefixes, completed, label)[m],
                label,
                d + 1,
            ),
    decreases prefixes.len(),
{
    if prefixes.len() > 0 {
        let rest = prefixes.drop_last();
        lemma_completion_shaped(ps, rest, plabel, d, completed, label);
        let last = prefixes.last();
        assert(shaped(ps, last, plabel, d));
        let pre = flatten(last);
        let row = completion_row(pre, completed, label);
        assert forall|m: int| 0 <= m < row.len() implies shaped(ps, #[trigger] row[m], label, d + 1) by {
            let ch = pre.push(completed[m]);
            assert(row[m] == Tree::Internal(label, ch));
            assert forall|k: int| 0 <= k < ch.len() implies well_shaped(ps, #[trigger] ch[k]) by {
                if k < ch.len() - 1 {
                    assert(ch[k] == pre[k]);
                }
            }
        }
        let head = completion_trees(rest, completed, label);
        let all = completion_trees(prefixes, completed, label);
        assert(all == head + row);
        assert forall|m: int| 0 <= m < all.len() implies shaped(ps, #[trigger] all[m], label, d + 1) by {
            if m < head.len() {
                assert(all[m] == head[m]);
            } else {
                assert(all[m] == row[m - head.len()]);
            }
        }
    }
}

/// The label of the nodes that item `i` gives: its rule's label, but for a bare
/// prediction, which gives the synthetic empty-label node.
pub open spec fn node_label(ps: ParseState, i: int) -> Seq<char> {
    if ps.items@[i].back_pointers.len() == 0 {
        bare_label(ps.items@[i])
    } else {
        ps.items@[i].label@
    }
}

/// Every tree that item `i` gives is a node with one child for each symbol before
/// the dot, and every node below it has as many children as its rule has symbols.
pub proof fn lemma_derivations_shaped(ps: ParseState, i: int)
    requires
        ps.wf(),
        dots_coherent(ps),
        0 <= i < ps.items.len(),
    ensures
        forall|m: int|
            0 <= m < derivations(ps, i).len() ==> shaped(
                ps,
                #[trigger] derivations(ps, i)[m],
                node_label(ps, i),
                ps.items@[i].dot as int,
            ),
    decreases i, 1int,
{
    let item = ps.items@[i];
    if item.back_pointers.len() == 0 {
        assert(item.dot == 0);
        assert(derivations(ps, i) == seq![bare_node(bare_label(item))]);
        assert(shaped(ps, bare_node(bare_label(item)), bare_label(item), 0));
    } else {
        lemma_upto_shaped(ps, i, item.back_pointers.len() as int);
        assert(derivations(ps, i) == derivations_upto(ps, i, item.back_pointers.len() as int));
    }
}

/// Every tree that a complete item gives has, at every node, as many children as
/// the rule named by the node's label has right-hand-side symbols; its top node
/// carries the item's rule and one child per symbol of it.
pub proof fn lemma_complete_item_trees_well_shaped(ps: ParseState, i: int)
    requires
        ps.wf(),
        dots_coherent(ps),
        0 <= i < ps.items.len(),
        ps.items@[i].spec_complete(),
    ensures
        forall|m: int|
            0 <= m < derivations(ps, i).len() ==> well_shaped(ps, #[trigger] derivations(ps, i)[m]),
        forall|m: int|
            0 <= m < derivations(ps, i).len() ==> shaped(
                ps,
                #[trigger] derivations(ps, i)[m],
                ps.items@[i].label@,
                ps.items@[i].arity as int,
            ),
    decreases i, 2int,
{
    lemma_derivations_shaped(ps, i);
    let d = derivations(ps, i);
    assert(ps.items@[i].dot <= ps.items@[i].arity);
    assert(rule_has_arity(ps, ps.items@[i].label@, ps.items@[i].arity as int));
    assert forall|m: int| 0 <= m < d.len() implies well_shaped(ps, #[trigger] d[m]) by {
        assert(shaped(ps, d[m], ps.items@[i].label@, ps.items@[i].arity as int));
    }
}

proof fn lemma_upto_shaped(ps: ParseState, i: int, n: int)
    requires
        ps.wf(),
        dots_coherent(ps),
        0 <= i < ps.items.len(),
        0 <= n <= ps.items@[i].back_pointers.len(),
    ensures
        forall|m: int|
            0 <= m < derivations_upto(ps, i, n).len() ==> shaped(
                ps,
                #[trigger] derivations_upto(ps, i, n)[m],
                ps.items@[i].label@,
                ps.items@[i].dot as int,
            ),
    decreases i, 0int, n,
{
    if n > 0 {
        lemma_upto_shaped(ps, i, n - 1);
        let k = n - 1;
        let item = ps.items@[i];
        assert(ps.back_pointer_ok(i, k));
        assert(dot_step_ok(ps, i, k));
        let bp = item.back_pointers@[k];
        let p = bp.prediction as int;
        lemma_derivations_shaped(ps, p);
        let bt = back_pointer_trees(ps, i, k);
        match bp.trigger {
            Trigger::Scan(text) => {
                lemma_scan_shaped(
                    ps,
                    derivations(ps, p),
                    node_label(ps, p),
                    ps.items@[p].dot as int,
                    symbol_name(ps.items@[p].next_symbol),
                    text@,
                    item.label@,
                );
            },
            Trigger::Completion(c) => {
                let ci = c as int;
                let dc = derivations(ps, ci);
                lemma_complete_item_trees_well_shaped(ps, ci);
                lemma_completion_shaped(
                    ps,
                    derivations(ps, p),
                    node_label(ps, p),
                    ps.items@[p].dot as int,
                    dc,
                    item.label@,
                );
            },
        }
        let head = derivations_upto(ps, i, k);
        let all = derivations_upto(ps, i, n);
        assert(all == head + bt);
        assert forall|m: int| 0 <= m < all.len() implies shaped(
            ps,
            #[trigger] all[m],
            item.label@,
            item.dot as int,
        ) by {
            if m < head.len() {
                assert(all[m] == head[m]);
            } else {
                assert(all[m] == bt[m - head.len()]);
            }
        }
    }
}

proof fn lemma_roots_well_shaped(ps: ParseState, start: Seq<char>, n: int)
    requires
        ps.wf(),
        dots_coherent(ps),
        0 <= n <= ps.last_set().len(),
    ensures
        forall|m: int|
            0 <= m < roots_trees(ps, start, n).len() ==> well_shaped(ps, #[trigger] roots_trees(ps, start, n)[m]),
    decreases n,
{
    if n > 0 {
        lemma_roots_well_shaped(ps, start, n - 1);
        let r = ps.last_set()[n - 1] as int;
        assert(ps.states@[ps.states.len() - 1]@[n - 1] < ps.items.len());
        let head = roots_trees(ps, start, n - 1);
        let all = roots_trees(ps, start, n);
        if is_root(ps, start, r) {
            lemma_complete_item_trees_well_shaped(ps, r);
            let d = derivations(ps, r);
            assert(all == head + d);
            assert forall|m: int| 0 <= m < all.len() implies well_shaped(ps, #[trigger] all[m]) by {
                if m < head.len() {
                    assert(all[m] == head[m]);
                } else {
                    assert(all[m] == d[m - head.len()]);
                }
            }
        } else {
            assert(all =~= head);
        }
    }
}

/// Every internal node of every result tree has as many children as the rule
/// named by its label has right-hand-side symbols.
pub proof fn lemma_trees_well_shaped(ps: ParseState, start: Seq<char>)
    requires
        ps.wf(),
        dots_coherent(ps),
    ensures
        forall|m: int|
            0 <= m < parse_trees(ps, start).len() ==> well_shaped(ps, #[trigger] parse_trees(ps, start)[m]),
{
    lemma_roots_well_shaped(ps, start, ps.last_set().len() as int);
}

proof fn lemma_scan_trees_len(prefixes: Seq<Tree>, sym: Seq<char>, text: Seq<char>, label: Seq<char>)
    ensures
        scan_trees(prefixes, sym, text, label).len() == prefixes.len(),
    decreases prefixes.len(),
{
    if prefixes.len() > 0 {
        lemma_scan_trees_len(prefixes.drop_last(), sym, text, label);
    }
}

proof fn lemma_completion_trees_len(prefixes: Seq<Tree>, completed: Seq<Tree>, label: Seq<char>)
    ensures
        completion_trees(prefixes, completed, label).len() == prefixes.len() * completed.len(),
    decreases prefixes.len(),
{
    if prefixes.len() > 0 {
        let rest = prefixes.drop_last();
        lemma_completion_trees_len(rest, completed, label);
        let a = rest.len() as int;
        let b = completed.len() as int;
        assert(a * b + b == (a + 1) * b) by (nonlinear_arith);
    }
}

/// Every item of a well-formed table has at least one derivation.
proof fn lemma_derivations_nonempty(ps: ParseState, i: int)
    requires
        ps.wf(),
        0 <= i < ps.items.len(),
    ensures
        derivations(ps, i).len() > 0,
    decreases i,
{
    let item = ps.items@[i];
    let n = item.back_pointers.len() as int;
    if n > 0 {
        assert(ps.back_pointer_ok(i, n - 1));
        let bp = item.back_pointers@[n - 1];
        let p = bp.prediction as int;
        lemma_derivations_nonempty(ps, p);
        match bp.trigger {
            Trigger::Scan(text) => {
                lemma_scan_trees_len(
                    derivations(ps, p),
                    symbol_name(ps.items@[p].next_symbol),
                    text@,
                    item.label@,
                );
            },
            Trigger::Completion(c) => {
                lemma_derivations_nonempty(ps, c as int);
                lemma_completion_trees_len(derivations(ps, p), derivations(ps, c as int), item.label@);
                let a = derivations(ps, p).len() as int;
                let b = derivations(ps, c as int).len() as int;
                assert(a * b > 0) by (nonlinear_arith)
                    requires
                        a > 0,
                        b > 0,
                ;
            },
        }
        assert(derivations(ps, i) == derivations_upto(ps, i, n - 1) + back_pointer_trees(ps, i, n - 1));
    }
}

proof fn lemma_roots_some(ps: ParseState, start: Seq<char>, n: int, j: int)
    requires
        ps.wf(),
        0 <= j < n <= ps.last_set().len(),
        is_root(ps, start, ps.last_set()[j] as int),
    ensures
        roots_trees(ps, start, n).len() > 0,
    decreases n,
{
    if j < n - 1 {
        lemma_roots_some(ps, start, n - 1, j);
    } else {
        assert(ps.states@[ps.states.len() - 1]@[j] < ps.items.len());
        lemma_derivations_nonempty(ps, ps.last_set()[j] as int);
    }
}

/// The input parses exactly when a root exists: the result is empty if and only
/// if the final item set holds no complete start-rule item begun at offset 0.
pub proof fn lemma_empty_iff_no_root(ps: ParseState, start: Seq<char>)
    requires
        ps.wf(),
    ensures
        parse_trees(ps, start).len() == 0 <==> forall|j: int|
            0 <= j < ps.last_set().len() ==> !is_root(ps, start, #[trigger] ps.last_set()[j] as int),
{
    if exists|j: int| 0 <= j < ps.last_set().len() && is_root(ps, start, #[trigger] ps.last_set()[j] as int) {
        let j = choose|j: int| 0 <= j < ps.last_set().len() && is_root(ps, start, #[trigger] ps.last_set()[j] as int);
        lemma_roots_some(ps, start, ps.last_set().len() as int, j);
    } else {
        lemma_no_root_no_tree(ps, start);
    }
}

} // verus!
