use vstd::prelude::*;

verus! {

/// A derivation tree as produced by the assembler.
#[derive(Debug)]
pub enum Subtree {
    /// A terminal matched by a scan: (symbol name, matched text).
    Node(String, String),
    /// A nonterminal: (rule label, children in right-hand-side order).
    SubT(String, Vec<Subtree>),
}

/// The mathematical model of a `Subtree`: a leaf holds (symbol name, matched
/// text), an internal node (rule label, children).
pub enum Tree {
    Leaf(Seq<char>, Seq<char>),
    Internal(Seq<char>, Seq<Tree>),
}

/// The model of a tree.
pub open spec fn tree_view(t: Subtree) -> Tree
    decreases t,
{
    match t {
        Subtree::Node(name, text) => Tree::Leaf(name@, text@),
        Subtree::SubT(label, children) => Tree::Internal(label@, forest_view(children@)),
    }
}

/// The models of a sequence of trees, in order.
pub open spec fn forest_view(s: Seq<Subtree>) -> Seq<Tree>
    decreases s,
{
    if s.len() == 0 {
        Seq::empty()
    } else {
        forest_view(s.subrange(0, s.len() - 1)).push(tree_view(s[s.len() - 1]))
    }
}

impl View for Subtree {
    type V = Tree;

    open spec fn view(&self) -> Tree {
        tree_view(*self)
    }
}

/// Viewing a sequence grown by one tree grows its view by that tree's view.
pub proof fn lemma_forest_view_push(s: Seq<Subtree>, t: Subtree)
    ensures
        forest_view(s.push(t)) == forest_view(s).push(tree_view(t)),
{
    assert(s.push(t).subrange(0, s.len() as int) =~= s);
}

/// A view has one tree per tree viewed.
pub proof fn lemma_forest_view_len(s: Seq<Subtree>)
    ensures
        forest_view(s).len() == s.len(),
    decreases s.len(),
{
    if s.len() > 0 {
        lemma_forest_view_len(s.subrange(0, s.len() - 1));
    }
}

/// The view's `k`-th tree is the view of the `k`-th tree.
pub proof fn lemma_forest_view_index(s: Seq<Subtree>, k: int)
    requires
        0 <= k < s.len(),
    ensures
        forest_view(s).len() == s.len(),
        forest_view(s)[k] == tree_view(s[k]),
    decreases s.len(),
{
    lemma_forest_view_len(s);
    if k < s.len() - 1 {
        lemma_forest_view_index(s.subrange(0, s.len() - 1), k);
    }
}

/// The view of a concatenation is the concatenation of the views.
pub proof fn lemma_forest_view_concat(a: Seq<Subtree>, b: Seq<Subtree>)
    ensures
        forest_view(a + b) == forest_view(a) + forest_view(b),
    decreases b.len(),
{
    if b.len() == 0 {
        assert(a + b =~= a);
        assert(forest_view(a) + forest_view(b) =~= forest_view(a));
    } else {
        let b0 = b.subrange(0, b.len() - 1);
        lemma_forest_view_concat(a, b0);
        assert((a + b0).push(b[b.len() - 1]) =~= a + b);
        lemma_forest_view_push(a + b0, b[b.len() - 1]);
        assert(b0.push(b[b.len() - 1]) =~= b);
        lemma_forest_view_push(b0, b[b.len() - 1]);
        assert(forest_view(a) + forest_view(b0).push(tree_view(b[b.len() - 1])) =~= (forest_view(a)
            + forest_view(b0)).push(tree_view(b[b.len() - 1])));
    }
}

impl Subtree {
    /// A structurally equal copy of the tree.
    pub fn deep_copy(&self) -> (r: Subtree)
        ensures
            r@ == self@,
        decreases self,
    {
        match self {
            Subtree::Node(name, text) => Subtree::Node(name.clone(), text.clone()),
            Subtree::SubT(label, children) => Subtree::SubT(label.clone(), copy_forest(children)),
        }
    }
}

impl Clone for Subtree {
    fn clone(&self) -> Self {
        self.deep_copy()
    }
}

/// A structurally equal copy of a sequence of trees.
pub fn copy_forest(v: &Vec<Subtree>) -> (r: Vec<Subtree>)
    ensures
        forest_view(r@) == forest_view(v@),
    decreases v,
{
    let mut r: Vec<Subtree> = Vec::new();
    let mut k: usize = 0;
    while k < v.len()
        invariant
            k <= v.len(),
            forest_view(r@) == forest_view(v@.subrange(0, k as int)),
        decreases v.len() - k,
    {
        assert(decreases_to!(v => v[k as int]));
        let t = v[k].deep_copy();
        proof {
            lemma_forest_view_push(r@, t);
            lemma_forest_view_push(v@.subrange(0, k as int), v@[k as int]);
            assert(v@.subrange(0, k as int).push(v@[k as int]) =~= v@.subrange(0, k + 1));
        }
        r.push(t);
        k = k + 1;
    }
    assert(v@.subrange(0, v.len() as int) =~= v@);
    r
}

} // verus!
