use vstd::prelude::*;

verus! {

/// How an item advanced over its last right-hand-side symbol.
pub enum Trigger {
    /// A terminal was matched against the input; holds the matched text.
    Scan(String),
    /// A nonterminal was matched by the complete item at this index.
    Completion(usize),
}

/// Evidence of how an item advanced: the item before the last symbol, and what advanced it.
pub struct BackPointer {
    /// Index of the item that stands before the last symbol.
    pub prediction: usize,
    pub trigger: Trigger,
}

/// One Earley item: a dotted position within a rule, started at an input offset.
pub struct Item {
    /// Name of the rule's left-hand side.
    pub rule: String,
    /// Label of the production, as it appears on derivation trees.
    pub label: String,
    /// Input offset at which the item started.
    pub start: usize,
    /// Number of right-hand-side symbols before the dot.
    pub dot: usize,
    /// Number of right-hand-side symbols of the production.
    pub arity: usize,
    /// Name of the symbol right after the dot, if any.
    pub next_symbol: Option<String>,
    pub back_pointers: Vec<BackPointer>,
}

impl Item {
    pub open spec fn spec_complete(&self) -> bool {
        self.dot >= self.arity
    }

    /// Whether the dot stands at the end of the right-hand side.
    pub fn complete(&self) -> (r: bool)
        ensures
            r == self.spec_complete(),
    {
        self.dot >= self.arity
    }
}

/// The populated state table of a parse: an arena of items, and the item sets
/// (one per input position plus a final one) as indices into that arena.
pub struct ParseState {
    pub items: Vec<Item>,
    pub states: Vec<Vec<usize>>,
}

impl ParseState {
    /// Back-pointer `k` of item `i` refers to items recorded before `i`, and a
    /// scan advances an item that expects a symbol.
    pub open spec fn back_pointer_ok(&self, i: int, k: int) -> bool {
        let bp = self.items@[i].back_pointers@[k];
        &&& bp.prediction < i
        &&& match bp.trigger {
            Trigger::Scan(_) => self.items@[bp.prediction as int].next_symbol.is_some(),
            Trigger::Completion(c) => c < i,
        }
    }

    /// The table is well formed: at least one item set, every index in range,
    /// and back-pointers acyclic by the arena's order.
    pub open spec fn wf(&self) -> bool {
        &&& self.states.len() > 0
        &&& forall|s: int, j: int|
            0 <= s < self.states.len() && 0 <= j < self.states@[s].len() ==> #[trigger] self.states@[s]@[j]
                < self.items.len()
        &&& forall|i: int, k: int|
            0 <= i < self.items.len() && 0 <= k < self.items@[i].back_pointers.len()
                ==> #[trigger] self.back_pointer_ok(i, k)
    }

    /// The final item set.
    pub open spec fn last_set(&self) -> Seq<usize> {
        self.states@[self.states.len() - 1]@
    }

    /// Whether the table is well formed, as `wf` states it.
    pub fn is_well_formed(&self) -> (r: bool)
        ensures
            r == self.wf(),
    {
        if self.states.len() == 0 {
            return false;
        }
        let n = self.items.len();
        let mut s: usize = 0;
        while s < self.states.len()
            invariant
                n == self.items.len(),
                s <= self.states.len(),
                forall|s2: int, j: int|
                    0 <= s2 < s && 0 <= j < self.states@[s2].len() ==> #[trigger] self.states@[s2]@[j] < n,
            decreases self.states.len() - s,
        {
            let set = &self.states[s];
            let mut j: usize = 0;
            while j < set.len()
                invariant
                    n == self.items.len(),
                    s < self.states.len(),
                    set == self.states@[s as int],
                    j <= set.len(),
                    forall|s2: int, j2: int|
                        0 <= s2 < s && 0 <= j2 < self.states@[s2].len() ==> #[trigger] self.states@[s2]@[j2] < n,
                    forall|j2: int| 0 <= j2 < j ==> #[trigger] set@[j2] < n,
                decreases set.len() - j,
            {
                if set[j] >= n {
                    assert(self.states@[s as int]@[j as int] >= n);
                    return false;
                }
                j = j + 1;
            }
            s = s + 1;
        }
        let mut i: usize = 0;
        while i < n
            invariant
                n == self.items.len(),
                i <= n,
                forall|i2: int, k: int|
                    0 <= i2 < i && 0 <= k < self.items@[i2].back_pointers.len() ==> #[trigger] self.back_pointer_ok(
                        i2,
                        k,
                    ),
            decreases n - i,
        {
            let bps = &self.items[i].back_pointers;
            let mut k: usize = 0;
            while k < bps.len()
                invariant
                    n == self.items.len(),
                    i < n,
                    bps == self.items@[i as int].back_pointers,
                    k <= bps.len(),
                    forall|i2: int, k2: int|
                        0 <= i2 < i && 0 <= k2 < self.items@[i2].back_pointers.len() ==> #[trigger] self.back_pointer_ok(
                            i2,
                            k2,
                        ),
                    forall|k2: int| 0 <= k2 < k ==> #[trigger] self.back_pointer_ok(i as int, k2),
                decreases bps.len() - k,
            {
                let bp = &bps[k];
                let ok = if bp.prediction >= i {
                    false
                } else {
                    match &bp.trigger {
                        Trigger::Scan(_) => self.items[bp.prediction].next_symbol.is_some(),
                        Trigger::Completion(c) => *c < i,
                    }
                };
                if !ok {
                    assert(!self.back_pointer_ok(i as int, k as int));
                    return false;
                }
                k = k + 1;
            }
            i = i + 1;
        }
        true
    }
}

} // verus!
