use earley::{Grammar, Production, Terminal, NonTerminal, Token, Value};
use earley_trees::{build_trees, bt_helper, trees_for_start, BackPointer, Item, ParseState, Subtree, Trigger};

struct Prod {
    name: &'static str,
    tokens: Vec<Token>,
}

impl Production<()> for Prod {
    fn get_name(&self) -> &'static str {
        self.name
    }

    fn get_tokens(&self) -> &[Token] {
        &self.tokens
    }

    fn perform<'a>(&self, _result: Vec<Value<'a, ()>>) {}
}

fn grammar(prods: Vec<(&'static str, Vec<Token>)>) -> Grammar<()> {
    let boxed: Vec<Box<dyn Production<()>>> = prods
        .into_iter()
        .map(|(name, tokens)| Box::new(Prod { name, tokens }) as Box<dyn Production<()>>)
        .collect();
    Grammar::new(boxed)
}

fn item(rule: &str, label: &str, start: usize, dot: usize, arity: usize, next: Option<&str>, bps: Vec<BackPointer>) -> Item {
    Item {
        rule: rule.to_string(),
        label: label.to_string(),
        start,
        dot,
        arity,
        next_symbol: next.map(|s| s.to_string()),
        back_pointers: bps,
    }
}

fn scan(prediction: usize, text: &str) -> BackPointer {
    BackPointer { prediction, trigger: Trigger::Scan(text.to_string()) }
}

fn comp(prediction: usize, completed: usize) -> BackPointer {
    BackPointer { prediction, trigger: Trigger::Completion(completed) }
}

fn show(t: &Subtree) -> String {
    match t {
        Subtree::Node(sym, text) => format!("{}:{}", sym, text),
        Subtree::SubT(label, children) => {
            let inner: Vec<String> = children.iter().map(show).collect();
            format!("({} [{}])", label, inner.join(", "))
        }
    }
}

fn show_all(ts: &[Subtree]) -> Vec<String> {
    ts.iter().map(show).collect()
}

fn leaves(t: &Subtree, out: &mut Vec<String>) {
    match t {
        Subtree::Node(_, text) => out.push(text.clone()),
        Subtree::SubT(_, children) => {
            for c in children {
                leaves(c, out);
            }
        }
    }
}

fn child_counts_match(t: &Subtree, arity: &dyn Fn(&str) -> usize) -> bool {
    match t {
        Subtree::Node(_, _) => true,
        Subtree::SubT(label, children) => {
            children.len() == arity(label) && children.iter().all(|c| child_counts_match(c, arity))
        }
    }
}

const PLUS: &str = "E -> E + E";
const TIMES: &str = "E -> E * E";
const NUM: &str = "E -> n";

fn expr_grammar() -> Grammar<()> {
    grammar(vec![
        ("E", vec![NonTerminal("E"), Terminal("+"), NonTerminal("E")]),
        ("E", vec![NonTerminal("E"), Terminal("*"), NonTerminal("E")]),
        ("E", vec![Terminal("n")]),
    ])
}

/// The table of `E -> E + E | E * E | n` over `1 + 2 * 3`.
fn expr_table() -> ParseState {
    let items = vec![
        item("E", PLUS, 0, 0, 3, Some("E"), vec![]),
        item("E", TIMES, 0, 0, 3, Some("E"), vec![]),
        item("E", NUM, 0, 0, 1, Some("n"), vec![]),
        item("E", NUM, 0, 1, 1, None, vec![scan(2, "1")]),
        item("E", PLUS, 0, 1, 3, Some("+"), vec![comp(0, 3)]),
        item("E", TIMES, 0, 1, 3, Some("*"), vec![comp(1, 3)]),
        item("E", PLUS, 0, 2, 3, Some("E"), vec![scan(4, "+")]),
        item("E", PLUS, 2, 0, 3, Some("E"), vec![]),
        item("E", TIMES, 2, 0, 3, Some("E"), vec![]),
        item("E", NUM, 2, 0, 1, Some("n"), vec![]),
        item("E", NUM, 2, 1, 1, None, vec![scan(9, "2")]),
        item("E", PLUS, 0, 3, 3, None, vec![comp(6, 10)]),
        item("E", PLUS, 2, 1, 3, Some("+"), vec![comp(7, 10)]),
        item("E", TIMES, 2, 1, 3, Some("*"), vec![comp(8, 10)]),
        item("E", PLUS, 0, 1, 3, Some("+"), vec![comp(0, 11)]),
        item("E", TIMES, 0, 1, 3, Some("*"), vec![comp(1, 11)]),
        item("E", TIMES, 0, 2, 3, Some("E"), vec![scan(15, "*")]),
        item("E", TIMES, 2, 2, 3, Some("E"), vec![scan(13, "*")]),
        item("E", PLUS, 4, 0, 3, Some("E"), vec![]),
        item("E", TIMES, 4, 0, 3, Some("E"), vec![]),
        item("E", NUM, 4, 0, 1, Some("n"), vec![]),
        item("E", NUM, 4, 1, 1, None, vec![scan(20, "3")]),
        item("E", TIMES, 0, 3, 3, None, vec![comp(16, 21)]),
        item("E", TIMES, 2, 3, 3, None, vec![comp(17, 21)]),
        item("E", PLUS, 0, 3, 3, None, vec![comp(6, 23)]),
    ];
    let states = vec![
        vec![0, 1, 2],
        vec![3, 4, 5],
        vec![6, 7, 8, 9],
        vec![10, 11, 12, 13, 14, 15],
        vec![16, 17, 18, 19, 20],
        vec![21, 22, 23, 24],
    ];
    ParseState { items, states }
}

fn num_grammar() -> Grammar<()> {
    grammar(vec![("S", vec![Terminal("n")])])
}

/// The table of `S -> n` over `5`.
fn num_table() -> ParseState {
    ParseState {
        items: vec![
            item("S", "S -> n", 0, 0, 1, Some("n"), vec![]),
            item("S", "S -> n", 0, 1, 1, None, vec![scan(0, "5")]),
        ],
        states: vec![vec![0], vec![1]],
    }
}

#[test]
fn ambiguous_expression_gives_both_groupings() {
    let trees = build_trees(&expr_grammar(), &expr_table());
    assert_eq!(
        show_all(&trees),
        vec![
            "(E -> E * E [(E -> E + E [(E -> n [n:1]), +:+, (E -> n [n:2])]), *:*, (E -> n [n:3])])".to_string(),
            "(E -> E + E [(E -> n [n:1]), +:+, (E -> E * E [(E -> n [n:2]), *:*, (E -> n [n:3])])])".to_string(),
        ]
    );
    for t in &trees {
        let mut out = Vec::new();
        leaves(t, &mut out);
        assert_eq!(out, vec!["1", "+", "2", "*", "3"]);
    }
}

#[test]
fn every_node_has_its_rule_arity() {
    let arity = |label: &str| match label {
        PLUS | TIMES => 3,
        NUM => 1,
        _ => usize::MAX,
    };
    let trees = build_trees(&expr_grammar(), &expr_table());
    assert_eq!(trees.len(), 2);
    for t in &trees {
        assert!(child_counts_match(t, &arity));
    }
}

#[test]
fn nullable_start_rule_on_empty_input() {
    let g = grammar(vec![("S", vec![])]);
    let table = ParseState {
        items: vec![item("S", "S ->", 0, 0, 0, None, vec![])],
        states: vec![vec![0]],
    };
    let trees = build_trees(&g, &table);
    assert_eq!(show_all(&trees), vec!["(S -> [])".to_string()]);
}

#[test]
fn single_scan() {
    let trees = build_trees(&num_grammar(), &num_table());
    assert_eq!(show_all(&trees), vec!["(S -> n [n:5])".to_string()]);
    match &trees[0] {
        Subtree::SubT(label, children) => {
            assert_eq!(label, "S -> n");
            assert_eq!(children.len(), 1);
            match &children[0] {
                Subtree::Node(sym, text) => {
                    assert_eq!(sym, "n");
                    assert_eq!(text, "5");
                }
                Subtree::SubT(_, _) => panic!("expected a leaf"),
            }
        }
        Subtree::Node(_, _) => panic!("expected an internal node"),
    }
}

#[test]
fn input_that_does_not_parse_gives_nothing() {
    // `S -> n` over `+`: nothing is scanned, the final set is empty.
    let table = ParseState {
        items: vec![item("S", "S -> n", 0, 0, 1, Some("n"), vec![])],
        states: vec![vec![0], vec![]],
    };
    assert!(build_trees(&num_grammar(), &table).is_empty());
}

#[test]
fn incomplete_or_unanchored_items_are_not_roots() {
    // `S -> n n` over `5`: the final set holds an incomplete start item, and a
    // complete one that did not start at offset 0.
    let table = ParseState {
        items: vec![
            item("S", "S -> n n", 0, 0, 2, Some("n"), vec![]),
            item("S", "S -> n n", 0, 1, 2, Some("n"), vec![scan(0, "5")]),
            item("S", "S -> n", 1, 0, 1, Some("n"), vec![]),
            item("S", "S -> n", 1, 1, 1, None, vec![scan(2, "5")]),
        ],
        states: vec![vec![0], vec![1, 3]],
    };
    let start = "S".to_string();
    assert!(trees_for_start(&start, &table).is_empty());
}

#[test]
fn only_the_start_rule_roots_count() {
    let table = num_table();
    assert!(trees_for_start(&"T".to_string(), &table).is_empty());
    assert_eq!(show_all(&trees_for_start(&"S".to_string(), &table)), vec!["(S -> n [n:5])".to_string()]);
}

#[test]
fn running_twice_gives_equal_results() {
    let table = expr_table();
    let g = expr_grammar();
    let a = build_trees(&g, &table);
    let b = build_trees(&g, &table);
    assert_eq!(show_all(&a), show_all(&b));
}

#[test]
fn bare_prediction_gives_the_empty_label_node() {
    let table = expr_table();
    assert_eq!(show_all(&bt_helper(&table, 0)), vec!["( [])".to_string()]);
}

#[test]
fn complete_empty_rule_item_gives_its_rule_node() {
    let table = ParseState {
        items: vec![item("S", "S ->", 0, 0, 0, None, vec![])],
        states: vec![vec![0]],
    };
    assert_eq!(show_all(&bt_helper(&table, 0)), vec!["(S -> [])".to_string()]);
}

#[test]
fn complete_item_trees_have_rule_arity() {
    let arity = |label: &str| match label {
        PLUS | TIMES => 3,
        NUM => 1,
        _ => usize::MAX,
    };
    let table = expr_table();
    for i in [3, 10, 11, 21, 22, 23, 24] {
        for t in &bt_helper(&table, i) {
            assert!(child_counts_match(t, &arity));
        }
    }
}

#[test]
fn prefix_is_flattened_before_the_trigger() {
    let table = expr_table();
    assert_eq!(show_all(&bt_helper(&table, 6)), vec!["(E -> E + E [(E -> n [n:1]), +:+])".to_string()]);
}

#[test]
fn back_pointers_of_one_item_are_all_expanded_in_order() {
    // `S -> S S | n` over `a a a`, reduced to the one complete item that has two
    // derivations: (a a) a and a (a a).
    let items = vec![
        item("S", "S -> n", 0, 0, 1, Some("n"), vec![]),
        item("S", "S -> n", 0, 1, 1, None, vec![scan(0, "a")]),
        item("S", "S -> n", 1, 0, 1, Some("n"), vec![]),
        item("S", "S -> n", 1, 1, 1, None, vec![scan(2, "b")]),
        item("S", "S -> n", 2, 0, 1, Some("n"), vec![]),
        item("S", "S -> n", 2, 1, 1, None, vec![scan(4, "c")]),
        item("S", "S -> S S", 0, 0, 2, Some("S"), vec![]),
        item("S", "S -> S S", 0, 1, 2, Some("S"), vec![comp(6, 1)]),
        item("S", "S -> S S", 1, 0, 2, Some("S"), vec![]),
        item("S", "S -> S S", 0, 2, 2, None, vec![comp(7, 3)]),
        item("S", "S -> S S", 1, 2, 2, None, vec![comp(8, 3)]),
        item("S", "S -> S S", 1, 1, 2, Some("S"), vec![comp(8, 3)]),
        item("S", "S -> S S", 1, 2, 2, None, vec![comp(11, 5)]),
        item("S", "S -> S S", 0, 1, 2, Some("S"), vec![comp(6, 9)]),
        item("S", "S -> S S", 0, 2, 2, None, vec![comp(13, 5), comp(7, 12)]),
    ];
    let table = ParseState { items, states: vec![vec![0, 6], vec![1], vec![3], vec![5, 14]] };
    let trees = trees_for_start(&"S".to_string(), &table);
    assert_eq!(
        show_all(&trees),
        vec![
            "(S -> S S [(S -> S S [(S -> n [n:a]), (S -> n [n:b])]), (S -> n [n:c])])".to_string(),
            "(S -> S S [(S -> n [n:a]), (S -> S S [(S -> n [n:b]), (S -> n [n:c])])])".to_string(),
        ]
    );
}

#[test]
fn completed_prefixes_cross_completed_triggers() {
    // A prediction with two derivations completed by an item with two
    // derivations gives four trees, prefixes outer and completions inner.
    let items = vec![
        item("A", "A -> x", 0, 0, 1, Some("x"), vec![]),
        item("A", "A -> x", 0, 1, 1, None, vec![scan(0, "p"), scan(0, "q")]),
        item("B", "B -> y", 0, 0, 1, Some("y"), vec![]),
        item("B", "B -> y", 0, 1, 1, None, vec![scan(2, "r"), scan(2, "s")]),
        item("S", "S -> A B", 0, 0, 2, Some("A"), vec![]),
        item("S", "S -> A B", 0, 1, 2, Some("B"), vec![comp(4, 1)]),
        item("S", "S -> A B", 0, 2, 2, None, vec![comp(5, 3)]),
    ];
    let table = ParseState { items, states: vec![vec![6]] };
    let trees = trees_for_start(&"S".to_string(), &table);
    assert_eq!(
        show_all(&trees),
        vec![
            "(S -> A B [(A -> x [x:p]), (B -> y [y:r])])".to_string(),
            "(S -> A B [(A -> x [x:p]), (B -> y [y:s])])".to_string(),
            "(S -> A B [(A -> x [x:q]), (B -> y [y:r])])".to_string(),
            "(S -> A B [(A -> x [x:q]), (B -> y [y:s])])".to_string(),
        ]
    );
}

#[test]
fn deep_copy_is_structurally_equal() {
    let trees = build_trees(&expr_grammar(), &expr_table());
    let copy = trees[1].deep_copy();
    assert_eq!(show(&copy), show(&trees[1]));
}

#[test]
fn item_completeness() {
    let table = expr_table();
    assert!(!table.items[6].complete());
    assert!(table.items[11].complete());
}

#[test]
fn start_rule_is_the_grammars_first() {
    // The table holds a complete `S` item; a grammar that starts at `T` has no tree.
    let g = grammar(vec![("T", vec![NonTerminal("S")]), ("S", vec![Terminal("n")])]);
    assert!(build_trees(&g, &num_table()).is_empty());
    assert_eq!(build_trees(&num_grammar(), &num_table()).len(), 1);
}

#[test]
fn clone_is_structurally_equal() {
    let trees = build_trees(&expr_grammar(), &expr_table());
    let copy = trees[0].clone();
    assert_eq!(show(&copy), show(&trees[0]));
}

#[test]
fn well_formed_tables_are_recognised() {
    assert!(expr_table().is_well_formed());
    assert!(num_table().is_well_formed());
}

#[test]
fn malformed_tables_are_rejected() {
    let no_sets = ParseState { items: vec![], states: vec![] };
    assert!(!no_sets.is_well_formed());

    let mut out_of_range = num_table();
    out_of_range.states[1].push(7);
    assert!(!out_of_range.is_well_formed());

    let mut forward = num_table();
    forward.items[0].back_pointers.push(scan(1, "5"));
    assert!(!forward.is_well_formed());

    let mut no_symbol = num_table();
    no_symbol.items[0].next_symbol = None;
    assert!(!no_symbol.is_well_formed());

    let mut forward_completion = num_table();
    forward_completion.items[1].back_pointers.push(comp(0, 1));
    assert!(!forward_completion.is_well_formed());
}
