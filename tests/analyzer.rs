use analyzer::config::{build_forest, build_tree, PatternConfig};
use analyzer::counter::{self, PatternCounter};
use analyzer::group::GroupVec;
use analyzer::matcher::PatternMatcher;
use analyzer::{Analyzer, GroupTree, Pattern};

fn leaf(name: &str, source: &str) -> (String, PatternConfig) {
    (name.to_string(), PatternConfig::Leaf(source.to_string()))
}

fn node(name: &str, entries: Vec<(String, PatternConfig)>) -> (String, PatternConfig) {
    (name.to_string(), PatternConfig::Node(entries))
}

fn forest(entries: Vec<(String, PatternConfig)>) -> Vec<GroupTree<Pattern>> {
    build_forest(entries).unwrap()
}

#[test]
fn counter_scenario_digits_and_words() {
    let tree = forest(vec![leaf("digits", "[0-9]+"), leaf("word", "[a-z]+")]);
    let mut c = PatternCounter::new(tree);
    for line in ["abc123", "456", "xyz"] {
        c.analyze(line.to_string());
    }
    assert_eq!(c.format(), "digits: 2\nword: 2\n");
}

#[test]
fn counter_counts_lines_not_occurrences() {
    let tree = forest(vec![leaf("num", "[0-9]")]);
    let mut c = PatternCounter::new(tree);
    c.analyze("1 2 3 4".to_string());
    c.analyze("none".to_string());
    assert_eq!(c.format(), "num: 1\n");
}

#[test]
fn counter_groups_thousands() {
    let tree = forest(vec![leaf("any", "")]);
    let mut c = PatternCounter::new(tree);
    for _ in 0..1234 {
        c.analyze("x".to_string());
    }
    assert_eq!(c.format(), "any: 1,234\n");
}

#[test]
fn matcher_scenario_numbers() {
    let tree = forest(vec![leaf("num", "[0-9]+")]);
    let mut m = PatternMatcher::new(tree, 10);
    m.analyze("a1 b2".to_string());
    m.analyze("a1 c3".to_string());
    assert_eq!(m.format(), "num\n\t1: 2\n\t2: 1\n\t3: 1\n");
}

#[test]
fn matcher_top_cutoff() {
    let tree = forest(vec![leaf("num", "[0-9]+")]);
    let mut m = PatternMatcher::new(tree, 2);
    m.analyze("1 2 3 2".to_string());
    assert_eq!(m.format(), "num\n\t1: 1\n\t2: 2\n");
    let tree = forest(vec![leaf("num", "[0-9]+")]);
    let mut z = PatternMatcher::new(tree, 0);
    z.analyze("1 2 3".to_string());
    assert_eq!(z.format(), "num\n");
}

#[test]
fn matcher_counts_every_occurrence() {
    let tree = forest(vec![leaf("word", "[a-z]+"), leaf("none", "q")]);
    let mut m = PatternMatcher::new(tree, usize::MAX);
    m.analyze("ab ab cd".to_string());
    assert_eq!(m.format(), "word\n\tab: 2\n\tcd: 1\nnone\n");
}

#[test]
fn nested_group_scenario() {
    let tree = forest(vec![node(
        "net",
        vec![leaf("ip", "[0-9]+\\.[0-9]+"), leaf("port", ":[0-9]+")],
    )]);
    let mut c = PatternCounter::new(tree);
    c.analyze("10.0:80".to_string());
    c.analyze("host:22".to_string());
    assert_eq!(c.format(), "net:\n  ip: 1\n  port: 2\n");
}

#[test]
fn deeper_groups_indent_further() {
    let tree = forest(vec![
        node("outer", vec![node("inner", vec![leaf("a", "a")]), leaf("b", "b")]),
    ]);
    let c = PatternCounter::new(tree);
    assert_eq!(c.format(), "outer:\n  b: 0\n  inner:\n    a: 0\n");
}

#[test]
fn empty_group_scenario() {
    let tree = vec![GroupTree::Group {
        name: "empty".to_string(),
        group: Vec::new(),
    }];
    let g: GroupVec<counter::Inner> = GroupVec::from_tree(tree);
    assert_eq!(g.flattened.len(), 0);
    assert_eq!(
        g.inner,
        vec![GroupTree::Group {
            name: "empty".to_string(),
            group: Vec::new(),
        }]
    );
    let c = PatternCounter::new(vec![GroupTree::Group {
        name: "empty".to_string(),
        group: Vec::new(),
    }]);
    assert_eq!(c.format(), "empty:\n");
}

#[test]
fn flattening_numbers_leaves_depth_first_and_sorts() {
    let tree = forest(vec![
        node("z", vec![leaf("a", "a"), leaf("b", "b")]),
        leaf("c", "c"),
        node("y", vec![]),
    ]);
    let g: GroupVec<counter::Inner> = GroupVec::from_tree(tree);
    assert_eq!(g.flattened.len(), 3);
    assert_eq!(g.flattened[0].pattern.name(), "a");
    assert_eq!(g.flattened[1].pattern.name(), "b");
    assert_eq!(g.flattened[2].pattern.name(), "c");
    let expected = vec![
        GroupTree::Leaf(2),
        GroupTree::Group {
            name: "y".to_string(),
            group: vec![],
        },
        GroupTree::Group {
            name: "z".to_string(),
            group: vec![GroupTree::Leaf(0), GroupTree::Leaf(1)],
        },
    ];
    assert_eq!(g.inner, expected);
}

#[test]
fn flattening_is_deterministic() {
    let make = || {
        forest(vec![
            node("g", vec![leaf("b", "b"), node("h", vec![leaf("a", "a")])]),
            leaf("c", "c"),
        ])
    };
    let a: GroupVec<counter::Inner> = GroupVec::from_tree(make());
    let b: GroupVec<counter::Inner> = GroupVec::from_tree(make());
    assert_eq!(a.inner, b.inner);
    assert_eq!(a.flattened.len(), 3);
}

#[test]
fn groups_with_same_name_order_by_children() {
    let tree = forest(vec![
        node("g", vec![leaf("b", "b")]),
        node("g", vec![leaf("a", "a")]),
    ]);
    let g: GroupVec<counter::Inner> = GroupVec::from_tree(tree);
    assert_eq!(
        g.inner,
        vec![
            GroupTree::Group {
                name: "g".to_string(),
                group: vec![GroupTree::Leaf(0)],
            },
            GroupTree::Group {
                name: "g".to_string(),
                group: vec![GroupTree::Leaf(1)],
            },
        ]
    );
}

#[test]
fn invalid_expression_is_reported() {
    let r = build_forest(vec![leaf("ok", "a"), node("g", vec![leaf("bad", "[")])]);
    assert_eq!(r.unwrap_err(), "[");
    let r = build_tree("bad".to_string(), PatternConfig::Leaf("(".to_string()));
    assert_eq!(r.unwrap_err(), "(");
}

#[test]
fn pattern_keeps_name_and_source() {
    let p = Pattern::new("num".to_string(), "[0-9]+".to_string()).unwrap();
    assert_eq!(p.name(), "num");
    assert_eq!(p.as_str(), "[0-9]+");
    assert!(Pattern::new("bad".to_string(), "(".to_string()).is_err());
}
