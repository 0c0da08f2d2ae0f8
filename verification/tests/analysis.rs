use rgbuilder::alias::may_alias_names;
use rgbuilder::cfg::{ControlFlowGraph, Statement};
use rgbuilder::dominance::{verify_idom_acyclic, DominatorTree};

fn graph(blocks: usize, edges: &[(usize, usize)]) -> ControlFlowGraph {
    let mut cfg = ControlFlowGraph::new(blocks, 0).unwrap();
    for &(a, b) in edges {
        assert!(cfg.add_edge(a, b));
    }
    cfg
}

fn stmt(defined: &[&str], used: &[&str]) -> Statement {
    Statement {
        defined_vars: defined.iter().map(|s| s.to_string()).collect(),
        used_vars: used.iter().map(|s| s.to_string()).collect(),
    }
}

#[test]
fn field_and_copy_alias() {
    // `OrderDTO other = order; other.status = "X";`
    let mut cfg = graph(3, &[(0, 1), (1, 2)]);
    assert!(cfg.add_statement(1, stmt(&["other"], &["order"])));
    assert!(cfg.add_statement(1, stmt(&["other.status"], &[])));
    let set = may_alias_names(&cfg, "order");
    assert!(set.contains("order"));
    assert!(set.contains("other"), "copy alias missing");
    assert!(set.contains("other.status"), "field via alias missing");
}

#[test]
fn alias_keeps_unrelated_names_apart() {
    let mut cfg = graph(2, &[(0, 1)]);
    assert!(cfg.add_statement(0, stmt(&["a"], &["b"])));
    assert!(cfg.add_statement(1, stmt(&["c"], &["d", "e"])));
    assert!(cfg.add_statement(1, stmt(&["x.y"], &["a"])));
    let set = may_alias_names(&cfg, "b");
    assert!(set.contains("a"));
    assert!(set.contains("b"));
    assert!(!set.contains("c"));
    assert!(!set.contains("d"));
    assert!(!set.contains("x.y"));
    assert_eq!(set.len(), 2);
}

#[test]
fn alias_sets_of_mentioned_names_partition_them() {
    let mut cfg = graph(2, &[(0, 1)]);
    assert!(cfg.add_statement(0, stmt(&["other"], &["order"])));
    assert!(cfg.add_statement(1, stmt(&["other.status"], &[])));
    assert!(cfg.add_statement(1, stmt(&["c"], &["d", "e"])));
    let names = ["other", "order", "other.status", "c", "d", "e"];
    for a in names {
        let sa = may_alias_names(&cfg, a);
        for b in names {
            let sb = may_alias_names(&cfg, b);
            assert_eq!(sa.contains(b), sb.contains(a));
            let same = names.iter().all(|k| sa.contains(k) == sb.contains(k)) && sa.len() == sb.len();
            assert_eq!(sa.contains(b), same);
        }
    }
    assert!(may_alias_names(&cfg, "order").contains("other.status"));
    assert!(!may_alias_names(&cfg, "d").contains("e"));
}

#[test]
fn alias_seed_field_joins_its_base() {
    let cfg = graph(1, &[]);
    let set = may_alias_names(&cfg, "order.status");
    assert!(set.contains("order.status"));
    assert!(set.contains("order"));
    assert_eq!(set.len(), 2);
}

#[test]
fn test_dominance_entry_dominates_all() {
    // `if x > 0 { return x * 2; } 0`: entry, then-branch, fall-through, exit.
    let cfg = graph(4, &[(0, 1), (0, 2), (1, 3), (2, 3)]);
    let dom = DominatorTree::build(&cfg);
    for (block, &reachable) in dom.reachable().iter().enumerate() {
        if reachable {
            assert!(dom.dominates(cfg.entry(), block));
        }
    }
    assert!(verify_idom_acyclic(dom.idom()));
}

#[test]
fn test_dominance_frontiers_non_empty_on_branch() {
    // `if x > 0 { let y = 1; }`: entry, then-branch, join.
    let cfg = graph(3, &[(0, 1), (0, 2), (1, 2)]);
    let dom = DominatorTree::build(&cfg);
    let has_frontier = (0..cfg.block_count()).any(|b| !dom.frontier(b).is_empty());
    assert!(has_frontier || cfg.block_count() <= 2);
}

#[test]
fn test_idom_acyclic_on_loop() {
    // `while i < n { .. }`: entry, header, body, exit.
    let cfg = graph(4, &[(0, 1), (1, 2), (2, 1), (1, 3)]);
    let dom = DominatorTree::build(&cfg);
    assert!(verify_idom_acyclic(dom.idom()));
}

#[test]
fn diamond_immediate_dominators_and_frontiers() {
    let cfg = graph(4, &[(0, 1), (0, 2), (1, 3), (2, 3)]);
    let dom = DominatorTree::build(&cfg);
    assert_eq!(dom.idom(), &[Some(0), Some(0), Some(0), Some(0)]);
    assert_eq!(dom.frontier(1), &[3]);
    assert_eq!(dom.frontier(2), &[3]);
    assert!(dom.frontier(0).is_empty());
    assert!(dom.frontier(3).is_empty());
    assert!(dom.frontier(9).is_empty());
    assert!(dom.dominates(0, 3));
    assert!(!dom.dominates(1, 3));
}

#[test]
fn loop_frontier_contains_header() {
    let cfg = graph(4, &[(0, 1), (1, 2), (2, 1), (1, 3)]);
    let dom = DominatorTree::build(&cfg);
    assert_eq!(dom.idom(), &[Some(0), Some(0), Some(1), Some(1)]);
    assert_eq!(dom.frontier(2), &[1]);
    assert_eq!(dom.frontier(1), &[1]);
}

#[test]
fn loop_entered_below_the_entry_hangs_under_its_entering_block() {
    // entry -> a -> h, h -> b -> h, h -> x
    let cfg = graph(5, &[(0, 1), (1, 2), (2, 3), (3, 2), (2, 4)]);
    let dom = DominatorTree::build(&cfg);
    assert_eq!(dom.idom(), &[Some(0), Some(0), Some(1), Some(2), Some(2)]);
    assert!(dom.dominates(1, 2));
    assert!(dom.dominates(1, 4));
    assert!(dom.dominates(2, 3));
    assert!(!dom.dominates(3, 4));
    assert!(dom.frontier(1).is_empty());
    assert_eq!(dom.frontier(3), &[2]);
    assert_eq!(dom.frontier(2), &[2]);
    assert!(dom.frontier(0).is_empty());
    let checked = DominatorTree::build_verified(&cfg).ok().unwrap();
    assert_eq!(checked.idom(), dom.idom());
}

#[test]
fn dominance_is_reflexive_antisymmetric_and_transitive() {
    let cfg = graph(6, &[(0, 1), (0, 2), (1, 3), (2, 3), (3, 4), (4, 3), (3, 5)]);
    let dom = DominatorTree::build(&cfg);
    for a in 0..6 {
        assert!(dom.dominates(a, a));
        for b in 0..6 {
            if a != b && dom.dominates(a, b) {
                assert!(!dom.dominates(b, a));
            }
            for c in 0..6 {
                if dom.dominates(a, b) && dom.dominates(b, c) {
                    assert!(dom.dominates(a, c));
                }
            }
        }
    }
    assert_eq!(dom.idom(), &[Some(0), Some(0), Some(0), Some(0), Some(3), Some(3)]);
}

#[test]
fn unreachable_block_has_no_idom() {
    let cfg = graph(3, &[(0, 1)]);
    let dom = DominatorTree::build(&cfg);
    assert_eq!(dom.reachable(), &[true, true, false]);
    assert_eq!(dom.idom()[2], None);
    assert!(!dom.dominates(0, 2));
}

#[test]
fn cyclic_idom_is_detected() {
    assert!(!verify_idom_acyclic(&[Some(1), Some(0)]));
    assert!(verify_idom_acyclic(&[Some(0), Some(0), None]));
}

#[test]
fn graph_rejects_out_of_range_entry_and_edges() {
    assert!(ControlFlowGraph::new(2, 2).is_none());
    let mut cfg = ControlFlowGraph::new(2, 0).unwrap();
    assert!(!cfg.add_edge(0, 5));
    assert!(cfg.add_edge(0, 1));
    assert!(cfg.add_edge(0, 1));
    assert_eq!(cfg.successors(0), &[1]);
    assert_eq!(cfg.predecessors(1), &[0]);
}

#[test]
fn frontiers_are_the_textbook_dominance_frontiers() {
    let edges = [(0, 1), (0, 2), (1, 3), (2, 3), (3, 4), (4, 5), (5, 4), (4, 6), (2, 6), (6, 1)];
    let cfg = graph(8, &edges);
    let dom = DominatorTree::build(&cfg);
    for x in 0..8 {
        for y in 0..8 {
            let has_pred = edges
                .iter()
                .any(|&(p, b)| b == y && dom.reachable()[p] && dom.dominates(x, p));
            let expected = dom.reachable()[y] && has_pred && !(x != y && dom.dominates(x, y));
            assert_eq!(dom.frontier(x).contains(&y), expected, "x = {}, y = {}", x, y);
        }
    }
    assert!(!dom.reachable()[7]);
}
