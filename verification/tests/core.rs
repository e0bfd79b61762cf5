use nodular::automaton::Automaton;
use nodular::graph::{Graph, Node};
use nodular::rules::{Pattern, Rule, Ruleset};

fn wire_world_rules() -> Ruleset {
    // state 0 = "electron", state 1 = "wire"
    let turn_on = Pattern::Or(
        Box::new(Pattern::Equal { state: 0, number: 1 }),
        Box::new(Pattern::Equal { state: 0, number: 2 }),
    );
    Ruleset::new(
        vec![
            vec![Rule::new(turn_on, 0), Rule::new(Pattern::Wildcard, 1)],
            vec![Rule::new(Pattern::Wildcard, 1)],
        ],
        vec!["electron".to_string(), "wire".to_string()],
    )
    .unwrap()
}

#[test]
fn ruleset_with_wildcard_everywhere_is_accepted() {
    let rs = Ruleset::new(
        vec![
            vec![Rule::new(Pattern::Equal { state: 0, number: 1 }, 1), Rule::new(Pattern::Wildcard, 0)],
            vec![Rule::new(Pattern::Wildcard, 1)],
        ],
        vec!["a".to_string(), "b".to_string()],
    );
    assert!(rs.is_some());
    assert!(rs.unwrap().is_valid());
}

#[test]
fn ruleset_missing_wildcard_is_rejected() {
    let rs = Ruleset::new(
        vec![
            vec![Rule::new(Pattern::Wildcard, 0)],
            vec![Rule::new(Pattern::Equal { state: 0, number: 1 }, 1)],
        ],
        vec!["a".to_string(), "b".to_string()],
    );
    assert!(rs.is_none());
}

#[test]
fn ruleset_with_empty_rule_list_is_rejected() {
    let rs = Ruleset::new(vec![vec![]], vec!["a".to_string()]);
    assert!(rs.is_none());
}

#[test]
fn add_node_appends_and_returns_index() {
    let mut g = Graph::new();
    assert_eq!(g.add_node(3), 0);
    assert_eq!(g.add_node(7), 1);
    assert_eq!(g.nodes.len(), 2);
    assert_eq!(g.nodes[0].read, 3);
    assert_eq!(g.nodes[0].write, 3);
    assert!(g.nodes[0].edges.is_empty());
    assert_eq!(g.nodes[1].read, 7);
}

#[test]
fn add_edge_inserts_once() {
    let mut g = Graph::new();
    g.add_node(0);
    g.add_node(0);
    assert!(g.add_edge(0, 1));
    assert!(!g.add_edge(0, 1));
    assert_eq!(g.nodes[0].edges, vec![1]);
    // self-edges are permitted
    assert!(g.add_edge(1, 1));
    assert_eq!(g.nodes[1].edges, vec![1]);
}

#[test]
fn remove_edge_drops_the_target() {
    let mut g = Graph::new();
    g.add_node(0);
    g.add_node(0);
    g.add_node(0);
    g.add_edge(0, 1);
    g.add_edge(0, 2);
    g.remove_edge(0, 1);
    assert_eq!(g.nodes[0].edges, vec![2]);
    // removing an absent edge is a no-op
    g.remove_edge(0, 1);
    assert_eq!(g.nodes[0].edges, vec![2]);
}

#[test]
fn remove_node_swaps_last_and_remaps_edges() {
    // nodes 0..4; remove node 1; node 3 (last) moves to index 1.
    let mut g = Graph::new();
    g.add_node(10);
    g.add_node(11);
    g.add_node(12);
    g.add_node(13);
    g.add_edge(0, 1); // edge to the removed node: dropped
    g.add_edge(0, 3); // edge to the moved node: becomes 1
    g.add_edge(0, 2); // untouched
    g.add_edge(3, 1); // on the moved node, targeting the removed one: dropped
    g.add_edge(3, 0); // on the moved node: kept
    g.remove_node(1);
    assert_eq!(g.nodes.len(), 3);
    assert_eq!(g.nodes[0].read, 10);
    assert_eq!(g.nodes[1].read, 13); // former last node now at index 1
    assert_eq!(g.nodes[2].read, 12);
    assert_eq!(g.nodes[0].edges, vec![1, 2]);
    assert_eq!(g.nodes[1].edges, vec![0]);
    assert!(g.check_wf());
}

#[test]
fn remove_last_node_just_drops_it() {
    let mut g = Graph::new();
    g.add_node(0);
    g.add_node(1);
    g.add_edge(0, 1);
    g.add_edge(0, 0);
    g.remove_node(1);
    assert_eq!(g.nodes.len(), 1);
    assert_eq!(g.nodes[0].edges, vec![0]);
}

#[test]
fn remove_node_from_app_remaps_a_selection() {
    let mut g = Graph::new();
    g.add_node(0);
    g.add_node(1);
    g.add_node(2);
    let mut selected = vec![2, 0];
    g.remove_node_from_app(0, &mut selected);
    // old last index 2 now names index 0
    assert_eq!(selected, vec![0, 0]);
    assert_eq!(g.nodes[0].read, 2);
    assert_eq!(g.nodes[1].read, 1);
}

#[test]
fn copy_builds_the_induced_subgraph() {
    // an edge 1 -> 3, nothing touching node 0
    let mut g = Graph::new();
    g.add_node(0);
    g.add_node(5);
    g.add_node(6);
    g.add_node(7);
    g.add_edge(1, 3);
    g.add_edge(1, 2); // to an unselected node: dropped
    g.add_edge(2, 3); // from an unselected node: dropped
    let sub = g.copy(&[1, 3]);
    assert_eq!(sub.nodes.len(), 2);
    assert_eq!(sub.nodes[0].read, 5);
    assert_eq!(sub.nodes[1].read, 7);
    assert_eq!(sub.nodes[0].edges, vec![1]);
    assert!(sub.nodes[1].edges.is_empty());
    assert!(sub.check_wf());
}

#[test]
fn copy_preserves_selection_order() {
    let mut g = Graph::new();
    g.add_node(1);
    g.add_node(2);
    g.add_edge(0, 1);
    let sub = g.copy(&[1, 0]);
    assert_eq!(sub.nodes[0].read, 2);
    assert_eq!(sub.nodes[1].read, 1);
    // the edge 0 -> 1 becomes new-1 -> new-0
    assert!(sub.nodes[0].edges.is_empty());
    assert_eq!(sub.nodes[1].edges, vec![0]);
}

#[test]
fn pattern_counting_variants() {
    // node 0 has neighbors 1, 2, 3 with read states 5, 5, 9
    let mut g = Graph::new();
    g.add_node(0);
    g.add_node(5);
    g.add_node(5);
    g.add_node(9);
    g.add_edge(0, 1);
    g.add_edge(0, 2);
    g.add_edge(0, 3);
    assert!(Pattern::Equal { state: 5, number: 2 }.pattern_match(0, &g));
    assert!(!Pattern::Equal { state: 5, number: 1 }.pattern_match(0, &g));
    assert!(Pattern::Gth { state: 5, number: 1 }.pattern_match(0, &g));
    assert!(!Pattern::Gth { state: 5, number: 2 }.pattern_match(0, &g));
    assert!(Pattern::Lth { state: 9, number: 2 }.pattern_match(0, &g));
    assert!(!Pattern::Lth { state: 9, number: 1 }.pattern_match(0, &g));
    assert!(Pattern::Geq { state: 5, number: 2 }.pattern_match(0, &g));
    assert!(Pattern::Leq { state: 5, number: 2 }.pattern_match(0, &g));
    assert!(!Pattern::Leq { state: 5, number: 1 }.pattern_match(0, &g));
    assert!(Pattern::Wildcard.pattern_match(0, &g));
    let both = Pattern::And(
        Box::new(Pattern::Equal { state: 5, number: 2 }),
        Box::new(Pattern::Equal { state: 9, number: 1 }),
    );
    assert!(both.pattern_match(0, &g));
    let either = Pattern::Or(
        Box::new(Pattern::Equal { state: 5, number: 0 }),
        Box::new(Pattern::Equal { state: 9, number: 1 }),
    );
    assert!(either.pattern_match(0, &g));
    let neither = Pattern::Not(Box::new(Pattern::Equal { state: 5, number: 2 }));
    assert!(!neither.pattern_match(0, &g));
    // counting looks only at outgoing neighbors: node 1 has none
    assert!(Pattern::Equal { state: 5, number: 0 }.pattern_match(1, &g));
}

#[test]
fn apply_takes_the_first_matching_rule() {
    let rs = Ruleset::new(
        vec![vec![
            Rule::new(Pattern::Equal { state: 0, number: 1 }, 7),
            Rule::new(Pattern::Wildcard, 9),
        ]],
        vec!["only".to_string()],
    )
    .unwrap();
    let mut g = Graph::new();
    g.add_node(0);
    g.add_node(0);
    g.add_edge(0, 1);
    // node 0 sees one neighbor in state 0: the first rule matches
    assert_eq!(rs.apply(0, &mut g), Some(()));
    assert_eq!(g.nodes[0].write, 7);
    // node 1 has no neighbors: it falls through to the wildcard
    assert_eq!(rs.apply(1, &mut g), Some(()));
    assert_eq!(g.nodes[1].write, 9);
}

#[test]
fn apply_with_no_matching_rule_leaves_the_node_alone() {
    // built directly, bypassing validation: no wildcard fallback
    let rs = Ruleset {
        names: vec!["only".to_string()],
        rules: vec![vec![Rule::new(Pattern::Equal { state: 0, number: 1 }, 7)]],
    };
    let mut g = Graph::new();
    g.add_node(0);
    assert_eq!(rs.apply(0, &mut g), None);
    assert_eq!(g.nodes[0].write, 0);
}

#[test]
fn a_wildcard_placed_first_shadows_later_rules() {
    let rs = Ruleset::new(
        vec![vec![
            Rule::new(Pattern::Wildcard, 3),
            Rule::new(Pattern::Equal { state: 0, number: 0 }, 8),
        ]],
        vec!["only".to_string()],
    )
    .unwrap();
    let mut g = Graph::new();
    g.add_node(0);
    rs.apply(0, &mut g);
    assert_eq!(g.nodes[0].write, 3);
}

#[test]
fn scenario_three_node_path_stays_at_zero() {
    // one state, rule = Wildcard -> 0; nodes 0 -> 1 -> 2 all start at 0
    let rs = Ruleset::new(
        vec![vec![Rule::new(Pattern::Wildcard, 0)]],
        vec!["hello world".to_string()],
    )
    .unwrap();
    let mut g = Graph::new();
    g.add_node(0);
    g.add_node(0);
    g.add_node(0);
    g.add_edge(0, 1);
    g.add_edge(1, 2);
    let mut a = Automaton::new(rs, g);
    assert!(a.is_steppable());
    a.step();
    for node in &a.graph.nodes {
        assert_eq!(node.write, 0);
        assert_eq!(node.read, 0);
    }
}

#[test]
fn scenario_isolated_electron_turns_into_wire() {
    let mut g = Graph::new();
    g.add_node(0);
    let mut a = Automaton::new(wire_world_rules(), g);
    assert!(a.is_steppable());
    a.step();
    // zero neighbors in state 0, so the first rule fails; Wildcard -> 1 wins
    assert_eq!(a.graph.nodes[0].write, 1);
}

#[test]
fn step_is_deterministic_across_runs() {
    let build = || {
        let mut g = Graph::new();
        g.add_node(0);
        g.add_node(1);
        g.add_node(0);
        g.add_edge(1, 0);
        g.add_edge(1, 2);
        g.add_edge(0, 1);
        Automaton::new(wire_world_rules(), g)
    };
    let mut a = build();
    let mut b = build();
    a.step();
    b.step();
    for (x, y) in a.graph.nodes.iter().zip(b.graph.nodes.iter()) {
        assert_eq!(x.read, y.read);
        assert_eq!(x.write, y.write);
        assert_eq!(x.edges, y.edges);
    }
}

#[test]
fn step_swaps_buffers_then_evaluates_the_frozen_snapshot() {
    // node 0 watches node 1; node 1's pending write must only be visible
    // after the swap, and node 0's evaluation must read it.
    let rs = Ruleset::new(
        vec![
            vec![
                Rule::new(Pattern::Equal { state: 1, number: 1 }, 1),
                Rule::new(Pattern::Wildcard, 0),
            ],
            vec![Rule::new(Pattern::Wildcard, 1)],
        ],
        vec!["off".to_string(), "on".to_string()],
    )
    .unwrap();
    let mut g = Graph::new();
    g.add_node(0);
    g.add_node(0);
    g.add_edge(0, 1);
    // stage a pending state for node 1
    g.nodes[1].write = 1;
    let mut a = Automaton::new(rs, g);
    a.step();
    // after the swap node 1 reads as 1, so node 0 counts one neighbor at 1
    assert_eq!(a.graph.nodes[1].read, 1);
    assert_eq!(a.graph.nodes[0].write, 1);
}

#[test]
fn steppable_rejects_an_out_of_range_state() {
    let rs = Ruleset::new(
        vec![vec![Rule::new(Pattern::Wildcard, 0)]],
        vec!["only".to_string()],
    )
    .unwrap();
    let mut g = Graph::new();
    g.add_node(5); // state 5 has no rule list
    let a = Automaton::new(rs, g);
    assert!(!a.is_steppable());
}

#[test]
fn check_wf_detects_dangling_edges() {
    let mut g = Graph::new();
    g.add_node(0);
    assert!(g.check_wf());
    g.nodes[0].edges.push(4);
    assert!(!g.check_wf());
}

#[test]
fn evaluation_order_does_not_change_the_outcome() {
    // two identical graphs with frozen read states; rules applied to the
    // nodes in different orders must leave identical write vectors
    let rules = wire_world_rules();
    let build = || {
        let mut g = Graph::new();
        g.add_node(0);
        g.add_node(0);
        g.add_node(1);
        g.add_edge(0, 1);
        g.add_edge(1, 2);
        g.add_edge(2, 0);
        g.nodes[0].read = 1;
        g.nodes[1].read = 0;
        g.nodes[2].read = 0;
        g
    };
    let mut forward = build();
    let mut backward = build();
    for i in 0..3 {
        rules.apply(i, &mut forward).unwrap();
    }
    for i in [2, 0, 1] {
        rules.apply(i, &mut backward).unwrap();
    }
    for (x, y) in forward.nodes.iter().zip(backward.nodes.iter()) {
        assert_eq!(x.write, y.write);
        assert_eq!(x.read, y.read);
    }
}
