use nodular::automaton::Automaton;
use nodular::graph::Graph;
use nodular::rules::{Pattern, Rule, Ruleset};

fn to_text(chars: &[char]) -> String {
    chars.iter().collect()
}

fn from_text(text: &str) -> Vec<char> {
    text.chars().collect()
}

fn sample_automaton() -> Automaton {
    let turn_on = Pattern::Or(
        Box::new(Pattern::Equal { state: 0, number: 1 }),
        Box::new(Pattern::Equal { state: 0, number: 2 }),
    );
    let calm = Pattern::And(
        Box::new(Pattern::Not(Box::new(Pattern::Gth { state: 1, number: 3 }))),
        Box::new(Pattern::Leq { state: 0, number: 2 }),
    );
    let rs = Ruleset::new(
        vec![
            vec![Rule::new(turn_on, 0), Rule::new(Pattern::Wildcard, 1)],
            vec![Rule::new(calm, 0), Rule::new(Pattern::Wildcard, 1)],
        ],
        vec!["electron".to_string(), "wire".to_string()],
    )
    .unwrap();
    let mut g = Graph::new();
    g.add_node(0);
    g.add_node(1);
    g.add_node(1);
    g.add_edge(0, 1);
    g.add_edge(1, 2);
    g.add_edge(2, 0);
    g.nodes[2].write = 0;
    Automaton::new(rs, g)
}

#[test]
fn empty_automaton_serializes_to_the_bare_document() {
    let rs = Ruleset::new(vec![], vec![]).unwrap();
    let a = Automaton::new(rs, Graph::new());
    let out = a.serialize();
    assert_eq!(
        to_text(&out),
        "{\"rules\":{\"names\":[],\"rules\":[]},\"graph\":{\"nodes\":[]}}"
    );
}

#[test]
fn small_automaton_serializes_to_the_expected_document() {
    let rs = Ruleset::new(
        vec![vec![Rule::new(Pattern::Equal { state: 0, number: 12 }, 1), Rule::new(Pattern::Wildcard, 0)]],
        vec!["solo".to_string()],
    )
    .unwrap();
    let mut g = Graph::new();
    g.add_node(0);
    g.add_node(0);
    g.add_edge(0, 1);
    let a = Automaton::new(rs, g);
    let expected = "{\"rules\":{\"names\":[\"solo\"],\"rules\":[[{\"pattern\":{\"Equal\":{\"state\":0,\"number\":12}},\"replacement\":1},{\"pattern\":\"Wildcard\",\"replacement\":0}]]},\"graph\":{\"nodes\":[{\"read\":0,\"write\":0,\"edges\":[1]},{\"read\":0,\"write\":0,\"edges\":[]}]}}";
    assert_eq!(to_text(&a.serialize()), expected);
}

#[test]
fn round_trip_preserves_names_rules_and_nodes() {
    let a = sample_automaton();
    let text = a.serialize();
    let b = Automaton::deserialize(&text).expect("a serialized automaton parses back");
    assert_eq!(b.rules.names, a.rules.names);
    assert_eq!(b.rules.rules, a.rules.rules);
    assert_eq!(b.graph.nodes.len(), a.graph.nodes.len());
    for (x, y) in a.graph.nodes.iter().zip(b.graph.nodes.iter()) {
        assert_eq!(x.read, y.read);
        assert_eq!(x.write, y.write);
        assert_eq!(x.edges, y.edges);
    }
}

#[test]
fn round_trip_escapes_quotes_and_backslashes_in_names() {
    let rs = Ruleset::new(
        vec![vec![Rule::new(Pattern::Wildcard, 0)]],
        vec!["a \"quoted\\\" name".to_string()],
    )
    .unwrap();
    let a = Automaton::new(rs, Graph::new());
    let text = a.serialize();
    let b = Automaton::deserialize(&text).expect("escaped names parse back");
    assert_eq!(b.rules.names, a.rules.names);
}

#[test]
fn deserialize_rejects_malformed_text() {
    assert!(Automaton::deserialize(&from_text("")).is_none());
    assert!(Automaton::deserialize(&from_text("{}")).is_none());
    assert!(Automaton::deserialize(&from_text("nonsense")).is_none());
    let missing_graph = "{\"rules\":{\"names\":[],\"rules\":[]}}";
    assert!(Automaton::deserialize(&from_text(missing_graph)).is_none());
}

#[test]
fn deserialize_rejects_trailing_text() {
    let a = sample_automaton();
    let mut text = a.serialize();
    text.push(' ');
    assert!(Automaton::deserialize(&text).is_none());
}

#[test]
fn deserialize_revalidates_the_rule_table() {
    // a document whose only state has no wildcard fallback must be refused
    let text = "{\"rules\":{\"names\":[\"solo\"],\"rules\":[[{\"pattern\":{\"Equal\":{\"state\":0,\"number\":1}},\"replacement\":0}]]},\"graph\":{\"nodes\":[]}}";
    assert!(Automaton::deserialize(&from_text(text)).is_none());
    // the same document with a wildcard added is accepted
    let ok = "{\"rules\":{\"names\":[\"solo\"],\"rules\":[[{\"pattern\":{\"Equal\":{\"state\":0,\"number\":1}},\"replacement\":0},{\"pattern\":\"Wildcard\",\"replacement\":0}]]},\"graph\":{\"nodes\":[]}}";
    assert!(Automaton::deserialize(&from_text(ok)).is_some());
}

#[test]
fn deserialize_reads_nested_patterns() {
    let text = "{\"rules\":{\"names\":[\"s\"],\"rules\":[[{\"pattern\":{\"Not\":{\"Or\":[{\"Geq\":{\"state\":2,\"number\":3}},\"Wildcard\"]}},\"replacement\":4},{\"pattern\":\"Wildcard\",\"replacement\":0}]]},\"graph\":{\"nodes\":[{\"read\":1,\"write\":2,\"edges\":[0,0]}]}}";
    let a = Automaton::deserialize(&from_text(text)).expect("nested patterns parse");
    assert_eq!(
        a.rules.rules[0][0],
        Rule::new(
            Pattern::Not(Box::new(Pattern::Or(
                Box::new(Pattern::Geq { state: 2, number: 3 }),
                Box::new(Pattern::Wildcard),
            ))),
            4,
        )
    );
    assert_eq!(a.graph.nodes[0].read, 1);
    assert_eq!(a.graph.nodes[0].write, 2);
    assert_eq!(a.graph.nodes[0].edges, vec![0, 0]);
}

#[test]
fn deserialize_rejects_numbers_out_of_range() {
    // 4294967296 is one past the largest state id
    let text = "{\"rules\":{\"names\":[],\"rules\":[]},\"graph\":{\"nodes\":[{\"read\":4294967296,\"write\":0,\"edges\":[]}]}}";
    assert!(Automaton::deserialize(&from_text(text)).is_none());
    let fine = "{\"rules\":{\"names\":[],\"rules\":[]},\"graph\":{\"nodes\":[{\"read\":4294967295,\"write\":0,\"edges\":[]}]}}";
    assert!(Automaton::deserialize(&from_text(fine)).is_some());
}

#[test]
fn round_trip_after_stepping_still_holds() {
    let mut a = sample_automaton();
    assert!(a.is_steppable());
    a.step();
    let text = a.serialize();
    let b = Automaton::deserialize(&text).expect("a stepped automaton parses back");
    for (x, y) in a.graph.nodes.iter().zip(b.graph.nodes.iter()) {
        assert_eq!(x.read, y.read);
        assert_eq!(x.write, y.write);
        assert_eq!(x.edges, y.edges);
    }
}
