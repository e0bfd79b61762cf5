//! The predicate language that drives state transitions: patterns over a
//! node's outgoing-neighbor states, rules pairing a pattern with a
//! replacement state, and the per-state rule table.

use vstd::prelude::*;
use crate::graph::{Graph, NodeModel, reads_of};

verus! {

/// A recursive predicate over one node's outgoing neighbors.
///
/// The counting variants compare the number of neighbors whose `read` state
/// equals `state` against `number`; `Or`, `And` and `Not` combine patterns;
/// `Wildcard` always holds.
#[derive(Debug, PartialEq, Eq)]
pub enum Pattern {
    Equal { state: u32, number: u32 },
    Gth { state: u32, number: u32 },
    Lth { state: u32, number: u32 },
    Geq { state: u32, number: u32 },
    Leq { state: u32, number: u32 },
    Or(Box<Pattern>, Box<Pattern>),
    And(Box<Pattern>, Box<Pattern>),
    Not(Box<Pattern>),
    Wildcard,
}

impl Clone for Pattern {
    /// A deep copy, equal to the original pattern.
    fn clone(&self) -> (r: Self)
        ensures
            r == *self,
        decreases *self,
    {
        match self {
            Pattern::Equal { state, number } => Pattern::Equal { state: *state, number: *number },
            Pattern::Gth { state, number } => Pattern::Gth { state: *state, number: *number },
            Pattern::Lth { state, number } => Pattern::Lth { state: *state, number: *number },
            Pattern::Geq { state, number } => Pattern::Geq { state: *state, number: *number },
            Pattern::Leq { state, number } => Pattern::Leq { state: *state, number: *number },
            Pattern::Or(a, b) => Pattern::Or(Box::new((**a).clone()), Box::new((**b).clone())),
            Pattern::And(a, b) => Pattern::And(Box::new((**a).clone()), Box::new((**b).clone())),
            Pattern::Not(a) => Pattern::Not(Box::new((**a).clone())),
            Pattern::Wildcard => Pattern::Wildcard,
        }
    }
}

/// How many entries of `edges` point at a node whose `read` state is `state`,
/// given the per-node states `reads`.
pub open spec fn count_matching(reads: Seq<u32>, edges: Seq<usize>, state: u32) -> nat
    decreases edges.len(),
{
    if edges.len() == 0 {
        0
    } else {
        count_matching(reads, edges.drop_last(), state) + (
        if (edges.last() as int) < reads.len() && reads[edges.last() as int] == state {
            1nat
        } else {
            0nat
        })
    }
}

/// What a pattern means: the predicate it denotes over the graph's `read`
/// states and the evaluated node's outgoing edges.
pub open spec fn pattern_holds(p: Pattern, reads: Seq<u32>, edges: Seq<usize>) -> bool
    decreases p,
{
    match p {
        Pattern::Equal { state, number } => count_matching(reads, edges, state) == number as nat,
        Pattern::Gth { state, number } => count_matching(reads, edges, state) > number as nat,
        Pattern::Lth { state, number } => count_matching(reads, edges, state) < number as nat,
        Pattern::Geq { state, number } => count_matching(reads, edges, state) >= number as nat,
        Pattern::Leq { state, number } => count_matching(reads, edges, state) <= number as nat,
        Pattern::Or(a, b) => pattern_holds(*a, reads, edges) || pattern_holds(*b, reads, edges),
        Pattern::And(a, b) => pattern_holds(*a, reads, edges) && pattern_holds(*b, reads, edges),
        Pattern::Not(a) => !pattern_holds(*a, reads, edges),
        Pattern::Wildcard => true,
    }
}

/// Counts the outgoing neighbors of `node` whose `read` state is `state`.
fn count_state(graph: &Graph, node: usize, state: u32) -> (c: usize)
    requires
        graph.wf(),
        node < graph@.len(),
    ensures
        c == count_matching(reads_of(graph@), graph@[node as int].edges, state),
{
    let ghost edges = graph@[node as int].edges;
    let ghost reads = reads_of(graph@);
    let mut c: usize = 0;
    let mut j: usize = 0;
    while j < graph.nodes[node].edges.len()
        invariant
            graph.wf(),
            node < graph@.len(),
            graph.nodes@.len() == graph@.len(),
            edges == graph@[node as int].edges,
            reads == reads_of(graph@),
            j <= edges.len(),
            c <= j,
            c == count_matching(reads, edges.take(j as int), state),
        decreases edges.len() - j,
    {
        proof {
            assert(edges.take(j + 1).drop_last() =~= edges.take(j as int));
            assert(edges.take(j + 1).last() == edges[j as int]);
            assert(edges[j as int] < graph@.len());
        }
        let e = graph.nodes[node].edges[j];
        if graph.nodes[e].read == state {
            c = c + 1;
        }
        j = j + 1;
    }
    proof {
        assert(edges.take(edges.len() as int) =~= edges);
    }
    c
}

impl Pattern {
    /// Evaluates this pattern for node `node`: counts are taken over the
    /// node's outgoing neighbors' frozen `read` states.
    pub fn pattern_match(&self, node: usize, graph: &Graph) -> (r: bool)
        requires
            graph.wf(),
            node < graph@.len(),
        ensures
            r == pattern_holds(*self, reads_of(graph@), graph@[node as int].edges),
        decreases *self,
    {
        match self {
            Pattern::Equal { state, number } => {
                let c = count_state(graph, node, *state);
                c == *number as usize
            }
            Pattern::Gth { state, number } => {
                let c = count_state(graph, node, *state);
                c > *number as usize
            }
            Pattern::Lth { state, number } => {
                let c = count_state(graph, node, *state);
                c < *number as usize
            }
            Pattern::Geq { state, number } => {
                let c = count_state(graph, node, *state);
                c >= *number as usize
            }
            Pattern::Leq { state, number } => {
                let c = count_state(graph, node, *state);
                c <= *number as usize
            }
            Pattern::Or(a, b) => {
                let ra = a.pattern_match(node, graph);
                let rb = b.pattern_match(node, graph);
                ra || rb
            }
            Pattern::And(a, b) => {
                let ra = a.pattern_match(node, graph);
                let rb = b.pattern_match(node, graph);
                ra && rb
            }
            Pattern::Not(a) => !a.pattern_match(node, graph),
            Pattern::Wildcard => true,
        }
    }
}

/// A pattern together with the state a matching node transitions to.
#[derive(Clone, Debug, PartialEq, Eq)]
pub struct Rule {
    pub pattern: Pattern,
    pub replacement: u32,
}

impl Rule {
    /// Pairs a pattern with its replacement state.
    pub fn new(pattern: Pattern, replacement: u32) -> (r: Rule)
        ensures
            r == (Rule { pattern, replacement }),
    {
        Rule { pattern, replacement }
    }
}

/// Whether some rule of the list is the always-true fallback.
pub open spec fn has_wildcard(list: Seq<Rule>) -> bool {
    exists|k: int| 0 <= k < list.len() && (#[trigger] list[k].pattern) is Wildcard
}

/// Whether every state's rule list holds a wildcard fallback, so that every
/// node always has a next state.
pub open spec fn wildcard_per_state(lists: Seq<Seq<Rule>>) -> bool {
    forall|s: int| 0 <= s < lists.len() ==> has_wildcard(#[trigger] lists[s])
}

/// The position of the first rule of `list` whose pattern holds, or
/// `list.len()` when none does.
pub open spec fn first_match(list: Seq<Rule>, reads: Seq<u32>, edges: Seq<usize>) -> int
    decreases list.len(),
{
    if list.len() == 0 {
        0
    } else if pattern_holds(list[0].pattern, reads, edges) {
        0
    } else {
        1 + first_match(list.drop_first(), reads, edges)
    }
}

/// `first_match` names the first matching rule: no earlier rule matches, and
/// the rule it names (when any matches at all) does.
pub proof fn lemma_first_match_props(list: Seq<Rule>, reads: Seq<u32>, edges: Seq<usize>)
    ensures
        0 <= first_match(list, reads, edges) <= list.len(),
        forall|j: int| 0 <= j < first_match(list, reads, edges)
            ==> !pattern_holds(#[trigger] list[j].pattern, reads, edges),
        first_match(list, reads, edges) < list.len()
            ==> pattern_holds(list[first_match(list, reads, edges)].pattern, reads, edges),
    decreases list.len(),
{
    if list.len() > 0 && !pattern_holds(list[0].pattern, reads, edges) {
        let rest = list.drop_first();
        lemma_first_match_props(rest, reads, edges);
        assert forall|j: int| 0 <= j < first_match(list, reads, edges)
            implies !pattern_holds(#[trigger] list[j].pattern, reads, edges) by {
            if j > 0 {
                assert(rest[j - 1] == list[j]);
            }
        }
        if first_match(list, reads, edges) < list.len() {
            assert(rest[first_match(rest, reads, edges)] == list[first_match(list, reads, edges)]);
        }
    }
}

/// The ordered rule table: `names[s]` is state `s`'s display label and
/// `rules[s]` its candidate rules, tried in list order.
#[derive(Clone, Debug, PartialEq, Eq)]
pub struct Ruleset {
    pub names: Vec<String>,
    pub rules: Vec<Vec<Rule>>,
}

/// The rule table as a sequence of rule lists, one per state.
pub open spec fn rule_lists(rules: Seq<Vec<Rule>>) -> Seq<Seq<Rule>> {
    rules.map_values(|v: Vec<Rule>| v@)
}

/// The node at `idx` after one rule application against the frozen states of
/// `g`: its `write` becomes the first matching rule's replacement, or stays
/// as it was when no rule matches.
pub open spec fn applied_node(rs: Ruleset, g: Seq<NodeModel>, idx: int) -> NodeModel {
    let list = rs.lists()[g[idx].read as int];
    let k = first_match(list, reads_of(g), g[idx].edges);
    NodeModel {
        read: g[idx].read,
        write: if k < list.len() {
            list[k].replacement
        } else {
            g[idx].write
        },
        edges: g[idx].edges,
    }
}

impl Ruleset {
    /// The rule lists of this table, one per state id.
    pub open spec fn lists(self) -> Seq<Seq<Rule>> {
        rule_lists(self.rules@)
    }

    /// The construction-time invariant: every state has a wildcard fallback.
    pub open spec fn valid(self) -> bool {
        wildcard_per_state(self.lists())
    }

    /// Validates and builds a rule table: construction succeeds exactly when
    /// every state's rule list holds a `Wildcard` rule.
    pub fn new(rules: Vec<Vec<Rule>>, names: Vec<String>) -> (r: Option<Ruleset>)
        ensures
            (r is Some) <==> wildcard_per_state(rule_lists(rules@)),
            match r {
                Some(rs) => rs == (Ruleset { names, rules }) && rs.valid(),
                None => true,
            },
    {
        let ghost lists = rule_lists(rules@);
        let mut s: usize = 0;
        while s < rules.len()
            invariant
                s <= rules@.len(),
                lists == rule_lists(rules@),
                lists.len() == rules@.len(),
                forall|j: int| 0 <= j < s ==> has_wildcard(#[trigger] lists[j]),
            decreases rules@.len() - s,
        {
            if !has_wildcard_rule(&rules[s]) {
                proof {
                    assert(lists[s as int] == rules@[s as int]@);
                }
                return None;
            }
            s = s + 1;
        }
        Some(Ruleset { rules, names })
    }


    /// Checks the wildcard invariant at run time: every state's rule list
    /// holds a wildcard fallback.
    pub fn is_valid(&self) -> (r: bool)
        ensures
            r == self.valid(),
    {
        let mut s: usize = 0;
        while s < self.rules.len()
            invariant
                s <= self.rules@.len(),
                self.lists().len() == self.rules@.len(),
                forall|j: int| 0 <= j < s ==> has_wildcard(#[trigger] self.lists()[j]),
            decreases self.rules@.len() - s,
        {
            if !has_wildcard_rule(&self.rules[s]) {
                proof {
                    assert(self.lists()[s as int] == self.rules@[s as int]@);
                }
                return false;
            }
            proof {
                assert(self.lists()[s as int] == self.rules@[s as int]@);
            }
            s = s + 1;
        }
        true
    }

    /// Applies this table to node `idx`: reads the node's frozen `read`
    /// state, tries that state's rules in list order, writes the first
    /// matching rule's replacement into the node's `write` buffer, and
    /// reports whether any rule matched (`None` leaves the node unchanged,
    /// and cannot happen for a table that [`Ruleset::valid`] accepts).
    pub fn apply(&self, idx: usize, graph: &mut Graph) -> (r: Option<()>)
        requires
            old(graph).wf(),
            idx < old(graph)@.len(),
            (old(graph)@[idx as int].read as int) < self.rules@.len(),
        ensures
            final(graph)@ == old(graph)@.update(
                idx as int,
                applied_node(*self, old(graph)@, idx as int),
            ),
            (r is Some) <==> first_match(
                self.lists()[old(graph)@[idx as int].read as int],
                reads_of(old(graph)@),
                old(graph)@[idx as int].edges,
            ) < self.lists()[old(graph)@[idx as int].read as int].len(),
            final(graph).wf(),
    {
        let ghost reads = reads_of(old(graph)@);
        let ghost edges = old(graph)@[idx as int].edges;
        let state = graph.nodes[idx].read;
        let ghost list_g = self.lists()[state as int];
        proof {
            assert(list_g == self.rules@[state as int]@);
            lemma_first_match_props(list_g, reads, edges);
        }
        let list: &Vec<Rule> = &self.rules[state as usize];
        let mut k: usize = 0;
        while k < list.len()
            invariant
                graph@ == old(graph)@,
                graph.nodes@.len() == graph@.len(),
                graph.wf(),
                idx < graph@.len(),
                reads == reads_of(graph@),
                edges == graph@[idx as int].edges,
                state == graph@[idx as int].read,
                (state as int) < self.rules@.len(),
                list_g == self.lists()[state as int],
                list@ == list_g,
                k <= list_g.len(),
                forall|j: int| 0 <= j < k
                    ==> !pattern_holds(#[trigger] list_g[j].pattern, reads, edges),
            decreases list_g.len() - k,
        {
            if list[k].pattern.pattern_match(idx, graph) {
                let rep = list[k].replacement;
                let ghost before = graph@;
                let node = &mut graph.nodes[idx];
                node.write = rep;
                proof {
                    assert(graph@.len() == before.len());
                    assert forall|k2: int| 0 <= k2 < graph@.len() && k2 != idx
                        implies #[trigger] graph@[k2] == before[k2] by {
                    }
                    assert(graph@[idx as int].read == before[idx as int].read);
                    assert(graph@[idx as int].edges == before[idx as int].edges);
                    assert(graph@[idx as int].write == rep);
                    lemma_first_match_props(list_g, reads, edges);
                    assert(first_match(list_g, reads, edges) == k as int);
                    assert(state == old(graph)@[idx as int].read);
                    assert(list_g == self.lists()[old(graph)@[idx as int].read as int]);
                    assert(k < list_g.len());
                    assert(applied_node(*self, old(graph)@, idx as int).write == rep);
                    assert(applied_node(*self, old(graph)@, idx as int).read
                        == old(graph)@[idx as int].read);
                    assert(applied_node(*self, old(graph)@, idx as int).edges
                        == old(graph)@[idx as int].edges);
                    assert(graph@[idx as int] == applied_node(*self, old(graph)@, idx as int));
                    assert(graph@ =~= old(graph)@.update(
                        idx as int,
                        applied_node(*self, old(graph)@, idx as int),
                    ));
                    assert forall|i2: int, j: int|
                        0 <= i2 < graph@.len() && 0 <= j < graph@[i2].edges.len()
                            implies #[trigger] graph@[i2].edges[j] < graph@.len() by {
                        assert(graph@[i2].edges == old(graph)@[i2].edges);
                        assert(old(graph)@[i2].edges[j] < old(graph)@.len());
                    }
                    assert forall|i2: int| 0 <= i2 < graph@.len()
                        implies (#[trigger] graph@[i2].edges).no_duplicates() by {
                        assert(graph@[i2].edges == old(graph)@[i2].edges);
                    }
                }
                return Some(());
            }
            k = k + 1;
        }
        proof {
            lemma_first_match_props(list_g, reads, edges);
            assert(first_match(list_g, reads, edges) == list_g.len());
            assert(applied_node(*self, old(graph)@, idx as int) == old(graph)@[idx as int]);
            assert(graph@ =~= old(graph)@.update(
                idx as int,
                applied_node(*self, old(graph)@, idx as int),
            ));
        }
        None
    }
}

/// Whether the list holds a `Wildcard` rule.
fn has_wildcard_rule(list: &Vec<Rule>) -> (r: bool)
    ensures
        r == has_wildcard(list@),
{
    let mut k: usize = 0;
    while k < list.len()
        invariant
            k <= list@.len(),
            forall|j: int| 0 <= j < k ==> !((#[trigger] list@[j].pattern) is Wildcard),
        decreases list@.len() - k,
    {
        let found = match &list[k].pattern {
            Pattern::Wildcard => true,
            _ => false,
        };
        if found {
            return true;
        }
        k = k + 1;
    }
    false
}

} // verus!
