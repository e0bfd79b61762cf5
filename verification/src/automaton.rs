//! The driver: owns a rule table and a graph and advances the simulation by
//! synchronized ticks of double-buffered state.

use vstd::prelude::*;
use crate::graph::{Graph, NodeModel, reads_of, lemma_contains_split};
use crate::rules::{
    Rule, Ruleset, applied_node, first_match, has_wildcard, lemma_first_match_props,
    pattern_holds, wildcard_per_state,
};

verus! {

/// The node vector after the tick-start buffer swap: every node's previously
/// computed `write` becomes the visible `read`, and vice versa.
pub open spec fn swap_view(g: Seq<NodeModel>) -> Seq<NodeModel> {
    g.map_values(|n: NodeModel| NodeModel { read: n.write, write: n.read, edges: n.edges })
}

/// The `write` value rule evaluation assigns node `i` of `g`: the first
/// matching rule's replacement for the node's `read` state, or the node's
/// current `write` when no rule matches.
pub open spec fn eval_write(lists: Seq<Seq<Rule>>, g: Seq<NodeModel>, i: int) -> u32 {
    let list = lists[g[i].read as int];
    let k = first_match(list, reads_of(g), g[i].edges);
    if k < list.len() {
        list[k].replacement
    } else {
        g[i].write
    }
}

/// One node's evaluation: its `write` buffer is updated, everything else is
/// untouched. The new value is computed from the *current* vector `g`, so
/// that a chain of evaluations models sequential in-place evaluation.
pub open spec fn eval_node(lists: Seq<Seq<Rule>>, g: Seq<NodeModel>, i: int) -> Seq<NodeModel> {
    g.update(i, NodeModel { read: g[i].read, write: eval_write(lists, g, i), edges: g[i].edges })
}

/// Sequential in-place evaluation of the nodes named by `order`, first to
/// last, each against the vector the previous evaluations left behind.
pub open spec fn eval_nodes(lists: Seq<Seq<Rule>>, g: Seq<NodeModel>, order: Seq<int>) -> Seq<
    NodeModel,
>
    decreases order.len(),
{
    if order.len() == 0 {
        g
    } else {
        eval_node(lists, eval_nodes(lists, g, order.drop_last()), order.last())
    }
}

/// The node indices `0, 1, .., n-1` in increasing order.
pub open spec fn index_order(n: int) -> Seq<int> {
    Seq::new(n as nat, |i: int| i)
}

/// One whole synchronized tick on the model: swap every node's buffers, then
/// evaluate every node in index order against the frozen snapshot.
pub open spec fn step_model(lists: Seq<Seq<Rule>>, g: Seq<NodeModel>) -> Seq<NodeModel> {
    eval_nodes(lists, swap_view(g), index_order(g.len() as int))
}

/// Sequential evaluation never touches `read` states or edges, and leaves
/// node `i`'s `write` at the value computed from the *initial* vector when
/// `order` names `i`, untouched otherwise: evaluation reads only the frozen
/// snapshot, never another node's in-progress `write`.
pub proof fn lemma_eval_nodes_frame(lists: Seq<Seq<Rule>>, g: Seq<NodeModel>, order: Seq<int>)
    requires
        forall|k: int| 0 <= k < order.len() ==> 0 <= #[trigger] order[k] < g.len(),
    ensures
        eval_nodes(lists, g, order).len() == g.len(),
        forall|i: int| 0 <= i < g.len()
            ==> (#[trigger] eval_nodes(lists, g, order)[i]).read == g[i].read,
        forall|i: int| 0 <= i < g.len()
            ==> (#[trigger] eval_nodes(lists, g, order)[i]).edges == g[i].edges,
        forall|i: int| 0 <= i < g.len()
            ==> (#[trigger] eval_nodes(lists, g, order)[i]).write == if order.contains(i) {
                eval_write(lists, g, i)
            } else {
                g[i].write
            },
    decreases order.len(),
{
    if order.len() > 0 {
        let prefix = order.drop_last();
        let j = order.last();
        assert forall|k: int| 0 <= k < prefix.len()
            implies 0 <= #[trigger] prefix[k] < g.len() by {
            assert(order[k] == prefix[k]);
        }
        lemma_eval_nodes_frame(lists, g, prefix);
        let prev = eval_nodes(lists, g, prefix);
        assert(reads_of(prev) =~= reads_of(g));
        assert(eval_write(lists, prev, j) == eval_write(lists, g, j)) by {
            let list = lists[g[j].read as int];
            let k = first_match(list, reads_of(g), g[j].edges);
            if !(k < list.len()) && prefix.contains(j) {
                assert(eval_write(lists, g, j) == g[j].write);
            }
        }
        assert forall|i: int| 0 <= i < g.len()
            implies (#[trigger] eval_nodes(lists, g, order)[i]).write == if order.contains(i) {
                eval_write(lists, g, i)
            } else {
                g[i].write
            } by {
            lemma_contains_split(order, i);
            if i == j {
                assert(order[order.len() - 1] == j);
                assert(order.contains(i));
            }
        }
    }
}

/// Order independence: for a fixed pre-evaluation node vector, evaluating the
/// nodes in any permutation of `0..N` yields the same final vector as index
/// order — no node's evaluation depends on another node's in-progress write.
pub proof fn lemma_eval_order_independent(
    lists: Seq<Seq<Rule>>,
    g: Seq<NodeModel>,
    order: Seq<int>,
)
    requires
        order.to_multiset() == index_order(g.len() as int).to_multiset(),
    ensures
        eval_nodes(lists, g, order) == eval_nodes(lists, g, index_order(g.len() as int)),
{
    broadcast use vstd::seq_lib::group_to_multiset_ensures;

    let id = index_order(g.len() as int);
    assert forall|k: int| 0 <= k < order.len() implies 0 <= #[trigger] order[k] < g.len() by {
        assert(order.contains(order[k]));
        assert(id.to_multiset().count(order[k]) > 0);
        assert(id.contains(order[k]));
        let m = choose|m: int| 0 <= m < id.len() && id[m] == order[k];
        assert(id[m] == m);
    }
    assert forall|k: int| 0 <= k < id.len() implies 0 <= #[trigger] id[k] < g.len() by {}
    lemma_eval_nodes_frame(lists, g, order);
    lemma_eval_nodes_frame(lists, g, id);
    assert forall|i: int| 0 <= i < g.len()
        implies #[trigger] eval_nodes(lists, g, order)[i] == eval_nodes(lists, g, id)[i] by {
        assert(id[i] == i);
        assert(id.contains(i));
        assert(order.to_multiset().count(i) > 0);
        assert(order.contains(i));
    }
    assert(eval_nodes(lists, g, order) =~= eval_nodes(lists, g, id));
}

/// Determinism: one tick's outcome is a function of the rule lists and the
/// pre-step node vector alone, so two runs over identical rule tables and
/// identical graphs end in identical states. `Automaton::step` equates its
/// result with `step_model`, to which this applies.
pub proof fn lemma_step_deterministic(
    a: Ruleset,
    b: Ruleset,
    g1: Seq<NodeModel>,
    g2: Seq<NodeModel>,
)
    requires
        a.lists() == b.lists(),
        g1 == g2,
    ensures
        step_model(a.lists(), g1) == step_model(b.lists(), g2),
{
}

/// The simulation driver: one rule table, one graph, advanced tick by tick.
#[derive(Clone, Debug)]
pub struct Automaton {
    pub rules: Ruleset,
    pub graph: Graph,
}

impl Automaton {
    /// Whether a tick may run: the graph is well-formed, every state about to
    /// become visible has a rule list, and every rule list holds a wildcard
    /// fallback (so every node finds a next state).
    pub open spec fn steppable(self) -> bool {
        &&& self.graph.wf()
        &&& forall|i: int| 0 <= i < self.graph@.len()
            ==> (#[trigger] self.graph@[i].write as int) < self.rules.rules@.len()
        &&& self.rules.valid()
    }

    /// Pairs a validated rule table with an initial graph.
    pub fn new(rules: Ruleset, graph: Graph) -> (r: Automaton)
        ensures
            r.rules == rules,
            r.graph == graph,
    {
        Automaton { rules, graph }
    }


    /// Checks at run time whether a tick may run; see [`Automaton::steppable`].
    pub fn is_steppable(&self) -> (r: bool)
        ensures
            r == self.steppable(),
    {
        if !self.graph.check_wf() {
            return false;
        }
        let mut i: usize = 0;
        let n = self.graph.nodes.len();
        while i < n
            invariant
                n == self.graph@.len(),
                self.graph.nodes@.len() == self.graph@.len(),
                i <= n,
                forall|k: int| 0 <= k < i
                    ==> (#[trigger] self.graph@[k].write as int) < self.rules.rules@.len(),
            decreases n - i,
        {
            if self.graph.nodes[i].write as usize >= self.rules.rules.len() {
                proof {
                    assert((self.graph@[i as int].write as int) >= self.rules.rules@.len());
                }
                return false;
            }
            i = i + 1;
        }
        self.rules.is_valid()
    }

    /// One synchronized tick.
    ///
    /// First every node's buffers are swapped (`read := write`), freezing the
    /// snapshot for this tick; then every node is evaluated against that
    /// snapshot in index order, writing the first matching rule's replacement
    /// into its `write` buffer. The result is exactly [`step_model`] of the
    /// prior state.
    pub fn step(&mut self)
        requires
            old(self).steppable(),
        ensures
            final(self).rules == old(self).rules,
            final(self).graph@ == step_model(old(self).rules.lists(), old(self).graph@),
            final(self).graph@.len() == old(self).graph@.len(),
            forall|i: int| 0 <= i < old(self).graph@.len()
                ==> (#[trigger] final(self).graph@[i]).read == old(self).graph@[i].write,
            forall|i: int| 0 <= i < old(self).graph@.len()
                ==> (#[trigger] final(self).graph@[i]).edges == old(self).graph@[i].edges,
            final(self).graph.wf(),
    {
        let ghost g0 = self.graph@;
        let ghost lists = self.rules.lists();
        let n = self.graph.nodes.len();
        let mut i: usize = 0;
        while i < n
            invariant
                self.rules == old(self).rules,
                g0 == old(self).graph@,
                n == self.graph@.len(),
                g0.len() == n,
                i <= n,
                forall|k: int| i <= k < n ==> #[trigger] self.graph@[k] == g0[k],
                forall|k: int| 0 <= k < i ==> #[trigger] self.graph@[k] == swap_view(g0)[k],
            decreases n - i,
        {
            let ghost before = self.graph@;
            let node = &mut self.graph.nodes[i];
            let r0 = node.read;
            let w0 = node.write;
            node.read = w0;
            node.write = r0;
            proof {
                assert forall|k: int| 0 <= k < n && k != i
                    implies #[trigger] self.graph@[k] == before[k] by {
                }
                assert(before[i as int] == g0[i as int]);
                assert(r0 == before[i as int].read);
                assert(w0 == before[i as int].write);
                assert(r0 == g0[i as int].read);
                assert(w0 == g0[i as int].write);
                assert(self.graph@[i as int].read == w0);
                assert(self.graph@[i as int].write == r0);
                assert(self.graph@[i as int].read == g0[i as int].write);
                assert(self.graph@[i as int].write == g0[i as int].read);
                assert(self.graph@[i as int].edges == g0[i as int].edges);
                assert(self.graph@[i as int] == swap_view(g0)[i as int]);
            }
            i = i + 1;
        }
        let ghost g1 = swap_view(g0);
        proof {
            assert(self.graph@ =~= g1);
            assert(lists.len() == self.rules.rules@.len());
            assert forall|k: int| 0 <= k < n
                implies (#[trigger] g1[k].read as int) < lists.len() by {
                assert(g1[k].read == g0[k].write);
            }
            assert forall|k: int, j: int|
                0 <= k < self.graph@.len() && 0 <= j < self.graph@[k].edges.len()
                    implies #[trigger] self.graph@[k].edges[j] < self.graph@.len() by {
                assert(self.graph@[k].edges == g0[k].edges);
                assert(old(self).graph@[k].edges[j] < old(self).graph@.len());
            }
            assert forall|k: int| 0 <= k < self.graph@.len()
                implies (#[trigger] self.graph@[k].edges).no_duplicates() by {
                assert(self.graph@[k].edges == g0[k].edges);
            }
            assert(self.graph.wf());
        }
        let mut i: usize = 0;
        while i < n
            invariant
                self.rules == old(self).rules,
                lists == self.rules.lists(),
                lists.len() == self.rules.rules@.len(),
                wildcard_per_state(lists),
                n == self.graph@.len(),
                g1.len() == n,
                i <= n,
                self.graph.wf(),
                forall|k: int| 0 <= k < n ==> (#[trigger] g1[k].read as int) < lists.len(),
                forall|k: int| 0 <= k < n ==> #[trigger] self.graph@[k].read == g1[k].read,
                forall|k: int| 0 <= k < n ==> #[trigger] self.graph@[k].edges == g1[k].edges,
                forall|k: int| i <= k < n ==> #[trigger] self.graph@[k].write == g1[k].write,
                forall|k: int| 0 <= k < i
                    ==> #[trigger] self.graph@[k].write == eval_write(lists, g1, k),
            decreases n - i,
        {
            let ghost before = self.graph@;
            let matched = self.rules.apply(i, &mut self.graph);
            proof {
                let list = lists[g1[i as int].read as int];
                let fm = first_match(list, reads_of(before), before[i as int].edges);
                assert(reads_of(before) =~= reads_of(g1));
                assert(before[i as int].edges == g1[i as int].edges);
                assert(applied_node(self.rules, before, i as int).write == eval_write(
                    lists,
                    g1,
                    i as int,
                )) by {
                    if !(fm < list.len()) {
                        assert(before[i as int].write == g1[i as int].write);
                    }
                }
                assert(has_wildcard(list));
                let kw = choose|kw: int| 0 <= kw < list.len() && (#[trigger] list[kw].pattern)
                    is Wildcard;
                assert(pattern_holds(list[kw].pattern, reads_of(before), before[i as int].edges));
                lemma_first_match_props(list, reads_of(before), before[i as int].edges);
                assert(fm < list.len());
                assert(matched is Some);
            }
            i = i + 1;
        }
        proof {
            let ghost id = index_order(n as int);
            assert forall|k: int| 0 <= k < id.len() implies 0 <= #[trigger] id[k] < g1.len() by {
                assert(id[k] == k);
            }
            lemma_eval_nodes_frame(lists, g1, id);
            assert forall|k: int| 0 <= k < n
                implies #[trigger] self.graph@[k] == eval_nodes(lists, g1, id)[k] by {
                assert(id[k] == k);
                assert(id.contains(k));
                assert(self.graph@[k].write == eval_write(lists, g1, k));
                assert(eval_nodes(lists, g1, id)[k].write == eval_write(lists, g1, k));
                assert(eval_nodes(lists, g1, id)[k].read == g1[k].read);
                assert(eval_nodes(lists, g1, id)[k].edges == g1[k].edges);
                assert(self.graph@[k].read == g1[k].read);
                assert(self.graph@[k].edges == g1[k].edges);
            }
            assert(self.graph@ =~= eval_nodes(lists, g1, id));
            assert(n as int == g0.len() as int);
            assert(self.graph@ == step_model(lists, g0));
        }
    }
}

} // verus!
