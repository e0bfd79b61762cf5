//! The automaton's graph: an ordered collection of nodes, each holding a
//! double-buffered state and an outgoing adjacency list.

use vstd::prelude::*;

verus! {

/// One cell of the automaton.
///
/// `read` is the state visible to every node's rule evaluation during the
/// current tick; `write` is the state being computed for the next tick.
/// `edges` lists the indices of this node's outgoing neighbors.
#[derive(Clone, Debug)]
pub struct Node {
    pub read: u32,
    pub write: u32,
    pub edges: Vec<usize>,
}

/// The mathematical image of a [`Node`]: the same fields, with the adjacency
/// list as a sequence.
pub struct NodeModel {
    pub read: u32,
    pub write: u32,
    pub edges: Seq<usize>,
}

impl View for Node {
    type V = NodeModel;

    open spec fn view(&self) -> NodeModel {
        NodeModel { read: self.read, write: self.write, edges: self.edges@ }
    }
}

impl Node {
    /// Builds a node from its parts.
    pub fn new(read: u32, write: u32, edges: Vec<usize>) -> (r: Node)
        ensures
            r@ == (NodeModel { read, write, edges: edges@ }),
    {
        Node { read, write, edges }
    }
}

/// An ordered sequence of nodes; a node's identity is its current position.
#[derive(Clone, Debug)]
pub struct Graph {
    pub nodes: Vec<Node>,
}

impl View for Graph {
    type V = Seq<NodeModel>;

    open spec fn view(&self) -> Seq<NodeModel> {
        self.nodes@.map_values(|n: Node| n@)
    }
}

impl Graph {
    /// Every edge of every node targets a live node.
    pub open spec fn edges_in_range(self) -> bool {
        forall|i: int, j: int|
            0 <= i < self@.len() && 0 <= j < self@[i].edges.len()
                ==> #[trigger] self@[i].edges[j] < self@.len()
    }

    /// No node's adjacency list holds the same target twice.
    pub open spec fn edges_unique(self) -> bool {
        forall|i: int| 0 <= i < self@.len() ==> (#[trigger] self@[i].edges).no_duplicates()
    }

    /// The graph invariant: live edge targets, duplicate-free adjacency lists.
    pub open spec fn wf(self) -> bool {
        self.edges_in_range() && self.edges_unique()
    }

    /// The states other nodes see during the current tick, one per node.
    pub open spec fn reads(self) -> Seq<u32> {
        reads_of(self@)
    }

    /// The states being computed for the next tick, one per node.
    pub open spec fn writes(self) -> Seq<u32> {
        writes_of(self@)
    }

    /// An empty graph.
    pub fn new() -> (r: Graph)
        ensures
            r@ =~= Seq::<NodeModel>::empty(),
            r.wf(),
    {
        Graph { nodes: Vec::new() }
    }

    /// Appends a fresh node with `read = write = state` and no edges, and
    /// returns its index. Existing nodes and their indices are untouched.
    pub fn add_node(&mut self, state: u32) -> (idx: usize)
        ensures
            idx == old(self)@.len(),
            final(self)@ =~= old(self)@.push(
                NodeModel { read: state, write: state, edges: Seq::empty() },
            ),
            old(self).wf() ==> final(self).wf(),
    {
        let idx = self.nodes.len();
        self.nodes.push(Node { read: state, write: state, edges: Vec::new() });
        proof {
            assert(self@ =~= old(self)@.push(
                NodeModel { read: state, write: state, edges: Seq::empty() },
            ));
            if old(self).wf() {
                assert forall|i: int, j: int|
                    0 <= i < self@.len() && 0 <= j < self@[i].edges.len()
                        implies #[trigger] self@[i].edges[j] < self@.len() by {
                    if i < old(self)@.len() {
                        assert(old(self)@[i].edges[j] < old(self)@.len());
                    }
                }
                assert(self.wf());
            }
        }
        idx
    }

    /// Inserts `v` into `u`'s adjacency list if absent; returns whether the
    /// insertion happened.
    pub fn add_edge(&mut self, u: usize, v: usize) -> (r: bool)
        requires
            u < old(self)@.len(),
            v < old(self)@.len(),
        ensures
            r == !old(self)@[u as int].edges.contains(v),
            final(self)@ =~= if r {
                old(self)@.update(u as int, NodeModel {
                    read: old(self)@[u as int].read,
                    write: old(self)@[u as int].write,
                    edges: old(self)@[u as int].edges.push(v),
                })
            } else {
                old(self)@
            },
            old(self).wf() ==> final(self).wf(),
    {
        if has_target(&self.nodes[u].edges, v) {
            false
        } else {
            self.nodes[u].edges.push(v);
            proof {
                assert(self@ =~= old(self)@.update(u as int, NodeModel {
                    read: old(self)@[u as int].read,
                    write: old(self)@[u as int].write,
                    edges: old(self)@[u as int].edges.push(v),
                }));
                if old(self).wf() {
                    lemma_update_edges_wf(
                        old(self)@,
                        self@,
                        u as int,
                        old(self)@[u as int].edges.push(v),
                    );
                }
            }
            true
        }
    }

    /// Removes every occurrence of `v` from `u`'s adjacency list; a no-op if
    /// the edge is absent.
    pub fn remove_edge(&mut self, u: usize, v: usize)
        requires
            u < old(self)@.len(),
        ensures
            final(self)@ =~= old(self)@.update(u as int, NodeModel {
                read: old(self)@[u as int].read,
                write: old(self)@[u as int].write,
                edges: without_target(old(self)@[u as int].edges, v),
            }),
            old(self).wf() ==> final(self).wf(),
    {
        let filtered = retain_except(&self.nodes[u].edges, v);
        self.nodes[u].edges = filtered;
        proof {
            assert(self@ =~= old(self)@.update(u as int, NodeModel {
                read: old(self)@[u as int].read,
                write: old(self)@[u as int].write,
                edges: without_target(old(self)@[u as int].edges, v),
            }));
            if old(self).wf() {
                let kept = without_target(old(self)@[u as int].edges, v);
                lemma_without_target_props(old(self)@[u as int].edges, v);
                assert forall|j: int| 0 <= j < kept.len()
                    implies #[trigger] kept[j] < old(self)@.len() by {
                    assert(kept.contains(kept[j]));
                    let k = choose|k: int|
                        0 <= k < old(self)@[u as int].edges.len()
                            && old(self)@[u as int].edges[k] == kept[j];
                    assert(old(self)@[u as int].edges[k] < old(self)@.len());
                }
                lemma_update_edges_wf(old(self)@, self@, u as int, kept);
            }
        }
    }

    /// Removes the node at `idx` by swapping the last node into its place.
    ///
    /// Afterwards every edge that targeted `idx` is gone, every edge that
    /// targeted the former last index targets `idx` (that node moved there),
    /// and all other edges are untouched; see [`removed_model`].
    pub fn remove_node(&mut self, idx: usize)
        requires
            old(self).wf(),
            idx < old(self)@.len(),
        ensures
            final(self)@ == removed_model(old(self)@, idx),
            final(self).wf(),
    {
        let ghost prior = self@;
        let moved = self.nodes.len() - 1;
        self.nodes.swap_remove(idx);
        let n = self.nodes.len();
        proof {
            assert forall|k: int| 0 <= k < n
                implies #[trigger] self@[k] == prior[if k == idx { moved as int } else { k }] by {
            }
        }
        let mut i: usize = 0;
        while i < n
            invariant
                n == self@.len(),
                n + 1 == prior.len(),
                idx < prior.len(),
                moved == prior.len() - 1,
                forall|i2: int, j: int|
                    0 <= i2 < prior.len() && 0 <= j < prior[i2].edges.len()
                        ==> #[trigger] prior[i2].edges[j] < prior.len(),
                forall|i2: int| 0 <= i2 < prior.len()
                    ==> (#[trigger] prior[i2].edges).no_duplicates(),
                forall|k: int| i <= k < n
                    ==> #[trigger] self@[k] == prior[if k == idx { moved as int } else { k }],
                forall|k: int| 0 <= k < i
                    ==> #[trigger] self@[k] == removed_model(prior, idx)[k],
            decreases n - i,
        {
            let read = self.nodes[i].read;
            let write = self.nodes[i].write;
            let remapped = remap_one(&self.nodes[i].edges, idx, moved);
            let ghost before = self@;
            self.nodes.set(i, Node { read, write, edges: remapped });
            proof {
                assert forall|k: int| 0 <= k < n && k != i
                    implies #[trigger] self@[k] == before[k] by {
                }
                let ghost j = if i == idx { moved as int } else { i as int };
                assert(before[i as int] == prior[j]);
                assert(read == before[i as int].read);
                assert(self@[i as int].read == read);
                assert(self@[i as int].read == prior[j].read);
                assert(self@[i as int].write == prior[j].write);
                assert(self@[i as int].edges == remap_edges(prior[j].edges, idx, moved));
                assert(self@[i as int] == removed_model(prior, idx)[i as int]);
            }
            i = i + 1;
        }
        proof {
            assert(self@ =~= removed_model(prior, idx));
            assert forall|i2: int| 0 <= i2 < self@.len()
                implies (#[trigger] self@[i2].edges).no_duplicates()
                    && forall|j: int| 0 <= j < self@[i2].edges.len()
                        ==> #[trigger] self@[i2].edges[j] < self@.len() by {
                let src = if i2 == idx { moved as int } else { i2 };
                lemma_remap_edges_props(prior[src].edges, idx, moved);
                assert(self@[i2].edges == remap_edges(prior[src].edges, idx, moved));
                assert(self@[i2].edges.no_duplicates());
                assert forall|j: int| 0 <= j < self@[i2].edges.len()
                    implies #[trigger] self@[i2].edges[j] < self@.len() by {
                    let f = self@[i2].edges[j];
                    assert(self@[i2].edges.contains(f));
                    assert(remap_edges(prior[src].edges, idx, moved).contains(f));
                    if f == idx {
                        assert(idx != moved);
                    } else if f == moved {
                        assert(false);
                    } else {
                        assert(prior[src].edges.contains(f));
                        let k = choose|k: int|
                            0 <= k < prior[src].edges.len() && prior[src].edges[k] == f;
                        assert(prior[src].edges[k] < prior.len());
                    }
                }
            }
        }
    }

    /// Builds the induced subgraph of a selection of node indices.
    ///
    /// New node `i` is a copy of node `selection[i]`; an edge is kept exactly
    /// when both endpoints are selected, rewritten to the new indices (for a
    /// target selected more than once, its last selection wins); all other
    /// edges are dropped. See [`induced_edges`].
    pub fn copy(&self, selection: &[usize]) -> (r: Graph)
        requires
            self.wf(),
            forall|k: int| 0 <= k < selection@.len()
                ==> #[trigger] selection@[k] < self@.len(),
        ensures
            r@.len() == selection@.len(),
            forall|i: int| 0 <= i < selection@.len() ==> #[trigger] r@[i] == (NodeModel {
                read: self@[selection@[i] as int].read,
                write: self@[selection@[i] as int].write,
                edges: induced_edges(self@[selection@[i] as int].edges, selection@),
            }),
            r.wf(),
    {
        let mut nodes: Vec<Node> = Vec::new();
        let mut i: usize = 0;
        while i < selection.len()
            invariant
                i <= selection@.len(),
                self.wf(),
                forall|k: int| 0 <= k < selection@.len()
                    ==> #[trigger] selection@[k] < self@.len(),
                nodes@.len() == i,
                forall|k: int| 0 <= k < i ==> #[trigger] nodes@[k]@ == (NodeModel {
                    read: self@[selection@[k] as int].read,
                    write: self@[selection@[k] as int].write,
                    edges: induced_edges(self@[selection@[k] as int].edges, selection@),
                }),
            decreases selection@.len() - i,
        {
            let s = selection[i];
            let ghost src = self@[s as int].edges;
            let mut es: Vec<usize> = Vec::new();
            let mut j: usize = 0;
            while j < self.nodes[s].edges.len()
                invariant
                    s < self@.len(),
                    src == self@[s as int].edges,
                    self.nodes@.len() == self@.len(),
                    self.nodes@[s as int]@ == self@[s as int],
                    j <= src.len(),
                    es@ == induced_edges(src.take(j as int), selection@),
                decreases src.len() - j,
            {
                proof {
                    assert(src.take(j + 1).drop_last() =~= src.take(j as int));
                    assert(src.take(j + 1).last() == src[j as int]);
                }
                let e = self.nodes[s].edges[j];
                match find_sel_target(selection, e) {
                    Some(t) => { es.push(t); }
                    None => {}
                }
                j = j + 1;
            }
            proof {
                assert(src.take(src.len() as int) =~= src);
            }
            nodes.push(Node {
                read: self.nodes[s].read,
                write: self.nodes[s].write,
                edges: es,
            });
            i = i + 1;
        }
        let r = Graph { nodes };
        proof {
            assert(selection.len() == selection@.len());
            assert forall|i2: int| 0 <= i2 < r@.len()
                implies (#[trigger] r@[i2].edges).no_duplicates()
                    && forall|j: int| 0 <= j < r@[i2].edges.len()
                        ==> #[trigger] r@[i2].edges[j] < r@.len() by {
                let src = self@[selection@[i2] as int].edges;
                lemma_induced_edges_props(src, selection@);
                assert(r@[i2].edges == induced_edges(src, selection@));
            }
        }
        r
    }


    /// Checks the graph invariant at run time: every edge targets a live
    /// node and no adjacency list repeats a target.
    pub fn check_wf(&self) -> (r: bool)
        ensures
            r == self.wf(),
    {
        let n = self.nodes.len();
        let mut i: usize = 0;
        while i < n
            invariant
                n == self@.len(),
                self.nodes@.len() == self@.len(),
                i <= n,
                forall|k: int| 0 <= k < i ==> (#[trigger] self@[k].edges).no_duplicates()
                    && forall|j: int| 0 <= j < self@[k].edges.len()
                        ==> #[trigger] self@[k].edges[j] < n,
            decreases n - i,
        {
            if !check_edge_list(&self.nodes[i].edges, n) {
                proof {
                    if self.wf() {
                        assert(self@[i as int].edges.no_duplicates());
                        assert forall|j: int| 0 <= j < self@[i as int].edges.len()
                            implies #[trigger] self@[i as int].edges[j] < n by {
                            assert(self@[i as int].edges[j] < self@.len());
                        }
                    }
                }
                return false;
            }
            i = i + 1;
        }
        true
    }

    /// Removes the node at `idx` and applies the same `old last index -> idx`
    /// remap to a caller's list of remembered node indices, so that the list
    /// keeps naming the nodes it named before.
    pub fn remove_node_from_app(&mut self, idx: usize, selected: &mut Vec<usize>)
        requires
            old(self).wf(),
            idx < old(self)@.len(),
        ensures
            final(self)@ == removed_model(old(self)@, idx),
            final(self).wf(),
            final(selected)@ == remap_indices(
                old(selected)@,
                idx,
                (old(self)@.len() - 1) as usize,
            ),
    {
        let moved = self.nodes.len() - 1;
        self.remove_node(idx);
        let ghost shrunk = self@;
        let mut k: usize = 0;
        while k < selected.len()
            invariant
                k <= selected@.len(),
                self@ == shrunk,
                selected@.len() == old(selected)@.len(),
                forall|j: int| k <= j < selected@.len()
                    ==> #[trigger] selected@[j] == old(selected)@[j],
                forall|j: int| 0 <= j < k ==> #[trigger] selected@[j]
                    == (if old(selected)@[j] == moved { idx } else { old(selected)@[j] }),
            decreases selected@.len() - k,
        {
            if selected[k] == moved {
                selected[k] = idx;
            }
            k = k + 1;
        }
        proof {
            assert(selected@ =~= remap_indices(old(selected)@, idx, moved));
        }
    }
}

/// The per-node `read` states of a node vector: what rule evaluation sees.
pub open spec fn reads_of(g: Seq<NodeModel>) -> Seq<u32> {
    g.map_values(|n: NodeModel| n.read)
}

/// The per-node `write` states of a node vector: the next tick's values.
pub open spec fn writes_of(g: Seq<NodeModel>) -> Seq<u32> {
    g.map_values(|n: NodeModel| n.write)
}

/// The graph after `remove_node(removed)`, node by node: one node shorter,
/// the former last node now at `removed`, every adjacency list rewritten by
/// [`remap_edges`].
pub open spec fn removed_model(g: Seq<NodeModel>, removed: usize) -> Seq<NodeModel> {
    Seq::new(
        (g.len() - 1) as nat,
        |i: int|
            {
                let j = if i == removed { g.len() - 1 } else { i as int };
                NodeModel {
                    read: g[j].read,
                    write: g[j].write,
                    edges: remap_edges(g[j].edges, removed, (g.len() - 1) as usize),
                }
            },
    )
}

/// `indices` with every entry equal to `moved` rewritten to `removed`: the
/// remap a caller must apply to remembered indices after a removal.
pub open spec fn remap_indices(indices: Seq<usize>, removed: usize, moved: usize) -> Seq<usize> {
    indices.map_values(|a: usize| if a == moved { removed } else { a })
}

/// An adjacency list as `remove_node(removed)` rewrites it: entries equal to
/// `removed` are dropped, entries equal to `moved` (the former last index)
/// become `removed`, and the rest stay, in order.
pub open spec fn remap_edges(edges: Seq<usize>, removed: usize, moved: usize) -> Seq<usize>
    decreases edges.len(),
{
    if edges.len() == 0 {
        Seq::empty()
    } else {
        let rest = remap_edges(edges.drop_last(), removed, moved);
        if edges.last() == removed {
            rest
        } else if edges.last() == moved {
            rest.push(removed)
        } else {
            rest.push(edges.last())
        }
    }
}

/// What survives `remap_edges`: `removed` stands in for `moved`, `moved` and
/// the dropped target are gone, everything else is kept; a duplicate-free
/// list stays duplicate-free.
pub proof fn lemma_remap_edges_props(edges: Seq<usize>, removed: usize, moved: usize)
    ensures
        forall|e: usize| #[trigger] remap_edges(edges, removed, moved).contains(e)
            <==> (if e == removed {
                removed != moved && edges.contains(moved)
            } else if e == moved {
                false
            } else {
                edges.contains(e)
            }),
        edges.no_duplicates() ==> remap_edges(edges, removed, moved).no_duplicates(),
    decreases edges.len(),
{
    if edges.len() > 0 {
        let d = edges.drop_last();
        let last = edges.last();
        let rest = remap_edges(d, removed, moved);
        lemma_remap_edges_props(d, removed, moved);
        if edges.no_duplicates() {
            lemma_drop_last_no_duplicates(edges);
        }
        assert forall|e: usize| #[trigger] remap_edges(edges, removed, moved).contains(e)
            implies (if e == removed {
                removed != moved && edges.contains(moved)
            } else if e == moved {
                false
            } else {
                edges.contains(e)
            }) by {
            if last != removed {
                lemma_push_contains(rest, if last == moved { removed } else { last }, e);
            }
            lemma_contains_split(edges, moved);
            lemma_contains_split(edges, e);
        }
        assert forall|e: usize|
            (if e == removed {
                removed != moved && edges.contains(moved)
            } else if e == moved {
                false
            } else {
                edges.contains(e)
            }) implies #[trigger] remap_edges(edges, removed, moved).contains(e) by {
            lemma_contains_split(edges, moved);
            lemma_contains_split(edges, e);
            if last != removed {
                lemma_push_contains(rest, if last == moved { removed } else { last }, e);
            }
        }
        if edges.no_duplicates() && last != removed {
            lemma_no_duplicates_last(edges);
            if last == moved {
                assert(!d.contains(moved));
                assert(!rest.contains(removed));
                lemma_push_no_duplicates(rest, removed);
            } else {
                assert(!d.contains(last));
                assert(!rest.contains(last));
                lemma_push_no_duplicates(rest, last);
            }
        }
    }
}

/// Rewrites one adjacency list for the removal of `removed`, with `moved`
/// being the index whose node now sits at `removed`.
fn remap_one(edges: &Vec<usize>, removed: usize, moved: usize) -> (r: Vec<usize>)
    ensures
        r@ == remap_edges(edges@, removed, moved),
{
    let mut r: Vec<usize> = Vec::new();
    let mut k: usize = 0;
    while k < edges.len()
        invariant
            0 <= k <= edges@.len(),
            r@ == remap_edges(edges@.take(k as int), removed, moved),
        decreases edges@.len() - k,
    {
        proof {
            assert(edges@.take(k + 1).drop_last() =~= edges@.take(k as int));
            assert(edges@.take(k + 1).last() == edges@[k as int]);
        }
        let e = edges[k];
        if e != removed {
            if e == moved {
                r.push(removed);
            } else {
                r.push(e);
            }
        }
        k = k + 1;
    }
    proof {
        assert(edges@.take(edges@.len() as int) =~= edges@);
    }
    r
}

/// The new index a selected node gets in an induced subgraph: the position of
/// the last occurrence of `e` in the selection, or `-1` if `e` was not
/// selected.
pub open spec fn sel_target(sel: Seq<usize>, e: usize) -> int
    decreases sel.len(),
{
    if sel.len() == 0 {
        -1
    } else if sel.last() == e {
        sel.len() - 1
    } else {
        sel_target(sel.drop_last(), e)
    }
}

/// An adjacency list as `copy` rewrites it: edges to selected nodes are
/// remapped to their new indices, edges to unselected nodes are dropped, in
/// order.
pub open spec fn induced_edges(edges: Seq<usize>, sel: Seq<usize>) -> Seq<usize>
    decreases edges.len(),
{
    if edges.len() == 0 {
        Seq::empty()
    } else {
        let rest = induced_edges(edges.drop_last(), sel);
        if sel_target(sel, edges.last()) >= 0 {
            rest.push(sel_target(sel, edges.last()) as usize)
        } else {
            rest
        }
    }
}

/// `sel_target` is `-1` exactly for unselected targets, and otherwise names
/// the last selection slot holding the target.
pub proof fn lemma_sel_target_props(sel: Seq<usize>, e: usize)
    ensures
        sel_target(sel, e) == -1 <==> !sel.contains(e),
        sel.contains(e) ==> 0 <= sel_target(sel, e) < sel.len()
            && sel[sel_target(sel, e)] == e,
    decreases sel.len(),
{
    if sel.len() > 0 {
        lemma_sel_target_props(sel.drop_last(), e);
        lemma_contains_split(sel, e);
    }
}

/// Induced edges target only slots of the selection, and a duplicate-free
/// adjacency list stays duplicate-free (distinct old targets get distinct new
/// indices).
pub proof fn lemma_induced_edges_props(edges: Seq<usize>, sel: Seq<usize>)
    requires
        edges.no_duplicates(),
        sel.len() <= usize::MAX,
    ensures
        induced_edges(edges, sel).no_duplicates(),
        forall|j: int| 0 <= j < induced_edges(edges, sel).len()
            ==> #[trigger] induced_edges(edges, sel)[j] < sel.len(),
        forall|f: usize| #[trigger] induced_edges(edges, sel).contains(f)
            ==> exists|k: int| 0 <= k < edges.len() && sel_target(sel, #[trigger] edges[k]) == f,
    decreases edges.len(),
{
    if edges.len() > 0 {
        let d = edges.drop_last();
        let last = edges.last();
        let rest = induced_edges(d, sel);
        lemma_drop_last_no_duplicates(edges);
        lemma_induced_edges_props(d, sel);
        lemma_sel_target_props(sel, last);
        assert forall|f: usize| #[trigger] induced_edges(edges, sel).contains(f)
            implies exists|k: int|
                0 <= k < edges.len() && sel_target(sel, #[trigger] edges[k]) == f by {
            if sel_target(sel, last) >= 0 {
                lemma_push_contains(rest, sel_target(sel, last) as usize, f);
            }
            if rest.contains(f) {
                let k = choose|k: int| 0 <= k < d.len() && sel_target(sel, #[trigger] d[k]) == f;
                assert(sel_target(sel, edges[k]) == f);
            } else {
                assert(sel_target(sel, last) >= 0);
                assert(f == sel_target(sel, last) as usize);
                assert(0 <= sel_target(sel, last) < sel.len());
                assert(sel_target(sel, edges[edges.len() - 1]) == f);
            }
        }
        if sel_target(sel, last) >= 0 {
            assert(0 <= sel_target(sel, last) < sel.len());
            let t = sel_target(sel, last) as usize;
            assert(t as int == sel_target(sel, last));
            assert(!rest.contains(t)) by {
                if rest.contains(t) {
                    let k = choose|k: int|
                        0 <= k < d.len() && sel_target(sel, #[trigger] d[k]) == t;
                    lemma_sel_target_props(sel, d[k]);
                    assert(d.contains(d[k]));
                    assert(sel[t as int] == d[k]);
                    assert(sel[t as int] == last);
                    lemma_no_duplicates_last(edges);
                }
            }
            lemma_push_no_duplicates(rest, t);
        }
    }
}

/// Finds the selection slot an edge target is remapped to: the last
/// occurrence of `e` in the selection, if any.
fn find_sel_target(sel: &[usize], e: usize) -> (t: Option<usize>)
    ensures
        match t {
            Some(k) => sel_target(sel@, e) == k as int,
            None => sel_target(sel@, e) == -1,
        },
{
    proof {
        assert(sel@.take(sel@.len() as int) =~= sel@);
    }
    let mut k: usize = sel.len();
    while k > 0
        invariant
            k <= sel@.len(),
            sel_target(sel@, e) == sel_target(sel@.take(k as int), e),
        decreases k,
    {
        k = k - 1;
        proof {
            assert(sel@.take(k + 1).drop_last() =~= sel@.take(k as int));
            assert(sel@.take(k + 1).last() == sel@[k as int]);
        }
        if sel[k] == e {
            return Some(k);
        }
    }
    None
}

/// The adjacency list `edges` with every occurrence of `v` removed, in order.
pub open spec fn without_target(edges: Seq<usize>, v: usize) -> Seq<usize>
    decreases edges.len(),
{
    if edges.len() == 0 {
        Seq::empty()
    } else {
        let rest = without_target(edges.drop_last(), v);
        if edges.last() == v {
            rest
        } else {
            rest.push(edges.last())
        }
    }
}

/// Splits membership in a non-empty sequence into membership in the prefix or
/// equality with the last entry.
pub proof fn lemma_contains_split<A>(s: Seq<A>, e: A)
    requires
        s.len() > 0,
    ensures
        s.contains(e) <==> (s.drop_last().contains(e) || s.last() == e),
{
    if s.contains(e) {
        let k = choose|k: int| 0 <= k < s.len() && s[k] == e;
        if k < s.len() - 1 {
            assert(s.drop_last()[k] == e);
        }
    }
    if s.drop_last().contains(e) {
        let k = choose|k: int| 0 <= k < s.drop_last().len() && s.drop_last()[k] == e;
        assert(s[k] == e);
    }
    if s.last() == e {
        assert(s[s.len() - 1] == e);
    }
}

/// Membership after a push: the old entries plus the pushed one.
pub proof fn lemma_push_contains<A>(s: Seq<A>, x: A, e: A)
    ensures
        s.push(x).contains(e) <==> (s.contains(e) || e == x),
{
    lemma_contains_split(s.push(x), e);
    assert(s.push(x).drop_last() =~= s);
}

/// Dropping the last entry keeps a sequence duplicate-free.
pub proof fn lemma_drop_last_no_duplicates<A>(s: Seq<A>)
    requires
        s.len() > 0,
        s.no_duplicates(),
    ensures
        s.drop_last().no_duplicates(),
{
    assert forall|i: int, j: int|
        0 <= i < s.drop_last().len() && 0 <= j < s.drop_last().len() && i != j
            implies s.drop_last()[i] != s.drop_last()[j] by {
        assert(s[i] == s.drop_last()[i]);
        assert(s[j] == s.drop_last()[j]);
    }
}

/// Pushing a fresh entry keeps a sequence duplicate-free.
pub proof fn lemma_push_no_duplicates<A>(s: Seq<A>, x: A)
    requires
        s.no_duplicates(),
        !s.contains(x),
    ensures
        s.push(x).no_duplicates(),
{
    assert forall|i: int, j: int|
        0 <= i < s.push(x).len() && 0 <= j < s.push(x).len() && i != j
            implies s.push(x)[i] != s.push(x)[j] by {
        if i < s.len() && s[i] == x {
            assert(s.contains(x));
        }
        if j < s.len() && s[j] == x {
            assert(s.contains(x));
        }
    }
}

/// The last entry of a duplicate-free sequence does not occur earlier.
pub proof fn lemma_no_duplicates_last<A>(s: Seq<A>)
    requires
        s.len() > 0,
        s.no_duplicates(),
    ensures
        !s.drop_last().contains(s.last()),
{
    if s.drop_last().contains(s.last()) {
        let k = choose|k: int| 0 <= k < s.drop_last().len() && s.drop_last()[k] == s.last();
        assert(s[k] == s[s.len() - 1]);
    }
}

/// What survives `without_target`: exactly the entries other than `v`, still
/// duplicate-free when the input was.
pub proof fn lemma_without_target_props(edges: Seq<usize>, v: usize)
    ensures
        forall|e: usize| #[trigger] without_target(edges, v).contains(e)
            <==> (edges.contains(e) && e != v),
        edges.no_duplicates() ==> without_target(edges, v).no_duplicates(),
    decreases edges.len(),
{
    if edges.len() > 0 {
        let d = edges.drop_last();
        let last = edges.last();
        let rest = without_target(d, v);
        lemma_without_target_props(d, v);
        if edges.no_duplicates() {
            lemma_drop_last_no_duplicates(edges);
        }
        assert forall|e: usize| #[trigger] without_target(edges, v).contains(e)
            implies (edges.contains(e) && e != v) by {
            if last != v {
                lemma_push_contains(rest, last, e);
            }
            lemma_contains_split(edges, e);
        }
        assert forall|e: usize| edges.contains(e) && e != v
            implies #[trigger] without_target(edges, v).contains(e) by {
            lemma_contains_split(edges, e);
            if last != v {
                lemma_push_contains(rest, last, e);
            }
        }
        if edges.no_duplicates() && last != v {
            lemma_no_duplicates_last(edges);
            assert(!rest.contains(last));
            lemma_push_no_duplicates(rest, last);
        }
    }
}

/// Replacing one node's duplicate-free, in-range adjacency list keeps the
/// graph well-formed.
proof fn lemma_update_edges_wf(
    old_g: Seq<NodeModel>,
    new_g: Seq<NodeModel>,
    u: int,
    new_edges: Seq<usize>,
)
    requires
        0 <= u < old_g.len(),
        new_g =~= old_g.update(u, NodeModel {
            read: old_g[u].read,
            write: old_g[u].write,
            edges: new_edges,
        }),
        forall|i: int, j: int|
            0 <= i < old_g.len() && 0 <= j < old_g[i].edges.len()
                ==> #[trigger] old_g[i].edges[j] < old_g.len(),
        forall|i: int| 0 <= i < old_g.len() ==> (#[trigger] old_g[i].edges).no_duplicates(),
        forall|j: int| 0 <= j < new_edges.len() ==> #[trigger] new_edges[j] < old_g.len(),
        new_edges.no_duplicates(),
    ensures
        forall|i: int, j: int|
            0 <= i < new_g.len() && 0 <= j < new_g[i].edges.len()
                ==> #[trigger] new_g[i].edges[j] < new_g.len(),
        forall|i: int| 0 <= i < new_g.len() ==> (#[trigger] new_g[i].edges).no_duplicates(),
{
    assert forall|i: int, j: int|
        0 <= i < new_g.len() && 0 <= j < new_g[i].edges.len()
            implies #[trigger] new_g[i].edges[j] < new_g.len() by {
        if i != u {
            assert(new_g[i] == old_g[i]);
            assert(old_g[i].edges[j] < old_g.len());
        }
    }
    assert forall|i: int| 0 <= i < new_g.len()
        implies (#[trigger] new_g[i].edges).no_duplicates() by {
        if i != u {
            assert(new_g[i] == old_g[i]);
        }
    }
}


/// Whether one adjacency list is duplicate-free with all targets below `n`.
fn check_edge_list(edges: &Vec<usize>, n: usize) -> (r: bool)
    ensures
        r == ((forall|j: int| 0 <= j < edges@.len() ==> #[trigger] edges@[j] < n)
            && edges@.no_duplicates()),
{
    let mut j: usize = 0;
    while j < edges.len()
        invariant
            j <= edges@.len(),
            forall|k: int| 0 <= k < j ==> #[trigger] edges@[k] < n,
            forall|a: int, b: int| 0 <= a < b < j ==> edges@[a] != edges@[b],
        decreases edges@.len() - j,
    {
        if edges[j] >= n {
            return false;
        }
        let mut k: usize = 0;
        while k < j
            invariant
                k <= j < edges@.len(),
                forall|a: int| 0 <= a < k ==> edges@[a] != edges@[j as int],
            decreases j - k,
        {
            if edges[k] == edges[j] {
                return false;
            }
            k = k + 1;
        }
        j = j + 1;
    }
    proof {
        assert forall|a: int, b: int|
            0 <= a < edges@.len() && 0 <= b < edges@.len() && a != b
                implies edges@[a] != edges@[b] by {
            if a < b {
                assert(edges@[a] != edges@[b]);
            } else {
                assert(edges@[b] != edges@[a]);
            }
        }
    }
    true
}

/// Whether `v` occurs in an adjacency list.
fn has_target(edges: &Vec<usize>, v: usize) -> (r: bool)
    ensures
        r == edges@.contains(v),
{
    let mut k: usize = 0;
    while k < edges.len()
        invariant
            0 <= k <= edges@.len(),
            forall|j: int| 0 <= j < k ==> edges@[j] != v,
        decreases edges@.len() - k,
    {
        if edges[k] == v {
            return true;
        }
        k = k + 1;
    }
    false
}

/// A copy of `edges` without every occurrence of `v`, in order.
fn retain_except(edges: &Vec<usize>, v: usize) -> (r: Vec<usize>)
    ensures
        r@ == without_target(edges@, v),
{
    let mut r: Vec<usize> = Vec::new();
    let mut k: usize = 0;
    while k < edges.len()
        invariant
            0 <= k <= edges@.len(),
            r@ == without_target(edges@.take(k as int), v),
        decreases edges@.len() - k,
    {
        proof {
            assert(edges@.take(k + 1).drop_last() =~= edges@.take(k as int));
            assert(edges@.take(k + 1).last() == edges@[k as int]);
        }
        if edges[k] != v {
            r.push(edges[k]);
        }
        k = k + 1;
    }
    proof {
        assert(edges@.take(edges@.len() as int) =~= edges@);
    }
    r
}

} // verus!
