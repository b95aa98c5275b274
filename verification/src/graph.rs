//! The module graph and its builder.
//!
//! The builder owns the node table, an arena in first-discovery order.
//! Nodes go through the states Pending, Visiting and finally Resolved or
//! Failed, never backwards. The table holds at most one node per
//! specifier, so each module is handed out for loading at most once; the
//! load log records exactly the specifiers handed out.
//!
//! The builder is driven from outside: [`GraphBuilder::next_pending`]
//! hands out the next module to load and parse, and the driver answers
//! with [`GraphBuilder::supply_parsed`] or [`GraphBuilder::supply_failed`].

use vstd::prelude::*;

use crate::diagnostics::DiagnosticRecord;
use crate::errors::DocError;
use crate::model::EdgeKind;
use crate::model::ParsedModule;
use crate::model::Stmt;
use crate::model::StmtKind;
use crate::model::dup_edge_kind;
use crate::model::lemma_refs_step;
use crate::model::edge_kind_view;
use crate::model::is_module_ref;
use crate::model::ref_kind_view;
use crate::model::ref_raw;
use crate::model::refs_of;

verus! {

/// One import or re-export edge of the graph; `to` is the resolved target
/// specifier (or, for a reference that failed to resolve, its raw text).
pub struct ImportEdge {
    pub from: String,
    pub to: String,
    pub kind: EdgeKind,
}

/// What a successful visit of a module produced: its plain-value module
/// and the diagnostics its parse emitted.
pub struct ParsedUnit {
    pub module: ParsedModule,
    pub diagnostics: Vec<DiagnosticRecord>,
}

/// The state of a graph node; transitions are monotonic:
/// Pending, then Visiting, then Resolved or Failed.
pub enum NodeState {
    Pending,
    Visiting,
    Resolved(ParsedUnit),
    Failed(DocError),
}

/// A node of the module graph.
pub struct GraphNode {
    pub specifier: String,
    pub state: NodeState,
    pub outgoing: Vec<ImportEdge>,
}

/// An informational record of an edge that closed an import cycle.
pub struct CycleNotice {
    pub from: String,
    pub to: String,
}

/// The specifiers of the nodes, in discovery order.
pub open spec fn node_specs(nodes: Seq<GraphNode>) -> Seq<Seq<char>> {
    nodes.map_values(|n: GraphNode| n.specifier@)
}

/// Some node carries the specifier `s`.
pub open spec fn has_spec(nodes: Seq<GraphNode>, s: Seq<char>) -> bool {
    exists|k: int| 0 <= k < nodes.len() && (#[trigger] nodes[k]).specifier@ == s
}

/// A node created already failed, for a reference whose specifier could
/// not be resolved; such a node was never handed out for loading.
pub open spec fn pre_failed(n: GraphNode) -> bool {
    n.state matches NodeState::Failed(DocError::Resolve(_))
}

/// The node's load was attempted: it left Pending and was not created
/// failed.
pub open spec fn was_loaded(n: GraphNode) -> bool {
    !(n.state is Pending) && !pre_failed(n)
}

/// The specifiers of the first `upto` nodes whose load was attempted, in
/// order.
pub open spec fn loaded_specs(nodes: Seq<GraphNode>, upto: int) -> Seq<Seq<char>>
    decreases upto,
{
    if upto <= 0 {
        Seq::<Seq<char>>::empty()
    } else {
        loaded_specs(nodes, upto - 1) + if was_loaded(nodes[upto - 1]) {
            seq![nodes[upto - 1].specifier@]
        } else {
            Seq::<Seq<char>>::empty()
        }
    }
}

/// The edges of node `i` are well-formed: they leave from its specifier,
/// their targets are nodes of the table, and only a Resolved node has
/// edges.
pub open spec fn node_edges_wf(nodes: Seq<GraphNode>, i: int) -> bool {
    &&& !(nodes[i].state is Resolved) ==> nodes[i].outgoing@.len() == 0
    &&& forall|e: int|
        0 <= e < nodes[i].outgoing@.len() ==> {
            &&& (#[trigger] nodes[i].outgoing@[e]).from@ == nodes[i].specifier@
            &&& has_spec(nodes, nodes[i].outgoing@[e].to@)
        }
}

/// The node table is well-formed: one node per specifier, edges
/// well-formed.
pub open spec fn nodes_wf(nodes: Seq<GraphNode>) -> bool {
    &&& node_specs(nodes).no_duplicates()
    &&& forall|i: int| 0 <= i < nodes.len() ==> node_edges_wf(nodes, i)
}

/// How edge `e` realises reference statement `stmt` under resolution
/// outcome `res`: it leaves `from_spec`, keeps the statement's kind, and
/// targets the resolved specifier, or the raw text when resolution
/// failed.
pub open spec fn edge_matches(
    stmt: Stmt,
    res: Result<String, String>,
    e: ImportEdge,
    from_spec: Seq<char>,
) -> bool {
    &&& e.from@ == from_spec
    &&& edge_kind_view(e.kind) == ref_kind_view(stmt)
    &&& e.to@ == match res {
        Result::Ok(s) => s@,
        Result::Err(_) => ref_raw(stmt),
    }
}

/// One of the first `upto` edges targets specifier `s`.
pub open spec fn some_edge_targets(edges: Seq<ImportEdge>, upto: int, s: Seq<char>) -> bool {
    exists|j: int| 0 <= j < upto && (#[trigger] edges[j]).to@ == s
}

/// A created node realises the resolution outcome of one of the first
/// `upto` references that targets it: Pending when the reference
/// resolved, Failed with exactly the resolution error when it did not.
pub open spec fn new_node_from_ref(
    resolved: Seq<Result<String, String>>,
    edges: Seq<ImportEdge>,
    upto: int,
    n: GraphNode,
) -> bool {
    exists|j: int|
        0 <= j < upto && j < edges.len() && j < resolved.len() && (#[trigger] edges[j]).to@
            == n.specifier@ && match resolved[j] {
            Result::Ok(_) => n.state is Pending,
            Result::Err(m) => n.state == NodeState::Failed(DocError::Resolve(m)),
        }
}

/// The index of the node carrying specifier `s`.
pub open spec fn node_index_of(nodes: Seq<GraphNode>, s: Seq<char>) -> int {
    choose|k: int| 0 <= k < nodes.len() && (#[trigger] nodes[k]).specifier@ == s
}

/// Linking an edge to the existing node carrying specifier `t` closes a
/// cycle over table `nodes`: that node already reaches the node being
/// visited.
pub open spec fn closes_cycle(nodes: Seq<GraphNode>, cur: int, t: Seq<char>) -> bool {
    has_spec(nodes, t) && spec_reaches(nodes, node_index_of(nodes, t), cur)
}

/// The indices of the edges whose linking closed a cycle over table
/// `nodes`, in linking order.
pub open spec fn cycle_ref_indices(
    nodes: Seq<GraphNode>,
    cur: int,
    edges: Seq<ImportEdge>,
) -> Seq<int>
    decreases edges.len(),
{
    if edges.len() == 0 {
        Seq::<int>::empty()
    } else {
        cycle_ref_indices(nodes, cur, edges.drop_last()) + if closes_cycle(
            nodes,
            cur,
            edges.last().to@,
        ) {
            seq![edges.len() - 1]
        } else {
            Seq::<int>::empty()
        }
    }
}

/// The recorded cycle indices are valid edge indices, in order.
pub proof fn lemma_cycle_ref_indices_range(nodes: Seq<GraphNode>, cur: int, edges: Seq<ImportEdge>)
    ensures
        forall|x: int|
            0 <= x < cycle_ref_indices(nodes, cur, edges).len() ==> 0 <= #[trigger] cycle_ref_indices(
                nodes,
                cur,
                edges,
            )[x] < edges.len(),
    decreases edges.len(),
{
    if edges.len() > 0 {
        lemma_cycle_ref_indices_range(nodes, cur, edges.drop_last());
        let prev = cycle_ref_indices(nodes, cur, edges.drop_last());
        let all = cycle_ref_indices(nodes, cur, edges);
        assert forall|x: int| 0 <= x < all.len() implies 0 <= #[trigger] all[x] < edges.len() by {
            if x < prev.len() {
                assert(all[x] == prev[x]);
            } else {
                assert(all[x] == edges.len() - 1);
            }
        }
    }
}

/// Over a completed table, linking the edge of node `i` that targets
/// specifier `t` closed a cycle: the target already reached node `i`
/// through edges of nodes settled before it.
pub open spec fn closes_cycle_settled(nodes: Seq<GraphNode>, i: int, t: Seq<char>) -> bool {
    has_spec(nodes, t) && reaches_below(nodes, i, node_index_of(nodes, t), i)
}

/// The indices of node `i`'s edges whose linking closed a cycle, judged
/// over the completed table, in linking order.
pub open spec fn settled_cycle_indices(
    nodes: Seq<GraphNode>,
    i: int,
    edges: Seq<ImportEdge>,
) -> Seq<int>
    decreases edges.len(),
{
    if edges.len() == 0 {
        Seq::<int>::empty()
    } else {
        settled_cycle_indices(nodes, i, edges.drop_last()) + if closes_cycle_settled(
            nodes,
            i,
            edges.last().to@,
        ) {
            seq![edges.len() - 1]
        } else {
            Seq::<int>::empty()
        }
    }
}

/// The settled cycle indices are valid edge indices.
pub proof fn lemma_settled_cycle_indices_range(
    nodes: Seq<GraphNode>,
    i: int,
    edges: Seq<ImportEdge>,
)
    ensures
        forall|x: int|
            0 <= x < settled_cycle_indices(nodes, i, edges).len() ==> 0 <= #[trigger] settled_cycle_indices(
                nodes,
                i,
                edges,
            )[x] < edges.len(),
    decreases edges.len(),
{
    if edges.len() > 0 {
        lemma_settled_cycle_indices_range(nodes, i, edges.drop_last());
        let prev = settled_cycle_indices(nodes, i, edges.drop_last());
        let all = settled_cycle_indices(nodes, i, edges);
        assert forall|x: int| 0 <= x < all.len() implies 0 <= #[trigger] all[x] < edges.len() by {
            if x < prev.len() {
                assert(all[x] == prev[x]);
            } else {
                assert(all[x] == edges.len() - 1);
            }
        }
    }
}

/// Cycle-index lists agree wherever the per-edge judgements agree.
pub proof fn lemma_cycle_indices_bridge(
    call_nodes: Seq<GraphNode>,
    done_nodes: Seq<GraphNode>,
    cur: int,
    edges: Seq<ImportEdge>,
)
    requires
        forall|e: int|
            0 <= e < edges.len() ==> closes_cycle(call_nodes, cur, (#[trigger] edges[e]).to@)
                == closes_cycle_settled(done_nodes, cur, edges[e].to@),
    ensures
        cycle_ref_indices(call_nodes, cur, edges) == settled_cycle_indices(
            done_nodes,
            cur,
            edges,
        ),
    decreases edges.len(),
{
    if edges.len() > 0 {
        lemma_cycle_indices_bridge(call_nodes, done_nodes, cur, edges.drop_last());
        assert(closes_cycle(call_nodes, cur, edges[edges.len() - 1].to@) == closes_cycle_settled(
            done_nodes,
            cur,
            edges[edges.len() - 1].to@,
        ));
    }
}

/// Settled cycle-index lists agree across two tables wherever the
/// per-edge judgements agree.
pub proof fn lemma_settled_indices_congruent(
    nodes1: Seq<GraphNode>,
    nodes2: Seq<GraphNode>,
    i: int,
    edges: Seq<ImportEdge>,
)
    requires
        forall|e: int|
            0 <= e < edges.len() ==> closes_cycle_settled(nodes1, i, (#[trigger] edges[e]).to@)
                == closes_cycle_settled(nodes2, i, edges[e].to@),
    ensures
        settled_cycle_indices(nodes1, i, edges) == settled_cycle_indices(nodes2, i, edges),
    decreases edges.len(),
{
    if edges.len() > 0 {
        lemma_settled_indices_congruent(nodes1, nodes2, i, edges.drop_last());
        assert(closes_cycle_settled(nodes1, i, edges[edges.len() - 1].to@)
            == closes_cycle_settled(nodes2, i, edges[edges.len() - 1].to@));
    }
}

/// Builds the module graph by monotone state transitions over an arena of
/// nodes in first-discovery order.
pub struct GraphBuilder {
    pub nodes: Vec<GraphNode>,
    /// Nodes before this index have left Pending; nodes at or after it
    /// are Pending or were created failed.
    pub processed: usize,
    /// The specifiers handed out for loading, in order.
    pub load_log: Vec<String>,
    pub cycle_notices: Vec<CycleNotice>,
}

impl GraphBuilder {
    pub open spec fn wf(self) -> bool {
        &&& self.processed <= self.nodes@.len()
        &&& nodes_wf(self.nodes@)
        &&& forall|i: int|
            0 <= i < self.processed ==> !((#[trigger] self.nodes@[i]).state is Pending)
        &&& forall|i: int|
            self.processed <= i < self.nodes@.len() ==> ((#[trigger] self.nodes@[i]).state
                is Pending) || pre_failed(self.nodes@[i])
        &&& self.load_log@.map_values(|s: String| s@) == loaded_specs(
            self.nodes@,
            self.processed as int,
        )
    }

    /// No node is currently being visited.
    pub open spec fn idle(self) -> bool {
        forall|i: int|
            0 <= i < self.processed ==> ((#[trigger] self.nodes@[i]).state is Resolved) || (
            self.nodes@[i].state is Failed)
    }

    /// Exactly the most recently handed-out node is being visited.
    pub open spec fn visiting(self) -> bool {
        &&& self.processed >= 1
        &&& self.nodes@[self.processed - 1].state is Visiting
        &&& forall|i: int|
            0 <= i < self.processed - 1 ==> ((#[trigger] self.nodes@[i]).state is Resolved) || (
            self.nodes@[i].state is Failed)
    }

    /// Index of the node being visited.
    pub open spec fn current(self) -> int {
        self.processed - 1
    }

    /// A fresh builder whose only node is the entry specifier, Pending.
    pub fn new(entry: String) -> (b: GraphBuilder)
        ensures
            b.wf(),
            b.idle(),
            b.processed == 0,
            b.nodes@.len() == 1,
            b.nodes@[0].specifier@ == entry@,
            b.nodes@[0].state is Pending,
            b.nodes@[0].outgoing@.len() == 0,
            b.load_log@.len() == 0,
            b.cycle_notices@.len() == 0,
    {
        let nodes = vec![GraphNode { specifier: entry, state: NodeState::Pending, outgoing: Vec::new() }];
        let b = GraphBuilder { nodes, processed: 0, load_log: Vec::new(), cycle_notices: Vec::new() };
        proof {
            assert(node_specs(b.nodes@).no_duplicates());
            assert(b.load_log@.map_values(|s: String| s@) =~= loaded_specs(b.nodes@, 0));
        }
        b
    }

    /// Hands out the specifier of the next Pending node, marking it
    /// Visiting and logging the load, or returns None when every node is
    /// settled. Nodes created failed are passed over without a load.
    pub fn next_pending(&mut self) -> (r: Option<String>)
        requires
            old(self).wf(),
            old(self).idle(),
        ensures
            final(self).wf(),
            final(self).nodes@.len() == old(self).nodes@.len(),
            final(self).cycle_notices == old(self).cycle_notices,
            old(self).processed <= final(self).processed,
            match r {
                Option::None => {
                    &&& final(self).processed == final(self).nodes@.len()
                    &&& final(self).nodes@ == old(self).nodes@
                    &&& final(self).load_log@ == old(self).load_log@
                    &&& final(self).idle()
                },
                Option::Some(s) => {
                    &&& final(self).visiting()
                    &&& old(self).processed < final(self).processed
                    &&& s@ == final(self).nodes@[final(self).current()].specifier@
                    &&& final(self).nodes@[final(self).current()].state is Visiting
                    &&& final(self).nodes@[final(self).current()].specifier@
                        == old(self).nodes@[final(self).current()].specifier@
                    &&& old(self).nodes@[final(self).current()].state is Pending
                    &&& forall|i: int|
                        0 <= i < final(self).nodes@.len() && i != final(self).current()
                            ==> final(self).nodes@[i] == old(self).nodes@[i]
                    &&& final(self).load_log@ == old(self).load_log@.push(s)
                },
            },
    {
        loop
            invariant
                self.wf(),
                self.idle(),
                self.nodes@ == old(self).nodes@,
                self.load_log@ == old(self).load_log@,
                self.cycle_notices == old(self).cycle_notices,
                old(self).processed <= self.processed,
            ensures
                self.wf(),
                self.idle(),
                self.nodes@ == old(self).nodes@,
                self.load_log@ == old(self).load_log@,
                self.cycle_notices == old(self).cycle_notices,
                old(self).processed <= self.processed,
                self.processed == self.nodes@.len() || self.nodes@[self.processed as int].state
                    is Pending,
            decreases self.nodes@.len() - self.processed,
        {
            if self.processed >= self.nodes.len() {
                break ;
            }
            let pending = match &self.nodes[self.processed].state {
                NodeState::Pending => true,
                _ => false,
            };
            if pending {
                break ;
            }
            proof {
                assert(loaded_specs(self.nodes@, self.processed + 1) =~= loaded_specs(
                    self.nodes@,
                    self.processed as int,
                ));
            }
            self.processed = self.processed + 1;
        }
        if self.processed == self.nodes.len() {
            return Option::None;
        }
        let cur = self.processed;
        let s = self.nodes[cur].specifier.clone();
        self.nodes[cur].state = NodeState::Visiting;
        self.load_log.push(s.clone());
        self.processed = cur + 1;
        proof {
            let ns = self.nodes@;
            assert(node_specs(ns) =~= node_specs(old(self).nodes@));
            lemma_loaded_specs_prefix(old(self).nodes@, ns, cur as int);
            assert(loaded_specs(ns, cur + 1) =~= loaded_specs(ns, cur as int).push(
                ns[cur as int].specifier@,
            ));
            assert(self.load_log@.map_values(|t: String| t@) =~= loaded_specs(ns, cur + 1));
            lemma_edges_wf_same_shape(old(self).nodes@, ns);
        }
        Option::Some(s)
    }

    /// Settles the node being visited as Failed with the given error. A
    /// resolution error belongs to the referenced node, never to a node
    /// whose load was attempted.
    pub fn supply_failed(&mut self, err: DocError)
        requires
            old(self).wf(),
            old(self).visiting(),
            !(err matches DocError::Resolve(_)),
        ensures
            final(self).wf(),
            final(self).idle(),
            final(self).processed == old(self).processed,
            final(self).load_log == old(self).load_log,
            final(self).cycle_notices == old(self).cycle_notices,
            final(self).nodes@.len() == old(self).nodes@.len(),
            final(self).nodes@[old(self).current()].state == NodeState::Failed(err),
            final(self).nodes@[old(self).current()].specifier@
                == old(self).nodes@[old(self).current()].specifier@,
            final(self).nodes@[old(self).current()].outgoing@.len() == 0,
            forall|i: int|
                0 <= i < final(self).nodes@.len() && i != old(self).current()
                    ==> final(self).nodes@[i] == old(self).nodes@[i],
    {
        let cur = self.processed - 1;
        self.nodes[cur].state = NodeState::Failed(err);
        proof {
            let ns = self.nodes@;
            assert(node_specs(ns) =~= node_specs(old(self).nodes@));
            lemma_loaded_specs_prefix(old(self).nodes@, ns, cur as int);
            assert(loaded_specs(ns, cur + 1) =~= loaded_specs(ns, cur as int).push(
                ns[cur as int].specifier@,
            ));
            assert(loaded_specs(old(self).nodes@, cur + 1) =~= loaded_specs(
                old(self).nodes@,
                cur as int,
            ).push(old(self).nodes@[cur as int].specifier@));
            assert(self.load_log@.map_values(|t: String| t@) =~= loaded_specs(ns, cur + 1));
            assert(node_edges_wf(old(self).nodes@, cur as int));
            lemma_edges_wf_same_shape(old(self).nodes@, ns);
        }
    }

    /// Settles the node being visited as Resolved, storing its parsed
    /// unit and linking one edge per import or re-export statement.
    /// `resolved` holds the loader's resolution outcome for each
    /// reference statement, in order. A newly referenced specifier gets
    /// a Pending node, to be visited later; a reference that failed to
    /// resolve gets a node Failed with the resolution error, keyed by
    /// the raw text, which is never handed out for loading. An edge
    /// whose target already reaches this node closes a cycle and is
    /// recorded as a notice.
    #[verifier::rlimit(100)]
    pub fn supply_parsed(
        &mut self,
        module: ParsedModule,
        diagnostics: Vec<DiagnosticRecord>,
        resolved: Vec<Result<String, String>>,
    )
        requires
            old(self).wf(),
            old(self).visiting(),
            module.specifier@ == old(self).nodes@[old(self).current()].specifier@,
            resolved@.len() == refs_of(module.stmts@).len(),
        ensures
            final(self).wf(),
            final(self).idle(),
            final(self).processed == old(self).processed,
            final(self).load_log@ == old(self).load_log@,
            final(self).nodes@.len() >= old(self).nodes@.len(),
            forall|i: int|
                0 <= i < old(self).nodes@.len() && i != old(self).current() ==> final(self).nodes@[i] == old(self).nodes@[i],
            final(self).nodes@[old(self).current()].specifier@ == module.specifier@,
            final(self).nodes@[old(self).current()].state == (NodeState::Resolved(
                ParsedUnit { module, diagnostics },
            )),
            final(self).nodes@[old(self).current()].outgoing@.len() == refs_of(
                module.stmts@,
            ).len(),
            forall|j: int|
                0 <= j < refs_of(module.stmts@).len() ==> edge_matches(
                    refs_of(module.stmts@)[j],
                    resolved@[j],
                    #[trigger] final(self).nodes@[old(self).current()].outgoing@[j],
                    module.specifier@,
                ),
            forall|k: int|
                old(self).nodes@.len() <= k < final(self).nodes@.len() ==> {
                    &&& ((#[trigger] final(self).nodes@[k]).state is Pending) || pre_failed(
                        final(self).nodes@[k],
                    )
                    &&& final(self).nodes@[k].outgoing@.len() == 0
                    &&& some_edge_targets(
                        final(self).nodes@[old(self).current()].outgoing@,
                        refs_of(module.stmts@).len() as int,
                        final(self).nodes@[k].specifier@,
                    )
                    &&& new_node_from_ref(
                        resolved@,
                        final(self).nodes@[old(self).current()].outgoing@,
                        refs_of(module.stmts@).len() as int,
                        final(self).nodes@[k],
                    )
                },
            final(self).cycle_notices@.len() >= old(self).cycle_notices@.len(),
            forall|x: int|
                0 <= x < old(self).cycle_notices@.len() ==> final(self).cycle_notices@[x] == old(self).cycle_notices@[x],
            final(self).cycle_notices@.len() == old(self).cycle_notices@.len()
                + cycle_ref_indices(
                old(self).nodes@,
                old(self).current(),
                final(self).nodes@[old(self).current()].outgoing@,
            ).len(),
            forall|x: int|
                0 <= x < cycle_ref_indices(
                    old(self).nodes@,
                    old(self).current(),
                    final(self).nodes@[old(self).current()].outgoing@,
                ).len() ==> {
                    let idxs = cycle_ref_indices(
                        old(self).nodes@,
                        old(self).current(),
                        final(self).nodes@[old(self).current()].outgoing@,
                    );
                    &&& (#[trigger] final(self).cycle_notices@[old(self).cycle_notices@.len()
                        + x]).from@ == module.specifier@
                    &&& final(self).cycle_notices@[old(self).cycle_notices@.len() + x].to@
                        == final(self).nodes@[old(self).current()].outgoing@[idxs[x]].to@
                },
    {
        let cur = self.processed - 1;
        let ghost old_len = old(self).nodes@.len() as int;
        let ghost all_refs = refs_of(module.stmts@);
        let mut edges: Vec<ImportEdge> = Vec::new();
        let mut c: usize = 0;
        let mut i: usize = 0;
        let n = module.stmts.len();
        proof {
            assert(module.stmts@.take(0) =~= Seq::<Stmt>::empty());
            assert(refs_of(Seq::<Stmt>::empty()) =~= Seq::<Stmt>::empty());
            assert(all_refs.take(0) =~= Seq::<Stmt>::empty());
        }
        while i < n
            invariant
                self.processed == old(self).processed,
                cur == old(self).current(),
                old_len == old(self).nodes@.len(),
                0 <= cur < old_len <= self.nodes@.len(),
                old(self).visiting(),
                self.nodes@[cur as int].state is Visiting,
                module.specifier@ == self.nodes@[cur as int].specifier@,
                n == module.stmts@.len(),
                i <= n,
                all_refs == refs_of(module.stmts@),
                resolved@.len() == all_refs.len(),
                c == refs_of(module.stmts@.take(i as int)).len(),
                c <= all_refs.len(),
                refs_of(module.stmts@.take(i as int)) == all_refs.take(c as int),
                forall|k: int| 0 <= k < old_len ==> self.nodes@[k] == old(self).nodes@[k],
                nodes_wf(self.nodes@),
                forall|k: int|
                    0 <= k < self.processed ==> !((#[trigger] self.nodes@[k]).state is Pending),
                forall|k: int|
                    self.processed <= k < old_len ==> ((#[trigger] self.nodes@[k]).state
                        is Pending) || pre_failed(self.nodes@[k]),
                self.load_log@ == old(self).load_log@,
                self.load_log@.map_values(|s: String| s@) == loaded_specs(
                    self.nodes@,
                    self.processed as int,
                ),
                forall|k: int|
                    old_len <= k < self.nodes@.len() ==> (((#[trigger] self.nodes@[k]).state
                        is Pending) || pre_failed(self.nodes@[k])) && self.nodes@[k].outgoing@.len()
                        == 0,
                edges@.len() == c,
                forall|j: int|
                    0 <= j < c ==> edge_matches(
                        all_refs[j],
                        resolved@[j],
                        #[trigger] edges@[j],
                        module.specifier@,
                    ),
                forall|j: int| 0 <= j < c ==> has_spec(self.nodes@, (#[trigger] edges@[j]).to@),
                forall|k: int|
                    old_len <= k < self.nodes@.len() ==> some_edge_targets(
                        edges@,
                        c as int,
                        (#[trigger] self.nodes@[k]).specifier@,
                    ),
                forall|k: int|
                    old_len <= k < self.nodes@.len() ==> new_node_from_ref(
                        resolved@,
                        edges@,
                        c as int,
                        #[trigger] self.nodes@[k],
                    ),
                self.cycle_notices@.len() >= old(self).cycle_notices@.len(),
                forall|x: int|
                    0 <= x < old(self).cycle_notices@.len() ==> self.cycle_notices@[x] == old(self).cycle_notices@[x],
                self.cycle_notices@.len() == old(self).cycle_notices@.len() + cycle_ref_indices(
                    old(self).nodes@,
                    cur as int,
                    edges@,
                ).len(),
                forall|x: int|
                    0 <= x < cycle_ref_indices(old(self).nodes@, cur as int, edges@).len() ==> {
                        let idxs = cycle_ref_indices(old(self).nodes@, cur as int, edges@);
                        &&& (#[trigger] self.cycle_notices@[old(self).cycle_notices@.len()
                            + x]).from@ == module.specifier@
                        &&& self.cycle_notices@[old(self).cycle_notices@.len() + x].to@
                            == edges@[idxs[x]].to@
                    },
            decreases n - i,
        {
            let ghost nodes_head = self.nodes@;
            proof {
                lemma_refs_step(module.stmts@, i as int);
            }
            match &module.stmts[i].kind {
                StmtKind::ModuleRef { raw, ref_kind } => {
                    proof {
                        assert(is_module_ref(module.stmts@[i as int]));
                        assert(all_refs[c as int] == module.stmts@[i as int]);
                    }
                    let mut failed: Option<String> = Option::None;
                    let target: String = match &resolved[c] {
                        Result::Ok(s) => s.clone(),
                        Result::Err(m) => {
                            failed = Option::Some(m.clone());
                            raw.clone()
                        },
                    };
                    let found = find_node(&self.nodes, &target);
                    match found {
                        Option::Some(k) => {
                            let did = reaches(&self.nodes, k, cur);
                            proof {
                                // at this point only settled nodes, all below
                                // the one being visited, have edges — in the
                                // grown table and in the table at call entry
                                assert forall|k2: int|
                                    cur as int <= k2 < self.nodes@.len() implies (
                                #[trigger] self.nodes@[k2]).outgoing@.len() == 0 by {
                                    assert(node_edges_wf(self.nodes@, k2));
                                }
                                assert forall|k2: int|
                                    cur as int <= k2 < old(self).nodes@.len() implies (
                                #[trigger] old(self).nodes@[k2]).outgoing@.len() == 0 by {
                                    assert(old(self).nodes@[k2] == self.nodes@[k2]);
                                    assert(node_edges_wf(self.nodes@, k2));
                                }
                                lemma_reaches_bounded(self.nodes@, cur as int, k as int, cur as int);
                                if (k as int) < old_len {
                                    lemma_reaches_bounded(
                                        old(self).nodes@,
                                        cur as int,
                                        k as int,
                                        cur as int,
                                    );
                                    lemma_reaches_below_stable(
                                        old(self).nodes@,
                                        self.nodes@,
                                        cur as int,
                                        k as int,
                                        cur as int,
                                    );
                                    assert(old(self).nodes@[k as int].specifier@ == target@);
                                    assert(has_spec(old(self).nodes@, target@));
                                    let kk = node_index_of(old(self).nodes@, target@);
                                    if kk != k as int {
                                        assert(self.nodes@[kk].specifier@ == target@);
                                        assert(node_specs(self.nodes@)[kk] == node_specs(
                                            self.nodes@,
                                        )[k as int]);
                                        assert(false);
                                    }
                                    assert(did == closes_cycle(
                                        old(self).nodes@,
                                        cur as int,
                                        target@,
                                    ));
                                } else {
                                    // a node this call created: it has no
                                    // edges yet and is no node of the entry
                                    // table, so no cycle can close through it
                                    if did {
                                        let p = choose|p: Seq<int>|
                                            is_path(self.nodes@, p) && p.first() == k as int
                                                && p.last() == cur as int;
                                        if p.len() == 1 {
                                            assert(false);
                                        } else {
                                            assert(is_edge(self.nodes@, p[0], p[1]));
                                            assert(false);
                                        }
                                    }
                                    if has_spec(old(self).nodes@, target@) {
                                        let y = choose|y: int|
                                            0 <= y < old(self).nodes@.len() && (#[trigger] old(self).nodes@[y]).specifier@ == target@;
                                        assert(self.nodes@[y].specifier@ == target@);
                                        assert(node_specs(self.nodes@)[y] == node_specs(
                                            self.nodes@,
                                        )[k as int]);
                                        assert(false);
                                    }
                                    assert(!did && !closes_cycle(
                                        old(self).nodes@,
                                        cur as int,
                                        target@,
                                    ));
                                }
                            }
                            if did {
                                self.cycle_notices.push(
                                    CycleNotice {
                                        from: module.specifier.clone(),
                                        to: target.clone(),
                                    },
                                );
                            }
                            proof {
                                assert(closes_cycle(old(self).nodes@, cur as int, target@) ==> {
                                    &&& self.cycle_notices@.len() == old(self).cycle_notices@.len() + cycle_ref_indices(
                                        old(self).nodes@,
                                        cur as int,
                                        edges@,
                                    ).len() + 1
                                    &&& self.cycle_notices@.last().to@ == target@
                                    &&& self.cycle_notices@.last().from@ == module.specifier@
                                });
                                assert(!closes_cycle(old(self).nodes@, cur as int, target@)
                                    ==> self.cycle_notices@.len() == old(self).cycle_notices@.len() + cycle_ref_indices(
                                    old(self).nodes@,
                                    cur as int,
                                    edges@,
                                ).len());
                            }
                        },
                        Option::None => {
                            let state = match failed {
                                Option::Some(m) => NodeState::Failed(DocError::Resolve(m)),
                                Option::None => NodeState::Pending,
                            };
                            let ghost pre = self.nodes@;
                            self.nodes.push(
                                GraphNode {
                                    specifier: target.clone(),
                                    state,
                                    outgoing: Vec::new(),
                                },
                            );
                            proof {
                                let post = self.nodes@;
                                assert(node_specs(post) =~= node_specs(pre).push(target@));
                                assert forall|x: int, y: int|
                                    0 <= x < node_specs(post).len() && 0 <= y < node_specs(
                                        post,
                                    ).len() && x != y implies node_specs(post)[x] != node_specs(
                                    post,
                                )[y] by {
                                    if y == node_specs(post).len() - 1 {
                                        if x < pre.len() {
                                            if pre[x].specifier@ == target@ {
                                                assert(has_spec(pre, target@));
                                            }
                                        }
                                    } else if x == node_specs(post).len() - 1 {
                                        if pre[y].specifier@ == target@ {
                                            assert(has_spec(pre, target@));
                                        }
                                    }
                                }
                                lemma_edges_wf_append(pre, post);
                                lemma_loaded_specs_prefix(pre, post, self.processed as int);
                                assert forall|j: int| 0 <= j < c implies has_spec(
                                    self.nodes@,
                                    (#[trigger] edges@[j]).to@,
                                ) by {
                                    let w = choose|w: int|
                                        0 <= w < pre.len() && (#[trigger] pre[w]).specifier@
                                            == edges@[j].to@;
                                    assert(post[w].specifier@ == edges@[j].to@);
                                }
                                assert forall|k2: int|
                                    old_len <= k2 < self.nodes@.len() - 1 implies some_edge_targets(
                                    edges@,
                                    c as int,
                                    (#[trigger] self.nodes@[k2]).specifier@,
                                ) by {
                                    assert(pre[k2] == post[k2]);
                                }
                                assert(post[post.len() - 1].specifier@ == target@);
                                // a fresh target is no node of the entry
                                // table, so no cycle closes and no notice
                                // is recorded
                                if has_spec(old(self).nodes@, target@) {
                                    let y = choose|y: int|
                                        0 <= y < old(self).nodes@.len() && (#[trigger] old(self).nodes@[y]).specifier@ == target@;
                                    assert(pre[y].specifier@ == target@);
                                    assert(has_spec(pre, target@));
                                    assert(false);
                                }
                                assert(!closes_cycle(old(self).nodes@, cur as int, target@));
                                assert(self.cycle_notices@.len() == old(self).cycle_notices@.len()
                                    + cycle_ref_indices(
                                    old(self).nodes@,
                                    cur as int,
                                    edges@,
                                ).len());
                            }
                        },
                    }
                    let ghost pre_edges = edges@;
                    edges.push(
                        ImportEdge {
                            from: module.specifier.clone(),
                            to: target,
                            kind: dup_edge_kind(ref_kind),
                        },
                    );
                    proof {
                        assert(edges@ =~= pre_edges.push(edges@[c as int]));
                        assert(edge_kind_view(edges@[c as int].kind) == ref_kind_view(
                            module.stmts@[i as int],
                        ));
                        assert(edge_matches(
                            all_refs[c as int],
                            resolved@[c as int],
                            edges@[c as int],
                            module.specifier@,
                        ));
                        assert(has_spec(self.nodes@, edges@[c as int].to@));
                        // the cycle-index list grows by this edge's index
                        // exactly when linking it closed a cycle
                        assert(edges@.drop_last() =~= pre_edges);
                        assert(edges@.last() == edges@[c as int]);
                        assert(edges@[c as int].to@ == target@);
                        lemma_cycle_ref_indices_range(old(self).nodes@, cur as int, pre_edges);
                        assert(cycle_ref_indices(old(self).nodes@, cur as int, edges@)
                            =~= cycle_ref_indices(old(self).nodes@, cur as int, pre_edges) + (
                        if closes_cycle(old(self).nodes@, cur as int, target@) {
                            seq![c as int]
                        } else {
                            Seq::<int>::empty()
                        }));
                        assert forall|x: int|
                            0 <= x < cycle_ref_indices(
                                old(self).nodes@,
                                cur as int,
                                edges@,
                            ).len() implies {
                            let idxs = cycle_ref_indices(old(self).nodes@, cur as int, edges@);
                            &&& (#[trigger] self.cycle_notices@[old(self).cycle_notices@.len()
                                + x]).from@ == module.specifier@
                            &&& self.cycle_notices@[old(self).cycle_notices@.len() + x].to@
                                == edges@[idxs[x]].to@
                        } by {
                            let pre_idxs = cycle_ref_indices(
                                old(self).nodes@,
                                cur as int,
                                pre_edges,
                            );
                            if x < pre_idxs.len() {
                                assert(edges@[pre_idxs[x]] == pre_edges[pre_idxs[x]]);
                            }
                        }
                        assert forall|k2: int|
                            old_len <= k2 < self.nodes@.len() implies some_edge_targets(
                            edges@,
                            c + 1,
                            (#[trigger] self.nodes@[k2]).specifier@,
                        ) by {
                            if some_edge_targets(pre_edges, c as int, self.nodes@[k2].specifier@) {
                                let j = choose|j: int|
                                    0 <= j < c && (#[trigger] pre_edges[j]).to@
                                        == self.nodes@[k2].specifier@;
                                assert(edges@[j].to@ == self.nodes@[k2].specifier@);
                            } else {
                                assert(some_edge_targets(edges@, c as int, self.nodes@[k2].specifier@)
                                    ==> some_edge_targets(pre_edges, c as int, self.nodes@[k2].specifier@));
                            }
                        }
                        assert forall|k2: int|
                            old_len <= k2 < self.nodes@.len() implies new_node_from_ref(
                            resolved@,
                            edges@,
                            c + 1,
                            #[trigger] self.nodes@[k2],
                        ) by {
                            if k2 < nodes_head.len() {
                                assert(self.nodes@[k2] == nodes_head[k2]);
                                assert(new_node_from_ref(
                                    resolved@,
                                    pre_edges,
                                    c as int,
                                    nodes_head[k2],
                                ));
                                let j = choose|j: int|
                                    0 <= j < c && j < pre_edges.len() && j < resolved@.len() && (
                                    #[trigger] pre_edges[j]).to@ == nodes_head[k2].specifier@
                                        && match resolved@[j] {
                                        Result::Ok(_) => nodes_head[k2].state is Pending,
                                        Result::Err(m) => nodes_head[k2].state
                                            == NodeState::Failed(DocError::Resolve(m)),
                                    };
                                assert(edges@[j].to@ == self.nodes@[k2].specifier@);
                            } else {
                                assert(k2 == self.nodes@.len() - 1);
                                assert(edges@[c as int].to@ == self.nodes@[k2].specifier@);
                            }
                        }
                    }
                    c = c + 1;
                },
                _ => {},
            }
            i = i + 1;
        }
        proof {
            assert(module.stmts@.take(n as int) =~= module.stmts@);
            assert(all_refs.take(c as int) =~= all_refs);
        }
        let ghost pre_final = self.nodes@;
        let ghost edges_v = edges@;
        self.nodes[cur].state = NodeState::Resolved(ParsedUnit { module, diagnostics });
        self.nodes[cur].outgoing = edges;
        proof {
            let fin = self.nodes@;
            assert(fin.len() == pre_final.len());
            assert forall|k: int| 0 <= k < fin.len() && k != cur implies fin[k] == pre_final[k] by {}
            assert forall|k: int| old_len <= k < fin.len() implies new_node_from_ref(
                resolved@,
                fin[cur as int].outgoing@,
                all_refs.len() as int,
                #[trigger] fin[k],
            ) by {
                assert(fin[k] == pre_final[k]);
                assert(new_node_from_ref(resolved@, edges_v, c as int, pre_final[k]));
            }
            assert(fin[cur as int].specifier@ == pre_final[cur as int].specifier@);
            assert(fin[cur as int].outgoing@ == edges_v);
            assert(node_specs(fin) =~= node_specs(pre_final));
            lemma_loaded_specs_same_loads(pre_final, fin, self.processed as int);
            assert forall|i2: int| 0 <= i2 < fin.len() implies node_edges_wf(fin, i2) by {
                if i2 == cur {
                    assert forall|e: int| 0 <= e < fin[i2].outgoing@.len() implies {
                        &&& (#[trigger] fin[i2].outgoing@[e]).from@ == fin[i2].specifier@
                        &&& has_spec(fin, fin[i2].outgoing@[e].to@)
                    } by {
                        assert(edge_matches(
                            all_refs[e],
                            resolved@[e],
                            edges_v[e],
                            module.specifier@,
                        ));
                        assert(has_spec(pre_final, edges_v[e].to@));
                        let w = choose|w: int|
                            0 <= w < pre_final.len() && (#[trigger] pre_final[w]).specifier@
                                == edges_v[e].to@;
                        assert(fin[w].specifier@ == edges_v[e].to@);
                    }
                } else {
                    assert(node_edges_wf(pre_final, i2));
                    assert forall|e: int| 0 <= e < fin[i2].outgoing@.len() implies {
                        &&& (#[trigger] fin[i2].outgoing@[e]).from@ == fin[i2].specifier@
                        &&& has_spec(fin, fin[i2].outgoing@[e].to@)
                    } by {
                        let t = pre_final[i2].outgoing@[e].to@;
                        assert(has_spec(pre_final, t));
                        let w = choose|w: int|
                            0 <= w < pre_final.len() && (#[trigger] pre_final[w]).specifier@ == t;
                        assert(fin[w].specifier@ == t);
                    }
                }
            }
        }
    }
}

/// Edge well-formedness carries over to a table with the same
/// specifiers and edges, node for node, and the same set of Resolved
/// positions.
proof fn lemma_edges_wf_same_shape(a: Seq<GraphNode>, b: Seq<GraphNode>)
    requires
        a.len() == b.len(),
        forall|k: int| 0 <= k < a.len() ==> (#[trigger] b[k]).specifier@ == a[k].specifier@,
        forall|k: int| 0 <= k < a.len() ==> (#[trigger] b[k]).outgoing@ == a[k].outgoing@,
        forall|k: int|
            0 <= k < a.len() ==> (((#[trigger] b[k]).state is Resolved) <==> (a[k].state
                is Resolved)),
        forall|i: int| 0 <= i < a.len() ==> node_edges_wf(a, i),
    ensures
        forall|i: int| 0 <= i < b.len() ==> node_edges_wf(b, i),
{
    assert forall|i: int| 0 <= i < b.len() implies node_edges_wf(b, i) by {
        assert(node_edges_wf(a, i));
        assert forall|e: int| 0 <= e < b[i].outgoing@.len() implies {
            &&& (#[trigger] b[i].outgoing@[e]).from@ == b[i].specifier@
            &&& has_spec(b, b[i].outgoing@[e].to@)
        } by {
            let t = a[i].outgoing@[e].to@;
            assert(has_spec(a, t));
            let k = choose|k: int| 0 <= k < a.len() && (#[trigger] a[k]).specifier@ == t;
            assert(b[k].specifier@ == t);
        }
    }
}

/// Two node tables equal on a prefix log the same loads over it.
proof fn lemma_loaded_specs_prefix(nodes1: Seq<GraphNode>, nodes2: Seq<GraphNode>, upto: int)
    requires
        0 <= upto <= nodes1.len(),
        upto <= nodes2.len(),
        forall|i: int| 0 <= i < upto ==> nodes1[i] == nodes2[i],
    ensures
        loaded_specs(nodes1, upto) == loaded_specs(nodes2, upto),
    decreases upto,
{
    if upto > 0 {
        lemma_loaded_specs_prefix(nodes1, nodes2, upto - 1);
    }
}

/// Two node tables with the same specifiers and the same loaded marks on
/// a prefix log the same loads over it.
proof fn lemma_loaded_specs_same_loads(nodes1: Seq<GraphNode>, nodes2: Seq<GraphNode>, upto: int)
    requires
        0 <= upto <= nodes1.len(),
        upto <= nodes2.len(),
        forall|i: int| 0 <= i < upto ==> (#[trigger] nodes2[i]).specifier@ == nodes1[i].specifier@,
        forall|i: int| 0 <= i < upto ==> was_loaded(#[trigger] nodes2[i]) == was_loaded(nodes1[i]),
    ensures
        loaded_specs(nodes1, upto) == loaded_specs(nodes2, upto),
    decreases upto,
{
    if upto > 0 {
        lemma_loaded_specs_same_loads(nodes1, nodes2, upto - 1);
    }
}

/// Edge well-formedness survives appending nodes without edges.
proof fn lemma_edges_wf_append(a: Seq<GraphNode>, b: Seq<GraphNode>)
    requires
        a.len() <= b.len(),
        forall|k: int| 0 <= k < a.len() ==> #[trigger] b[k] == a[k],
        forall|k: int| a.len() <= k < b.len() ==> (#[trigger] b[k]).outgoing@.len() == 0,
        forall|i: int| 0 <= i < a.len() ==> node_edges_wf(a, i),
    ensures
        forall|i: int| 0 <= i < b.len() ==> node_edges_wf(b, i),
{
    assert forall|i: int| 0 <= i < b.len() implies node_edges_wf(b, i) by {
        if i < a.len() {
            assert(node_edges_wf(a, i));
            assert forall|e: int| 0 <= e < b[i].outgoing@.len() implies {
                &&& (#[trigger] b[i].outgoing@[e]).from@ == b[i].specifier@
                &&& has_spec(b, b[i].outgoing@[e].to@)
            } by {
                let t = a[i].outgoing@[e].to@;
                assert(has_spec(a, t));
                let k = choose|k: int| 0 <= k < a.len() && (#[trigger] a[k]).specifier@ == t;
                assert(b[k].specifier@ == t);
            }
        }
    }
}

/// At-most-once load: over a table with one node per specifier, the
/// specifiers handed out for loading never repeat.
pub proof fn lemma_loaded_specs_distinct(nodes: Seq<GraphNode>, upto: int)
    requires
        node_specs(nodes).no_duplicates(),
        0 <= upto <= nodes.len(),
    ensures
        loaded_specs(nodes, upto).no_duplicates(),
        forall|x: int|
            0 <= x < loaded_specs(nodes, upto).len() ==> has_spec(
                nodes.take(upto),
                #[trigger] loaded_specs(nodes, upto)[x],
            ),
    decreases upto,
{
    if upto > 0 {
        lemma_loaded_specs_distinct(nodes, upto - 1);
        let prev = loaded_specs(nodes, upto - 1);
        let cur = loaded_specs(nodes, upto);
        let s = nodes[upto - 1].specifier@;
        if was_loaded(nodes[upto - 1]) {
            assert(cur =~= prev.push(s));
            assert forall|x: int| 0 <= x < prev.len() implies prev[x] != s by {
                if prev[x] == s {
                    assert(has_spec(nodes.take(upto - 1), prev[x]));
                    let k = choose|k: int|
                        0 <= k < nodes.take(upto - 1).len() && (#[trigger] nodes.take(
                            upto - 1,
                        )[k]).specifier@ == prev[x];
                    assert(node_specs(nodes)[k] == node_specs(nodes)[upto - 1]);
                    assert(false);
                }
            }
            assert forall|x: int, y: int|
                0 <= x < cur.len() && 0 <= y < cur.len() && x != y implies cur[x] != cur[y] by {
                if x < prev.len() && y < prev.len() {
                    assert(prev[x] == cur[x] && prev[y] == cur[y]);
                }
            }
            assert forall|x: int| 0 <= x < cur.len() implies has_spec(
                nodes.take(upto),
                cur[x],
            ) by {
                if x < prev.len() {
                    let k = choose|k: int|
                        0 <= k < nodes.take(upto - 1).len() && (#[trigger] nodes.take(
                            upto - 1,
                        )[k]).specifier@ == prev[x];
                    assert(nodes.take(upto)[k].specifier@ == cur[x]);
                } else {
                    assert(nodes.take(upto)[upto - 1].specifier@ == cur[x]);
                }
            }
        } else {
            assert(cur =~= prev);
            assert forall|x: int| 0 <= x < cur.len() implies has_spec(
                nodes.take(upto),
                cur[x],
            ) by {
                let k = choose|k: int|
                    0 <= k < nodes.take(upto - 1).len() && (#[trigger] nodes.take(
                        upto - 1,
                    )[k]).specifier@ == prev[x];
                assert(nodes.take(upto)[k].specifier@ == cur[x]);
            }
        }
    }
}

/// Exactly-once load: when every settled node was actually loaded, the
/// load log holds exactly one entry per node, in discovery order.
pub proof fn lemma_loaded_specs_complete(nodes: Seq<GraphNode>, upto: int)
    requires
        0 <= upto <= nodes.len(),
        forall|k: int| 0 <= k < upto ==> was_loaded(#[trigger] nodes[k]),
    ensures
        loaded_specs(nodes, upto) == node_specs(nodes).take(upto),
    decreases upto,
{
    if upto > 0 {
        lemma_loaded_specs_complete(nodes, upto - 1);
        assert(loaded_specs(nodes, upto) =~= node_specs(nodes).take(upto));
    }
}

/// Exactly-once load: when every node settled and none was created
/// failed for an unresolvable reference, the load log holds exactly one
/// entry per node, in discovery order.
pub proof fn lemma_loads_exactly_once(nodes: Seq<GraphNode>)
    requires
        forall|k: int|
            0 <= k < nodes.len() ==> ((#[trigger] nodes[k]).state is Resolved) || (nodes[k].state
                is Failed),
        forall|k: int| 0 <= k < nodes.len() ==> !pre_failed(#[trigger] nodes[k]),
    ensures
        loaded_specs(nodes, nodes.len() as int) == node_specs(nodes),
{
    assert forall|k: int| 0 <= k < nodes.len() implies was_loaded(#[trigger] nodes[k]) by {}
    lemma_loaded_specs_complete(nodes, nodes.len() as int);
    assert(node_specs(nodes).take(nodes.len() as int) =~= node_specs(nodes));
}

/// Node `j` is the target of one of node `i`'s edges.
pub open spec fn is_edge(nodes: Seq<GraphNode>, i: int, j: int) -> bool {
    &&& 0 <= i < nodes.len()
    &&& 0 <= j < nodes.len()
    &&& exists|e: int|
        0 <= e < nodes[i].outgoing@.len() && (#[trigger] nodes[i].outgoing@[e]).to@
            == nodes[j].specifier@
}

/// `p` is a non-empty path of edges through the table.
pub open spec fn is_path(nodes: Seq<GraphNode>, p: Seq<int>) -> bool {
    &&& p.len() >= 1
    &&& forall|x: int| 0 <= x < p.len() ==> 0 <= #[trigger] p[x] < nodes.len()
    &&& forall|x: int| 0 <= x < p.len() - 1 ==> is_edge(nodes, #[trigger] p[x], p[x + 1])
}

/// Node `to` can be reached from node `from` by following edges; every
/// node reaches itself.
pub open spec fn spec_reaches(nodes: Seq<GraphNode>, from: int, to: int) -> bool {
    exists|p: Seq<int>| is_path(nodes, p) && p.first() == from && p.last() == to
}

/// `p` is a path whose every edge leaves a node with index below
/// `bound`.
pub open spec fn is_path_below(nodes: Seq<GraphNode>, bound: int, p: Seq<int>) -> bool {
    &&& is_path(nodes, p)
    &&& forall|x: int| 0 <= x < p.len() - 1 ==> #[trigger] p[x] < bound
}

/// Node `to` can be reached from node `from` following only edges of
/// nodes with index below `bound`.
pub open spec fn reaches_below(nodes: Seq<GraphNode>, bound: int, from: int, to: int) -> bool {
    exists|p: Seq<int>| is_path_below(nodes, bound, p) && p.first() == from && p.last() == to
}

/// In a table where only nodes below `bound` have edges, reachability
/// and below-`bound` reachability coincide.
pub proof fn lemma_reaches_bounded(nodes: Seq<GraphNode>, bound: int, from: int, to: int)
    requires
        forall|k: int|
            bound <= k < nodes.len() ==> (#[trigger] nodes[k]).outgoing@.len() == 0,
    ensures
        spec_reaches(nodes, from, to) == reaches_below(nodes, bound, from, to),
{
    if spec_reaches(nodes, from, to) {
        let p = choose|p: Seq<int>|
            is_path(nodes, p) && p.first() == from && p.last() == to;
        assert forall|x: int| 0 <= x < p.len() - 1 implies #[trigger] p[x] < bound by {
            assert(is_edge(nodes, p[x], p[x + 1]));
            if p[x] >= bound {
                assert(nodes[p[x]].outgoing@.len() == 0);
            }
        }
        assert(is_path_below(nodes, bound, p));
    }
    if reaches_below(nodes, bound, from, to) {
        let p = choose|p: Seq<int>|
            is_path_below(nodes, bound, p) && p.first() == from && p.last() == to;
        assert(is_path(nodes, p));
    }
}

/// Below-`bound` reachability depends only on the specifiers and on the
/// edges of nodes below the bound, so it is stable while the table grows
/// and later nodes settle.
pub proof fn lemma_reaches_below_stable(
    a: Seq<GraphNode>,
    b: Seq<GraphNode>,
    bound: int,
    from: int,
    to: int,
)
    requires
        a.len() <= b.len(),
        0 <= bound <= a.len(),
        0 <= from < a.len(),
        0 <= to < a.len(),
        forall|k: int| 0 <= k < a.len() ==> (#[trigger] b[k]).specifier@ == a[k].specifier@,
        forall|k: int| 0 <= k < bound ==> (#[trigger] b[k]).outgoing@ == a[k].outgoing@,
    ensures
        reaches_below(a, bound, from, to) == reaches_below(b, bound, from, to),
{
    if reaches_below(a, bound, from, to) {
        let p = choose|p: Seq<int>|
            is_path_below(a, bound, p) && p.first() == from && p.last() == to;
        assert forall|x: int| 0 <= x < p.len() - 1 implies is_edge(b, #[trigger] p[x], p[x + 1]) by {
            assert(is_edge(a, p[x], p[x + 1]));
            let e = choose|e: int|
                0 <= e < a[p[x]].outgoing@.len() && (#[trigger] a[p[x]].outgoing@[e]).to@
                    == a[p[x + 1]].specifier@;
            assert(b[p[x]].outgoing@[e].to@ == b[p[x + 1]].specifier@);
        }
        assert(is_path_below(b, bound, p));
    }
    if reaches_below(b, bound, from, to) {
        let p = choose|p: Seq<int>|
            is_path_below(b, bound, p) && p.first() == from && p.last() == to;
        // every element of the path lies inside the shorter table
        assert forall|x: int| 0 <= x < p.len() implies 0 <= #[trigger] p[x] < a.len() by {
            if 0 < x < p.len() - 1 {
                assert(p[x] < bound);
            } else if x == p.len() - 1 {
                if p.len() == 1 {
                    assert(p[x] == from);
                } else {
                    assert(p[x] == to);
                }
            }
        }
        assert forall|x: int| 0 <= x < p.len() - 1 implies is_edge(a, #[trigger] p[x], p[x + 1]) by {
            assert(is_edge(b, p[x], p[x + 1]));
            let e = choose|e: int|
                0 <= e < b[p[x]].outgoing@.len() && (#[trigger] b[p[x]].outgoing@[e]).to@
                    == b[p[x + 1]].specifier@;
            assert(a[p[x]].outgoing@[e].to@ == a[p[x + 1]].specifier@);
        }
        assert(is_path_below(a, bound, p));
    }
}

proof fn lemma_reaches_self(nodes: Seq<GraphNode>, i: int)
    requires
        0 <= i < nodes.len(),
    ensures
        spec_reaches(nodes, i, i),
{
    let p = seq![i];
    assert(p[0] == i);
    assert(is_path(nodes, p));
    assert(p.first() == i && p.last() == i);
}

proof fn lemma_reaches_step(nodes: Seq<GraphNode>, a: int, b: int, c: int)
    requires
        spec_reaches(nodes, a, b),
        is_edge(nodes, b, c),
    ensures
        spec_reaches(nodes, a, c),
{
    let p = choose|p: Seq<int>| is_path(nodes, p) && p.first() == a && p.last() == b;
    let q = p.push(c);
    assert(q.last() == c);
    assert(forall|x: int| 0 <= x < p.len() ==> q[x] == p[x]);
    assert(q[q.len() - 2] == p.last());
    assert(is_path(nodes, q));
    assert(q.first() == a && q.last() == c);
}

/// A set of nodes closed under edges and containing a path's first node
/// contains its last.
proof fn lemma_closed_no_escape(nodes: Seq<GraphNode>, visited: Seq<bool>, p: Seq<int>)
    requires
        visited.len() == nodes.len(),
        is_path(nodes, p),
        visited[p.first()],
        forall|i: int, j: int|
            0 <= i < nodes.len() && 0 <= j < nodes.len() && visited[i] && is_edge(nodes, i, j)
                ==> visited[j],
    ensures
        visited[p.last()],
    decreases p.len(),
{
    if p.len() > 1 {
        let q = p.drop_last();
        assert(forall|x: int| 0 <= x < q.len() ==> q[x] == p[x]);
        assert(is_path(nodes, q));
        lemma_closed_no_escape(nodes, visited, q);
        assert(is_edge(nodes, p[p.len() - 2], p[p.len() - 1]));
    }
}

/// Number of false entries of `s`.
spec fn count_false(s: Seq<bool>) -> nat
    decreases s.len(),
{
    if s.len() == 0 {
        0
    } else {
        count_false(s.drop_last()) + if s.last() {
            0nat
        } else {
            1nat
        }
    }
}

proof fn lemma_count_false_update(s: Seq<bool>, i: int)
    requires
        0 <= i < s.len(),
        !s[i],
    ensures
        count_false(s.update(i, true)) < count_false(s),
    decreases s.len(),
{
    if i == s.len() - 1 {
        assert(s.update(i, true).drop_last() =~= s.drop_last());
        assert(s.update(i, true).last());
    } else {
        lemma_count_false_update(s.drop_last(), i);
        assert(s.update(i, true).drop_last() =~= s.drop_last().update(i, true));
        assert(s.update(i, true).last() == s.last());
    }
}

/// Some position of `stack` holds the index `j`.
spec fn in_stack(stack: Seq<usize>, j: int) -> bool {
    exists|x: int| 0 <= x < stack.len() && #[trigger] stack[x] == j
}

/// The DFS work state covers every edge leaving a visited node.
spec fn covers(
    nodes: Seq<GraphNode>,
    visited: Seq<bool>,
    stack: Seq<usize>,
) -> bool {
    forall|i: int, j: int|
        0 <= i < nodes.len() && 0 <= j < nodes.len() && visited[i] && is_edge(nodes, i, j) ==> (
        visited[j] || in_stack(stack, j))
}

/// Decides whether node `to` is reachable from node `from` by following
/// the edges already linked in the table.
#[verifier::rlimit(100)]
pub fn reaches(nodes: &Vec<GraphNode>, from: usize, to: usize) -> (r: bool)
    requires
        nodes_wf(nodes@),
        from < nodes@.len(),
        to < nodes@.len(),
    ensures
        r == spec_reaches(nodes@, from as int, to as int),
{
    let n = nodes.len();
    let mut visited: Vec<bool> = Vec::new();
    let mut f: usize = 0;
    while f < n
        invariant
            f <= n,
            visited@.len() == f,
            forall|k: int| 0 <= k < f ==> !(#[trigger] visited@[k]),
        decreases n - f,
    {
        visited.push(false);
        f = f + 1;
    }
    let mut stack: Vec<usize> = Vec::new();
    stack.push(from);
    proof {
        lemma_reaches_self(nodes@, from as int);
        assert(stack@[0] == from);
        assert(in_stack(stack@, from as int));
    }
    loop
        invariant
            visited@.len() == n == nodes@.len(),
            from < n,
            to < n,
            nodes_wf(nodes@),
            forall|x: int| 0 <= x < stack@.len() ==> #[trigger] stack@[x] < n,
            forall|k: int| 0 <= k < n && visited@[k] ==> spec_reaches(nodes@, from as int, k),
            forall|x: int|
                0 <= x < stack@.len() ==> spec_reaches(
                    nodes@,
                    from as int,
                    #[trigger] stack@[x] as int,
                ),
            covers(nodes@, visited@, stack@),
            visited@[from as int] || in_stack(stack@, from as int),
        ensures
            stack@.len() == 0,
            visited@.len() == n,
            forall|k: int| 0 <= k < n && visited@[k] ==> spec_reaches(nodes@, from as int, k),
            forall|i: int, j: int|
                0 <= i < n && 0 <= j < n && visited@[i] && is_edge(nodes@, i, j) ==> visited@[j],
            visited@[from as int],
        decreases count_false(visited@), stack@.len(),
    {
        let ghost stack_old = stack@;
        let v = match stack.pop() {
            Option::Some(v) => v,
            Option::None => { break },
        };
        proof {
            assert(stack@ =~= stack_old.drop_last());
            assert(stack_old[stack_old.len() - 1] == v);
        }
        let seen = visited[v];
        if seen {
            proof {
                assert forall|j: int|
                    0 <= j < n && in_stack(stack_old, j) implies (visited@[j] || in_stack(
                    stack@,
                    j,
                )) by {
                    let x = choose|x: int|
                        0 <= x < stack_old.len() && #[trigger] stack_old[x] == j;
                    if x < stack_old.len() - 1 {
                        assert(stack@[x] == j);
                    } else {
                        assert(j == v as int);
                    }
                }
            }
        } else {
            proof {
                lemma_count_false_update(visited@, v as int);
            }
            visited[v] = true;
            proof {
                assert forall|j: int|
                    0 <= j < n && in_stack(stack_old, j) implies (visited@[j] || in_stack(
                    stack@,
                    j,
                )) by {
                    let x = choose|x: int|
                        0 <= x < stack_old.len() && #[trigger] stack_old[x] == j;
                    if x < stack_old.len() - 1 {
                        assert(stack@[x] == j);
                    } else {
                        assert(j == v as int);
                    }
                }
            }
            let ghost visited_mid = visited@;
            let m = nodes[v].outgoing.len();
            let mut e: usize = 0;
            loop
                invariant
                    visited@ == visited_mid,
                    visited@.len() == n == nodes@.len(),
                    from < n,
                    v < n,
                    visited@[v as int],
                    nodes_wf(nodes@),
                    m == nodes@[v as int].outgoing@.len(),
                    e <= m,
                    spec_reaches(nodes@, from as int, v as int),
                    forall|x: int| 0 <= x < stack@.len() ==> #[trigger] stack@[x] < n,
                    forall|k: int|
                        0 <= k < n && visited@[k] ==> spec_reaches(nodes@, from as int, k),
                    forall|x: int|
                        0 <= x < stack@.len() ==> spec_reaches(
                            nodes@,
                            from as int,
                            #[trigger] stack@[x] as int,
                        ),
                    forall|i: int, j: int|
                        0 <= i < n && 0 <= j < n && visited@[i] && is_edge(nodes@, i, j) && i != v
                            ==> (visited@[j] || in_stack(stack@, j)),
                    forall|j: int|
                        0 <= j < n && edge_among(nodes@, v as int, j, e as int) ==> (visited@[j]
                            || in_stack(stack@, j)),
                    visited@[from as int] || in_stack(stack@, from as int),
                ensures
                    visited@ == visited_mid,
                    forall|x: int| 0 <= x < stack@.len() ==> #[trigger] stack@[x] < n,
                    forall|x: int|
                        0 <= x < stack@.len() ==> spec_reaches(
                            nodes@,
                            from as int,
                            #[trigger] stack@[x] as int,
                        ),
                    forall|i: int, j: int|
                        0 <= i < n && 0 <= j < n && visited@[i] && is_edge(nodes@, i, j) && i != v
                            ==> (visited@[j] || in_stack(stack@, j)),
                    forall|j: int|
                        0 <= j < n && edge_among(nodes@, v as int, j, m as int) ==> (visited@[j]
                            || in_stack(stack@, j)),
                    visited@[from as int] || in_stack(stack@, from as int),
                decreases m - e,
            {
                if e >= m {
                    break ;
                }
                let ghost stack_pre = stack@;
                let target = find_node(nodes, &nodes[v].outgoing[e].to);
                match target {
                    Option::Some(k) => {
                        proof {
                            assert(nodes@[v as int].outgoing@[e as int].to@
                                == nodes@[k as int].specifier@);
                            assert(is_edge(nodes@, v as int, k as int));
                            lemma_reaches_step(nodes@, from as int, v as int, k as int);
                        }
                        stack.push(k);
                        proof {
                            assert(stack@ =~= stack_pre.push(k));
                            assert forall|j: int|
                                0 <= j < n && in_stack(stack_pre, j) implies in_stack(
                                stack@,
                                j,
                            ) by {
                                let x = choose|x: int|
                                    0 <= x < stack_pre.len() && #[trigger] stack_pre[x] == j;
                                assert(stack@[x] == j);
                            }
                            assert(stack@[stack@.len() - 1] == k);
                            assert(in_stack(stack@, k as int));
                            assert forall|j: int|
                                0 <= j < n && edge_among(nodes@, v as int, j, e + 1) implies (
                            visited@[j] || in_stack(stack@, j)) by {
                                let e2 = choose|e2: int|
                                    0 <= e2 < e + 1 && e2 < nodes@[v as int].outgoing@.len() && (
                                    #[trigger] nodes@[v as int].outgoing@[e2]).to@
                                        == nodes@[j].specifier@;
                                if e2 < e {
                                    assert(edge_among(nodes@, v as int, j, e as int));
                                } else {
                                    assert(nodes@[j].specifier@ == nodes@[k as int].specifier@);
                                    if j != k as int {
                                        assert(node_specs(nodes@)[j] == nodes@[j].specifier@);
                                        assert(node_specs(nodes@)[k as int]
                                            == nodes@[k as int].specifier@);
                                        assert(false);
                                    }
                                }
                            }
                        }
                    },
                    Option::None => {
                        proof {
                            assert(node_edges_wf(nodes@, v as int));
                            assert(has_spec(nodes@, nodes@[v as int].outgoing@[e as int].to@));
                            assert(false);
                        }
                    },
                }
                e = e + 1;
            }
            proof {
                assert forall|i: int, j: int|
                    0 <= i < n && 0 <= j < n && visited@[i] && is_edge(nodes@, i, j) implies (
                visited@[j] || in_stack(stack@, j)) by {
                    if i == v as int {
                        let e2 = choose|e2: int|
                            0 <= e2 < nodes@[i].outgoing@.len() && (
                            #[trigger] nodes@[i].outgoing@[e2]).to@ == nodes@[j].specifier@;
                        assert(edge_among(nodes@, v as int, j, m as int));
                    }
                }
            }
        }
    }
    let r = visited[to];
    proof {
        if !r && spec_reaches(nodes@, from as int, to as int) {
            let p = choose|p: Seq<int>|
                is_path(nodes@, p) && p.first() == from as int && p.last() == to as int;
            lemma_closed_no_escape(nodes@, visited@, p);
            assert(false);
        }
    }
    r
}

/// One of the first `upto` edges of node `i` targets node `j`.
spec fn edge_among(nodes: Seq<GraphNode>, i: int, j: int, upto: int) -> bool {
    exists|e: int|
        0 <= e < upto && e < nodes[i].outgoing@.len() && (#[trigger] nodes[i].outgoing@[e]).to@
            == nodes[j].specifier@
}

/// Finds the node carrying specifier `s`, if any.
pub fn find_node(nodes: &Vec<GraphNode>, s: &String) -> (r: Option<usize>)
    ensures
        match r {
            Option::Some(k) => k < nodes@.len() && nodes@[k as int].specifier@ == s@,
            Option::None => !has_spec(nodes@, s@),
        },
{
    let mut k: usize = 0;
    let n = nodes.len();
    while k < n
        invariant
            k <= n == nodes@.len(),
            forall|i: int| 0 <= i < k ==> (#[trigger] nodes@[i]).specifier@ != s@,
        decreases n - k,
    {
        if s.eq(&nodes[k].specifier) {
            return Option::Some(k);
        }
        k = k + 1;
    }
    Option::None
}

} // verus!
