//! An in-memory source of modules, and graph construction over it.
//!
//! A [`SourceTable`] plays both collaborator roles at once: it resolves
//! raw specifiers against referrers through its rules, and supplies each
//! module's parse outcome. [`build`] drives the graph builder over such a
//! table and returns the completed graph; it consumes the table, so every
//! module's parse outcome is taken up at most once.

use vstd::prelude::*;

use crate::diagnostics::DiagnosticCollector;
use crate::diagnostics::RawDiagnostic;
use crate::diagnostics::clamped_offset;
use crate::diagnostics::resolves_to;
use crate::errors::DocError;
use crate::errors::SWCDiagnosticBuffer;
use crate::errors::error_message_view;
use crate::errors::located_line;
use crate::errors::located_line_of;
use crate::graph::CycleNotice;
use crate::graph::GraphBuilder;
use crate::graph::GraphNode;
use crate::graph::ImportEdge;
use crate::graph::NodeState;
use crate::graph::ParsedUnit;
use crate::graph::edge_matches;
use crate::graph::loaded_specs;
use crate::graph::lemma_loaded_specs_distinct;
use crate::graph::node_specs;
use crate::graph::nodes_wf;
use crate::graph::pre_failed;
use crate::graph::was_loaded;
use crate::graph::is_edge;
use crate::graph::has_spec;
use crate::graph::closes_cycle;
use crate::graph::closes_cycle_settled;
use crate::graph::settled_cycle_indices;
use crate::graph::lemma_cycle_indices_bridge;
use crate::graph::lemma_settled_indices_congruent;
use crate::graph::lemma_reaches_bounded;
use crate::graph::lemma_reaches_below_stable;
use crate::graph::node_index_of;
use crate::graph::node_edges_wf;
use crate::graph::reaches_below;
use crate::graph::is_path_below;
use crate::model::ParsedModule;
use crate::model::Stmt;
use crate::model::StmtKind;
use crate::model::edge_kind_view;
use crate::model::is_module_ref;
use crate::model::lemma_refs_step;
use crate::model::ref_kind_view;
use crate::model::ref_raw;
use crate::model::refs_of;
use crate::position::col_of;
use crate::position::line_of;

verus! {

/// One resolution rule: how the raw specifier `raw`, referenced from the
/// module `referrer`, resolves.
pub struct ResolveRule {
    pub raw: String,
    pub referrer: String,
    pub outcome: Result<String, String>,
}

/// The outcome the table supplies for one specifier.
pub enum TableOutcome {
    /// Loading and parsing succeed, producing this module.
    Module(ParsedModule),
    /// Loading fails with this message.
    LoadFailure(String),
    /// Loading succeeds but parsing fails, over these source bytes, with
    /// these raw diagnostics.
    ParseFailure(Vec<u8>, Vec<RawDiagnostic>),
}

pub struct TableEntry {
    pub specifier: String,
    pub outcome: TableOutcome,
}

/// An in-memory stand-in for the loader and parser collaborators.
pub struct SourceTable {
    pub rules: Vec<ResolveRule>,
    pub entries: Vec<TableEntry>,
}

/// How `raw`, referenced from `referrer`, resolves under `rules`: the
/// first matching rule decides; with no matching rule the raw specifier
/// is already normal.
pub open spec fn resolve_spec(rules: Seq<ResolveRule>, raw: Seq<char>, referrer: Seq<char>) -> Result<
    Seq<char>,
    Seq<char>,
>
    decreases rules.len(),
{
    if rules.len() == 0 {
        Result::Ok(raw)
    } else if rules[0].raw@ == raw && rules[0].referrer@ == referrer {
        match rules[0].outcome {
            Result::Ok(s) => Result::Ok(s@),
            Result::Err(m) => Result::Err(m@),
        }
    } else {
        resolve_spec(rules.drop_first(), raw, referrer)
    }
}

/// The entry the table supplies for specifier `s`: the first with that
/// specifier.
pub open spec fn lookup_spec(entries: Seq<TableEntry>, s: Seq<char>) -> Option<TableEntry>
    decreases entries.len(),
{
    if entries.len() == 0 {
        Option::None
    } else if entries[0].specifier@ == s {
        Option::Some(entries[0])
    } else {
        lookup_spec(entries.drop_first(), s)
    }
}

/// The table is well-formed: one entry per specifier; a supplied module
/// carries the specifier it is filed under and is well-formed; failed
/// parses carry a source that fits in memory.
pub open spec fn table_wf(table: SourceTable) -> bool {
    &&& table.entries@.map_values(|e: TableEntry| e.specifier@).no_duplicates()
    &&& forall|i: int|
        0 <= i < table.entries@.len() ==> match (#[trigger] table.entries@[i]).outcome {
            TableOutcome::Module(m) => m.specifier@ == table.entries@[i].specifier@ && m.wf(),
            TableOutcome::LoadFailure(_) => true,
            TableOutcome::ParseFailure(src, _) => src@.len() < usize::MAX,
        }
}

/// Resolves `raw` against `referrer` by the rules.
pub fn resolve(rules: &Vec<ResolveRule>, raw: &String, referrer: &String) -> (r: Result<
    String,
    String,
>)
    ensures
        match r {
            Result::Ok(s) => resolve_spec(rules@, raw@, referrer@) == Result::<
                Seq<char>,
                Seq<char>,
            >::Ok(s@),
            Result::Err(m) => resolve_spec(rules@, raw@, referrer@) == Result::<
                Seq<char>,
                Seq<char>,
            >::Err(m@),
        },
{
    let n = rules.len();
    let mut k: usize = 0;
    proof {
        assert(rules@.skip(0) =~= rules@);
    }
    while k < n
        invariant
            k <= n == rules@.len(),
            resolve_spec(rules@, raw@, referrer@) == resolve_spec(
                rules@.skip(k as int),
                raw@,
                referrer@,
            ),
        decreases n - k,
    {
        proof {
            assert(rules@.skip(k as int)[0] == rules@[k as int]);
            assert(rules@.skip(k as int).drop_first() =~= rules@.skip(k + 1));
        }
        if raw.eq(&rules[k].raw) && referrer.eq(&rules[k].referrer) {
            return match &rules[k].outcome {
                Result::Ok(s) => Result::Ok(s.clone()),
                Result::Err(m) => Result::Err(m.clone()),
            };
        }
        k = k + 1;
    }
    proof {
        assert(rules@.skip(n as int).len() == 0);
    }
    Result::Ok(raw.clone())
}

/// Finds the index of the entry for specifier `s`, if any.
fn find_entry(entries: &Vec<TableEntry>, s: &String) -> (r: Option<usize>)
    ensures
        match r {
            Option::Some(i) => i < entries@.len() && entries@[i as int].specifier@ == s@
                && lookup_spec(entries@, s@) == Option::Some(entries@[i as int]),
            Option::None => lookup_spec(entries@, s@) is None,
        },
{
    let n = entries.len();
    let mut k: usize = 0;
    proof {
        assert(entries@.skip(0) =~= entries@);
    }
    while k < n
        invariant
            k <= n == entries@.len(),
            lookup_spec(entries@, s@) == lookup_spec(entries@.skip(k as int), s@),
        decreases n - k,
    {
        proof {
            assert(entries@.skip(k as int)[0] == entries@[k as int]);
            assert(entries@.skip(k as int).drop_first() =~= entries@.skip(k + 1));
        }
        if s.eq(&entries[k].specifier) {
            return Option::Some(k);
        }
        k = k + 1;
    }
    proof {
        assert(entries@.skip(n as int).len() == 0);
    }
    Option::None
}

/// Removing one entry leaves lookups of every other specifier unchanged.
proof fn lemma_lookup_after_remove(entries: Seq<TableEntry>, i: int, s: Seq<char>)
    requires
        0 <= i < entries.len(),
        entries[i].specifier@ != s,
    ensures
        lookup_spec(entries.remove(i), s) == lookup_spec(entries, s),
    decreases entries.len(),
{
    if i == 0 {
        assert(entries.remove(0) =~= entries.drop_first());
    } else {
        assert(entries.remove(i)[0] == entries[0]);
        if entries[0].specifier@ == s {
        } else {
            lemma_lookup_after_remove(entries.drop_first(), i - 1, s);
            assert(entries.remove(i).drop_first() =~= entries.drop_first().remove(i - 1));
        }
    }
}

/// The report line a raw diagnostic of module `specifier` with source
/// `src` resolves and formats to.
pub open spec fn expected_diag_line(specifier: Seq<char>, src: Seq<u8>, d: RawDiagnostic) -> Seq<
    char,
> {
    match d.lo {
        Option::Some(lo) => located_line_of(
            d.message@,
            specifier,
            line_of(src, clamped_offset(src, lo)),
            col_of(src, clamped_offset(src, lo)) as nat,
        ),
        Option::None => d.message@,
    }
}

/// The buffer holds exactly the report lines of these raw diagnostics.
pub open spec fn parse_buffer_matches(
    specifier: Seq<char>,
    src: Seq<u8>,
    raws: Seq<RawDiagnostic>,
    buffer: SWCDiagnosticBuffer,
) -> bool {
    &&& buffer.diagnostics@.len() == raws.len()
    &&& forall|x: int|
        0 <= x < raws.len() ==> (#[trigger] buffer.diagnostics@[x])@ == expected_diag_line(
            specifier,
            src,
            raws[x],
        )
}

/// The state a settled node must have under the original table: supplied
/// module parsed, load failure failed with its message, parse failure
/// failed with the formatted diagnostics, unknown specifier failed as
/// not found.
pub open spec fn outcome_state(entries: Seq<TableEntry>, n: GraphNode) -> bool {
    match lookup_spec(entries, n.specifier@) {
        Option::Some(entry) => match entry.outcome {
            TableOutcome::Module(m) => n.state matches NodeState::Resolved(u) && u.module == m
                && u.diagnostics@.len() == 0,
            TableOutcome::LoadFailure(msg) => n.state matches NodeState::Failed(
                DocError::Io(got),
            ) && got@ == msg@,
            TableOutcome::ParseFailure(src, raws) => n.state matches NodeState::Failed(
                DocError::Parse(buffer),
            ) && parse_buffer_matches(n.specifier@, src@, raws@, buffer),
        },
        Option::None => n.state matches NodeState::Failed(DocError::Io(got)) && got@
            == "module not found"@,
    }
}

/// One edge realises one reference statement under the table's rules.
pub open spec fn edge_follows(
    rules: Seq<ResolveRule>,
    mspec: Seq<char>,
    stmt: Stmt,
    e: ImportEdge,
) -> bool {
    &&& e.from@ == mspec
    &&& edge_kind_view(e.kind) == ref_kind_view(stmt)
    &&& e.to@ == match resolve_spec(rules, ref_raw(stmt), mspec) {
        Result::Ok(s) => s,
        Result::Err(_) => ref_raw(stmt),
    }
}

/// A Resolved node's edges realise its module's reference statements,
/// one for one, in order.
pub open spec fn edges_follow(
    rules: Seq<ResolveRule>,
    m: ParsedModule,
    outgoing: Seq<ImportEdge>,
) -> bool {
    &&& outgoing.len() == refs_of(m.stmts@).len()
    &&& forall|j: int|
        0 <= j < outgoing.len() ==> edge_follows(
            rules,
            m.specifier@,
            refs_of(m.stmts@)[j],
            #[trigger] outgoing[j],
        )
}

/// Some node of the table was loaded before position `upto` and carries
/// specifier `s`; the table entry for such a specifier has been consumed.
pub open spec fn consumed_spec(nodes: Seq<GraphNode>, upto: int, s: Seq<char>) -> bool {
    exists|k: int|
        0 <= k < upto && (#[trigger] nodes[k]).specifier@ == s && was_loaded(nodes[k])
}

/// The raw-specifier views of a module's reference statements.
pub open spec fn stmt_raws(stmts: Seq<Stmt>) -> Seq<Seq<char>> {
    refs_of(stmts).map_values(|s: Stmt| ref_raw(s))
}

/// The specifier a rule can resolve to: its outcome on success, its raw
/// text on failure.
pub open spec fn rule_targets(rules: Seq<ResolveRule>) -> Seq<Seq<char>> {
    rules.map_values(
        |r: ResolveRule|
            match r.outcome {
                Result::Ok(s) => s@,
                Result::Err(_) => r.raw@,
            },
    )
}

/// The raw-specifier views of every module the table supplies.
pub open spec fn table_raws(entries: Seq<TableEntry>) -> Seq<Seq<char>>
    decreases entries.len(),
{
    if entries.len() == 0 {
        Seq::<Seq<char>>::empty()
    } else {
        (match entries[0].outcome {
            TableOutcome::Module(m) => stmt_raws(m.stmts@),
            TableOutcome::LoadFailure(_) => Seq::<Seq<char>>::empty(),
            TableOutcome::ParseFailure(_, _) => Seq::<Seq<char>>::empty(),
        }) + table_raws(entries.drop_first())
    }
}

/// Every specifier a build over the table can ever discover.
pub open spec fn candidates(entry: Seq<char>, table: SourceTable) -> Seq<Seq<char>> {
    seq![entry] + rule_targets(table.rules@) + table_raws(table.entries@)
}

/// A successful resolution yields the raw specifier itself or a rule's
/// target.
proof fn lemma_resolve_target(rules: Seq<ResolveRule>, raw: Seq<char>, referrer: Seq<char>)
    ensures
        match resolve_spec(rules, raw, referrer) {
            Result::Ok(s) => s == raw || rule_targets(rules).contains(s),
            Result::Err(_) => true,
        },
    decreases rules.len(),
{
    if rules.len() > 0 {
        if rules[0].raw@ == raw && rules[0].referrer@ == referrer {
            match rules[0].outcome {
                Result::Ok(s) => {
                    assert(rule_targets(rules)[0] == s@);
                },
                Result::Err(_) => {},
            }
        } else {
            lemma_resolve_target(rules.drop_first(), raw, referrer);
            match resolve_spec(rules, raw, referrer) {
                Result::Ok(s) => {
                    if s != raw {
                        assert(rule_targets(rules.drop_first()).contains(s));
                        let x = choose|x: int|
                            0 <= x < rule_targets(rules.drop_first()).len() && rule_targets(
                                rules.drop_first(),
                            )[x] == s;
                        assert(rule_targets(rules)[x + 1] == s);
                    }
                },
                Result::Err(_) => {},
            }
        }
    }
}

/// The raw specifiers of a module the table supplies are among the
/// table's raw specifiers.
proof fn lemma_table_raws_contains(entries: Seq<TableEntry>, s: Seq<char>, x: Seq<char>)
    requires
        lookup_spec(entries, s) matches Option::Some(entry) && entry.outcome matches
            TableOutcome::Module(m) && stmt_raws(m.stmts@).contains(x),
    ensures
        table_raws(entries).contains(x),
    decreases entries.len(),
{
    if entries.len() > 0 {
        if entries[0].specifier@ == s {
            let m = lookup_spec(entries, s)->Some_0.outcome->Module_0;
            let w = choose|w: int| 0 <= w < stmt_raws(m.stmts@).len() && stmt_raws(m.stmts@)[w]
                == x;
            assert(table_raws(entries)[w] == x);
        } else {
            lemma_table_raws_contains(entries.drop_first(), s, x);
            let head_len = (match entries[0].outcome {
                TableOutcome::Module(m0) => stmt_raws(m0.stmts@),
                TableOutcome::LoadFailure(_) => Seq::<Seq<char>>::empty(),
                TableOutcome::ParseFailure(_, _) => Seq::<Seq<char>>::empty(),
            }).len() as int;
            let w = choose|w: int|
                0 <= w < table_raws(entries.drop_first()).len() && table_raws(
                    entries.drop_first(),
                )[w] == x;
            assert(table_raws(entries)[head_len + w] == x);
        }
    }
}

/// A table with one node per specifier, every one among the candidates,
/// holds no more nodes than there are candidates.
proof fn lemma_nodes_bounded(nodes: Seq<GraphNode>, cands: Seq<Seq<char>>)
    requires
        node_specs(nodes).no_duplicates(),
        forall|k: int| 0 <= k < nodes.len() ==> cands.contains(#[trigger] node_specs(nodes)[k]),
    ensures
        nodes.len() <= cands.len(),
{
    broadcast use vstd::seq_lib::seq_to_set_is_finite;
    broadcast use vstd::set::group_set_axioms;

    node_specs(nodes).unique_seq_to_set();
    cands.lemma_cardinality_of_set();
    assert forall|a: Seq<char>| node_specs(nodes).to_set().contains(a) implies cands.to_set()
        .contains(a) by {
        assert(node_specs(nodes).contains(a));
        let k = choose|k: int| 0 <= k < node_specs(nodes).len() && node_specs(nodes)[k] == a;
        assert(cands.contains(a));
    }
    vstd::set_lib::lemma_len_subset(node_specs(nodes).to_set(), cands.to_set());
}

/// A created-failed node is witnessed by a reference whose resolution
/// actually failed: some Resolved module's reference statement resolves
/// to exactly the error the node carries, the node is keyed by the
/// reference's raw text, and the reference's edge links to it.
pub open spec fn resolve_failure_witnessed(
    rules: Seq<ResolveRule>,
    nodes: Seq<GraphNode>,
    k: int,
) -> bool {
    exists|i: int, j: int|
        {
            &&& 0 <= i < nodes.len()
            &&& 0 <= j < nodes[i].outgoing@.len()
            &&& (#[trigger] nodes[i].outgoing@[j]).to@ == nodes[k].specifier@
            &&& nodes[i].state matches NodeState::Resolved(u) && {
                let stmt = refs_of(u.module.stmts@)[j];
                &&& j < refs_of(u.module.stmts@).len()
                &&& nodes[k].specifier@ == ref_raw(stmt)
                &&& nodes[k].state matches NodeState::Failed(DocError::Resolve(got))
                    && resolve_spec(rules, ref_raw(stmt), u.module.specifier@) == Result::<
                    Seq<char>,
                    Seq<char>,
                >::Err(got@)
            }
        }
}

/// Node `k` is the target of an edge of a node discovered before it: it
/// entered the table by following a reference of an earlier module.
pub open spec fn node_referenced(nodes: Seq<GraphNode>, k: int) -> bool {
    exists|i: int| 0 <= i < k && is_edge(nodes, i, k)
}

/// How many cycle notices node `k`'s processing recorded.
pub open spec fn node_notice_count(nodes: Seq<GraphNode>, k: int) -> nat {
    settled_cycle_indices(nodes, k, nodes[k].outgoing@).len()
}

/// How many cycle notices the first `upto` nodes recorded.
pub open spec fn notices_total(nodes: Seq<GraphNode>, upto: int) -> nat
    decreases upto,
{
    if upto <= 0 {
        0
    } else {
        notices_total(nodes, upto - 1) + node_notice_count(nodes, upto - 1)
    }
}

/// The cycle notices of the first `upto` nodes, node by node in
/// processing order: node `k`'s segment sits at its offset and holds one
/// notice per edge whose linking closed a cycle, naming the edge's ends.
pub open spec fn notices_match(nodes: Seq<GraphNode>, upto: int, out: Seq<CycleNotice>) -> bool {
    &&& out.len() == notices_total(nodes, upto)
    &&& forall|k: int|
        0 <= k < upto ==> {
            let idxs = #[trigger] settled_cycle_indices(nodes, k, nodes[k].outgoing@);
            forall|x: int|
                0 <= x < idxs.len() ==> {
                    &&& (#[trigger] out[notices_total(nodes, k) + x]).from@
                        == nodes[k].specifier@
                    &&& out[notices_total(nodes, k) + x].to@ == nodes[k].outgoing@[idxs[x]].to@
                }
        }
}

proof fn lemma_notices_total_congruent(nodes1: Seq<GraphNode>, nodes2: Seq<GraphNode>, upto: int)
    requires
        forall|k: int|
            0 <= k < upto ==> node_notice_count(nodes1, k) == node_notice_count(nodes2, k),
    ensures
        notices_total(nodes1, upto) == notices_total(nodes2, upto),
    decreases upto,
{
    if upto > 0 {
        lemma_notices_total_congruent(nodes1, nodes2, upto - 1);
    }
}

proof fn lemma_notices_total_mono(nodes: Seq<GraphNode>, a: int, b: int)
    requires
        a <= b,
    ensures
        notices_total(nodes, a) <= notices_total(nodes, b),
    decreases b,
{
    if a < b && b > 0 {
        lemma_notices_total_mono(nodes, a, b - 1);
    }
}

/// Nodes without edges record no notices: extending the counted prefix
/// over them changes nothing.
proof fn lemma_notices_match_skip(nodes: Seq<GraphNode>, a: int, b: int, out: Seq<CycleNotice>)
    requires
        0 <= a <= b,
        forall|k: int| a <= k < b ==> (#[trigger] nodes[k]).outgoing@.len() == 0,
        notices_match(nodes, a, out),
    ensures
        notices_match(nodes, b, out),
    decreases b,
{
    if a < b {
        lemma_notices_match_skip(nodes, a, b - 1, out);
        assert(settled_cycle_indices(nodes, b - 1, nodes[b - 1].outgoing@)
            =~= Seq::<int>::empty());
    }
}

/// Appending node `upto - 1`'s notice segment extends a matching list.
proof fn lemma_notices_match_extend(
    nodes: Seq<GraphNode>,
    upto: int,
    out: Seq<CycleNotice>,
    split: int,
)
    requires
        1 <= upto,
        0 <= split <= out.len(),
        notices_match(nodes, upto - 1, out.take(split)),
        out.len() - split == node_notice_count(nodes, upto - 1),
        ({
            let idxs = settled_cycle_indices(nodes, upto - 1, nodes[upto - 1].outgoing@);
            forall|x: int|
                0 <= x < idxs.len() ==> {
                    &&& (#[trigger] out[split + x]).from@ == nodes[upto - 1].specifier@
                    &&& out[split + x].to@ == nodes[upto - 1].outgoing@[idxs[x]].to@
                }
        }),
    ensures
        notices_match(nodes, upto, out),
{
    assert(split == notices_total(nodes, upto - 1));
    assert forall|k: int| 0 <= k < upto implies {
        let idxs = #[trigger] settled_cycle_indices(nodes, k, nodes[k].outgoing@);
        forall|x: int|
            0 <= x < idxs.len() ==> {
                &&& (#[trigger] out[notices_total(nodes, k) + x]).from@ == nodes[k].specifier@
                &&& out[notices_total(nodes, k) + x].to@ == nodes[k].outgoing@[idxs[x]].to@
            }
    } by {
        if k < upto - 1 {
            let idxs = settled_cycle_indices(nodes, k, nodes[k].outgoing@);
            lemma_notices_total_mono(nodes, k + 1, upto - 1);
            assert forall|x: int| 0 <= x < idxs.len() implies {
                &&& (#[trigger] out[notices_total(nodes, k) + x]).from@ == nodes[k].specifier@
                &&& out[notices_total(nodes, k) + x].to@ == nodes[k].outgoing@[idxs[x]].to@
            } by {
                assert(out.take(split)[notices_total(nodes, k) + x] == out[notices_total(
                    nodes,
                    k,
                ) + x]);
            }
        }
    }
}

/// A matching notice list stays matching while the table grows and
/// later nodes settle: the judgement for node `k` reads only the
/// specifiers and the edges of nodes settled before `k`.
proof fn lemma_notices_match_stable(
    a: Seq<GraphNode>,
    b: Seq<GraphNode>,
    upto: int,
    out: Seq<CycleNotice>,
)
    requires
        notices_match(a, upto, out),
        nodes_wf(a),
        node_specs(b).no_duplicates(),
        0 <= upto <= a.len() <= b.len(),
        forall|y: int| 0 <= y < a.len() ==> (#[trigger] b[y]).specifier@ == a[y].specifier@,
        forall|y: int| 0 <= y < upto ==> (#[trigger] b[y]).outgoing@ == a[y].outgoing@,
    ensures
        notices_match(b, upto, out),
{
    assert forall|k: int|
        0 <= k < upto implies settled_cycle_indices(a, k, a[k].outgoing@)
        == settled_cycle_indices(b, k, #[trigger] b[k].outgoing@) by {
        assert(b[k].outgoing@ == a[k].outgoing@);
        assert forall|e: int|
            0 <= e < a[k].outgoing@.len() implies closes_cycle_settled(
            a,
            k,
            (#[trigger] a[k].outgoing@[e]).to@,
        ) == closes_cycle_settled(b, k, a[k].outgoing@[e].to@) by {
            let t = a[k].outgoing@[e].to@;
            assert(node_edges_wf(a, k));
            assert(has_spec(a, t));
            let ka = node_index_of(a, t);
            assert(0 <= ka < a.len() && a[ka].specifier@ == t);
            assert(b[ka].specifier@ == t);
            assert(has_spec(b, t));
            let kb = node_index_of(b, t);
            if kb != ka {
                assert(node_specs(b)[kb] == node_specs(b)[ka]);
                assert(false);
            }
            lemma_reaches_below_stable(a, b, k, ka, k);
        }
        lemma_settled_indices_congruent(a, b, k, a[k].outgoing@);
    }
    assert forall|k: int|
        0 <= k < upto implies node_notice_count(a, k) == node_notice_count(b, k) by {}
    lemma_notices_total_congruent(a, b, upto);
    assert forall|k: int| 0 <= k < upto implies {
        let idxs = #[trigger] settled_cycle_indices(b, k, b[k].outgoing@);
        forall|x: int|
            0 <= x < idxs.len() ==> {
                &&& (#[trigger] out[notices_total(b, k) + x]).from@ == b[k].specifier@
                &&& out[notices_total(b, k) + x].to@ == b[k].outgoing@[idxs[x]].to@
            }
    } by {
        lemma_notices_total_congruent(a, b, k);
        assert(settled_cycle_indices(a, k, a[k].outgoing@) == settled_cycle_indices(
            b,
            k,
            b[k].outgoing@,
        ));
    }
}

/// The completed module graph: the node table in first-discovery order,
/// the entry's own terminal error message if it failed, the specifiers
/// handed out for loading, and the recorded cycle notices.
pub struct GraphResult {
    pub nodes: Vec<GraphNode>,
    pub entry_error: Option<String>,
    pub load_log: Vec<String>,
    pub cycle_notices: Vec<CycleNotice>,
}

/// One resolution result realises one reference statement's resolution.
spec fn res_matches(
    rules: Seq<ResolveRule>,
    mspec: Seq<char>,
    stmt: Stmt,
    r: Result<String, String>,
) -> bool {
    match r {
        Result::Ok(s) => resolve_spec(rules, ref_raw(stmt), mspec) == Result::<
            Seq<char>,
            Seq<char>,
        >::Ok(s@),
        Result::Err(m) => resolve_spec(rules, ref_raw(stmt), mspec) == Result::<
            Seq<char>,
            Seq<char>,
        >::Err(m@),
    }
}

/// The entry a lookup returns is one of the table's entries.
proof fn lemma_lookup_is_entry(entries: Seq<TableEntry>, s: Seq<char>)
    requires
        lookup_spec(entries, s) is Some,
    ensures
        exists|i: int|
            0 <= i < entries.len() && #[trigger] entries[i] == lookup_spec(entries, s)->Some_0
                && entries[i].specifier@ == s,
    decreases entries.len(),
{
    if entries.len() > 0 {
        if entries[0].specifier@ == s {
            assert(entries[0] == lookup_spec(entries, s)->Some_0);
        } else {
            lemma_lookup_is_entry(entries.drop_first(), s);
            let i = choose|i: int|
                0 <= i < entries.drop_first().len() && #[trigger] entries.drop_first()[i]
                    == lookup_spec(entries.drop_first(), s)->Some_0 && entries.drop_first()[
                    i
                ].specifier@ == s;
            assert(entries[i + 1] == lookup_spec(entries, s)->Some_0);
        }
    }
}

/// Builds the module graph over the table, starting at `entry`: every
/// discovered specifier is visited exactly once, each node settles as
/// Resolved or Failed according to the table's outcome for it, and each
/// Resolved node's edges realise its module's reference statements under
/// the table's rules. A node exists only for the entry or for an edge of
/// an earlier module that references it, and a node is created failed
/// only for a reference whose resolution actually failed — never the
/// entry. One cycle notice is recorded, informationally, for exactly
/// each edge whose linking closed an import cycle. The failure of one
/// module never stops the rest of the graph from building; only the
/// entry module's own failure makes the overall result an error.
#[verifier::rlimit(100)]
pub fn build(entry: String, table: SourceTable) -> (r: GraphResult)
    requires
        table_wf(table),
    ensures
        nodes_wf(r.nodes@),
        r.nodes@.len() >= 1,
        r.nodes@[0].specifier@ == entry@,
        forall|i: int|
            0 <= i < r.nodes@.len() ==> ((#[trigger] r.nodes@[i]).state is Resolved) || (
            r.nodes@[i].state is Failed),
        forall|i: int|
            0 <= i < r.nodes@.len() && !pre_failed(#[trigger] r.nodes@[i]) ==> outcome_state(
                table.entries@,
                r.nodes@[i],
            ),
        forall|i: int|
            0 <= i < r.nodes@.len() ==> match (#[trigger] r.nodes@[i]).state {
                NodeState::Resolved(u) => u.module.specifier@ == r.nodes@[i].specifier@
                    && u.module.wf() && edges_follow(
                    table.rules@,
                    u.module,
                    r.nodes@[i].outgoing@,
                ),
                _ => r.nodes@[i].outgoing@.len() == 0,
            },
        forall|k: int| 1 <= k < r.nodes@.len() ==> node_referenced(r.nodes@, k),
        !pre_failed(r.nodes@[0]),
        forall|k: int|
            0 <= k < r.nodes@.len() && pre_failed(#[trigger] r.nodes@[k])
                ==> resolve_failure_witnessed(table.rules@, r.nodes@, k),
        notices_match(r.nodes@, r.nodes@.len() as int, r.cycle_notices@),
        r.load_log@.map_values(|s: String| s@) == loaded_specs(r.nodes@, r.nodes@.len() as int),
        r.load_log@.map_values(|s: String| s@).no_duplicates(),
        (r.entry_error is Some) <==> (r.nodes@[0].state is Failed),
        match r.entry_error {
            Option::Some(m) => r.nodes@[0].state matches NodeState::Failed(e) && m@
                == error_message_view(e),
            Option::None => true,
        },
{
    let ghost orig = table;
    let ghost cands = candidates(entry@, orig);
    let mut tbl = table;
    let mut b = GraphBuilder::new(entry);
    proof {
        assert(cands[0] == entry@);
        assert(cands.contains(entry@));
        assert(notices_match(b.nodes@, 0, b.cycle_notices@));
    }
    loop
        invariant
            b.wf(),
            b.idle(),
            table_wf(orig),
            tbl.rules == orig.rules,
            cands == candidates(entry@, orig),
            b.nodes@.len() >= 1,
            b.nodes@[0].specifier@ == entry@,
            forall|k: int|
                0 <= k < b.nodes@.len() ==> cands.contains(
                    (#[trigger] b.nodes@[k]).specifier@,
                ),
            forall|k: int| 1 <= k < b.nodes@.len() ==> node_referenced(b.nodes@, k),
            notices_match(b.nodes@, b.processed as int, b.cycle_notices@),
            !pre_failed(b.nodes@[0]),
            forall|k: int|
                0 <= k < b.nodes@.len() && pre_failed(#[trigger] b.nodes@[k])
                    ==> resolve_failure_witnessed(orig.rules@, b.nodes@, k),
            forall|s2: Seq<char>|
                !consumed_spec(b.nodes@, b.processed as int, s2) ==> #[trigger] lookup_spec(
                    tbl.entries@,
                    s2,
                ) == lookup_spec(orig.entries@, s2),
            forall|k: int|
                0 <= k < b.processed && !pre_failed(#[trigger] b.nodes@[k]) ==> outcome_state(
                    orig.entries@,
                    b.nodes@[k],
                ),
            forall|k: int|
                0 <= k < b.nodes@.len() ==> match (#[trigger] b.nodes@[k]).state {
                    NodeState::Resolved(u) => u.module.specifier@ == b.nodes@[k].specifier@
                        && u.module.wf() && edges_follow(
                        orig.rules@,
                        u.module,
                        b.nodes@[k].outgoing@,
                    ),
                    _ => b.nodes@[k].outgoing@.len() == 0,
                },
        ensures
            b.wf(),
            b.idle(),
            b.processed == b.nodes@.len(),
            b.nodes@.len() >= 1,
            b.nodes@[0].specifier@ == entry@,
            forall|k: int| 1 <= k < b.nodes@.len() ==> node_referenced(b.nodes@, k),
            notices_match(b.nodes@, b.processed as int, b.cycle_notices@),
            !pre_failed(b.nodes@[0]),
            forall|k: int|
                0 <= k < b.nodes@.len() && pre_failed(#[trigger] b.nodes@[k])
                    ==> resolve_failure_witnessed(orig.rules@, b.nodes@, k),
            forall|k: int|
                0 <= k < b.nodes@.len() && !pre_failed(#[trigger] b.nodes@[k]) ==> outcome_state(
                    orig.entries@,
                    b.nodes@[k],
                ),
            forall|k: int|
                0 <= k < b.nodes@.len() ==> match (#[trigger] b.nodes@[k]).state {
                    NodeState::Resolved(u) => u.module.specifier@ == b.nodes@[k].specifier@
                        && u.module.wf() && edges_follow(
                        orig.rules@,
                        u.module,
                        b.nodes@[k].outgoing@,
                    ),
                    _ => b.nodes@[k].outgoing@.len() == 0,
                },
        decreases cands.len() - b.processed,
    {
        proof {
            lemma_nodes_bounded(b.nodes@, cands);
        }
        let ghost b_head = *&b;
        let next = b.next_pending();
        let spec = match next {
            Option::None => {
                proof {
                    // the nodes passed over were created failed and
                    // recorded nothing
                    assert forall|k2: int|
                        b_head.processed <= k2 < b.nodes@.len() implies (
                    #[trigger] b.nodes@[k2]).outgoing@.len() == 0 by {
                        assert(node_edges_wf(b.nodes@, k2));
                    }
                    lemma_notices_match_skip(
                        b.nodes@,
                        b_head.processed as int,
                        b.nodes@.len() as int,
                        b.cycle_notices@,
                    );
                }
                break
            },
            Option::Some(s) => s,
        };
        let ghost cur = b.current();
        let ghost b_mid = *&b;
        proof {
            // earlier notice segments are unchanged by marking the
            // current node visiting
            assert forall|y: int|
                0 <= y < b_head.nodes@.len() implies (#[trigger] b_mid.nodes@[y]).specifier@
                == b_head.nodes@[y].specifier@ by {}
            assert forall|y: int|
                0 <= y < b_head.processed implies (#[trigger] b_mid.nodes@[y]).outgoing@
                == b_head.nodes@[y].outgoing@ by {}
            lemma_notices_match_stable(
                b_head.nodes@,
                b_mid.nodes@,
                b_head.processed as int,
                b.cycle_notices@,
            );
            // the nodes passed over were created failed and recorded
            // nothing
            assert forall|k2: int|
                b_head.processed <= k2 < cur implies (#[trigger] b_mid.nodes@[k2]).outgoing@.len()
                == 0 by {
                assert(node_edges_wf(b_mid.nodes@, k2));
            }
            lemma_notices_match_skip(b_mid.nodes@, b_head.processed as int, cur, b.cycle_notices@);
        }
        proof {
            // the specifier handed out was never consumed, so the current
            // table answers for it as the original does
            if consumed_spec(b_head.nodes@, b_head.processed as int, spec@) {
                let k = choose|k: int|
                    0 <= k < b_head.processed && (#[trigger] b_head.nodes@[k]).specifier@ == spec@
                        && was_loaded(b_head.nodes@[k]);
                assert(node_specs(b_head.nodes@)[k] == node_specs(b_head.nodes@)[cur]);
                assert(false);
            }
        }
        let idx_opt = find_entry(&tbl.entries, &spec);
        match idx_opt {
            Option::None => {
                b.supply_failed(DocError::Io(String::from_str("module not found")));
                proof {
                    assert(lookup_spec(orig.entries@, spec@) is None);
                    assert(outcome_state(orig.entries@, b.nodes@[cur]));
                }
                proof {
                    assert forall|y: int|
                        0 <= y < b_mid.nodes@.len() implies (#[trigger] b.nodes@[y]).specifier@
                        == b_mid.nodes@[y].specifier@ by {}
                    assert forall|y: int|
                        0 <= y < cur implies (#[trigger] b.nodes@[y]).outgoing@
                        == b_mid.nodes@[y].outgoing@ by {}
                    lemma_notices_match_stable(b_mid.nodes@, b.nodes@, cur, b.cycle_notices@);
                    assert(b.nodes@[cur].outgoing@.len() == 0);
                    lemma_notices_match_skip(b.nodes@, cur, cur + 1, b.cycle_notices@);
                }
            },
            Option::Some(idx) => {
                let ghost pre_entries = tbl.entries@;
                let entry_item = tbl.entries.remove(idx);
                let ghost entry_spec = entry_item.specifier@;
                proof {
                    assert(lookup_spec(orig.entries@, spec@) == Option::Some(entry_item));
                    lemma_lookup_is_entry(orig.entries@, spec@);
                    assert(entry_spec == spec@);
                }
                match entry_item.outcome {
                    TableOutcome::Module(m) => {
                        let ghost mv = m;
                        let mut resolved: Vec<Result<String, String>> = Vec::new();
                        let mut i: usize = 0;
                        let nst = m.stmts.len();
                        proof {
                            assert(m.stmts@.take(0) =~= Seq::<Stmt>::empty());
                            assert(refs_of(Seq::<Stmt>::empty()) =~= Seq::<Stmt>::empty());
                            assert(refs_of(m.stmts@).take(0) =~= Seq::<Stmt>::empty());
                        }
                        while i < nst
                            invariant
                                nst == m.stmts@.len(),
                                i <= nst,
                                tbl.rules == orig.rules,
                                resolved@.len() == refs_of(m.stmts@.take(i as int)).len(),
                                refs_of(m.stmts@.take(i as int)) == refs_of(m.stmts@).take(
                                    resolved@.len() as int,
                                ),
                                forall|j: int|
                                    0 <= j < resolved@.len() ==> res_matches(
                                        orig.rules@,
                                        m.specifier@,
                                        refs_of(m.stmts@)[j],
                                        #[trigger] resolved@[j],
                                    ),
                            decreases nst - i,
                        {
                            proof {
                                lemma_refs_step(m.stmts@, i as int);
                            }
                            match &m.stmts[i].kind {
                                StmtKind::ModuleRef { raw, .. } => {
                                    proof {
                                        assert(is_module_ref(m.stmts@[i as int]));
                                        assert(refs_of(m.stmts@)[resolved@.len() as int]
                                            == m.stmts@[i as int]);
                                    }
                                    let rr = resolve(&tbl.rules, raw, &m.specifier);
                                    resolved.push(rr);
                                },
                                _ => {},
                            }
                            i = i + 1;
                        }
                        proof {
                            assert(m.stmts@.take(nst as int) =~= m.stmts@);
                            assert(refs_of(m.stmts@).take(resolved@.len() as int) =~= refs_of(
                                m.stmts@,
                            ));
                        }
                        let ghost resolved_v = resolved@;
                        let empty_diags: Vec<crate::diagnostics::DiagnosticRecord> = Vec::new();
                        b.supply_parsed(m, empty_diags, resolved);
                        proof {
                            assert(outcome_state(orig.entries@, b.nodes@[cur])) by {
                                assert(b.nodes@[cur].state matches NodeState::Resolved(u)
                                    && u.module == mv && u.diagnostics@.len() == 0);
                            }
                            assert(edges_follow(orig.rules@, mv, b.nodes@[cur].outgoing@)) by {
                                assert forall|j: int|
                                    0 <= j < b.nodes@[cur].outgoing@.len() implies edge_follows(
                                    orig.rules@,
                                    mv.specifier@,
                                    refs_of(mv.stmts@)[j],
                                    b.nodes@[cur].outgoing@[j],
                                ) by {
                                    assert(edge_matches(
                                        refs_of(mv.stmts@)[j],
                                        resolved_v[j],
                                        b.nodes@[cur].outgoing@[j],
                                        mv.specifier@,
                                    ));
                                    assert(res_matches(
                                        orig.rules@,
                                        mv.specifier@,
                                        refs_of(mv.stmts@)[j],
                                        resolved_v[j],
                                    ));
                                }
                            }
                            // every newly discovered specifier is a candidate
                            assert forall|k: int|
                                b_head.nodes@.len() <= k < b.nodes@.len() implies cands.contains(
                                (#[trigger] b.nodes@[k]).specifier@,
                            ) by {
                                let j = choose|j: int|
                                    0 <= j < refs_of(mv.stmts@).len() && (#[trigger] b.nodes@[
                                        cur
                                    ].outgoing@[j]).to@ == b.nodes@[k].specifier@;
                                let stmt = refs_of(mv.stmts@)[j];
                                let raw = ref_raw(stmt);
                                assert(stmt_raws(mv.stmts@)[j] == raw);
                                assert(stmt_raws(mv.stmts@).contains(raw));
                                lemma_table_raws_contains(orig.entries@, spec@, raw);
                                let w = choose|w: int|
                                    0 <= w < table_raws(orig.entries@).len() && table_raws(
                                        orig.entries@,
                                    )[w] == raw;
                                assert(cands[1 + rule_targets(orig.rules@).len() + w] == raw);
                                assert(cands.contains(raw));
                                lemma_resolve_target(orig.rules@, raw, mv.specifier@);
                                match resolve_spec(orig.rules@, raw, mv.specifier@) {
                                    Result::Ok(sv) => {
                                        if sv != raw {
                                            let x = choose|x: int|
                                                0 <= x < rule_targets(orig.rules@).len()
                                                    && rule_targets(orig.rules@)[x] == sv;
                                            assert(cands[1 + x] == sv);
                                            assert(cands.contains(sv));
                                        }
                                    },
                                    Result::Err(_) => {},
                                }
                                assert(edge_matches(
                                    stmt,
                                    resolved_v[j],
                                    b.nodes@[cur].outgoing@[j],
                                    mv.specifier@,
                                ));
                            }
                        }
                        proof {
                            // earlier notice segments survive the settle, and
                            // the notices this call recorded are exactly the
                            // edges that closed a cycle, judged over the
                            // completed table
                            let post = b.nodes@;
                            assert forall|y: int|
                                0 <= y < b_mid.nodes@.len() implies (#[trigger] post[y]).specifier@
                                == b_mid.nodes@[y].specifier@ by {}
                            assert forall|y: int|
                                0 <= y < cur implies (#[trigger] post[y]).outgoing@
                                == b_mid.nodes@[y].outgoing@ by {}
                            assert(b.cycle_notices@.take(b_mid.cycle_notices@.len() as int)
                                =~= b_mid.cycle_notices@);
                            lemma_notices_match_stable(
                                b_mid.nodes@,
                                post,
                                cur,
                                b_mid.cycle_notices@,
                            );
                            let out_e = post[cur].outgoing@;
                            assert forall|e: int|
                                0 <= e < out_e.len() implies closes_cycle(
                                b_mid.nodes@,
                                cur,
                                (#[trigger] out_e[e]).to@,
                            ) == closes_cycle_settled(post, cur, out_e[e].to@) by {
                                let t = out_e[e].to@;
                                assert(node_edges_wf(post, cur));
                                assert(has_spec(post, t));
                                if has_spec(b_mid.nodes@, t) {
                                    let ka = node_index_of(b_mid.nodes@, t);
                                    assert(0 <= ka < b_mid.nodes@.len() && b_mid.nodes@[
                                        ka
                                    ].specifier@ == t);
                                    assert forall|y: int|
                                        cur <= y < b_mid.nodes@.len() implies (
                                    #[trigger] b_mid.nodes@[y]).outgoing@.len() == 0 by {
                                        assert(node_edges_wf(b_mid.nodes@, y));
                                    }
                                    lemma_reaches_bounded(b_mid.nodes@, cur, ka, cur);
                                    lemma_reaches_below_stable(b_mid.nodes@, post, cur, ka, cur);
                                    let kb = node_index_of(post, t);
                                    assert(post[ka].specifier@ == t);
                                    if kb != ka {
                                        assert(node_specs(post)[kb] == node_specs(post)[ka]);
                                        assert(false);
                                    }
                                } else {
                                    let kb = node_index_of(post, t);
                                    assert(0 <= kb < post.len() && post[kb].specifier@ == t);
                                    if kb < b_mid.nodes@.len() {
                                        assert(b_mid.nodes@[kb].specifier@ == t);
                                        assert(false);
                                    }
                                    if reaches_below(post, cur, kb, cur) {
                                        let p = choose|p: Seq<int>|
                                            is_path_below(post, cur, p) && p.first() == kb
                                                && p.last() == cur;
                                        if p.len() == 1 {
                                            assert(false);
                                        } else {
                                            assert(p[0] < cur);
                                            assert(false);
                                        }
                                    }
                                }
                            }
                            lemma_cycle_indices_bridge(b_mid.nodes@, post, cur, out_e);
                            assert(post[cur].specifier@ == mv.specifier@);
                            lemma_notices_match_extend(
                                post,
                                cur + 1,
                                b.cycle_notices@,
                                b_mid.cycle_notices@.len() as int,
                            );
                        }
                    },
                    TableOutcome::LoadFailure(msg) => {
                        let ghost msg_v = msg@;
                        b.supply_failed(DocError::Io(msg));
                        proof {
                            assert(outcome_state(orig.entries@, b.nodes@[cur]));
                        }
                        proof {
                            assert forall|y: int|
                                0 <= y < b_mid.nodes@.len() implies (#[trigger] b.nodes@[y]).specifier@
                                == b_mid.nodes@[y].specifier@ by {}
                            assert forall|y: int|
                                0 <= y < cur implies (#[trigger] b.nodes@[y]).outgoing@
                                == b_mid.nodes@[y].outgoing@ by {}
                            lemma_notices_match_stable(b_mid.nodes@, b.nodes@, cur, b.cycle_notices@);
                            assert(b.nodes@[cur].outgoing@.len() == 0);
                            lemma_notices_match_skip(b.nodes@, cur, cur + 1, b.cycle_notices@);
                        }
                    },
                    TableOutcome::ParseFailure(src, raws) => {
                        let ghost raws_v = raws@;
                        let ghost src_v = src@;
                        let mut collector = DiagnosticCollector::new(spec.clone());
                        let mut x: usize = 0;
                        let nr = raws.len();
                        while x < nr
                            invariant
                                x <= nr == raws_v.len(),
                                raws@ == raws_v,
                                src@.len() < usize::MAX,
                                collector.spec_specifier() == spec@,
                                collector.spec_raw().len() == x,
                                forall|y: int|
                                    0 <= y < x ==> (#[trigger] collector.spec_raw()[y]).message@
                                        == raws_v[y].message@ && collector.spec_raw()[y].lo
                                        == raws_v[y].lo,
                            decreases nr - x,
                        {
                            collector.record(
                                RawDiagnostic { message: raws[x].message.clone(), lo: raws[x].lo },
                            );
                            x = x + 1;
                        }
                        let records = collector.drain(src.as_slice());
                        let buffer = SWCDiagnosticBuffer::from_records(&records);
                        proof {
                            assert forall|y: int| 0 <= y < raws_v.len() implies (
                            #[trigger] buffer.diagnostics@[y])@ == expected_diag_line(
                                spec@,
                                src_v,
                                raws_v[y],
                            ) by {
                                assert(resolves_to(spec@, src_v, collector.spec_raw()[y], records@[y]));
                                assert(located_line(records@[y]) == expected_diag_line(
                                    spec@,
                                    src_v,
                                    raws_v[y],
                                ));
                            }
                            assert(parse_buffer_matches(spec@, src_v, raws_v, buffer));
                        }
                        b.supply_failed(DocError::Parse(buffer));
                        proof {
                            assert(outcome_state(orig.entries@, b.nodes@[cur]));
                        }
                        proof {
                            assert forall|y: int|
                                0 <= y < b_mid.nodes@.len() implies (#[trigger] b.nodes@[y]).specifier@
                                == b_mid.nodes@[y].specifier@ by {}
                            assert forall|y: int|
                                0 <= y < cur implies (#[trigger] b.nodes@[y]).outgoing@
                                == b_mid.nodes@[y].outgoing@ by {}
                            lemma_notices_match_stable(b_mid.nodes@, b.nodes@, cur, b.cycle_notices@);
                            assert(b.nodes@[cur].outgoing@.len() == 0);
                            lemma_notices_match_skip(b.nodes@, cur, cur + 1, b.cycle_notices@);
                        }
                    },
                }
                proof {
                    // lookups for specifiers not yet consumed are unchanged
                    // by removing the consumed entry
                    assert forall|s2: Seq<char>|
                        !consumed_spec(b.nodes@, b.processed as int, s2) implies #[trigger] lookup_spec(
                        tbl.entries@,
                        s2,
                    ) == lookup_spec(orig.entries@, s2) by {
                        if s2 != spec@ {
                            if consumed_spec(b_head.nodes@, b_head.processed as int, s2) {
                                let k = choose|k: int|
                                    0 <= k < b_head.processed && (#[trigger] b_head.nodes@[
                                        k
                                    ]).specifier@ == s2 && was_loaded(b_head.nodes@[k]);
                                assert(b.nodes@[k].specifier@ == s2);
                                assert(was_loaded(b.nodes@[k]));
                                assert(consumed_spec(b.nodes@, b.processed as int, s2));
                            }
                            assert(lookup_spec(pre_entries, s2) == lookup_spec(
                                orig.entries@,
                                s2,
                            ));
                            lemma_lookup_after_remove(pre_entries, idx as int, s2);
                        } else {
                            assert(b.nodes@[cur].specifier@ == s2);
                            assert(was_loaded(b.nodes@[cur]));
                            assert(consumed_spec(b.nodes@, b.processed as int, s2));
                        }
                    }
                }
            },
        }
        proof {
            // every non-entry node, old or new, is still some edge's target
            assert forall|k: int| 1 <= k < b.nodes@.len() implies node_referenced(
                b.nodes@,
                k,
            ) by {
                if k < b_head.nodes@.len() {
                    assert(node_referenced(b_head.nodes@, k));
                    let i = choose|i: int| 0 <= i < k && is_edge(b_head.nodes@, i, k);
                    if i == cur {
                        // the visited node had no edges before this round
                        assert(crate::graph::node_edges_wf(b_head.nodes@, i));
                        assert(b_head.nodes@[i].outgoing@.len() == 0);
                        assert(false);
                    } else {
                        let e = choose|e: int|
                            0 <= e < b_head.nodes@[i].outgoing@.len() && (
                            #[trigger] b_head.nodes@[i].outgoing@[e]).to@
                                == b_head.nodes@[k].specifier@;
                        assert(b.nodes@[i] == b_head.nodes@[i]);
                        assert(b.nodes@[k].specifier@ == b_head.nodes@[k].specifier@);
                        assert(b.nodes@[i].outgoing@[e].to@ == b.nodes@[k].specifier@);
                        assert(is_edge(b.nodes@, i, k));
                    }
                } else {
                    assert(crate::graph::some_edge_targets(
                        b.nodes@[cur].outgoing@,
                        refs_of(b.nodes@[cur].state->Resolved_0.module.stmts@).len() as int,
                        b.nodes@[k].specifier@,
                    ));
                    let j = choose|j: int|
                        0 <= j < b.nodes@[cur].outgoing@.len() && (#[trigger] b.nodes@[
                            cur
                        ].outgoing@[j]).to@ == b.nodes@[k].specifier@;
                    assert(is_edge(b.nodes@, cur, k));
                }
            }
            // settled nodes of earlier rounds are untouched
            assert forall|k: int|
                0 <= k < b.processed && !pre_failed(#[trigger] b.nodes@[k]) implies outcome_state(
                orig.entries@,
                b.nodes@[k],
            ) by {
                if k < b_head.processed {
                    assert(b.nodes@[k] == b_head.nodes@[k]);
                }
            }
        }
    }
    proof {
        lemma_loaded_specs_distinct(b.nodes@, b.nodes@.len() as int);
    }
    let entry_error = match &b.nodes[0].state {
        NodeState::Failed(e) => Option::Some(e.message()),
        _ => Option::None,
    };
    GraphResult {
        nodes: b.nodes,
        entry_error,
        load_log: b.load_log,
        cycle_notices: b.cycle_notices,
    }
}

} // verus!
