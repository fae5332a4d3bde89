//! Stratification: the strongly connected components of the dependency
//! graph, dependencies first, with recursion through negation or aggregation
//! refused.

use vstd::prelude::*;
use crate::error::{Error, ErrorView};
use crate::id::RelationId;
use crate::logic::ast::{
    clause_body, clause_head, BodyTermView, Clause, ClauseView, Program, Stratum, StratumView,
};
use crate::logic::graph::{
    at, component_views, covered, dependency_graph, edges_in_range, has_edge, is_scc_order,
    is_walk, kosaraju_components, leaves, leaving, reaches, with_body, with_node,
    DependencyGraph, EdgeView, GraphView,
};
use crate::value::views;

verus! {

/// Where the body up to one term does not fit the graph, the whole body does
/// not.
proof fn lemma_with_body_fail(graph: GraphView, head: Seq<char>, body: Seq<BodyTermView>, upto: int)
    requires
        0 <= upto <= body.len(),
        with_body(graph, head, body.take(upto)).is_none(),
    ensures
        with_body(graph, head, body).is_none(),
    decreases body.len(),
{
    if upto < body.len() {
        assert(body.drop_last().take(upto) =~= body.take(upto));
        lemma_with_body_fail(graph, head, body.drop_last(), upto);
    } else {
        assert(body.take(upto) =~= body);
    }
}

/// Where the clauses up to one do not fit the graph, all of them do not.
proof fn lemma_graph_fail(clauses: Seq<ClauseView>, upto: int)
    requires
        0 <= upto <= clauses.len(),
        dependency_graph(clauses.take(upto)).is_none(),
    ensures
        dependency_graph(clauses).is_none(),
    decreases clauses.len(),
{
    if upto < clauses.len() {
        assert(clauses.drop_last().take(upto) =~= clauses.take(upto));
        lemma_graph_fail(clauses.drop_last(), upto);
    } else {
        assert(clauses.take(upto) =~= clauses);
    }
}

/// Builds the dependency graph of the clauses. `None` where it would have
/// more nodes or edges than a graph can hold.
pub fn build_graph(clauses: &Vec<Clause>) -> (r: Option<DependencyGraph>)
    ensures
        r.is_some() == dependency_graph(views(clauses@)).is_some(),
        r matches Some(g) ==> g.wf() && dependency_graph(views(clauses@)) == Some(g@),
{
    let mut graph = DependencyGraph::new();
    let ghost all = views(clauses@);
    let mut i: usize = 0;
    assert(all.take(0) =~= seq![]);
    while i < clauses.len()
        invariant
            i <= clauses.len(),
            all == views(clauses@),
            graph.wf(),
            dependency_graph(all.take(i as int)) == Some(graph@),
        decreases clauses.len() - i,
    {
        let clause = &clauses[i];
        proof {
            assert(all.take(i + 1).drop_last() =~= all.take(i as int));
            assert(all.take(i + 1).last() == clause@);
        }
        let ghost g0 = graph@;
        if graph.node(clause.head()).is_none() {
            proof {
                lemma_graph_fail(all, i + 1);
            }
            return None;
        }
        let ghost start = graph@;
        let ghost head = clause_head(clause@);
        let ghost body = clause_body(clause@);
        let dependencies = clause.depends_on();
        let mut j: usize = 0;
        assert(body.take(0) =~= seq![]);
        assert(views(dependencies@).len() == dependencies.len());
        while j < dependencies.len()
            invariant
                j <= dependencies.len(),
                i < clauses.len(),
                all == views(clauses@),
                all.take(i + 1).drop_last() == all.take(i as int),
                all.take(i + 1).last() == clause@,
                dependency_graph(all.take(i as int)) == Some(g0),
                with_node(g0, head) == Some(start),
                dependencies.len() == body.len(),
                head == clause_head(clause@),
                body == clause_body(clause@),
                views(dependencies@) == crate::logic::ast::clause_dependencies(clause@),
                graph.wf(),
                with_body(start, head, body.take(j as int)) == Some(graph@),
            decreases dependencies.len() - j,
        {
            let dependency = &dependencies[j];
            proof {
                assert(body.take(j + 1).drop_last() =~= body.take(j as int));
                assert(body.take(j + 1).last() == body[j as int]);
                assert(views(dependencies@)[j as int] == dependency@);
            }
            if !graph.depend(&dependency.from, &dependency.to, dependency.polarity) {
                proof {
                    lemma_with_body_fail(start, head, body, j + 1);
                    assert(dependency_graph(all.take(i + 1)).is_none());
                    lemma_graph_fail(all, i + 1);
                }
                return None;
            }
            j += 1;
        }
        assert(body.take(j as int) =~= body);
        i += 1;
    }
    assert(all.take(i as int) =~= all);
    Some(graph)
}

/// Whether every entry of every component is a node, and no component is
/// empty.
pub open spec fn components_valid(nodes: nat, components: Seq<Seq<int>>) -> bool {
    &&& forall|c: int, k: int|
        0 <= c < components.len() && 0 <= k < components[c].len() ==> 0 <= (
        #[trigger] components[c][k]) < nodes
    &&& forall|c: int| 0 <= c < components.len() ==> (#[trigger] components[c]).len() > 0
}

/// Whether the edge `k` is negative and has both its ends in the component
/// `c`.
pub open spec fn edge_inside(edges: Seq<EdgeView>, components: Seq<Seq<int>>, k: int, c: int) -> bool {
    &&& 0 <= k < edges.len()
    &&& 0 <= c < components.len()
    &&& edges[k].negative
    &&& components[c].contains(edges[k].from)
    &&& components[c].contains(edges[k].to)
}

/// Whether some negative edge has both its ends in one component.
pub open spec fn negative_inside(edges: Seq<EdgeView>, components: Seq<Seq<int>>) -> bool {
    exists|k: int, c: int| #[trigger] edge_inside(edges, components, k, c)
}

/// The clauses among `clauses` whose head is `relation`, in order.
pub open spec fn clauses_of(clauses: Seq<ClauseView>, relation: Seq<char>) -> Seq<ClauseView>
    decreases clauses.len(),
{
    if clauses.len() == 0 {
        seq![]
    } else {
        let rest = clauses_of(clauses.drop_last(), relation);
        if clause_head(clauses.last()) == relation {
            rest.push(clauses.last())
        } else {
            rest
        }
    }
}

/// The clauses of the relations of a component: those of its first node,
/// then those of its second, and so on.
pub open spec fn component_clauses(
    clauses: Seq<ClauseView>,
    nodes: Seq<Seq<char>>,
    component: Seq<int>,
) -> Seq<ClauseView>
    decreases component.len(),
{
    if component.len() == 0 {
        seq![]
    } else {
        component_clauses(clauses, nodes, component.drop_last()) + clauses_of(
            clauses,
            nodes[component.last()],
        )
    }
}

/// The stratum of a component: its relations in the component's order, their
/// clauses, and whether it is recursive: whether it has more than one
/// relation, or its one relation depends on itself.
pub open spec fn stratum_of(clauses: Seq<ClauseView>, graph: GraphView, component: Seq<int>) -> StratumView {
    StratumView {
        relations: component.map_values(|n: int| graph.nodes[n]),
        clauses: component_clauses(clauses, graph.nodes, component),
        is_recursive: component.len() > 1 || has_edge(graph.edges, component[0], component[0]),
    }
}

/// The strata of the components, the last component first.
pub open spec fn strata_of(clauses: Seq<ClauseView>, graph: GraphView, components: Seq<Seq<int>>) -> Seq<
    StratumView,
> {
    Seq::new(
        components.len(),
        |i: int| stratum_of(clauses, graph, components[components.len() - 1 - i]),
    )
}

/// The stratification that the components give: none where a negative edge
/// lies inside a component.
pub open spec fn stratification(
    clauses: Seq<ClauseView>,
    graph: GraphView,
    components: Seq<Seq<int>>,
) -> Result<Seq<StratumView>, ErrorView> {
    if !components_valid(graph.nodes.len(), components) {
        Err(ErrorView::InternalError)
    } else if negative_inside(graph.edges, components) {
        Err(ErrorView::ProgramUnstratifiable)
    } else {
        Ok(strata_of(clauses, graph, components))
    }
}

/// Whether a negative edge lies on a cycle: whether its target reaches its
/// source.
pub open spec fn on_negative_cycle(edges: Seq<EdgeView>, k: int) -> bool {
    0 <= k < edges.len() && edges[k].negative && reaches(edges, edges[k].to, edges[k].from)
}

/// Whether the graph recurses through a negative edge.
pub open spec fn has_negative_cycle(edges: Seq<EdgeView>) -> bool {
    exists|k: int| #[trigger] on_negative_cycle(edges, k)
}

/// The integers that a component holds.
pub open spec fn indices(component: Vec<usize>) -> Seq<int> {
    component@.map_values(|n: usize| n as int)
}

/// Whether `node` is in the component.
fn component_contains(component: &Vec<usize>, node: usize) -> (b: bool)
    ensures
        b == indices(*component).contains(node as int),
{
    let mut i: usize = 0;
    while i < component.len()
        invariant
            i <= component.len(),
            forall|j: int| 0 <= j < i ==> indices(*component)[j] != node as int,
        decreases component.len() - i,
    {
        if component[i] == node {
            assert(indices(*component)[i as int] == node as int);
            return true;
        }
        i += 1;
    }
    false
}

/// Whether the components are valid for a graph of `nodes` nodes.
fn check_components(nodes: usize, components: &Vec<Vec<usize>>) -> (b: bool)
    ensures
        b == components_valid(nodes as nat, component_views(components@)),
{
    let ghost all = component_views(components@);
    let mut c: usize = 0;
    while c < components.len()
        invariant
            c <= components.len(),
            all == component_views(components@),
            forall|c1: int, k: int|
                0 <= c1 < c && 0 <= k < all[c1].len() ==> 0 <= (#[trigger] all[c1][k]) < nodes,
            forall|c1: int| 0 <= c1 < c ==> (#[trigger] all[c1]).len() > 0,
        decreases components.len() - c,
    {
        let component = &components[c];
        assert(all[c as int] == indices(*component));
        if component.len() == 0 {
            return false;
        }
        let mut k: usize = 0;
        while k < component.len()
            invariant
                k <= component.len(),
                c < components.len(),
                all == component_views(components@),
                all[c as int] == indices(*component),
                forall|j: int| 0 <= j < k ==> 0 <= (#[trigger] all[c as int][j]) < nodes,
            decreases component.len() - k,
        {
            if component[k] >= nodes {
                assert(all[c as int][k as int] == component[k as int]);
                return false;
            }
            assert(all[c as int][k as int] == component[k as int]);
            k += 1;
        }
        c += 1;
    }
    true
}

/// Whether some negative edge of the graph has both its ends in one
/// component: whether, from a node of a component, a negative edge leaves
/// for a node of the same component.
fn find_negative_inside(graph: &DependencyGraph, components: &Vec<Vec<usize>>) -> (b: bool)
    requires
        graph.wf(),
        components_valid(graph@.nodes.len(), component_views(components@)),
    ensures
        b == negative_inside(graph@.edges, component_views(components@)),
{
    let ghost all = component_views(components@);
    let ghost edges = graph@.edges;
    let mut c: usize = 0;
    while c < components.len()
        invariant
            c <= components.len(),
            graph.wf(),
            all == component_views(components@),
            edges == graph@.edges,
            components_valid(graph@.nodes.len(), all),
            forall|k: int, c1: int| 0 <= c1 < c ==> !#[trigger] edge_inside(edges, all, k, c1),
        decreases components.len() - c,
    {
        let component = &components[c];
        let ghost members = indices(*component);
        assert(all[c as int] == members);
        let mut j: usize = 0;
        while j < component.len()
            invariant
                j <= component.len(),
                c < components.len(),
                graph.wf(),
                all == component_views(components@),
                edges == graph@.edges,
                components_valid(graph@.nodes.len(), all),
                members == indices(*component),
                all[c as int] == members,
                forall|k: int, j1: int|
                    0 <= k < edges.len() && 0 <= j1 < j && (#[trigger] edges[k]).from
                        == #[trigger] members[j1] && edges[k].negative ==> !members.contains(
                        edges[k].to,
                    ),
            decreases component.len() - j,
        {
            let node = component[j];
            assert(members[j as int] == node);
            assert(all[c as int][j as int] == node);
            let out = graph.outgoing(node);
            let mut i: usize = 0;
            while i < out.len()
                invariant
                    i <= out.len(),
                    c < components.len(),
                    j < component.len(),
                    all == component_views(components@),
                    edges == graph@.edges,
                    members == indices(*component),
                    all[c as int] == members,
                    members[j as int] == node,
                    leaves(edges, node as int, out@),
                    forall|i1: int|
                        0 <= i1 < i ==> !((#[trigger] out@[i1]).1 && members.contains(
                            out@[i1].0 as int,
                        )),
                decreases out.len() - i,
            {
                let end = out[i];
                if end.1 && component_contains(component, end.0) {
                    proof {
                        assert(leaving(edges, node as int, out@[i as int]));
                        let k = choose|k: int|
                            0 <= k < edges.len() && (#[trigger] edges[k]) == (EdgeView {
                                from: node as int,
                                to: end.0 as int,
                                negative: end.1,
                            });
                        assert(members.contains(edges[k].from));
                        assert(edge_inside(edges, all, k, c as int));
                    }
                    return true;
                }
                i += 1;
            }
            proof {
                assert forall|k: int, j1: int|
                    0 <= k < edges.len() && 0 <= j1 < j + 1 && (#[trigger] edges[k]).from
                        == #[trigger] members[j1] && edges[k].negative implies !members.contains(
                    edges[k].to,
                ) by {
                    if j1 == j {
                        let end = (edges[k].to as usize, edges[k].negative);
                        assert(out@.contains(end));
                        let i1 = out@.index_of(end);
                        assert(out@[i1] == end);
                    }
                }
            }
            j += 1;
        }
        proof {
            assert forall|k: int| !#[trigger] edge_inside(edges, all, k, c as int) by {
                if edge_inside(edges, all, k, c as int) {
                    let j1 = members.index_of(edges[k].from);
                    assert(members[j1] == edges[k].from);
                }
            }
        }
        c += 1;
    }
    false
}

/// Adds the clauses among `clauses` whose head is `relation` to `into`.
fn collect_clauses(into: &mut Vec<Clause>, clauses: &Vec<Clause>, relation: &RelationId)
    ensures
        views(final(into)@) == views(old(into)@) + clauses_of(views(clauses@), relation@),
{
    let ghost all = views(clauses@);
    let ghost start = views(into@);
    let mut i: usize = 0;
    assert(all.take(0) =~= seq![]);
    while i < clauses.len()
        invariant
            i <= clauses.len(),
            all == views(clauses@),
            views(into@) =~= start + clauses_of(all.take(i as int), relation@),
        decreases clauses.len() - i,
    {
        proof {
            assert(all.take(i + 1).drop_last() =~= all.take(i as int));
            assert(all.take(i + 1).last() == clauses@[i as int]@);
        }
        if clauses[i].head().same(relation) {
            let ghost before = views(into@);
            into.push(clauses[i].clone());
            assert(views(into@) =~= before.push(clauses@[i as int]@));
        }
        i += 1;
    }
    assert(all.take(i as int) =~= all);
}

/// Whether the node has an edge to itself.
fn has_self_edge(graph: &DependencyGraph, node: usize) -> (b: bool)
    requires
        graph.wf(),
        node < graph@.nodes.len(),
    ensures
        b == has_edge(graph@.edges, node as int, node as int),
{
    graph.contains_edge(node, node)
}

/// Builds the stratum of one component.
fn build_stratum(clauses: &Vec<Clause>, graph: &DependencyGraph, component: &Vec<usize>) -> (s:
    Stratum)
    requires
        graph.wf(),
        component.len() > 0,
        forall|k: int| 0 <= k < component.len() ==> component[k] < graph@.nodes.len(),
    ensures
        s@ == stratum_of(views(clauses@), graph@, indices(*component)),
{
    let ghost comp = indices(*component);
    let ghost want = stratum_of(views(clauses@), graph@, comp);
    let mut relations: Vec<RelationId> = Vec::new();
    let mut members: Vec<Clause> = Vec::new();
    let mut k: usize = 0;
    assert(comp.take(0) =~= seq![]);
    assert(views(members@) =~= seq![]);
    while k < component.len()
        invariant
            k <= component.len(),
            graph.wf(),
            comp == indices(*component),
            want == stratum_of(views(clauses@), graph@, comp),
            forall|j: int| 0 <= j < component.len() ==> component[j] < graph@.nodes.len(),
            views(relations@) =~= want.relations.take(k as int),
            views(members@) == component_clauses(views(clauses@), graph@.nodes, comp.take(k as int)),
        decreases component.len() - k,
    {
        proof {
            assert(comp.take(k + 1).drop_last() =~= comp.take(k as int));
            assert(comp.take(k + 1).last() == component[k as int]);
            assert(want.relations.take(k + 1) =~= want.relations.take(k as int).push(
                want.relations[k as int],
            ));
        }
        let id = graph.relation(component[k]);
        relations.push(id.clone());
        collect_clauses(&mut members, clauses, id);
        k += 1;
    }
    assert(comp.take(k as int) =~= comp);
    assert(want.relations.take(k as int) =~= want.relations);
    let is_recursive = component.len() > 1 || has_self_edge(graph, component[0]);
    assert(comp[0] == component[0]);
    Stratum::new(relations, members, is_recursive)
}

/// The strata that the components of a dependency graph give, the last
/// component first. Fails with `ProgramUnstratifiable` where a negative edge
/// has both its ends in one component, and with `InternalError` where the
/// components do not fit the graph.
pub fn strata_from_components(
    clauses: &Vec<Clause>,
    graph: &DependencyGraph,
    components: &Vec<Vec<usize>>,
) -> (r: Result<Vec<Stratum>, Error>)
    requires
        graph.wf(),
    ensures
        r matches Ok(strata) ==> stratification(
            views(clauses@),
            graph@,
            component_views(components@),
        ) == Ok::<Seq<StratumView>, ErrorView>(views(strata@)),
        r matches Err(e) ==> stratification(views(clauses@), graph@, component_views(components@))
            == Err::<Seq<StratumView>, ErrorView>(e@),
{
    let ghost all = component_views(components@);
    if !check_components(graph.node_count(), components) {
        return Err(Error::internal("components do not fit the graph"));
    }
    if find_negative_inside(graph, components) {
        return Err(Error::ProgramUnstratifiable);
    }
    let ghost want = strata_of(views(clauses@), graph@, all);
    let mut strata: Vec<Stratum> = Vec::new();
    let mut c: usize = components.len();
    while c > 0
        invariant
            c <= components.len(),
            graph.wf(),
            all == component_views(components@),
            components_valid(graph@.nodes.len(), all),
            want == strata_of(views(clauses@), graph@, all),
            views(strata@) =~= want.take(components.len() - c),
        decreases c,
    {
        let component = &components[c - 1];
        proof {
            assert(all[c - 1] == indices(*component));
            assert forall|k: int| 0 <= k < component.len() implies component[k]
                < graph@.nodes.len() by {
                assert(all[c - 1][k] == component[k]);
            }
            let done = components.len() - c;
            assert(want.take(done + 1) =~= want.take(done).push(want[done]));
        }
        let stratum = build_stratum(clauses, graph, component);
        strata.push(stratum);
        c -= 1;
    }
    assert(want.take(components.len() as int) =~= want);
    Ok(strata)
}

/// A negative edge has both its ends in one strongly connected component
/// exactly when it lies on a cycle.
pub proof fn negative_inside_iff_cycle(nodes: nat, edges: Seq<EdgeView>, components: Seq<Seq<int>>)
    requires
        edges_in_range(nodes, edges),
        is_scc_order(nodes, edges, components),
    ensures
        negative_inside(edges, components) <==> has_negative_cycle(edges),
{
    if negative_inside(edges, components) {
        let (k, c) = choose|k: int, c: int| #[trigger] edge_inside(edges, components, k, c);
        let a = edges[k].from;
        let b = edges[k].to;
        let ka = components[c].index_of(a);
        let kb = components[c].index_of(b);
        assert(at(components, c, ka, a));
        assert(at(components, c, kb, b));
        assert(reaches(edges, b, a));
        assert(on_negative_cycle(edges, k));
    }
    if has_negative_cycle(edges) {
        let k = choose|k: int| #[trigger] on_negative_cycle(edges, k);
        let a = edges[k].from;
        let b = edges[k].to;
        assert(covered(components, a));
        assert(covered(components, b));
        let (c1, k1) = choose|c: int, i: int| #[trigger] at(components, c, i, a);
        let (c2, k2) = choose|c: int, i: int| #[trigger] at(components, c, i, b);
        let path = seq![a, b];
        assert(has_edge(edges, a, b));
        assert(is_walk(edges, path)) by {
            assert forall|i: int| 0 <= i < path.len() - 1 implies has_edge(
                edges,
                #[trigger] path[i],
                path[i + 1],
            ) by {
                assert(i == 0);
            }
        }
        assert(path[0] == a && path.last() == b);
        assert(reaches(edges, a, b));
        assert(c1 == c2);
        assert(components[c1].contains(a));
        assert(components[c1].contains(b));
        assert(edge_inside(edges, components, k, c1));
    }
}

/// Whether the stratum `s` holds the relation of the node `node`.
pub open spec fn in_stratum(strata: Seq<StratumView>, s: int, graph: GraphView, node: int) -> bool {
    0 <= s < strata.len() && 0 <= node < graph.nodes.len() && strata[s].relations.contains(
        graph.nodes[node],
    )
}

/// The strata come dependencies first: where a relation depends on another,
/// the stratum of the other is not after its own. So when a stratum is
/// evaluated, every relation that its clauses read is of the stratum itself
/// or of one that was evaluated before.
pub proof fn strata_come_dependencies_first(
    clauses: Seq<ClauseView>,
    graph: GraphView,
    components: Seq<Seq<int>>,
    k: int,
    s_from: int,
    s_to: int,
)
    requires
        graph.nodes.no_duplicates(),
        edges_in_range(graph.nodes.len(), graph.edges),
        is_scc_order(graph.nodes.len(), graph.edges, components),
        0 <= k < graph.edges.len(),
        in_stratum(strata_of(clauses, graph, components), s_from, graph, graph.edges[k].from),
        in_stratum(strata_of(clauses, graph, components), s_to, graph, graph.edges[k].to),
    ensures
        s_from <= s_to,
{
    let strata = strata_of(clauses, graph, components);
    let a = graph.edges[k].from;
    let b = graph.edges[k].to;
    let c1 = components.len() - 1 - s_from;
    let c2 = components.len() - 1 - s_to;
    let names1 = components[c1].map_values(|n: int| graph.nodes[n]);
    let names2 = components[c2].map_values(|n: int| graph.nodes[n]);
    assert(strata[s_from].relations == names1);
    assert(strata[s_to].relations == names2);
    let k1 = names1.index_of(graph.nodes[a]);
    let k2 = names2.index_of(graph.nodes[b]);
    assert(names1[k1] == graph.nodes[components[c1][k1]]);
    assert(names2[k2] == graph.nodes[components[c2][k2]]);
    assert(0 <= components[c1][k1] < graph.nodes.len());
    assert(0 <= components[c2][k2] < graph.nodes.len());
    assert(components[c1][k1] == a);
    assert(components[c2][k2] == b);
    assert(at(components, c1, k1, a));
    assert(at(components, c2, k2, b));
    assert(has_edge(graph.edges, a, b));
}

/// The clauses of a relation are clauses of the program, with that head.
pub proof fn lemma_clauses_of(clauses: Seq<ClauseView>, relation: Seq<char>, clause: ClauseView)
    requires
        clauses_of(clauses, relation).contains(clause),
    ensures
        clauses.contains(clause),
        clause_head(clause) == relation,
    decreases clauses.len(),
{
    if clauses.len() > 0 {
        let prev = clauses_of(clauses.drop_last(), relation);
        let now = clauses_of(clauses, relation);
        let k = now.index_of(clause);
        if k < prev.len() {
            assert(prev[k] == clause);
            lemma_clauses_of(clauses.drop_last(), relation, clause);
            let at = clauses.drop_last().index_of(clause);
            assert(clauses[at] == clause);
        } else {
            assert(clauses[clauses.len() - 1] == clause);
        }
    }
}

/// The clauses of a component are clauses of the program whose heads are
/// relations of the component.
pub proof fn lemma_component_clauses(
    clauses: Seq<ClauseView>,
    nodes: Seq<Seq<char>>,
    component: Seq<int>,
    clause: ClauseView,
)
    requires
        component_clauses(clauses, nodes, component).contains(clause),
    ensures
        clauses.contains(clause),
        exists|k: int| 0 <= k < component.len() && nodes[#[trigger] component[k]] == clause_head(clause),
    decreases component.len(),
{
    if component.len() > 0 {
        let prev = component_clauses(clauses, nodes, component.drop_last());
        let more = clauses_of(clauses, nodes[component.last()]);
        let now = component_clauses(clauses, nodes, component);
        let at = now.index_of(clause);
        if at < prev.len() {
            assert(prev[at] == clause);
            lemma_component_clauses(clauses, nodes, component.drop_last(), clause);
            let k = choose|k: int|
                0 <= k < component.drop_last().len() && nodes[#[trigger] component.drop_last()[k]]
                    == clause_head(clause);
            assert(component[k] == component.drop_last()[k]);
        } else {
            assert(more[at - prev.len()] == clause);
            lemma_clauses_of(clauses, nodes[component.last()], clause);
            assert(component[component.len() - 1] == component.last());
        }
    }
}

/// Every clause of a stratum is a clause of the program, and its head is a
/// relation of the stratum.
pub proof fn strata_hold_clauses_of_the_program(
    clauses: Seq<ClauseView>,
    graph: GraphView,
    components: Seq<Seq<int>>,
    s: int,
    clause: ClauseView,
)
    requires
        0 <= s < strata_of(clauses, graph, components).len(),
        strata_of(clauses, graph, components)[s].clauses.contains(clause),
    ensures
        clauses.contains(clause),
        strata_of(clauses, graph, components)[s].relations.contains(clause_head(clause)),
{
    let component = components[components.len() - 1 - s];
    lemma_component_clauses(clauses, graph.nodes, component, clause);
    let k = choose|k: int|
        0 <= k < component.len() && graph.nodes[#[trigger] component[k]] == clause_head(clause);
    let names = component.map_values(|n: int| graph.nodes[n]);
    assert(names[k] == clause_head(clause));
}

/// Stratifies a program: the strongly connected components of its
/// dependency graph as strata, dependencies first.
///
/// Fails with `ProgramUnstratifiable` exactly when the program recurses
/// through negation or aggregation: when a negative edge of its dependency
/// graph lies on a cycle. Fails with `InternalError` where the graph would
/// have more nodes or edges than it can hold.
pub fn stratify(program: &Program) -> (r: Result<Vec<Stratum>, Error>)
    ensures
        dependency_graph(program@.clauses).is_none() ==> (r matches Err(e) && e@
            == ErrorView::InternalError),
        dependency_graph(program@.clauses) matches Some(graph) ==> {
            let components = kosaraju_components(graph.nodes.len(), graph.edges);
            &&& is_scc_order(graph.nodes.len(), graph.edges, components)
            &&& has_negative_cycle(graph.edges) ==> (r matches Err(e) && e@
                == ErrorView::ProgramUnstratifiable)
            &&& !has_negative_cycle(graph.edges) ==> (r matches Ok(strata) && views(strata@)
                == strata_of(program@.clauses, graph, components))
        },
{
    let graph = match build_graph(&program.clauses) {
        Some(graph) => graph,
        None => {
            return Err(Error::internal("the dependency graph is too large"));
        },
    };
    let components = graph.components();
    proof {
        graph.lemma_edges_in_range();
        negative_inside_iff_cycle(graph@.nodes.len(), graph@.edges, component_views(components@));
    }
    strata_from_components(&program.clauses, &graph, &components)
}

} // verus!
