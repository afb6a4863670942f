//! The sparse-adjacency document: an ordered node-name list, a flat
//! neighbor-handle list (`indices`), and per-node offset boundaries
//! (`indptr`, one entry per node plus a trailing total), with fixed
//! descriptive metadata carried verbatim. Export and import are designed
//! together, so that a round trip preserves the node-name set and the
//! edge connectivity.

use vstd::prelude::*;

use crate::codec::{sif_edges, sif_names, sif_text_of, sif_to_graph, graph_to_sif};
use crate::graph::{
    has_pair, intern_all, interned, joins, m_edge_joins_names, m_has_edge_named, m_label_named,
    updated_edges, EdgeModel, MappedGraph, Node, lemma_intern_all_distinct,
    lemma_named_vs_handles, lemma_updated_edges_named,
};
use crate::text::lines_of;

verus! {

/// The adjacency part of the sparse document.
pub struct JSONGraph {
    pub nodes: Vec<String>,
    pub data: Vec<String>,
    pub indices: Vec<usize>,
    pub indptr: Vec<usize>,
}

/// The sparse-adjacency document. The damping-factor field and the empty
/// auxiliary map ride along only in serialized form, outside this core.
pub struct SerialJSON {
    pub model: String,
    pub source_nodes: Vec<String>,
    pub sink_nodes: Vec<String>,
    pub graph: JSONGraph,
}

/// The fixed model tag the export writes.
pub open spec fn model_tag() -> Seq<char> {
    "normalized-channel"@
}

/// The fixed placeholder entry of the source- and sink-node lists.
pub open spec fn placeholder_name() -> Seq<char> {
    "Test"@
}

/// The fixed per-node entry of the data list.
pub open spec fn data_entry() -> Seq<char> {
    "1.0"@
}

/// The fixed label every imported edge carries.
pub open spec fn json_label() -> Seq<char> {
    "json"@
}

/// The neighbor handles of node `i`, scanning the edges in storage order:
/// each incident edge contributes its other endpoint (a self-loop
/// contributes `i` itself, once).
pub open spec fn neighbors_of(es: Seq<EdgeModel>, i: int) -> Seq<int>
    decreases es.len(),
{
    if es.len() == 0 {
        Seq::empty()
    } else {
        let prev = neighbors_of(es.drop_last(), i);
        let e = es.last();
        if e.a == i {
            prev.push(e.b)
        } else if e.b == i {
            prev.push(e.a)
        } else {
            prev
        }
    }
}

/// Node `i`'s neighbor slice of the flat index list, as integers.
pub open spec fn neighbor_slice(gr: JSONGraph, i: int) -> Seq<int> {
    gr.indices@.subrange(gr.indptr@[i] as int, gr.indptr@[i + 1] as int).map_values(
        |v: usize| v as int,
    )
}

/// The document a graph with model `(ns, es)` exports to: node names in
/// handle order, `indptr[i]..indptr[i+1]` delimiting node `i`'s neighbor
/// slice of `indices`, one `"1.0"` data entry per node, and the fixed
/// metadata fields.
pub open spec fn export_rel(ns: Seq<Seq<char>>, es: Seq<EdgeModel>, doc: SerialJSON) -> bool {
    &&& doc.graph.nodes.deep_view() == ns
    &&& doc.graph.indptr@.len() == ns.len() + 1
    &&& doc.graph.indptr@[0] == 0
    &&& doc.graph.indptr@[ns.len() as int] == doc.graph.indices@.len()
    &&& forall|i: int|
        0 <= i < ns.len() ==> (#[trigger] doc.graph.indptr@[i]) <= doc.graph.indptr@[i + 1]
            <= doc.graph.indices@.len()
    &&& forall|i: int|
        0 <= i < ns.len() ==> #[trigger] neighbor_slice(doc.graph, i) == neighbors_of(es, i)
    &&& forall|k: int|
        0 <= k < doc.graph.indices@.len() ==> (#[trigger] doc.graph.indices@[k]) < ns.len()
    &&& doc.graph.data@.len() == ns.len()
    &&& forall|i: int| 0 <= i < ns.len() ==> (#[trigger] doc.graph.data@[i])@ == data_entry()
    &&& doc.model@ == model_tag()
    &&& doc.source_nodes.deep_view() == seq![placeholder_name()]
    &&& doc.sink_nodes.deep_view() == seq![placeholder_name()]
}

/// Export a graph as a sparse-adjacency document.
pub fn graph_to_json(g: &MappedGraph) -> (doc: SerialJSON)
    requires
        g.wf(),
    ensures
        export_rel(g.name_seq(), g.edge_model(), doc),
{
    let ghost ns = g.name_seq();
    let ghost es = g.edge_model();
    let mut nodes: Vec<String> = Vec::new();
    let mut data: Vec<String> = Vec::new();
    let mut indices: Vec<usize> = Vec::new();
    let mut indptr: Vec<usize> = Vec::new();
    indptr.push(0);
    let mut i: usize = 0;
    proof {
        assert(nodes.deep_view() =~= ns.take(0));
    }
    while i < g.nodes.len()
        invariant
            i <= g.nodes.len(),
            g.wf(),
            ns == g.name_seq(),
            es == g.edge_model(),
            nodes.deep_view() == ns.take(i as int),
            data@.len() == i,
            forall|j: int| 0 <= j < i ==> (#[trigger] data@[j])@ == data_entry(),
            indptr@.len() == i + 1,
            indptr@[0] == 0,
            indptr@[i as int] == indices@.len(),
            forall|j: int|
                0 <= j < i ==> (#[trigger] indptr@[j]) <= indptr@[j + 1] <= indices@.len(),
            forall|j: int|
                0 <= j < i ==> indices@.subrange(
                    (#[trigger] indptr@[j]) as int,
                    indptr@[j + 1] as int,
                ).map_values(|v: usize| v as int) == neighbors_of(es, j),
            forall|k: int| 0 <= k < indices@.len() ==> (#[trigger] indices@[k]) < ns.len(),
        decreases g.nodes.len() - i,
    {
        proof {
            assert(ns.take(i + 1 as int) =~= ns.take(i as int).push(ns[i as int]));
            assert(ns[i as int] == g.nodes@[i as int].name@);
        }
        nodes.push(g.nodes[i].name.clone());
        data.push(String::from_str("1.0"));
        proof {
            assert(nodes.deep_view() =~= ns.take(i + 1 as int));
        }
        let ghost ind0 = indices@;
        let mut k: usize = 0;
        proof {
            assert(es.take(0) =~= Seq::<EdgeModel>::empty());
            assert(indices@.subrange(ind0.len() as int, indices@.len() as int).map_values(
                |v: usize| v as int,
            ) =~= neighbors_of(es.take(0), i as int));
        }
        while k < g.edges.len()
            invariant
                k <= g.edges.len(),
                i < g.nodes.len(),
                g.wf(),
                ns == g.name_seq(),
                es == g.edge_model(),
                indices@.len() >= ind0.len(),
                indices@.take(ind0.len() as int) == ind0,
                indices@.subrange(ind0.len() as int, indices@.len() as int).map_values(
                    |v: usize| v as int,
                ) == neighbors_of(es.take(k as int), i as int),
                forall|k2: int| 0 <= k2 < indices@.len() ==> (#[trigger] indices@[k2]) < ns.len(),
            decreases g.edges.len() - k,
        {
            proof {
                assert(es[k as int] == EdgeModel {
                    a: g.edges@[k as int].a as int,
                    b: g.edges@[k as int].b as int,
                    label: g.edges@[k as int].label@,
                });
                assert(0 <= es[k as int].a < ns.len());
                assert(0 <= es[k as int].b < ns.len());
                assert(es.take(k + 1 as int).drop_last() =~= es.take(k as int));
                assert(es.take(k + 1 as int).last() == es[k as int]);
            }
            let ea = g.edges[k].a;
            let eb = g.edges[k].b;
            if ea == i {
                indices.push(eb);
            } else if eb == i {
                indices.push(ea);
            }
            proof {
                assert(indices@.take(ind0.len() as int) =~= ind0);
                assert(indices@.subrange(ind0.len() as int, indices@.len() as int).map_values(
                    |v: usize| v as int,
                ) =~= neighbors_of(es.take(k + 1 as int), i as int));
            }
            k = k + 1;
        }
        let ghost before_ptr = indptr@;
        indptr.push(indices.len());
        proof {
            assert(es.take(es.len() as int) =~= es);
            assert(indptr@[i + 1 as int] == indices@.len());
            assert forall|j: int| 0 <= j < i + 1 implies (#[trigger] indptr@[j]) <= indptr@[j + 1]
                <= indices@.len() by {
                if j < i {
                    assert(before_ptr[j] == indptr@[j]);
                    assert(before_ptr[j + 1] == indptr@[j + 1]);
                }
            }
            assert forall|j: int| 0 <= j < i + 1 implies indices@.subrange(
                (#[trigger] indptr@[j]) as int,
                indptr@[j + 1] as int,
            ).map_values(|v: usize| v as int) == neighbors_of(es, j) by {
                if j < i {
                    assert(indices@.subrange(indptr@[j] as int, indptr@[j + 1] as int)
                        =~= ind0.subrange(indptr@[j] as int, indptr@[j + 1] as int));
                    assert(ind0.subrange(before_ptr[j] as int, before_ptr[j + 1] as int).map_values(
                        |v: usize| v as int,
                    ) == neighbors_of(es, j));
                } else {
                    assert(indices@.subrange(indptr@[j] as int, indptr@[j + 1] as int)
                        =~= indices@.subrange(ind0.len() as int, indices@.len() as int));
                }
            }
        }
        i = i + 1;
    }
    proof {
        assert(ns.take(g.nodes@.len() as int) =~= ns);
    }
    let ghost gind = indices@;
    let ghost gptr = indptr@;
    let mut source_nodes: Vec<String> = Vec::new();
    source_nodes.push(String::from_str("Test"));
    let mut sink_nodes: Vec<String> = Vec::new();
    sink_nodes.push(String::from_str("Test"));
    let doc = SerialJSON {
        model: String::from_str("normalized-channel"),
        source_nodes,
        sink_nodes,
        graph: JSONGraph { nodes, data, indices, indptr },
    };
    proof {
        assert(doc.graph.indices@ == gind);
        assert(doc.graph.indptr@ == gptr);
        assert forall|i2: int| 0 <= i2 < ns.len() implies #[trigger] neighbor_slice(doc.graph, i2)
            == neighbors_of(es, i2) by {
            assert(gind.subrange(gptr[i2] as int, gptr[i2 + 1] as int).map_values(
                |v: usize| v as int,
            ) == neighbors_of(es, i2));
        }
        assert(doc.source_nodes.deep_view() =~= seq![placeholder_name()]);
        assert(doc.sink_nodes.deep_view() =~= seq![placeholder_name()]);
    }
    doc
}

/// Why a sparse document was rejected as malformed.
#[derive(Debug, PartialEq, Eq, Structural, Clone, Copy)]
pub enum SparseError {
    /// The pointer list does not hold one entry per node plus a trailing
    /// total, or does not start at zero.
    PointerShape,
    /// A pointer exceeds its successor, or the trailing total is not the
    /// length of the flat index list.
    PointerRange,
    /// An entry of the flat index list is no node position.
    IndexRange,
}

/// The pointer list has the right shape: one entry per node plus one, the
/// first entry zero.
pub open spec fn ptr_shape_ok(doc: SerialJSON) -> bool {
    &&& doc.graph.indptr@.len() == doc.graph.nodes@.len() + 1
    &&& doc.graph.indptr@[0] == 0
}

/// The pointers are nondecreasing and end at the flat list's length.
pub open spec fn ptr_range_ok(doc: SerialJSON) -> bool {
    &&& forall|i: int|
        0 <= i < doc.graph.nodes@.len() ==> (#[trigger] doc.graph.indptr@[i])
            <= doc.graph.indptr@[i + 1]
    &&& doc.graph.indptr@[doc.graph.nodes@.len() as int] == doc.graph.indices@.len()
}

/// Every flat-list entry names a node position.
pub open spec fn idx_ok(doc: SerialJSON) -> bool {
    forall|k: int|
        0 <= k < doc.graph.indices@.len() ==> (#[trigger] doc.graph.indices@[k])
            < doc.graph.nodes@.len()
}

/// A sparse document is well formed exactly when its pointers delimit
/// consistent slices of the flat index list and every index names a node.
pub open spec fn sparse_wf(doc: SerialJSON) -> bool {
    ptr_shape_ok(doc) && ptr_range_ok(doc) && idx_ok(doc)
}

/// Slot `k` lies in node `p`'s slice and joins the names at document
/// positions `p` and `indices[k]`, in either orientation.
pub open spec fn slot_pair(doc: SerialJSON, p: int, k: int, x: Seq<char>, y: Seq<char>) -> bool {
    let nodes = doc.graph.nodes.deep_view();
    let indices = doc.graph.indices@;
    let indptr = doc.graph.indptr@;
    &&& 0 <= p < nodes.len()
    &&& indptr[p] <= k < indptr[p + 1]
    &&& 0 <= k < indices.len()
    &&& indices[k] < nodes.len()
    &&& ((nodes[p] == x && nodes[indices[k] as int] == y) || (nodes[p] == y && nodes[indices[k] as int]
        == x))
}

/// The document joins the names `x` and `y`.
pub open spec fn doc_pair(doc: SerialJSON, x: Seq<char>, y: Seq<char>) -> bool {
    exists|p: int, k: int| #[trigger] slot_pair(doc, p, k, x, y)
}

/// What import reconstructs from a well-formed document: the node names
/// interned in document order, and an edge for every name pair some slot
/// joins, each labeled `"json"`.
pub open spec fn import_rel(doc: SerialJSON, g: MappedGraph) -> bool {
    &&& g.wf()
    &&& g.name_seq() == intern_all(Seq::empty(), doc.graph.nodes.deep_view())
    &&& forall|x: Seq<char>, y: Seq<char>| #[trigger] g.has_edge_named(x, y) <==> doc_pair(doc, x, y)
    &&& forall|x: Seq<char>, y: Seq<char>|
        g.has_edge_named(x, y) ==> #[trigger] g.label_named(x, y) == json_label()
}

/// Nondecreasing adjacent pointers are nondecreasing across any distance.
proof fn lemma_ptr_chain(doc: SerialJSON, i: int, j: int)
    requires
        sparse_wf(doc),
        0 <= i <= j <= doc.graph.nodes@.len(),
    ensures
        doc.graph.indptr@[i] <= doc.graph.indptr@[j],
    decreases j - i,
{
    if i < j {
        lemma_ptr_chain(doc, i + 1, j);
        assert(doc.graph.indptr@[i] <= doc.graph.indptr@[i + 1]);
    }
}

/// A slot already walked when the scan stands at node `p`, slot `k`.
spec fn slot_visited(p2: int, k2: int, p: int, k: int) -> bool {
    p2 < p || (p2 == p && k2 < k)
}

/// The document pairs joined by the slots already walked.
spec fn doc_pair_upto(doc: SerialJSON, p: int, k: int, x: Seq<char>, y: Seq<char>) -> bool {
    exists|p2: int, k2: int| #[trigger] slot_pair(doc, p2, k2, x, y) && slot_visited(p2, k2, p, k)
}

/// Import a sparse-adjacency document: validate it, intern each node name in
/// document order, then for each node add an edge to every neighbor its
/// slice of the flat index list names, labeled `"json"`. A document whose
/// pointers or indices are inconsistent is rejected whole.
#[verifier::rlimit(100)]
pub fn json_to_graph(doc: &SerialJSON) -> (r: Result<MappedGraph, SparseError>)
    ensures
        r is Ok <==> sparse_wf(*doc),
        !ptr_shape_ok(*doc) ==> r == Result::<MappedGraph, SparseError>::Err(
            SparseError::PointerShape,
        ),
        ptr_shape_ok(*doc) && !ptr_range_ok(*doc) ==> r == Result::<
            MappedGraph,
            SparseError,
        >::Err(SparseError::PointerRange),
        ptr_shape_ok(*doc) && ptr_range_ok(*doc) && !idx_ok(*doc) ==> r == Result::<
            MappedGraph,
            SparseError,
        >::Err(SparseError::IndexRange),
        match r {
            Ok(g) => import_rel(*doc, g),
            Err(_) => true,
        },
{
    let n = doc.graph.nodes.len();
    if doc.graph.indptr.len() < 1 || doc.graph.indptr.len() - 1 != n {
        return Err(SparseError::PointerShape);
    }
    if doc.graph.indptr[0] != 0 {
        return Err(SparseError::PointerShape);
    }
    let mut i: usize = 0;
    while i < n
        invariant
            i <= n,
            n == doc.graph.nodes@.len(),
            ptr_shape_ok(*doc),
            forall|j: int| 0 <= j < i ==> (#[trigger] doc.graph.indptr@[j]) <= doc.graph.indptr@[j + 1],
        decreases n - i,
    {
        if doc.graph.indptr[i] > doc.graph.indptr[i + 1] {
            return Err(SparseError::PointerRange);
        }
        i = i + 1;
    }
    if doc.graph.indptr[n] != doc.graph.indices.len() {
        return Err(SparseError::PointerRange);
    }
    let mut k: usize = 0;
    while k < doc.graph.indices.len()
        invariant
            k <= doc.graph.indices@.len(),
            n == doc.graph.nodes@.len(),
            ptr_shape_ok(*doc),
            ptr_range_ok(*doc),
            forall|j: int| 0 <= j < k ==> (#[trigger] doc.graph.indices@[j]) < n,
        decreases doc.graph.indices.len() - k,
    {
        if doc.graph.indices[k] >= n {
            return Err(SparseError::IndexRange);
        }
        k = k + 1;
    }
    assert(sparse_wf(*doc));
    let ghost nsd = doc.graph.nodes.deep_view();
    let mut g = MappedGraph::new();
    let mut handles: Vec<usize> = Vec::new();
    let mut p: usize = 0;
    proof {
        assert(nsd.take(0) =~= Seq::<Seq<char>>::empty());
    }
    while p < n
        invariant
            p <= n,
            n == doc.graph.nodes@.len(),
            nsd == doc.graph.nodes.deep_view(),
            g.wf(),
            g.edge_model() == Seq::<EdgeModel>::empty(),
            g.name_seq() == intern_all(Seq::empty(), nsd.take(p as int)),
            handles@.len() == p,
            forall|q: int|
                0 <= q < p ==> (#[trigger] handles@[q]) < g.name_seq().len()
                    && g.name_seq()[handles@[q] as int] == nsd[q],
        decreases n - p,
    {
        let ghost prev_ns = g.name_seq();
        proof {
            assert(nsd.take(p + 1 as int).drop_last() =~= nsd.take(p as int));
            assert(nsd.take(p + 1 as int).last() == nsd[p as int]);
            assert(doc.graph.nodes@[p as int]@ == nsd[p as int]);
        }
        let h = g.add_node(Node::new(doc.graph.nodes[p].clone()));
        handles.push(h);
        proof {
            assert(g.name_seq() == intern_all(Seq::empty(), nsd.take(p + 1 as int)));
            assert forall|q: int| 0 <= q < p + 1 implies (#[trigger] handles@[q])
                < g.name_seq().len() && g.name_seq()[handles@[q] as int] == nsd[q] by {
                if q < p {
                    assert(prev_ns[handles@[q] as int] == nsd[q]);
                    assert(g.name_seq() == interned(prev_ns, nsd[p as int]));
                }
            }
        }
        p = p + 1;
    }
    proof {
        assert(nsd.take(n as int) =~= nsd);
    }
    let ghost final_ns = g.name_seq();
    let mut p: usize = 0;
    proof {
        assert forall|x: Seq<char>, y: Seq<char>|
            !doc_pair_upto(*doc, 0, 0, x, y) by {
            if doc_pair_upto(*doc, 0, 0, x, y) {
                let (p2, k2) = choose|p2: int, k2: int|
                    #[trigger] slot_pair(*doc, p2, k2, x, y) && slot_visited(p2, k2, 0, 0);
            }
        }
        assert forall|x: Seq<char>, y: Seq<char>| !g.has_edge_named(x, y) by {
            if g.has_edge_named(x, y) {
                let j = choose|j: int|
                    0 <= j < g.edge_model().len() && m_edge_joins_names(
                        g.name_seq(),
                        g.edge_model(),
                        j,
                        x,
                        y,
                    );
            }
        }
    }
    while p < n
        invariant
            p <= n,
            n == doc.graph.nodes@.len(),
            nsd == doc.graph.nodes.deep_view(),
            sparse_wf(*doc),
            g.wf(),
            g.name_seq() == final_ns,
            handles@.len() == n,
            forall|q: int|
                0 <= q < n ==> (#[trigger] handles@[q]) < final_ns.len()
                    && final_ns[handles@[q] as int] == nsd[q],
            forall|x: Seq<char>, y: Seq<char>|
                #[trigger] g.has_edge_named(x, y) <==> doc_pair_upto(
                    *doc,
                    p as int,
                    doc.graph.indptr@[p as int] as int,
                    x,
                    y,
                ),
            forall|x: Seq<char>, y: Seq<char>|
                g.has_edge_named(x, y) ==> #[trigger] g.label_named(x, y) == json_label(),
        decreases n - p,
    {
        let mut k: usize = doc.graph.indptr[p];
        let end: usize = doc.graph.indptr[p + 1];
        proof {
            lemma_ptr_chain(*doc, p + 1 as int, n as int);
        }
        while k < end
            invariant
                n == doc.graph.nodes@.len(),
                nsd == doc.graph.nodes.deep_view(),
                sparse_wf(*doc),
                p < n,
                end == doc.graph.indptr@[p + 1 as int],
                doc.graph.indptr@[p as int] <= k <= end,
                end <= doc.graph.indices@.len(),
                g.wf(),
                g.name_seq() == final_ns,
                handles@.len() == n,
                forall|q: int|
                    0 <= q < n ==> (#[trigger] handles@[q]) < final_ns.len()
                        && final_ns[handles@[q] as int] == nsd[q],
                forall|x: Seq<char>, y: Seq<char>|
                    #[trigger] g.has_edge_named(x, y) <==> doc_pair_upto(
                        *doc,
                        p as int,
                        k as int,
                        x,
                        y,
                    ),
                forall|x: Seq<char>, y: Seq<char>|
                    g.has_edge_named(x, y) ==> #[trigger] g.label_named(x, y) == json_label(),
            decreases end - k,
        {
            let q = doc.graph.indices[k];
            let hp = handles[p];
            let hq = handles[q];
            let ghost prev = g;
            g.add_edge(hp, hq, String::from_str("json"));
            proof {
                reveal_strlit("json");
                let ghost es_new = updated_edges(
                    prev.edge_model(),
                    hp as int,
                    hq as int,
                    ("json")@,
                );
                assert(g.edge_model() == es_new);
                lemma_updated_edges_named(final_ns, prev.edge_model(), hp as int, hq as int, ("json")@);
                assert(final_ns[hp as int] == nsd[p as int]);
                assert(final_ns[hq as int] == nsd[q as int]);
                assert forall|x: Seq<char>, y: Seq<char>|
                    doc_pair_upto(*doc, p as int, k + 1 as int, x, y) <==> (doc_pair_upto(
                        *doc,
                        p as int,
                        k as int,
                        x,
                        y,
                    ) || (x == nsd[p as int] && y == nsd[q as int]) || (x == nsd[q as int] && y
                        == nsd[p as int])) by {
                    if doc_pair_upto(*doc, p as int, k + 1 as int, x, y) {
                        let (p2, k2) = choose|p2: int, k2: int|
                            #[trigger] slot_pair(*doc, p2, k2, x, y) && slot_visited(
                                p2,
                                k2,
                                p as int,
                                k + 1 as int,
                            );
                        if p2 == p as int && k2 == k as int {
                            assert((x == nsd[p as int] && y == nsd[q as int]) || (x
                                == nsd[q as int] && y == nsd[p as int]));
                        } else {
                            assert(slot_visited(p2, k2, p as int, k as int));
                            assert(doc_pair_upto(*doc, p as int, k as int, x, y));
                        }
                    }
                    if doc_pair_upto(*doc, p as int, k as int, x, y) {
                        let (p2, k2) = choose|p2: int, k2: int|
                            #[trigger] slot_pair(*doc, p2, k2, x, y) && slot_visited(
                                p2,
                                k2,
                                p as int,
                                k as int,
                            );
                        assert(slot_visited(p2, k2, p as int, k + 1 as int));
                        assert(doc_pair_upto(*doc, p as int, k + 1 as int, x, y));
                    }
                    if (x == nsd[p as int] && y == nsd[q as int]) || (x == nsd[q as int] && y
                        == nsd[p as int]) {
                        assert(slot_pair(*doc, p as int, k as int, x, y));
                        assert(slot_visited(p as int, k as int, p as int, k + 1 as int));
                        assert(doc_pair_upto(*doc, p as int, k + 1 as int, x, y));
                    }
                }
                assert forall|x: Seq<char>, y: Seq<char>| #[trigger]
                    g.has_edge_named(x, y) <==> doc_pair_upto(*doc, p as int, k + 1 as int, x, y) by {
                    assert(g.has_edge_named(x, y) == m_has_edge_named(final_ns, es_new, x, y));
                    assert(m_has_edge_named(final_ns, es_new, x, y) <==> (m_has_edge_named(
                        final_ns,
                        prev.edge_model(),
                        x,
                        y,
                    ) || (x == final_ns[hp as int] && y == final_ns[hq as int]) || (x
                        == final_ns[hq as int] && y == final_ns[hp as int])));
                    assert(prev.has_edge_named(x, y) == m_has_edge_named(
                        final_ns,
                        prev.edge_model(),
                        x,
                        y,
                    ));
                }
                assert forall|x: Seq<char>, y: Seq<char>|
                    g.has_edge_named(x, y) implies #[trigger] g.label_named(x, y)
                    == json_label() by {
                    assert(g.has_edge_named(x, y) == m_has_edge_named(final_ns, es_new, x, y));
                    assert(g.label_named(x, y) == m_label_named(final_ns, es_new, x, y));
                    if (x == final_ns[hp as int] && y == final_ns[hq as int]) || (x
                        == final_ns[hq as int] && y == final_ns[hp as int]) {
                        assert(m_label_named(final_ns, es_new, x, y) == ("json")@);
                    } else {
                        assert(m_has_edge_named(final_ns, prev.edge_model(), x, y));
                        assert(prev.has_edge_named(x, y));
                        assert(m_label_named(final_ns, es_new, x, y) == m_label_named(
                            final_ns,
                            prev.edge_model(),
                            x,
                            y,
                        ));
                        assert(prev.label_named(x, y) == m_label_named(
                            final_ns,
                            prev.edge_model(),
                            x,
                            y,
                        ));
                    }
                }
            }
            k = k + 1;
        }
        proof {
            assert forall|x: Seq<char>, y: Seq<char>|
                doc_pair_upto(*doc, p as int, end as int, x, y) <==> doc_pair_upto(
                    *doc,
                    p + 1 as int,
                    doc.graph.indptr@[p + 1 as int] as int,
                    x,
                    y,
                ) by {
                if doc_pair_upto(*doc, p as int, end as int, x, y) {
                    let (p2, k2) = choose|p2: int, k2: int|
                        #[trigger] slot_pair(*doc, p2, k2, x, y) && slot_visited(
                            p2,
                            k2,
                            p as int,
                            end as int,
                        );
                    assert(slot_visited(p2, k2, p + 1 as int, doc.graph.indptr@[p + 1 as int] as int));
                    assert(doc_pair_upto(*doc, p + 1 as int, doc.graph.indptr@[p + 1 as int] as int, x, y));
                }
                if doc_pair_upto(*doc, p + 1 as int, doc.graph.indptr@[p + 1 as int] as int, x, y) {
                    let (p2, k2) = choose|p2: int, k2: int|
                        #[trigger] slot_pair(*doc, p2, k2, x, y) && slot_visited(
                            p2,
                            k2,
                            p + 1 as int,
                            doc.graph.indptr@[p + 1 as int] as int,
                        );
                    assert(slot_visited(p2, k2, p as int, end as int));
                    assert(doc_pair_upto(*doc, p as int, end as int, x, y));
                }
            }
        }
        p = p + 1;
    }
    proof {
        assert forall|x: Seq<char>, y: Seq<char>| #[trigger]
            g.has_edge_named(x, y) <==> doc_pair(*doc, x, y) by {
            assert(g.has_edge_named(x, y) <==> doc_pair_upto(
                *doc,
                n as int,
                doc.graph.indptr@[n as int] as int,
                x,
                y,
            ));
            if doc_pair(*doc, x, y) {
                let (p2, k2) = choose|p2: int, k2: int| #[trigger] slot_pair(*doc, p2, k2, x, y);
                assert(slot_visited(p2, k2, n as int, doc.graph.indptr@[n as int] as int));
                assert(doc_pair_upto(*doc, n as int, doc.graph.indptr@[n as int] as int, x, y));
            }
            if doc_pair_upto(*doc, n as int, doc.graph.indptr@[n as int] as int, x, y) {
                let (p2, k2) = choose|p2: int, k2: int|
                    #[trigger] slot_pair(*doc, p2, k2, x, y) && slot_visited(
                        p2,
                        k2,
                        n as int,
                        doc.graph.indptr@[n as int] as int,
                    );
                assert(doc_pair(*doc, x, y));
            }
        }
    }
    Ok(g)
}

/// A handle appears among `i`'s neighbors exactly when some edge joins the
/// pair `{i, j}`.
proof fn lemma_neighbors_iff(es: Seq<EdgeModel>, i: int, j: int)
    ensures
        neighbors_of(es, i).contains(j) <==> has_pair(es, i, j),
    decreases es.len(),
{
    if es.len() == 0 {
        if neighbors_of(es, i).contains(j) {
            let t = choose|t: int| 0 <= t < neighbors_of(es, i).len() && neighbors_of(es, i)[t] == j;
        }
        if has_pair(es, i, j) {
            let k = choose|k: int| 0 <= k < es.len() && joins(#[trigger] es[k], i, j);
        }
    } else {
        let front = es.drop_last();
        let e = es.last();
        lemma_neighbors_iff(front, i, j);
        let nb = neighbors_of(es, i);
        let nf = neighbors_of(front, i);
        assert(has_pair(es, i, j) <==> (has_pair(front, i, j) || joins(e, i, j))) by {
            if has_pair(es, i, j) {
                let k = choose|k: int| 0 <= k < es.len() && joins(#[trigger] es[k], i, j);
                if k < front.len() {
                    assert(front[k] == es[k]);
                    assert(has_pair(front, i, j));
                }
            }
            if has_pair(front, i, j) {
                let k = choose|k: int| 0 <= k < front.len() && joins(#[trigger] front[k], i, j);
                assert(joins(es[k], i, j));
                assert(has_pair(es, i, j));
            }
            if joins(e, i, j) {
                assert(joins(es[es.len() - 1], i, j));
                assert(has_pair(es, i, j));
            }
        }
        if e.a == i || e.b == i {
            let other = if e.a == i {
                e.b
            } else {
                e.a
            };
            assert(nb == nf.push(other));
            assert(nb.contains(j) <==> (nf.contains(j) || other == j)) by {
                if nb.contains(j) {
                    let t = choose|t: int| 0 <= t < nb.len() && nb[t] == j;
                    if t < nf.len() {
                        assert(nf[t] == j);
                        assert(nf.contains(j));
                    }
                }
                if nf.contains(j) {
                    let t = choose|t: int| 0 <= t < nf.len() && nf[t] == j;
                    assert(nb[t] == j);
                    assert(nb.contains(j));
                }
                if other == j {
                    assert(nb[nf.len() as int] == j);
                    assert(nb.contains(j));
                }
            }
            assert(joins(e, i, j) <==> other == j);
        } else {
            assert(nb == nf);
            assert(!joins(e, i, j));
        }
    }
}

/// Sparse-document export then import reconstructs a graph with the same
/// node-name row — hence the same node-name set — and the same edge
/// connectivity (the same unordered name pairs) as the original graph;
/// labels become the fixed import label. An exported document is always
/// well formed, so import accepts it.
pub proof fn lemma_sparse_round_trip(g: MappedGraph, doc: SerialJSON, g2: MappedGraph)
    requires
        g.wf(),
        export_rel(g.name_seq(), g.edge_model(), doc),
        import_rel(doc, g2),
    ensures
        sparse_wf(doc),
        g2.name_seq() == g.name_seq(),
        g2.name_set() == g.name_set(),
        forall|x: Seq<char>, y: Seq<char>|
            #[trigger] g2.has_edge_named(x, y) <==> g.has_edge_named(x, y),
{
    let ns = g.name_seq();
    let es = g.edge_model();
    assert(ptr_shape_ok(doc));
    assert(ptr_range_ok(doc));
    assert(idx_ok(doc));
    lemma_intern_all_distinct(ns);
    assert(g2.name_seq() == ns);
    assert(g2.name_set() =~= g.name_set());
    assert forall|x: Seq<char>, y: Seq<char>| #[trigger]
        g2.has_edge_named(x, y) <==> g.has_edge_named(x, y) by {
        assert(g2.has_edge_named(x, y) <==> doc_pair(doc, x, y));
        if doc_pair(doc, x, y) {
            let (p, k) = choose|p: int, k: int| #[trigger] slot_pair(doc, p, k, x, y);
            let q = doc.graph.indices@[k] as int;
            assert(neighbor_slice(doc.graph, p) == neighbors_of(es, p));
            let off = k - doc.graph.indptr@[p] as int;
            assert(neighbor_slice(doc.graph, p)[off] == q);
            assert(neighbors_of(es, p).contains(q));
            lemma_neighbors_iff(es, p, q);
            lemma_named_vs_handles(ns, es, p, q);
            assert(m_has_edge_named(ns, es, ns[p], ns[q]));
            assert((x == ns[p] && y == ns[q]) || (x == ns[q] && y == ns[p]));
            if x == ns[q] && y == ns[p] {
                let kk = choose|kk: int|
                    0 <= kk < es.len() && m_edge_joins_names(ns, es, kk, ns[p], ns[q]);
                assert(m_edge_joins_names(ns, es, kk, x, y));
            }
            assert(g.has_edge_named(x, y));
        }
        if g.has_edge_named(x, y) {
            let kk = choose|kk: int| 0 <= kk < es.len() && m_edge_joins_names(ns, es, kk, x, y);
            let e = es[kk];
            assert(joins(es[kk], e.a, e.b));
            assert(has_pair(es, e.a, e.b));
            lemma_neighbors_iff(es, e.a, e.b);
            assert(neighbors_of(es, e.a).contains(e.b));
            let t = choose|t: int|
                0 <= t < neighbors_of(es, e.a).len() && neighbors_of(es, e.a)[t] == e.b;
            assert(neighbor_slice(doc.graph, e.a) == neighbors_of(es, e.a));
            let kpos = doc.graph.indptr@[e.a] + t;
            assert(neighbor_slice(doc.graph, e.a)[t] == doc.graph.indices@[kpos] as int);
            assert(doc.graph.indices@[kpos] as int == e.b);
            assert(slot_pair(doc, e.a, kpos, x, y));
            assert(doc_pair(doc, x, y));
        }
    }
}

/// Convert a sparse document to triplet text: import it, then serialize the
/// reconstructed graph. A malformed document is rejected whole, with the
/// import's own error.
pub fn to_sif(doc: &SerialJSON) -> (r: Result<String, SparseError>)
    ensures
        r is Ok <==> sparse_wf(*doc),
        !ptr_shape_ok(*doc) ==> r == Result::<String, SparseError>::Err(SparseError::PointerShape),
        ptr_shape_ok(*doc) && !ptr_range_ok(*doc) ==> r == Result::<String, SparseError>::Err(
            SparseError::PointerRange,
        ),
        ptr_shape_ok(*doc) && ptr_range_ok(*doc) && !idx_ok(*doc) ==> r == Result::<
            String,
            SparseError,
        >::Err(SparseError::IndexRange),
        match r {
            Ok(t) => exists|g: MappedGraph|
                #[trigger] import_rel(*doc, g) && t@ == sif_text_of(g.name_seq(), g.edge_model()),
            Err(_) => true,
        },
{
    match json_to_graph(doc) {
        Ok(g) => {
            let t = graph_to_sif(&g);
            proof {
                assert(import_rel(*doc, g) && t@ == sif_text_of(g.name_seq(), g.edge_model()));
            }
            Ok(t)
        },
        Err(e) => Err(e),
    }
}

/// Convert triplet text to the sparse document: parse, then export.
pub fn to_json(contents: &str) -> (doc: SerialJSON)
    ensures
        export_rel(sif_names(lines_of(contents@)), sif_edges(lines_of(contents@)), doc),
{
    let g = sif_to_graph(contents);
    graph_to_json(&g)
}

} // verus!
