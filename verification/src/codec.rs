//! The triplet line format: one record per line, three tab-separated fields
//! `source-name`, `relation-label`, `target-name`. Parsing builds an interned
//! graph; serializing emits one line per edge.

use vstd::prelude::*;

use crate::graph::{
    distinct_names, interned, m_edge_joins_names, m_has_edge_named, m_label_named, pairs_unique,
    position_of, updated_edges, valid_edges, EdgeModel, MappedGraph, Node, has_pair, joins,
    lemma_has_named_extend, lemma_intern_idempotent, lemma_interned_contains,
    lemma_interned_distinct, lemma_interned_stable, lemma_position_of, lemma_updated_edges_named,
    lemma_updated_edges_wf,
};
use crate::text::{
    lemma_sep_free_concat, lemma_split_on_append_seg, lemma_split_on_append_sep,
    lemma_split_on_nonempty, lines_of, sep_free, split_lines, split_on, split_str,
};

verus! {

/// The tab-separated fields of one record.
pub open spec fn fields_of(line: Seq<char>) -> Seq<Seq<char>> {
    split_on(line, '\t')
}

/// A record is accepted exactly when it has three fields; any other field
/// count is a malformed-line event, and the record is skipped.
pub open spec fn line_wf(line: Seq<char>) -> bool {
    fields_of(line).len() == 3
}

/// The node names the records intern, in order of first appearance; each
/// accepted record interns its source name first, then its target name.
pub open spec fn sif_names(ls: Seq<Seq<char>>) -> Seq<Seq<char>>
    decreases ls.len(),
{
    if ls.len() == 0 {
        Seq::empty()
    } else {
        let prev = sif_names(ls.drop_last());
        let l = ls.last();
        if line_wf(l) {
            interned(interned(prev, fields_of(l)[0]), fields_of(l)[2])
        } else {
            prev
        }
    }
}

/// The edges the records build, between the handles `sif_names` assigns; a
/// later record joining an already-joined pair overwrites the label.
pub open spec fn sif_edges(ls: Seq<Seq<char>>) -> Seq<EdgeModel>
    decreases ls.len(),
{
    if ls.len() == 0 {
        Seq::empty()
    } else {
        let prev = sif_edges(ls.drop_last());
        let l = ls.last();
        if line_wf(l) {
            let ns = sif_names(ls);
            updated_edges(
                prev,
                position_of(ns, fields_of(l)[0]),
                position_of(ns, fields_of(l)[2]),
                fields_of(l)[1],
            )
        } else {
            prev
        }
    }
}

/// Parse triplet text into an interned graph: intern both endpoint names of
/// each accepted record, then set the edge of that pair to the record's
/// relation label. Malformed records are skipped.
pub fn sif_to_graph(contents: &str) -> (g: MappedGraph)
    ensures
        g.wf(),
        g.name_seq() == sif_names(lines_of(contents@)),
        g.edge_model() == sif_edges(lines_of(contents@)),
{
    let lines = split_lines(contents);
    let ghost ls = lines_of(contents@);
    let mut g = MappedGraph::new();
    let mut i: usize = 0;
    proof {
        assert(ls.take(0) =~= Seq::<Seq<char>>::empty());
    }
    while i < lines.len()
        invariant
            i <= lines.len(),
            lines.deep_view() == ls,
            g.wf(),
            g.name_seq() == sif_names(ls.take(i as int)),
            g.edge_model() == sif_edges(ls.take(i as int)),
        decreases lines.len() - i,
    {
        let ghost prev_ns = g.name_seq();
        let ghost prev_es = g.edge_model();
        let ghost l = ls[i as int];
        proof {
            assert(lines@[i as int]@ == ls[i as int]);
            assert(ls.take(i + 1 as int).drop_last() =~= ls.take(i as int));
            assert(ls.take(i + 1 as int).last() == l);
        }
        let fields = split_str(lines[i].as_str(), '\t');
        proof {
            assert(fields@.len() == fields.deep_view().len());
        }
        if fields.len() == 3 {
            proof {
                assert(line_wf(l));
                assert(fields@[0]@ == fields_of(l)[0]);
                assert(fields@[1]@ == fields_of(l)[1]);
                assert(fields@[2]@ == fields_of(l)[2]);
            }
            let ghost f0 = fields_of(l)[0];
            let ghost f1 = fields_of(l)[1];
            let ghost f2 = fields_of(l)[2];
            let ha = g.add_node(Node::new(fields[0].clone()));
            let ghost ns_a = g.name_seq();
            let hb = g.add_node(Node::new(fields[2].clone()));
            let ghost ns_b = g.name_seq();
            proof {
                assert(ns_b == sif_names(ls.take(i + 1 as int)));
                lemma_intern_idempotent(prev_ns, f0);
                assert(ha == position_of(ns_a, f0));
                assert(ns_a[ha as int] == f0);
                assert(ns_a.contains(f0));
                lemma_interned_stable(ns_a, f0, f2);
                assert(ha == position_of(ns_b, f0));
                lemma_intern_idempotent(ns_a, f2);
                assert(hb == position_of(ns_b, f2));
                assert(ns_a.len() <= ns_b.len());
            }
            g.add_edge(ha, hb, fields[1].clone());
            proof {
                assert(g.edge_model() == updated_edges(
                    prev_es,
                    position_of(ns_b, f0),
                    position_of(ns_b, f2),
                    f1,
                ));
                assert(g.edge_model() == sif_edges(ls.take(i + 1 as int)));
            }
        } else {
            proof {
                assert(!line_wf(l));
                assert(g.name_seq() == sif_names(ls.take(i + 1 as int)));
                assert(g.edge_model() == sif_edges(ls.take(i + 1 as int)));
            }
        }
        i = i + 1;
    }
    proof {
        assert(ls.take(lines@.len() as int) =~= ls);
    }
    g
}

/// The set of all node names the accepted records mention, as a cheap
/// read-only view of the same parse: no edges are built.
pub fn nodes(contents: &str) -> (r: Vec<String>)
    ensures
        r.deep_view() == sif_names(lines_of(contents@)),
        distinct_names(r.deep_view()),
{
    let lines = split_lines(contents);
    let ghost ls = lines_of(contents@);
    let mut g = MappedGraph::new();
    let mut i: usize = 0;
    proof {
        assert(ls.take(0) =~= Seq::<Seq<char>>::empty());
    }
    while i < lines.len()
        invariant
            i <= lines.len(),
            lines.deep_view() == ls,
            g.wf(),
            g.name_seq() == sif_names(ls.take(i as int)),
        decreases lines.len() - i,
    {
        let ghost l = ls[i as int];
        proof {
            assert(lines@[i as int]@ == ls[i as int]);
            assert(ls.take(i + 1 as int).drop_last() =~= ls.take(i as int));
            assert(ls.take(i + 1 as int).last() == l);
        }
        let fields = split_str(lines[i].as_str(), '\t');
        if fields.len() == 3 {
            proof {
                assert(line_wf(l));
                assert(fields@[0]@ == fields_of(l)[0]);
                assert(fields@[2]@ == fields_of(l)[2]);
            }
            let _ = g.add_node(Node::new(fields[0].clone()));
            let _ = g.add_node(Node::new(fields[2].clone()));
        } else {
            proof {
                assert(!line_wf(l));
            }
        }
        i = i + 1;
    }
    proof {
        assert(ls.take(lines@.len() as int) =~= ls);
    }
    g.names()
}

/// The set of all first- and third-field values across the accepted records.
pub open spec fn endpoint_names(ls: Seq<Seq<char>>) -> Set<Seq<char>> {
    Set::new(
        |x: Seq<char>|
            exists|i: int|
                0 <= i < ls.len() && line_wf(#[trigger] ls[i]) && (fields_of(ls[i])[0] == x
                    || fields_of(ls[i])[2] == x),
    )
}

/// The parsed node names are exactly the endpoint names of the accepted
/// records, as a set: duplicates and ordering do not matter.
pub proof fn lemma_nodes_are_endpoints(ls: Seq<Seq<char>>)
    ensures
        sif_names(ls).to_set() == endpoint_names(ls),
    decreases ls.len(),
{
    if ls.len() == 0 {
        assert(sif_names(ls).to_set() =~= endpoint_names(ls)) by {
            assert forall|x: Seq<char>|
                !sif_names(ls).to_set().contains(x) && !endpoint_names(ls).contains(x) by {
                if sif_names(ls).contains(x) {
                    let i = choose|i: int| 0 <= i < sif_names(ls).len() && sif_names(ls)[i] == x;
                }
                if endpoint_names(ls).contains(x) {
                    let i = choose|i: int|
                        0 <= i < ls.len() && line_wf(#[trigger] ls[i]) && (fields_of(ls[i])[0] == x
                            || fields_of(ls[i])[2] == x);
                }
            }
        }
    } else {
        lemma_nodes_are_endpoints(ls.drop_last());
        let front = ls.drop_last();
        let l = ls.last();
        let prev = sif_names(front);
        assert(sif_names(ls).to_set() =~= endpoint_names(ls)) by {
            assert forall|x: Seq<char>|
                sif_names(ls).to_set().contains(x) <==> endpoint_names(ls).contains(x) by {
                if line_wf(l) {
                    let f0 = fields_of(l)[0];
                    let f2 = fields_of(l)[2];
                    lemma_interned_contains(prev, f0);
                    lemma_interned_contains(interned(prev, f0), f2);
                    assert(sif_names(ls).contains(x) <==> (prev.contains(x) || x == f0 || x
                        == f2));
                } else {
                    assert(sif_names(ls) == prev);
                }
                assert(prev.to_set().contains(x) == prev.contains(x));
                assert(prev.contains(x) <==> endpoint_names(front).contains(x));
                assert(endpoint_names(ls).contains(x) <==> (endpoint_names(front).contains(x) || (
                line_wf(l) && (fields_of(l)[0] == x || fields_of(l)[2] == x)))) by {
                    if endpoint_names(ls).contains(x) {
                        let i = choose|i: int|
                            0 <= i < ls.len() && line_wf(#[trigger] ls[i]) && (fields_of(ls[i])[0]
                                == x || fields_of(ls[i])[2] == x);
                        if i < ls.len() - 1 {
                            assert(front[i] == ls[i]);
                            assert(endpoint_names(front).contains(x));
                        }
                    }
                    if endpoint_names(front).contains(x) {
                        let i = choose|i: int|
                            0 <= i < front.len() && line_wf(#[trigger] front[i]) && (fields_of(
                                front[i],
                            )[0] == x || fields_of(front[i])[2] == x);
                        assert(ls[i] == front[i]);
                        assert(endpoint_names(ls).contains(x));
                    }
                    if line_wf(l) && (fields_of(l)[0] == x || fields_of(l)[2] == x) {
                        assert(ls[ls.len() - 1] == l);
                        assert(endpoint_names(ls).contains(x));
                    }
                }
            }
        }
    }
}

/// The line one edge serializes to: endpoint name, label, endpoint name,
/// tab-separated, with a terminating newline.
pub open spec fn sif_line_of(ns: Seq<Seq<char>>, e: EdgeModel) -> Seq<char> {
    ns[e.a] + seq!['\t'] + e.label + seq!['\t'] + ns[e.b] + seq!['\n']
}

/// The text a graph serializes to: one line per edge, in storage order.
pub open spec fn sif_text_of(ns: Seq<Seq<char>>, es: Seq<EdgeModel>) -> Seq<char>
    decreases es.len(),
{
    if es.len() == 0 {
        Seq::empty()
    } else {
        sif_text_of(ns, es.drop_last()) + sif_line_of(ns, es.last())
    }
}

/// Serialize a graph to triplet text: for each edge one record
/// `name <TAB> label <TAB> name`, endpoints in the edge's stored order.
/// Edge order is the graph's storage order; no further ordering is promised.
pub fn graph_to_sif(g: &MappedGraph) -> (r: String)
    requires
        g.wf(),
    ensures
        r@ == sif_text_of(g.name_seq(), g.edge_model()),
{
    let mut r = String::new();
    let mut k: usize = 0;
    proof {
        assert(g.edge_model().take(0) =~= Seq::<EdgeModel>::empty());
        assert(r@ =~= Seq::<char>::empty());
    }
    while k < g.edges.len()
        invariant
            k <= g.edges.len(),
            g.wf(),
            r@ == sif_text_of(g.name_seq(), g.edge_model().take(k as int)),
        decreases g.edges.len() - k,
    {
        proof {
            assert(g.edge_model()[k as int] == EdgeModel {
                a: g.edges@[k as int].a as int,
                b: g.edges@[k as int].b as int,
                label: g.edges@[k as int].label@,
            });
            assert(0 <= g.edge_model()[k as int].a < g.name_seq().len());
            assert(0 <= g.edge_model()[k as int].b < g.name_seq().len());
        }
        let ea = g.edges[k].a;
        let eb = g.edges[k].b;
        r.append(g.nodes[ea].name.as_str());
        r.append("\t");
        r.append(g.edges[k].label.as_str());
        r.append("\t");
        r.append(g.nodes[eb].name.as_str());
        r.append("\n");
        proof {
            reveal_strlit("\t");
            reveal_strlit("\n");
            assert(("\t")@ =~= seq!['\t']);
            assert(("\n")@ =~= seq!['\n']);
            assert(g.edge_model().take(k + 1 as int).drop_last() =~= g.edge_model().take(k as int));
            assert(g.edge_model().take(k + 1 as int).last() == g.edge_model()[k as int]);
            assert(g.name_seq()[ea as int] == g.nodes@[ea as int].name@);
            assert(g.name_seq()[eb as int] == g.nodes@[eb as int].name@);
            assert(r@ =~= sif_text_of(g.name_seq(), g.edge_model().take(k + 1 as int)));
        }
        k = k + 1;
    }
    proof {
        assert(g.edge_model().take(g.edges@.len() as int) =~= g.edge_model());
    }
    r
}

/// A name or label fits the line format: it holds neither a tab nor a
/// newline. (A literal tab inside a name is unsupported and mis-parses.)
pub open spec fn sif_clean(s: Seq<char>) -> bool {
    sep_free(s, '\t') && sep_free(s, '\n')
}

/// Every node name and every edge label of the model fits the line format.
pub open spec fn graph_sif_clean(ns: Seq<Seq<char>>, es: Seq<EdgeModel>) -> bool {
    &&& forall|i: int| 0 <= i < ns.len() ==> sif_clean(#[trigger] ns[i])
    &&& forall|k: int| 0 <= k < es.len() ==> sif_clean((#[trigger] es[k]).label)
}

/// The body of one serialized record, without its terminating newline.
pub open spec fn sif_line_body(ns: Seq<Seq<char>>, e: EdgeModel) -> Seq<char> {
    ns[e.a] + seq!['\t'] + e.label + seq!['\t'] + ns[e.b]
}

/// The row of record bodies a graph serializes to.
pub open spec fn line_rows(ns: Seq<Seq<char>>, es: Seq<EdgeModel>) -> Seq<Seq<char>> {
    Seq::new(es.len(), |i: int| sif_line_body(ns, es[i]))
}

/// A record built from three tab-free parts splits back into those parts.
proof fn lemma_fields_of_line(x: Seq<char>, l: Seq<char>, y: Seq<char>)
    requires
        sep_free(x, '\t'),
        sep_free(l, '\t'),
        sep_free(y, '\t'),
    ensures
        fields_of(x + seq!['\t'] + l + seq!['\t'] + y) == seq![x, l, y],
{
    let t1 = x;
    let t2 = x + seq!['\t'];
    let t3 = t2 + l;
    let t4 = t3 + seq!['\t'];
    let t5 = t4 + y;
    lemma_split_on_append_seg(Seq::empty(), x, '\t');
    assert(Seq::<char>::empty() + x =~= x);
    assert(split_on(Seq::<char>::empty(), '\t') == seq![Seq::<char>::empty()]);
    assert(Seq::<char>::empty() + x == x);
    assert(split_on(t1, '\t') =~~= seq![x]) by {
        assert(split_on(Seq::<char>::empty() + x, '\t') == split_on(
            Seq::<char>::empty(),
            '\t',
        ).drop_last().push(split_on(Seq::<char>::empty(), '\t').last() + x));
        assert(Seq::<char>::empty() + x =~= x);
    }
    lemma_split_on_append_sep(t1, '\t');
    assert(split_on(t2, '\t') =~~= seq![x, Seq::<char>::empty()]);
    lemma_split_on_append_seg(t2, l, '\t');
    assert(split_on(t3, '\t') =~~= seq![x, l]) by {
        assert(Seq::<char>::empty() + l =~= l);
    }
    lemma_split_on_append_sep(t3, '\t');
    assert(split_on(t4, '\t') =~~= seq![x, l, Seq::<char>::empty()]);
    lemma_split_on_append_seg(t4, y, '\t');
    assert(split_on(t5, '\t') =~~= seq![x, l, y]) by {
        assert(Seq::<char>::empty() + y =~= y);
    }
}

/// Serialized text splits at newlines into the record bodies, in edge order,
/// with one trailing empty segment for the final terminator.
proof fn lemma_split_of_text(ns: Seq<Seq<char>>, es: Seq<EdgeModel>)
    requires
        valid_edges(es, ns.len() as int),
        graph_sif_clean(ns, es),
    ensures
        split_on(sif_text_of(ns, es), '\n') == line_rows(ns, es).push(Seq::<char>::empty()),
    decreases es.len(),
{
    if es.len() == 0 {
        assert(split_on(sif_text_of(ns, es), '\n') =~~= line_rows(ns, es).push(
            Seq::<char>::empty(),
        ));
    } else {
        let front = es.drop_last();
        let e = es.last();
        assert(valid_edges(front, ns.len() as int)) by {
            assert(forall|k: int| 0 <= k < front.len() ==> front[k] == es[k]);
        }
        assert(graph_sif_clean(ns, front)) by {
            assert(forall|k: int| 0 <= k < front.len() ==> front[k] == es[k]);
        }
        lemma_split_of_text(ns, front);
        let prev = sif_text_of(ns, front);
        let body = sif_line_body(ns, e);
        assert(sep_free(body, '\n')) by {
            assert(sep_free(seq!['\t'], '\n')) by {
                assert(seq!['\t'][0] == '\t');
            }
            lemma_sep_free_concat(ns[e.a], seq!['\t'], '\n');
            lemma_sep_free_concat(ns[e.a] + seq!['\t'], e.label, '\n');
            lemma_sep_free_concat(ns[e.a] + seq!['\t'] + e.label, seq!['\t'], '\n');
            lemma_sep_free_concat(ns[e.a] + seq!['\t'] + e.label + seq!['\t'], ns[e.b], '\n');
        }
        lemma_split_on_append_seg(prev, body, '\n');
        lemma_split_on_append_sep(prev + body, '\n');
        assert(sif_text_of(ns, es) =~= (prev + body) + seq!['\n']);
        assert(split_on(prev, '\n').last() == Seq::<char>::empty()) by {
            assert(split_on(prev, '\n') == line_rows(ns, front).push(Seq::<char>::empty()));
        }
        assert(split_on(prev + body, '\n') =~~= line_rows(ns, front).push(body)) by {
            assert(split_on(prev, '\n').drop_last() =~= line_rows(ns, front));
            assert(Seq::<char>::empty() + body =~= body);
        }
        assert(split_on(sif_text_of(ns, es), '\n') =~~= line_rows(ns, es).push(
            Seq::<char>::empty(),
        )) by {
            assert forall|i: int| 0 <= i < front.len() implies line_rows(ns, front)[i]
                == line_rows(ns, es)[i] by {
                assert(front[i] == es[i]);
            }
            assert(line_rows(ns, es)[es.len() - 1] == body);
        }
    }
}

/// Parsing the first `k` record bodies of a serialized well-formed graph
/// rebuilds, pointwise at the name level, exactly the first `k` edges.
proof fn lemma_parse_lines_pointwise(ns: Seq<Seq<char>>, es: Seq<EdgeModel>, k: int)
    requires
        distinct_names(ns),
        valid_edges(es, ns.len() as int),
        pairs_unique(es),
        graph_sif_clean(ns, es),
        0 <= k <= es.len(),
    ensures
        distinct_names(sif_names(line_rows(ns, es).take(k))),
        valid_edges(
            sif_edges(line_rows(ns, es).take(k)),
            sif_names(line_rows(ns, es).take(k)).len() as int,
        ),
        pairs_unique(sif_edges(line_rows(ns, es).take(k))),
        forall|x: Seq<char>, y: Seq<char>|
            #[trigger] m_has_edge_named(
                sif_names(line_rows(ns, es).take(k)),
                sif_edges(line_rows(ns, es).take(k)),
                x,
                y,
            ) <==> m_has_edge_named(ns, es.take(k), x, y),
        forall|x: Seq<char>, y: Seq<char>|
            m_has_edge_named(ns, es.take(k), x, y) ==> #[trigger] m_label_named(
                sif_names(line_rows(ns, es).take(k)),
                sif_edges(line_rows(ns, es).take(k)),
                x,
                y,
            ) == m_label_named(ns, es.take(k), x, y),
    decreases k,
{
    let rows = line_rows(ns, es);
    if k == 0 {
        assert(rows.take(0) =~= Seq::<Seq<char>>::empty());
        assert(es.take(0) =~= Seq::<EdgeModel>::empty());
        assert forall|x: Seq<char>, y: Seq<char>|
            !m_has_edge_named(sif_names(rows.take(0)), sif_edges(rows.take(0)), x, y)
                && !m_has_edge_named(ns, es.take(0), x, y) by {
            if m_has_edge_named(sif_names(rows.take(0)), sif_edges(rows.take(0)), x, y) {
                let j = choose|j: int|
                    0 <= j < sif_edges(rows.take(0)).len() && m_edge_joins_names(
                        sif_names(rows.take(0)),
                        sif_edges(rows.take(0)),
                        j,
                        x,
                        y,
                    );
            }
            if m_has_edge_named(ns, es.take(0), x, y) {
                let j = choose|j: int|
                    0 <= j < es.take(0).len() && m_edge_joins_names(ns, es.take(0), j, x, y);
            }
        }
    } else {
        lemma_parse_lines_pointwise(ns, es, k - 1);
        let e = es[k - 1];
        let na = ns[e.a];
        let nb = ns[e.b];
        let label = e.label;
        let lk = rows.take(k);
        assert(lk.drop_last() =~= rows.take(k - 1));
        assert(lk.last() == sif_line_body(ns, e));
        lemma_fields_of_line(na, label, nb);
        assert(line_wf(lk.last()));
        assert(fields_of(lk.last())[0] == na);
        assert(fields_of(lk.last())[1] == label);
        assert(fields_of(lk.last())[2] == nb);
        let pns = sif_names(rows.take(k - 1));
        let pes = sif_edges(rows.take(k - 1));
        let pns1 = interned(pns, na);
        let pns2 = interned(pns1, nb);
        assert(sif_names(lk) == pns2);
        lemma_interned_distinct(pns, na);
        lemma_interned_distinct(pns1, nb);
        lemma_interned_contains(pns, na);
        lemma_interned_contains(pns1, nb);
        assert(pns2.contains(na) && pns2.contains(nb));
        lemma_position_of(pns2, na);
        lemma_position_of(pns2, nb);
        let pa = position_of(pns2, na);
        let pb = position_of(pns2, nb);
        assert(0 <= pa < pns2.len() && pns2[pa] == na);
        assert(0 <= pb < pns2.len() && pns2[pb] == nb);
        let pes2 = updated_edges(pes, pa, pb, label);
        assert(sif_edges(lk) == pes2);
        assert(pns.len() <= pns1.len() <= pns2.len());
        assert(forall|j: int| 0 <= j < pns.len() ==> pns2[j] == pns[j]);
        assert(valid_edges(pes, pns2.len() as int));
        lemma_updated_edges_wf(pes, pns2.len() as int, pa, pb, label);
        lemma_updated_edges_named(pns2, pes, pa, pb, label);
        // the matching step on the original edge row
        let tes = es.take(k - 1);
        assert(valid_edges(tes, ns.len() as int)) by {
            assert(forall|j: int| 0 <= j < tes.len() ==> tes[j] == es[j]);
        }
        assert(pairs_unique(tes)) by {
            assert(forall|j: int| 0 <= j < tes.len() ==> tes[j] == es[j]);
        }
        assert(!has_pair(tes, e.a, e.b)) by {
            if has_pair(tes, e.a, e.b) {
                let j = choose|j: int| 0 <= j < tes.len() && joins(#[trigger] tes[j], e.a, e.b);
                assert(joins(es[j], es[k - 1].a, es[k - 1].b));
            }
        }
        assert(es.take(k) == updated_edges(tes, e.a, e.b, label)) by {
            assert(updated_edges(tes, e.a, e.b, label) == tes.push(
                EdgeModel { a: e.a, b: e.b, label },
            ));
            assert(EdgeModel { a: e.a, b: e.b, label } == e);
            assert(es.take(k) =~= tes.push(e));
        }
        lemma_updated_edges_named(ns, tes, e.a, e.b, label);
        assert forall|x: Seq<char>, y: Seq<char>| #[trigger]
            m_has_edge_named(pns2, pes2, x, y) <==> m_has_edge_named(ns, es.take(k), x, y) by {
            lemma_has_named_extend(pns, pns2, pes, x, y);
            assert(m_has_edge_named(pns2, pes2, x, y) <==> (m_has_edge_named(pns2, pes, x, y) || (
            x == pns2[pa] && y == pns2[pb]) || (x == pns2[pb] && y == pns2[pa])));
            assert(m_has_edge_named(ns, es.take(k), x, y) <==> (m_has_edge_named(ns, tes, x, y)
                || (x == ns[e.a] && y == ns[e.b]) || (x == ns[e.b] && y == ns[e.a])));
            assert(m_has_edge_named(pns, pes, x, y) <==> m_has_edge_named(ns, tes, x, y));
        }
        assert forall|x: Seq<char>, y: Seq<char>|
            m_has_edge_named(ns, es.take(k), x, y) implies #[trigger] m_label_named(
            pns2,
            pes2,
            x,
            y,
        ) == m_label_named(ns, es.take(k), x, y) by {
            lemma_has_named_extend(pns, pns2, pes, x, y);
            assert(m_has_edge_named(pns2, pes2, x, y));
            assert(m_label_named(pns2, pes2, x, y) == (if (x == pns2[pa] && y == pns2[pb]) || (x
                == pns2[pb] && y == pns2[pa]) {
                label
            } else {
                m_label_named(pns2, pes, x, y)
            }));
            assert(m_label_named(ns, es.take(k), x, y) == (if (x == ns[e.a] && y == ns[e.b]) || (x
                == ns[e.b] && y == ns[e.a]) {
                label
            } else {
                m_label_named(ns, tes, x, y)
            }));
            if !((x == na && y == nb) || (x == nb && y == na)) {
                assert(m_has_edge_named(ns, tes, x, y));
                assert(m_has_edge_named(pns, pes, x, y));
                assert(m_label_named(pns2, pes, x, y) == m_label_named(pns, pes, x, y));
                assert(m_label_named(pns, pes, x, y) == m_label_named(ns, tes, x, y));
            }
        }
    }
}

/// Parsing then serializing preserves the edge set, as unordered name pairs
/// with their labels: the reparse of a well-formed graph's text joins
/// exactly the same name pairs, each with its original label. Record order
/// and endpoint order within a record are not preserved, and a node with no
/// edge has no record; only the edge set is claimed.
pub proof fn lemma_sif_round_trip(g: MappedGraph, g2: MappedGraph)
    requires
        g.wf(),
        graph_sif_clean(g.name_seq(), g.edge_model()),
        g2.name_seq() == sif_names(lines_of(sif_text_of(g.name_seq(), g.edge_model()))),
        g2.edge_model() == sif_edges(lines_of(sif_text_of(g.name_seq(), g.edge_model()))),
    ensures
        forall|x: Seq<char>, y: Seq<char>|
            #[trigger] g2.has_edge_named(x, y) <==> g.has_edge_named(x, y),
        forall|x: Seq<char>, y: Seq<char>|
            g.has_edge_named(x, y) ==> #[trigger] g2.label_named(x, y) == g.label_named(x, y),
{
    let ns = g.name_seq();
    let es = g.edge_model();
    let text = sif_text_of(ns, es);
    lemma_split_of_text(ns, es);
    lemma_split_on_nonempty(text, '\n');
    assert(split_on(text, '\n').last() == Seq::<char>::empty());
    assert(lines_of(text) =~= line_rows(ns, es)) by {
        assert(split_on(text, '\n').drop_last() =~= line_rows(ns, es));
    }
    lemma_parse_lines_pointwise(ns, es, es.len() as int);
    assert(line_rows(ns, es).take(es.len() as int) =~= line_rows(ns, es));
    assert(es.take(es.len() as int) =~= es);
}

/// The positions of the malformed records, in order.
pub open spec fn malformed_of(ls: Seq<Seq<char>>) -> Seq<int>
    decreases ls.len(),
{
    if ls.len() == 0 {
        Seq::empty()
    } else {
        let prev = malformed_of(ls.drop_last());
        if line_wf(ls.last()) {
            prev
        } else {
            prev.push(ls.len() - 1)
        }
    }
}

/// The 0-based positions of the records the parser skips as malformed, for
/// diagnostic reporting on a side channel; parsing itself continues past
/// them.
pub fn malformed_lines(contents: &str) -> (r: Vec<usize>)
    ensures
        r@.map_values(|v: usize| v as int) == malformed_of(lines_of(contents@)),
{
    let lines = split_lines(contents);
    let ghost ls = lines_of(contents@);
    let mut r: Vec<usize> = Vec::new();
    let mut i: usize = 0;
    proof {
        assert(ls.take(0) =~= Seq::<Seq<char>>::empty());
        assert(r@.map_values(|v: usize| v as int) =~= Seq::<int>::empty());
    }
    while i < lines.len()
        invariant
            i <= lines.len(),
            lines.deep_view() == ls,
            r@.map_values(|v: usize| v as int) == malformed_of(ls.take(i as int)),
        decreases lines.len() - i,
    {
        let ghost l = ls[i as int];
        proof {
            assert(lines@[i as int]@ == ls[i as int]);
            assert(ls.take(i + 1 as int).drop_last() =~= ls.take(i as int));
            assert(ls.take(i + 1 as int).last() == l);
        }
        let fields = split_str(lines[i].as_str(), '\t');
        if fields.len() != 3 {
            proof {
                assert(!line_wf(l));
            }
            r.push(i);
            proof {
                assert(r@.map_values(|v: usize| v as int) =~= malformed_of(ls.take(i + 1 as int)));
            }
        } else {
            proof {
                assert(line_wf(l));
            }
        }
        i = i + 1;
    }
    proof {
        assert(ls.take(lines@.len() as int) =~= ls);
    }
    r
}

} // verus!
