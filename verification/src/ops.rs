//! Set operations on networks: union of two graphs, overlay of one graph's
//! edges onto another, and line-level filtered removal.

use vstd::prelude::*;

use crate::graph::{
    distinct_names, has_pair, intern_all, interned, joins, m_edge_joins_names, m_has_edge_named,
    m_label_named, pairs_unique, position_of, updated_edges, valid_edges, EdgeModel, MappedGraph,
    Node, lemma_edge_position, lemma_has_named_push, lemma_position_of,
    lemma_updated_edges_named,
};
use crate::codec::{fields_of, line_wf, sif_edges, sif_names, sif_to_graph};
use crate::text::{
    lemma_split_on_append_seg, lemma_split_on_append_sep, lemma_split_on_sep_free, lines_of,
    sep_free, split_lines, split_on, split_str,
};

verus! {

/// The neutral label a union gives every edge: original labels are not
/// merged, connectivity alone is preserved.
pub open spec fn union_label() -> Seq<char> {
    seq!['-']
}

/// Fold one source graph's edges into an accumulator, re-expressed between
/// the handles `u_ns` assigns to the endpoint names, each labeled `"-"`.
pub open spec fn union_edges(
    acc: Seq<EdgeModel>,
    src_ns: Seq<Seq<char>>,
    src_es: Seq<EdgeModel>,
    u_ns: Seq<Seq<char>>,
) -> Seq<EdgeModel>
    decreases src_es.len(),
{
    if src_es.len() == 0 {
        acc
    } else {
        let prev = union_edges(acc, src_ns, src_es.drop_last(), u_ns);
        let e = src_es.last();
        updated_edges(
            prev,
            position_of(u_ns, src_ns[e.a]),
            position_of(u_ns, src_ns[e.b]),
            union_label(),
        )
    }
}

/// What the union fold does, read pointwise at the name level: the result
/// joins exactly the pairs joined in the accumulator or in the source, the
/// source's pairs all carry `"-"`, and other pairs keep their accumulator
/// label.
pub proof fn lemma_union_edges_named(
    acc: Seq<EdgeModel>,
    src_ns: Seq<Seq<char>>,
    src_es: Seq<EdgeModel>,
    u_ns: Seq<Seq<char>>,
)
    requires
        distinct_names(u_ns),
        valid_edges(acc, u_ns.len() as int),
        pairs_unique(acc),
        valid_edges(src_es, src_ns.len() as int),
        forall|j: int| 0 <= j < src_ns.len() ==> u_ns.contains(#[trigger] src_ns[j]),
    ensures
        valid_edges(union_edges(acc, src_ns, src_es, u_ns), u_ns.len() as int),
        pairs_unique(union_edges(acc, src_ns, src_es, u_ns)),
        forall|x: Seq<char>, y: Seq<char>|
            #[trigger] m_has_edge_named(u_ns, union_edges(acc, src_ns, src_es, u_ns), x, y) <==> (
            m_has_edge_named(u_ns, acc, x, y) || m_has_edge_named(src_ns, src_es, x, y)),
        forall|x: Seq<char>, y: Seq<char>|
            m_has_edge_named(u_ns, union_edges(acc, src_ns, src_es, u_ns), x, y)
                ==> #[trigger] m_label_named(u_ns, union_edges(acc, src_ns, src_es, u_ns), x, y)
                == (if m_has_edge_named(src_ns, src_es, x, y) {
                union_label()
            } else {
                m_label_named(u_ns, acc, x, y)
            }),
    decreases src_es.len(),
{
    if src_es.len() == 0 {
        assert(forall|x: Seq<char>, y: Seq<char>|
            !m_has_edge_named(src_ns, src_es, x, y)) by {
            assert forall|x: Seq<char>, y: Seq<char>|
                !m_has_edge_named(src_ns, src_es, x, y) by {
                if m_has_edge_named(src_ns, src_es, x, y) {
                    let k = choose|k: int|
                        0 <= k < src_es.len() && m_edge_joins_names(src_ns, src_es, k, x, y);
                }
            }
        }
    } else {
        let front = src_es.drop_last();
        let e = src_es.last();
        lemma_union_edges_named(acc, src_ns, front, u_ns);
        let prev = union_edges(acc, src_ns, front, u_ns);
        let res = union_edges(acc, src_ns, src_es, u_ns);
        let na = src_ns[e.a];
        let nb = src_ns[e.b];
        let pa = position_of(u_ns, na);
        let pb = position_of(u_ns, nb);
        lemma_position_of(u_ns, na);
        lemma_position_of(u_ns, nb);
        assert(u_ns.contains(na) && u_ns.contains(nb));
        assert(0 <= pa < u_ns.len() && u_ns[pa] == na);
        assert(0 <= pb < u_ns.len() && u_ns[pb] == nb);
        lemma_updated_edges_named(u_ns, prev, pa, pb, union_label());
        assert(res == updated_edges(prev, pa, pb, union_label()));
        assert(valid_edges(res, u_ns.len() as int)) by {
            lemma_edge_position(prev, pa, pb);
            assert forall|k: int| 0 <= k < res.len() implies 0 <= (#[trigger] res[k]).a
                < u_ns.len() && 0 <= res[k].b < u_ns.len() by {
                if k < prev.len() {
                    assert(res[k].a == prev[k].a && res[k].b == prev[k].b);
                }
            }
        }
        assert(pairs_unique(res)) by {
            lemma_edge_position(prev, pa, pb);
            assert forall|i: int, j: int| 0 <= i < j < res.len() implies !joins(
                #[trigger] res[i],
                (#[trigger] res[j]).a,
                res[j].b,
            ) by {
                if j < prev.len() {
                    assert(res[i].a == prev[i].a && res[i].b == prev[i].b);
                    assert(res[j].a == prev[j].a && res[j].b == prev[j].b);
                    assert(!joins(prev[i], prev[j].a, prev[j].b));
                } else {
                    assert(res[i].a == prev[i].a && res[i].b == prev[i].b);
                    if joins(prev[i], pa, pb) {
                        assert(has_pair(prev, pa, pb));
                    }
                }
            }
        }
        assert forall|x: Seq<char>, y: Seq<char>| #[trigger]
            m_has_edge_named(src_ns, src_es, x, y) <==> (m_has_edge_named(src_ns, front, x, y)
            || (na == x && nb == y) || (na == y && nb == x)) by {
            assert(front.push(e) =~= src_es);
            lemma_has_named_push(src_ns, front, e, x, y);
        }
    }
}

/// Interning a batch of names reaches exactly the names already present or
/// in the batch.
pub proof fn lemma_intern_all_contains(ns: Seq<Seq<char>>, more: Seq<Seq<char>>)
    ensures
        forall|x: Seq<char>|
            #[trigger] intern_all(ns, more).contains(x) <==> (ns.contains(x) || more.contains(x)),
    decreases more.len(),
{
    if more.len() == 0 {
        assert forall|x: Seq<char>| #[trigger]
            intern_all(ns, more).contains(x) <==> (ns.contains(x) || more.contains(x)) by {
            if more.contains(x) {
                let i = choose|i: int| 0 <= i < more.len() && more[i] == x;
            }
        }
    } else {
        lemma_intern_all_contains(ns, more.drop_last());
        let prev = intern_all(ns, more.drop_last());
        let res = intern_all(ns, more);
        let y = more.last();
        assert forall|x: Seq<char>| #[trigger]
            res.contains(x) <==> (ns.contains(x) || more.contains(x)) by {
            assert(res == interned(prev, y));
            if res.contains(x) {
                let i = choose|i: int| 0 <= i < res.len() && res[i] == x;
                if i < prev.len() {
                    assert(prev[i] == x);
                    assert(prev.contains(x));
                    if more.drop_last().contains(x) {
                        let j = choose|j: int|
                            0 <= j < more.drop_last().len() && more.drop_last()[j] == x;
                        assert(more[j] == x);
                        assert(more.contains(x));
                    }
                } else {
                    assert(x == y);
                    assert(more[more.len() - 1] == x);
                    assert(more.contains(x));
                }
            }
            if ns.contains(x) {
                assert(prev.contains(x));
                crate::graph::lemma_interned_stable(prev, x, y);
            }
            if more.contains(x) {
                let j = choose|j: int| 0 <= j < more.len() && more[j] == x;
                if j < more.len() - 1 {
                    assert(more.drop_last()[j] == x);
                    assert(more.drop_last().contains(x));
                    assert(prev.contains(x));
                    crate::graph::lemma_interned_stable(prev, x, y);
                } else {
                    assert(x == y);
                    crate::graph::lemma_position_of(prev, y);
                    if !prev.contains(y) {
                        assert(res[prev.len() as int] == y);
                    }
                }
            }
        }
    }
}

/// Union of two networks, as a new graph: its node set is the union of the
/// two node-name sets (each name interned once, first appearances of `a`'s
/// names before `b`'s); its edges join exactly the name pairs joined in
/// either input, every one labeled `"-"`.
pub fn union(a: &MappedGraph, b: &MappedGraph) -> (u: MappedGraph)
    requires
        a.wf(),
        b.wf(),
    ensures
        u.wf(),
        u.name_seq() == intern_all(intern_all(Seq::empty(), a.name_seq()), b.name_seq()),
        u.edge_model() == union_edges(
            union_edges(Seq::empty(), a.name_seq(), a.edge_model(), u.name_seq()),
            b.name_seq(),
            b.edge_model(),
            u.name_seq(),
        ),
        u.name_set() == a.name_set().union(b.name_set()),
        forall|x: Seq<char>, y: Seq<char>|
            #[trigger] u.has_edge_named(x, y) <==> (a.has_edge_named(x, y) || b.has_edge_named(
                x,
                y,
            )),
        forall|x: Seq<char>, y: Seq<char>|
            u.has_edge_named(x, y) ==> #[trigger] u.label_named(x, y) == union_label(),
{
    let mut u = MappedGraph::new();
    let mut i: usize = 0;
    proof {
        assert(a.name_seq().take(0) =~= Seq::<Seq<char>>::empty());
        assert(intern_all(Seq::empty(), Seq::<Seq<char>>::empty()) == Seq::<Seq<char>>::empty());
    }
    while i < a.nodes.len()
        invariant
            i <= a.nodes.len(),
            a.wf(),
            u.wf(),
            u.name_seq() == intern_all(Seq::empty(), a.name_seq().take(i as int)),
            u.edge_model() == Seq::<EdgeModel>::empty(),
        decreases a.nodes.len() - i,
    {
        proof {
            assert(a.name_seq().take(i + 1 as int).drop_last() =~= a.name_seq().take(i as int));
            assert(a.name_seq().take(i + 1 as int).last() == a.name_seq()[i as int]);
            assert(a.name_seq()[i as int] == a.nodes@[i as int].name@);
        }
        let _ = u.add_node(Node::new(a.nodes[i].name.clone()));
        i = i + 1;
    }
    let ghost ns_a = u.name_seq();
    proof {
        assert(a.name_seq().take(a.nodes@.len() as int) =~= a.name_seq());
        assert(ns_a == intern_all(Seq::empty(), a.name_seq()));
        assert(b.name_seq().take(0) =~= Seq::<Seq<char>>::empty());
    }
    let mut i: usize = 0;
    while i < b.nodes.len()
        invariant
            i <= b.nodes.len(),
            b.wf(),
            u.wf(),
            u.name_seq() == intern_all(ns_a, b.name_seq().take(i as int)),
            u.edge_model() == Seq::<EdgeModel>::empty(),
        decreases b.nodes.len() - i,
    {
        proof {
            assert(b.name_seq().take(i + 1 as int).drop_last() =~= b.name_seq().take(i as int));
            assert(b.name_seq().take(i + 1 as int).last() == b.name_seq()[i as int]);
            assert(b.name_seq()[i as int] == b.nodes@[i as int].name@);
        }
        let _ = u.add_node(Node::new(b.nodes[i].name.clone()));
        i = i + 1;
    }
    let ghost u_ns = u.name_seq();
    proof {
        assert(b.name_seq().take(b.nodes@.len() as int) =~= b.name_seq());
        assert(u_ns == intern_all(ns_a, b.name_seq()));
        lemma_intern_all_contains(Seq::empty(), a.name_seq());
        lemma_intern_all_contains(ns_a, b.name_seq());
        assert(forall|x: Seq<char>|
            #[trigger] u_ns.contains(x) <==> (a.name_seq().contains(x) || b.name_seq().contains(
                x,
            )));
    }
    let mut k: usize = 0;
    proof {
        assert(a.edge_model().take(0) =~= Seq::<EdgeModel>::empty());
    }
    while k < a.edges.len()
        invariant
            k <= a.edges.len(),
            a.wf(),
            u.wf(),
            u.name_seq() == u_ns,
            forall|x: Seq<char>|
                #[trigger] u_ns.contains(x) <==> (a.name_seq().contains(x)
                    || b.name_seq().contains(x)),
            u.edge_model() == union_edges(
                Seq::empty(),
                a.name_seq(),
                a.edge_model().take(k as int),
                u_ns,
            ),
        decreases a.edges.len() - k,
    {
        proof {
            assert(a.edge_model()[k as int] == EdgeModel {
                a: a.edges@[k as int].a as int,
                b: a.edges@[k as int].b as int,
                label: a.edges@[k as int].label@,
            });
            assert(0 <= a.edge_model()[k as int].a < a.name_seq().len());
            assert(0 <= a.edge_model()[k as int].b < a.name_seq().len());
            assert(a.name_seq().contains(a.name_seq()[a.edge_model()[k as int].a]));
            assert(a.name_seq().contains(a.name_seq()[a.edge_model()[k as int].b]));
        }
        let ea = a.edges[k].a;
        let eb = a.edges[k].b;
        let ha = match u.find_node(&a.nodes[ea].name) {
            Some(h) => h,
            None => {
                proof {
                    assert(a.name_seq()[ea as int] == a.nodes@[ea as int].name@);
                }
                vstd::pervasive::unreached()
            },
        };
        let hb = match u.find_node(&a.nodes[eb].name) {
            Some(h) => h,
            None => {
                proof {
                    assert(a.name_seq()[eb as int] == a.nodes@[eb as int].name@);
                }
                vstd::pervasive::unreached()
            },
        };
        u.add_edge(ha, hb, String::from_str("-"));
        proof {
            reveal_strlit("-");
            assert(("-")@ =~= union_label());
            assert(a.edge_model().take(k + 1 as int).drop_last() =~= a.edge_model().take(k as int));
            assert(a.edge_model().take(k + 1 as int).last() == a.edge_model()[k as int]);
            assert(a.name_seq()[ea as int] == a.nodes@[ea as int].name@);
            assert(a.name_seq()[eb as int] == a.nodes@[eb as int].name@);
            assert(u.edge_model() == union_edges(
                Seq::empty(),
                a.name_seq(),
                a.edge_model().take(k + 1 as int),
                u_ns,
            ));
        }
        k = k + 1;
    }
    let ghost es_a = u.edge_model();
    proof {
        assert(a.edge_model().take(a.edges@.len() as int) =~= a.edge_model());
        assert(es_a == union_edges(Seq::empty(), a.name_seq(), a.edge_model(), u_ns));
        assert(b.edge_model().take(0) =~= Seq::<EdgeModel>::empty());
    }
    let mut k: usize = 0;
    while k < b.edges.len()
        invariant
            k <= b.edges.len(),
            b.wf(),
            u.wf(),
            u.name_seq() == u_ns,
            forall|x: Seq<char>|
                #[trigger] u_ns.contains(x) <==> (a.name_seq().contains(x)
                    || b.name_seq().contains(x)),
            u.edge_model() == union_edges(es_a, b.name_seq(), b.edge_model().take(k as int), u_ns),
        decreases b.edges.len() - k,
    {
        proof {
            assert(b.edge_model()[k as int] == EdgeModel {
                a: b.edges@[k as int].a as int,
                b: b.edges@[k as int].b as int,
                label: b.edges@[k as int].label@,
            });
            assert(0 <= b.edge_model()[k as int].a < b.name_seq().len());
            assert(0 <= b.edge_model()[k as int].b < b.name_seq().len());
            assert(b.name_seq().contains(b.name_seq()[b.edge_model()[k as int].a]));
            assert(b.name_seq().contains(b.name_seq()[b.edge_model()[k as int].b]));
        }
        let ea = b.edges[k].a;
        let eb = b.edges[k].b;
        let ha = match u.find_node(&b.nodes[ea].name) {
            Some(h) => h,
            None => {
                proof {
                    assert(b.name_seq()[ea as int] == b.nodes@[ea as int].name@);
                }
                vstd::pervasive::unreached()
            },
        };
        let hb = match u.find_node(&b.nodes[eb].name) {
            Some(h) => h,
            None => {
                proof {
                    assert(b.name_seq()[eb as int] == b.nodes@[eb as int].name@);
                }
                vstd::pervasive::unreached()
            },
        };
        u.add_edge(ha, hb, String::from_str("-"));
        proof {
            reveal_strlit("-");
            assert(("-")@ =~= union_label());
            assert(b.edge_model().take(k + 1 as int).drop_last() =~= b.edge_model().take(k as int));
            assert(b.edge_model().take(k + 1 as int).last() == b.edge_model()[k as int]);
            assert(b.name_seq()[ea as int] == b.nodes@[ea as int].name@);
            assert(b.name_seq()[eb as int] == b.nodes@[eb as int].name@);
            assert(u.edge_model() == union_edges(
                es_a,
                b.name_seq(),
                b.edge_model().take(k + 1 as int),
                u_ns,
            ));
        }
        k = k + 1;
    }
    proof {
        assert(b.edge_model().take(b.edges@.len() as int) =~= b.edge_model());
        assert(forall|j: int|
            0 <= j < a.name_seq().len() ==> u_ns.contains(#[trigger] a.name_seq()[j]));
        assert(forall|j: int|
            0 <= j < b.name_seq().len() ==> u_ns.contains(#[trigger] b.name_seq()[j]));
        lemma_union_edges_named(Seq::empty(), a.name_seq(), a.edge_model(), u_ns);
        lemma_union_edges_named(es_a, b.name_seq(), b.edge_model(), u_ns);
        assert forall|x: Seq<char>, y: Seq<char>| !m_has_edge_named(
            u_ns,
            Seq::<EdgeModel>::empty(),
            x,
            y,
        ) by {
            if m_has_edge_named(u_ns, Seq::<EdgeModel>::empty(), x, y) {
                let j = choose|j: int|
                    0 <= j < Seq::<EdgeModel>::empty().len() && m_edge_joins_names(
                        u_ns,
                        Seq::<EdgeModel>::empty(),
                        j,
                        x,
                        y,
                    );
            }
        }
        assert(u.name_set() =~= a.name_set().union(b.name_set())) by {
            assert forall|x: Seq<char>|
                u.name_set().contains(x) <==> a.name_set().union(b.name_set()).contains(x) by {
                assert(u.name_set().contains(x) <==> u_ns.contains(x));
                assert(a.name_set().contains(x) <==> a.name_seq().contains(x));
                assert(b.name_set().contains(x) <==> b.name_seq().contains(x));
            }
        }
    }
    u
}

/// Union of two triplet texts, as a new graph: parse both, then unite them.
pub fn sif_union(a: &str, b: &str) -> (u: MappedGraph)
    ensures
        u.wf(),
        u.name_seq() == intern_all(
            intern_all(Seq::empty(), sif_names(lines_of(a@))),
            sif_names(lines_of(b@)),
        ),
        u.edge_model() == union_edges(
            union_edges(Seq::empty(), sif_names(lines_of(a@)), sif_edges(lines_of(a@)), u.name_seq()),
            sif_names(lines_of(b@)),
            sif_edges(lines_of(b@)),
            u.name_seq(),
        ),
        u.name_set() == sif_names(lines_of(a@)).to_set().union(sif_names(lines_of(b@)).to_set()),
        forall|x: Seq<char>, y: Seq<char>|
            #[trigger] u.has_edge_named(x, y) <==> (m_has_edge_named(
                sif_names(lines_of(a@)),
                sif_edges(lines_of(a@)),
                x,
                y,
            ) || m_has_edge_named(sif_names(lines_of(b@)), sif_edges(lines_of(b@)), x, y)),
        forall|x: Seq<char>, y: Seq<char>|
            u.has_edge_named(x, y) ==> #[trigger] u.label_named(x, y) == union_label(),
{
    let ga = sif_to_graph(a);
    let gb = sif_to_graph(b);
    let u = union(&ga, &gb);
    proof {
        assert(ga.name_set() =~= sif_names(lines_of(a@)).to_set());
        assert(gb.name_set() =~= sif_names(lines_of(b@)).to_set());
    }
    u
}

/// The fixed label overlay writes on every projected edge.
pub open spec fn overlay_label() -> Seq<char> {
    seq!['O', 'V', 'E', 'R', 'L', 'A', 'Y']
}

/// Edge `k` of the secondary qualifies for projection: both its endpoint
/// names are node names of the primary.
pub open spec fn m_overlay_hit(
    s_ns: Seq<Seq<char>>,
    s_es: Seq<EdgeModel>,
    p_ns: Seq<Seq<char>>,
    k: int,
) -> bool {
    let e = s_es[k];
    p_ns.contains(s_ns[e.a]) && p_ns.contains(s_ns[e.b])
}

/// Overlay projects the name pair `{x, y}`: the secondary joins it, and both
/// names are node names of the primary.
pub open spec fn m_overlay_pair(
    s_ns: Seq<Seq<char>>,
    s_es: Seq<EdgeModel>,
    p_ns: Seq<Seq<char>>,
    x: Seq<char>,
    y: Seq<char>,
) -> bool {
    m_has_edge_named(s_ns, s_es, x, y) && p_ns.contains(x) && p_ns.contains(y)
}

/// The scan over (node `i`, edge `m`) has reached edge `k`: one of its
/// endpoints was a node already fully processed, or it is an already-passed
/// edge of the node in hand.
spec fn visited(s_es: Seq<EdgeModel>, k: int, i: int, m: int) -> bool {
    let e = s_es[k];
    e.a < i || e.b < i || ((e.a == i || e.b == i) && k < m)
}

/// The name pair `{x, y}` has been projected by the scan so far.
spec fn overlaid_upto(
    s_ns: Seq<Seq<char>>,
    s_es: Seq<EdgeModel>,
    p_ns: Seq<Seq<char>>,
    i: int,
    m: int,
    x: Seq<char>,
    y: Seq<char>,
) -> bool {
    exists|k: int|
        0 <= k < s_es.len() && #[trigger] m_edge_joins_names(s_ns, s_es, k, x, y) && m_overlay_hit(
            s_ns,
            s_es,
            p_ns,
            k,
        ) && visited(s_es, k, i, m)
}

/// What overlay does to the primary: its node row is untouched, exactly the
/// projected pairs gain (or re-label to) `"OVERLAY"`, and every other edge
/// keeps its label.
pub open spec fn overlay_rel(s: MappedGraph, p_old: MappedGraph, p_new: MappedGraph) -> bool {
    &&& p_new.wf()
    &&& p_new.name_seq() == p_old.name_seq()
    &&& forall|x: Seq<char>, y: Seq<char>|
        #[trigger] p_new.has_edge_named(x, y) <==> (p_old.has_edge_named(x, y) || m_overlay_pair(
            s.name_seq(),
            s.edge_model(),
            p_old.name_seq(),
            x,
            y,
        ))
    &&& forall|x: Seq<char>, y: Seq<char>|
        p_new.has_edge_named(x, y) ==> #[trigger] p_new.label_named(x, y) == (if m_overlay_pair(
            s.name_seq(),
            s.edge_model(),
            p_old.name_seq(),
            x,
            y,
        ) {
            overlay_label()
        } else {
            p_old.label_named(x, y)
        })
}

/// Overlay the secondary network onto the primary: for every unordered name
/// pair joined in the secondary whose both names are nodes of the primary,
/// set (create or overwrite) the primary's edge between those nodes with the
/// label `"OVERLAY"`. No node is added to the primary, and every other edge
/// of the primary keeps its label. Each qualifying secondary edge is reached
/// twice, once from each endpoint; the overwrite makes the second visit
/// harmless.
pub fn overlay(to_overlay: &MappedGraph, primary: &mut MappedGraph)
    requires
        to_overlay.wf(),
        old(primary).wf(),
    ensures
        overlay_rel(*to_overlay, *old(primary), *final(primary)),
{
    let ghost s_ns = to_overlay.name_seq();
    let ghost s_es = to_overlay.edge_model();
    let ghost p0 = *old(primary);
    proof {
        assert forall|x: Seq<char>, y: Seq<char>|
            !overlaid_upto(s_ns, s_es, p0.name_seq(), 0, 0, x, y) by {
            if overlaid_upto(s_ns, s_es, p0.name_seq(), 0, 0, x, y) {
                let k = choose|k: int|
                    0 <= k < s_es.len() && #[trigger] m_edge_joins_names(s_ns, s_es, k, x, y)
                        && m_overlay_hit(s_ns, s_es, p0.name_seq(), k) && visited(s_es, k, 0, 0);
                assert(0 <= s_es[k].a && 0 <= s_es[k].b);
            }
        }
    }
    let mut i: usize = 0;
    while i < to_overlay.nodes.len()
        invariant
            i <= to_overlay.nodes.len(),
            to_overlay.wf(),
            p0.wf(),
            s_ns == to_overlay.name_seq(),
            s_es == to_overlay.edge_model(),
            primary.wf(),
            primary.name_seq() == p0.name_seq(),
            forall|x: Seq<char>, y: Seq<char>|
                #[trigger] primary.has_edge_named(x, y) <==> (p0.has_edge_named(x, y)
                    || overlaid_upto(s_ns, s_es, p0.name_seq(), i as int, 0, x, y)),
            forall|x: Seq<char>, y: Seq<char>|
                primary.has_edge_named(x, y) ==> #[trigger] primary.label_named(x, y) == (
                if overlaid_upto(s_ns, s_es, p0.name_seq(), i as int, 0, x, y) {
                    overlay_label()
                } else {
                    p0.label_named(x, y)
                }),
        decreases to_overlay.nodes.len() - i,
    {
        let ghost p_ns = p0.name_seq();
        proof {
            assert(s_ns[i as int] == to_overlay.nodes@[i as int].name@);
        }
        match primary.find_node(&to_overlay.nodes[i].name) {
            Some(pi) => {
                let mut m: usize = 0;
                while m < to_overlay.edges.len()
                    invariant
                        m <= to_overlay.edges.len(),
                        i < to_overlay.nodes.len(),
                        to_overlay.wf(),
                        p0.wf(),
                        s_ns == to_overlay.name_seq(),
                        s_es == to_overlay.edge_model(),
                        primary.wf(),
                        primary.name_seq() == p0.name_seq(),
                        p_ns == p0.name_seq(),
                        pi < p0.name_seq().len(),
                        p0.name_seq()[pi as int] == s_ns[i as int],
                        p0.name_seq().contains(s_ns[i as int]),
                        forall|x: Seq<char>, y: Seq<char>|
                            #[trigger] primary.has_edge_named(x, y) <==> (p0.has_edge_named(x, y)
                                || overlaid_upto(
                                s_ns,
                                s_es,
                                p0.name_seq(),
                                i as int,
                                m as int,
                                x,
                                y,
                            )),
                        forall|x: Seq<char>, y: Seq<char>|
                            primary.has_edge_named(x, y) ==> #[trigger] primary.label_named(x, y)
                                == (if overlaid_upto(
                                s_ns,
                                s_es,
                                p0.name_seq(),
                                i as int,
                                m as int,
                                x,
                                y,
                            ) {
                                overlay_label()
                            } else {
                                p0.label_named(x, y)
                            }),
                    decreases to_overlay.edges.len() - m,
                {
                    proof {
                        assert(s_es[m as int] == EdgeModel {
                            a: to_overlay.edges@[m as int].a as int,
                            b: to_overlay.edges@[m as int].b as int,
                            label: to_overlay.edges@[m as int].label@,
                        });
                        assert(0 <= s_es[m as int].a < s_ns.len());
                        assert(0 <= s_es[m as int].b < s_ns.len());
                    }
                    let ea = to_overlay.edges[m].a;
                    let eb = to_overlay.edges[m].b;
                    if ea == i || eb == i {
                        let j = if ea == i {
                            eb
                        } else {
                            ea
                        };
                        proof {
                            assert(s_ns[j as int] == to_overlay.nodes@[j as int].name@);
                        }
                        match primary.find_node(&to_overlay.nodes[j].name) {
                            Some(pj) => {
                                let ghost prev = *primary;
                                primary.add_edge(pi, pj, String::from_str("OVERLAY"));
                                proof {
                                    reveal_strlit("OVERLAY");
                                    assert(("OVERLAY")@ =~= overlay_label());
                                    lemma_updated_edges_named(
                                        p_ns,
                                        prev.edge_model(),
                                        pi as int,
                                        pj as int,
                                        overlay_label(),
                                    );
                                    assert(p_ns[pi as int] == s_ns[i as int]);
                                    assert(p_ns[pj as int] == s_ns[j as int]);
                                    assert forall|x: Seq<char>, y: Seq<char>|
                                        overlaid_upto(
                                            s_ns,
                                            s_es,
                                            p_ns,
                                            i as int,
                                            m + 1 as int,
                                            x,
                                            y,
                                        ) <==> (overlaid_upto(
                                        s_ns,
                                        s_es,
                                        p_ns,
                                        i as int,
                                        m as int,
                                        x,
                                        y,
                                    ) || (x == s_ns[i as int] && y == s_ns[j as int]) || (x
                                        == s_ns[j as int] && y == s_ns[i as int])) by {
                                        if overlaid_upto(
                                            s_ns,
                                            s_es,
                                            p_ns,
                                            i as int,
                                            m + 1 as int,
                                            x,
                                            y,
                                        ) {
                                            let k = choose|k: int|
                                                0 <= k < s_es.len()
                                                    && #[trigger] m_edge_joins_names(
                                                    s_ns,
                                                    s_es,
                                                    k,
                                                    x,
                                                    y,
                                                ) && m_overlay_hit(s_ns, s_es, p_ns, k) && visited(
                                                    s_es,
                                                    k,
                                                    i as int,
                                                    m + 1 as int,
                                                );
                                            if k != m {
                                                assert(visited(s_es, k, i as int, m as int));
                                                assert(overlaid_upto(
                                                    s_ns,
                                                    s_es,
                                                    p_ns,
                                                    i as int,
                                                    m as int,
                                                    x,
                                                    y,
                                                ));
                                            } else {
                                                assert((x == s_ns[i as int] && y
                                                    == s_ns[j as int]) || (x == s_ns[j as int] && y
                                                    == s_ns[i as int]));
                                            }
                                        }
                                        if overlaid_upto(s_ns, s_es, p_ns, i as int, m as int, x, y) {
                                            let k = choose|k: int|
                                                0 <= k < s_es.len()
                                                    && #[trigger] m_edge_joins_names(
                                                    s_ns,
                                                    s_es,
                                                    k,
                                                    x,
                                                    y,
                                                ) && m_overlay_hit(s_ns, s_es, p_ns, k) && visited(
                                                    s_es,
                                                    k,
                                                    i as int,
                                                    m as int,
                                                );
                                            assert(visited(s_es, k, i as int, m + 1 as int));
                                            assert(overlaid_upto(
                                                s_ns,
                                                s_es,
                                                p_ns,
                                                i as int,
                                                m + 1 as int,
                                                x,
                                                y,
                                            ));
                                        }
                                        if (x == s_ns[i as int] && y == s_ns[j as int]) || (x
                                            == s_ns[j as int] && y == s_ns[i as int]) {
                                            assert(m_edge_joins_names(
                                                s_ns,
                                                s_es,
                                                m as int,
                                                x,
                                                y,
                                            ));
                                            assert(m_overlay_hit(s_ns, s_es, p_ns, m as int));
                                            assert(visited(s_es, m as int, i as int, m + 1 as int));
                                            assert(overlaid_upto(
                                                s_ns,
                                                s_es,
                                                p_ns,
                                                i as int,
                                                m + 1 as int,
                                                x,
                                                y,
                                            ));
                                        }
                                    }
                                    let ghost es_new = updated_edges(
                                        prev.edge_model(),
                                        pi as int,
                                        pj as int,
                                        overlay_label(),
                                    );
                                    assert(primary.edge_model() == es_new);
                                    assert forall|x: Seq<char>, y: Seq<char>| #[trigger]
                                        primary.has_edge_named(x, y) <==> (p0.has_edge_named(x, y)
                                        || overlaid_upto(
                                        s_ns,
                                        s_es,
                                        p_ns,
                                        i as int,
                                        m + 1 as int,
                                        x,
                                        y,
                                    )) by {
                                        assert(primary.has_edge_named(x, y) == m_has_edge_named(
                                            p_ns,
                                            es_new,
                                            x,
                                            y,
                                        ));
                                        assert(m_has_edge_named(p_ns, es_new, x, y) <==> (
                                        m_has_edge_named(p_ns, prev.edge_model(), x, y) || (x
                                            == p_ns[pi as int] && y == p_ns[pj as int]) || (x
                                            == p_ns[pj as int] && y == p_ns[pi as int])));
                                        assert(prev.has_edge_named(x, y) == m_has_edge_named(
                                            p_ns,
                                            prev.edge_model(),
                                            x,
                                            y,
                                        ));
                                    }
                                    assert forall|x: Seq<char>, y: Seq<char>|
                                        primary.has_edge_named(x, y) implies #[trigger]
                                    primary.label_named(x, y) == (if overlaid_upto(
                                        s_ns,
                                        s_es,
                                        p_ns,
                                        i as int,
                                        m + 1 as int,
                                        x,
                                        y,
                                    ) {
                                        overlay_label()
                                    } else {
                                        p0.label_named(x, y)
                                    }) by {
                                        assert(primary.has_edge_named(x, y) == m_has_edge_named(
                                            p_ns,
                                            es_new,
                                            x,
                                            y,
                                        ));
                                        assert(primary.label_named(x, y) == m_label_named(
                                            p_ns,
                                            es_new,
                                            x,
                                            y,
                                        ));
                                        assert(m_label_named(p_ns, es_new, x, y) == (if (x
                                            == p_ns[pi as int] && y == p_ns[pj as int]) || (x
                                            == p_ns[pj as int] && y == p_ns[pi as int]) {
                                            overlay_label()
                                        } else {
                                            m_label_named(p_ns, prev.edge_model(), x, y)
                                        }));
                                        if (x == p_ns[pi as int] && y == p_ns[pj as int]) || (x
                                            == p_ns[pj as int] && y == p_ns[pi as int]) {
                                            assert((x == s_ns[i as int] && y == s_ns[j as int])
                                                || (x == s_ns[j as int] && y == s_ns[i as int]));
                                            assert(m_edge_joins_names(
                                                s_ns,
                                                s_es,
                                                m as int,
                                                x,
                                                y,
                                            ));
                                            assert(m_overlay_hit(s_ns, s_es, p_ns, m as int));
                                            assert(visited(s_es, m as int, i as int, m + 1 as int));
                                            assert(overlaid_upto(
                                                s_ns,
                                                s_es,
                                                p_ns,
                                                i as int,
                                                m + 1 as int,
                                                x,
                                                y,
                                            ));
                                        } else {
                                            assert(m_has_edge_named(
                                                p_ns,
                                                prev.edge_model(),
                                                x,
                                                y,
                                            ));
                                            assert(prev.has_edge_named(x, y));
                                            assert(prev.label_named(x, y) == m_label_named(
                                                p_ns,
                                                prev.edge_model(),
                                                x,
                                                y,
                                            ));
                                        }
                                    }
                                }
                            },
                            None => {
                                proof {
                                    assert forall|x: Seq<char>, y: Seq<char>|
                                        overlaid_upto(
                                            s_ns,
                                            s_es,
                                            p_ns,
                                            i as int,
                                            m + 1 as int,
                                            x,
                                            y,
                                        ) <==> overlaid_upto(
                                        s_ns,
                                        s_es,
                                        p_ns,
                                        i as int,
                                        m as int,
                                        x,
                                        y,
                                    ) by {
                                        if overlaid_upto(
                                            s_ns,
                                            s_es,
                                            p_ns,
                                            i as int,
                                            m + 1 as int,
                                            x,
                                            y,
                                        ) {
                                            let k = choose|k: int|
                                                0 <= k < s_es.len()
                                                    && #[trigger] m_edge_joins_names(
                                                    s_ns,
                                                    s_es,
                                                    k,
                                                    x,
                                                    y,
                                                ) && m_overlay_hit(s_ns, s_es, p_ns, k) && visited(
                                                    s_es,
                                                    k,
                                                    i as int,
                                                    m + 1 as int,
                                                );
                                            if k == m {
                                                assert(!m_overlay_hit(s_ns, s_es, p_ns, m as int));
                                            } else {
                                                assert(visited(s_es, k, i as int, m as int));
                                            }
                                            assert(overlaid_upto(
                                                s_ns,
                                                s_es,
                                                p_ns,
                                                i as int,
                                                m as int,
                                                x,
                                                y,
                                            ));
                                        }
                                        if overlaid_upto(s_ns, s_es, p_ns, i as int, m as int, x, y) {
                                            let k = choose|k: int|
                                                0 <= k < s_es.len()
                                                    && #[trigger] m_edge_joins_names(
                                                    s_ns,
                                                    s_es,
                                                    k,
                                                    x,
                                                    y,
                                                ) && m_overlay_hit(s_ns, s_es, p_ns, k) && visited(
                                                    s_es,
                                                    k,
                                                    i as int,
                                                    m as int,
                                                );
                                            assert(visited(s_es, k, i as int, m + 1 as int));
                                        }
                                    }
                                }
                            },
                        }
                    } else {
                        proof {
                            assert forall|x: Seq<char>, y: Seq<char>|
                                overlaid_upto(s_ns, s_es, p_ns, i as int, m + 1 as int, x, y)
                                    <==> overlaid_upto(
                                s_ns,
                                s_es,
                                p_ns,
                                i as int,
                                m as int,
                                x,
                                y,
                            ) by {
                                if overlaid_upto(s_ns, s_es, p_ns, i as int, m + 1 as int, x, y) {
                                    let k = choose|k: int|
                                        0 <= k < s_es.len() && #[trigger] m_edge_joins_names(
                                            s_ns,
                                            s_es,
                                            k,
                                            x,
                                            y,
                                        ) && m_overlay_hit(s_ns, s_es, p_ns, k) && visited(
                                            s_es,
                                            k,
                                            i as int,
                                            m + 1 as int,
                                        );
                                    assert(visited(s_es, k, i as int, m as int));
                                }
                                if overlaid_upto(s_ns, s_es, p_ns, i as int, m as int, x, y) {
                                    let k = choose|k: int|
                                        0 <= k < s_es.len() && #[trigger] m_edge_joins_names(
                                            s_ns,
                                            s_es,
                                            k,
                                            x,
                                            y,
                                        ) && m_overlay_hit(s_ns, s_es, p_ns, k) && visited(
                                            s_es,
                                            k,
                                            i as int,
                                            m as int,
                                        );
                                    assert(visited(s_es, k, i as int, m + 1 as int));
                                }
                            }
                        }
                    }
                    m = m + 1;
                }
                proof {
                    assert forall|x: Seq<char>, y: Seq<char>|
                        overlaid_upto(
                            s_ns,
                            s_es,
                            p_ns,
                            i as int,
                            s_es.len() as int,
                            x,
                            y,
                        ) <==> overlaid_upto(s_ns, s_es, p_ns, i + 1 as int, 0, x, y) by {
                        if overlaid_upto(s_ns, s_es, p_ns, i as int, s_es.len() as int, x, y) {
                            let k = choose|k: int|
                                0 <= k < s_es.len() && #[trigger] m_edge_joins_names(
                                    s_ns,
                                    s_es,
                                    k,
                                    x,
                                    y,
                                ) && m_overlay_hit(s_ns, s_es, p_ns, k) && visited(
                                    s_es,
                                    k,
                                    i as int,
                                    s_es.len() as int,
                                );
                            assert(visited(s_es, k, i + 1 as int, 0));
                        }
                        if overlaid_upto(s_ns, s_es, p_ns, i + 1 as int, 0, x, y) {
                            let k = choose|k: int|
                                0 <= k < s_es.len() && #[trigger] m_edge_joins_names(
                                    s_ns,
                                    s_es,
                                    k,
                                    x,
                                    y,
                                ) && m_overlay_hit(s_ns, s_es, p_ns, k) && visited(
                                    s_es,
                                    k,
                                    i + 1 as int,
                                    0,
                                );
                            assert(visited(s_es, k, i as int, s_es.len() as int));
                        }
                    }
                }
            },
            None => {
                proof {
                    assert forall|x: Seq<char>, y: Seq<char>|
                        overlaid_upto(s_ns, s_es, p_ns, i + 1 as int, 0, x, y) <==> overlaid_upto(
                        s_ns,
                        s_es,
                        p_ns,
                        i as int,
                        0,
                        x,
                        y,
                    ) by {
                        if overlaid_upto(s_ns, s_es, p_ns, i + 1 as int, 0, x, y) {
                            let k = choose|k: int|
                                0 <= k < s_es.len() && #[trigger] m_edge_joins_names(
                                    s_ns,
                                    s_es,
                                    k,
                                    x,
                                    y,
                                ) && m_overlay_hit(s_ns, s_es, p_ns, k) && visited(
                                    s_es,
                                    k,
                                    i + 1 as int,
                                    0,
                                );
                            let e = s_es[k];
                            if e.a < i as int || e.b < i as int {
                                assert(visited(s_es, k, i as int, 0));
                            } else {
                                assert(e.a == i as int || e.b == i as int);
                                assert(s_ns[e.a] == s_ns[i as int] || s_ns[e.b]
                                    == s_ns[i as int]);
                                assert(!m_overlay_hit(s_ns, s_es, p_ns, k));
                            }
                            assert(overlaid_upto(s_ns, s_es, p_ns, i as int, 0, x, y));
                        }
                        if overlaid_upto(s_ns, s_es, p_ns, i as int, 0, x, y) {
                            let k = choose|k: int|
                                0 <= k < s_es.len() && #[trigger] m_edge_joins_names(
                                    s_ns,
                                    s_es,
                                    k,
                                    x,
                                    y,
                                ) && m_overlay_hit(s_ns, s_es, p_ns, k) && visited(
                                    s_es,
                                    k,
                                    i as int,
                                    0,
                                );
                            assert(visited(s_es, k, i + 1 as int, 0));
                        }
                    }
                }
            },
        }
        i = i + 1;
    }
    proof {
        assert forall|x: Seq<char>, y: Seq<char>|
            overlaid_upto(
                s_ns,
                s_es,
                p0.name_seq(),
                s_ns.len() as int,
                0,
                x,
                y,
            ) <==> m_overlay_pair(s_ns, s_es, p0.name_seq(), x, y) by {
            if overlaid_upto(s_ns, s_es, p0.name_seq(), s_ns.len() as int, 0, x, y) {
                let k = choose|k: int|
                    0 <= k < s_es.len() && #[trigger] m_edge_joins_names(s_ns, s_es, k, x, y)
                        && m_overlay_hit(s_ns, s_es, p0.name_seq(), k) && visited(
                        s_es,
                        k,
                        s_ns.len() as int,
                        0,
                    );
                assert(m_has_edge_named(s_ns, s_es, x, y));
                let e = s_es[k];
                assert((s_ns[e.a] == x && s_ns[e.b] == y) || (s_ns[e.a] == y && s_ns[e.b] == x));
                assert(p0.name_seq().contains(x) && p0.name_seq().contains(y));
            }
            if m_overlay_pair(s_ns, s_es, p0.name_seq(), x, y) {
                let k = choose|k: int|
                    0 <= k < s_es.len() && #[trigger] m_edge_joins_names(s_ns, s_es, k, x, y);
                let e = s_es[k];
                assert((s_ns[e.a] == x && s_ns[e.b] == y) || (s_ns[e.a] == y && s_ns[e.b] == x));
                assert(m_overlay_hit(s_ns, s_es, p0.name_seq(), k));
                assert(0 <= e.a < s_ns.len());
                assert(visited(s_es, k, s_ns.len() as int, 0));
                assert(overlaid_upto(s_ns, s_es, p0.name_seq(), s_ns.len() as int, 0, x, y));
            }
        }
    }
}

/// Overlay, starting from two triplet texts: parse both, project the first
/// onto the second, and return the mutated primary graph.
pub fn sif_overlay(to_overlay: &str, primary: &str) -> (g: MappedGraph)
    ensures
        g.wf(),
        g.name_seq() == sif_names(lines_of(primary@)),
        forall|x: Seq<char>, y: Seq<char>|
            #[trigger] g.has_edge_named(x, y) <==> (m_has_edge_named(
                sif_names(lines_of(primary@)),
                sif_edges(lines_of(primary@)),
                x,
                y,
            ) || m_overlay_pair(
                sif_names(lines_of(to_overlay@)),
                sif_edges(lines_of(to_overlay@)),
                sif_names(lines_of(primary@)),
                x,
                y,
            )),
        forall|x: Seq<char>, y: Seq<char>|
            g.has_edge_named(x, y) ==> #[trigger] g.label_named(x, y) == (if m_overlay_pair(
                sif_names(lines_of(to_overlay@)),
                sif_edges(lines_of(to_overlay@)),
                sif_names(lines_of(primary@)),
                x,
                y,
            ) {
                overlay_label()
            } else {
                m_label_named(
                    sif_names(lines_of(primary@)),
                    sif_edges(lines_of(primary@)),
                    x,
                    y,
                )
            }),
{
    let over = sif_to_graph(to_overlay);
    let mut prim = sif_to_graph(primary);
    overlay(&over, &mut prim);
    prim
}

/// Union is commutative on node sets and on edge sets: the two orders give
/// the same node-name set and the same joined name pairs, and every edge of
/// either result carries the one fixed label `"-"`.
pub proof fn lemma_union_commutative(
    a: MappedGraph,
    b: MappedGraph,
    u1: MappedGraph,
    u2: MappedGraph,
)
    requires
        u1.name_set() == a.name_set().union(b.name_set()),
        u2.name_set() == b.name_set().union(a.name_set()),
        forall|x: Seq<char>, y: Seq<char>|
            #[trigger] u1.has_edge_named(x, y) <==> (a.has_edge_named(x, y) || b.has_edge_named(
                x,
                y,
            )),
        forall|x: Seq<char>, y: Seq<char>|
            #[trigger] u2.has_edge_named(x, y) <==> (b.has_edge_named(x, y) || a.has_edge_named(
                x,
                y,
            )),
        forall|x: Seq<char>, y: Seq<char>|
            u1.has_edge_named(x, y) ==> #[trigger] u1.label_named(x, y) == union_label(),
        forall|x: Seq<char>, y: Seq<char>|
            u2.has_edge_named(x, y) ==> #[trigger] u2.label_named(x, y) == union_label(),
    ensures
        u1.name_set() == u2.name_set(),
        u1.edge_pairs() == u2.edge_pairs(),
        forall|x: Seq<char>, y: Seq<char>|
            u1.has_edge_named(x, y) ==> u1.label_named(x, y) == u2.label_named(x, y),
{
    assert(u1.name_set() =~= u2.name_set());
    assert(u1.edge_pairs() =~= u2.edge_pairs()) by {
        assert forall|p: (Seq<char>, Seq<char>)|
            u1.edge_pairs().contains(p) <==> u2.edge_pairs().contains(p) by {
            assert(u1.edge_pairs().contains(p) == u1.has_edge_named(p.0, p.1));
            assert(u2.edge_pairs().contains(p) == u2.has_edge_named(p.0, p.1));
        }
    }
    assert forall|x: Seq<char>, y: Seq<char>|
        u1.has_edge_named(x, y) implies u1.label_named(x, y) == u2.label_named(x, y) by {
        assert(u2.has_edge_named(x, y));
    }
}

/// Overlay is idempotent: applying it a second time with the same secondary
/// changes nothing — the edge set and every label stay as after the first
/// application. The primary's node row never changes at all.
pub proof fn lemma_overlay_idempotent(
    s: MappedGraph,
    p0: MappedGraph,
    p1: MappedGraph,
    p2: MappedGraph,
)
    requires
        overlay_rel(s, p0, p1),
        overlay_rel(s, p1, p2),
    ensures
        p2.name_seq() == p1.name_seq(),
        forall|x: Seq<char>, y: Seq<char>|
            #[trigger] p2.has_edge_named(x, y) <==> p1.has_edge_named(x, y),
        forall|x: Seq<char>, y: Seq<char>|
            p2.has_edge_named(x, y) ==> p2.label_named(x, y) == p1.label_named(x, y),
{
    assert(p1.name_seq() == p0.name_seq());
    assert forall|x: Seq<char>, y: Seq<char>| #[trigger]
        p2.has_edge_named(x, y) <==> p1.has_edge_named(x, y) by {
        assert(p2.has_edge_named(x, y) <==> (p1.has_edge_named(x, y) || m_overlay_pair(
            s.name_seq(),
            s.edge_model(),
            p1.name_seq(),
            x,
            y,
        )));
        assert(p1.has_edge_named(x, y) <==> (p0.has_edge_named(x, y) || m_overlay_pair(
            s.name_seq(),
            s.edge_model(),
            p0.name_seq(),
            x,
            y,
        )));
    }
    assert forall|x: Seq<char>, y: Seq<char>|
        p2.has_edge_named(x, y) implies p2.label_named(x, y) == p1.label_named(x, y) by {
        assert(p1.has_edge_named(x, y));
        if m_overlay_pair(s.name_seq(), s.edge_model(), p1.name_seq(), x, y) {
            assert(p2.label_named(x, y) == overlay_label());
            assert(p1.label_named(x, y) == overlay_label());
        } else {
            assert(p2.label_named(x, y) == p1.label_named(x, y));
        }
    }
}

/// The exclusion set: every record of the list text names one node.
pub open spec fn excluded_set(list: Seq<char>) -> Set<Seq<char>> {
    lines_of(list).to_set()
}

/// A record passes the filter exactly when it is well formed and neither of
/// its endpoint names is excluded.
pub open spec fn line_kept(ex: Set<Seq<char>>, line: Seq<char>) -> bool {
    line_wf(line) && !ex.contains(fields_of(line)[0]) && !ex.contains(fields_of(line)[2])
}

/// The filtered text: the kept records in their original order, each
/// terminated by a newline.
pub open spec fn removed_text(ex: Set<Seq<char>>, ls: Seq<Seq<char>>) -> Seq<char>
    decreases ls.len(),
{
    if ls.len() == 0 {
        Seq::empty()
    } else {
        let prev = removed_text(ex, ls.drop_last());
        if line_kept(ex, ls.last()) {
            prev + ls.last() + seq!['\n']
        } else {
            prev
        }
    }
}

/// The accepted records of the filter, in their original order.
pub open spec fn kept_lines(ex: Set<Seq<char>>, ls: Seq<Seq<char>>) -> Seq<Seq<char>>
    decreases ls.len(),
{
    if ls.len() == 0 {
        Seq::empty()
    } else {
        let prev = kept_lines(ex, ls.drop_last());
        if line_kept(ex, ls.last()) {
            prev.push(ls.last())
        } else {
            prev
        }
    }
}

/// The filtered text splits back into exactly the kept records.
proof fn lemma_removed_split(ex: Set<Seq<char>>, ls: Seq<Seq<char>>)
    requires
        forall|i: int| 0 <= i < ls.len() ==> sep_free(#[trigger] ls[i], '\n'),
    ensures
        split_on(removed_text(ex, ls), '\n') == kept_lines(ex, ls).push(Seq::<char>::empty()),
    decreases ls.len(),
{
    if ls.len() == 0 {
        assert(split_on(removed_text(ex, ls), '\n') =~~= kept_lines(ex, ls).push(
            Seq::<char>::empty(),
        ));
    } else {
        let front = ls.drop_last();
        let l = ls.last();
        assert(forall|i: int| 0 <= i < front.len() ==> sep_free(#[trigger] front[i], '\n'))
            by {
            assert(forall|i: int| 0 <= i < front.len() ==> front[i] == ls[i]);
        }
        lemma_removed_split(ex, front);
        let rt = removed_text(ex, front);
        let kl = kept_lines(ex, front);
        if line_kept(ex, l) {
            assert(sep_free(l, '\n'));
            lemma_split_on_append_seg(rt, l, '\n');
            lemma_split_on_append_sep(rt + l, '\n');
            assert(removed_text(ex, ls) =~= (rt + l) + seq!['\n']);
            assert(split_on(rt, '\n').last() =~= Seq::<char>::empty()) by {
                assert(split_on(rt, '\n') == kl.push(Seq::<char>::empty()));
            }
            assert(split_on(rt + l, '\n') =~~= kl.push(l)) by {
                assert(split_on(rt, '\n').drop_last() =~= kl);
                assert(Seq::<char>::empty() + l =~= l);
            }
            assert(split_on(removed_text(ex, ls), '\n') =~~= kept_lines(ex, ls).push(
                Seq::<char>::empty(),
            ));
        } else {
            assert(removed_text(ex, ls) == rt);
            assert(kept_lines(ex, ls) == kl);
        }
    }
}

/// Every record of a kept-record row is well formed and keeps both endpoint
/// names outside the exclusion set.
proof fn lemma_kept_lines_kept(ex: Set<Seq<char>>, ls: Seq<Seq<char>>)
    ensures
        forall|i: int|
            0 <= i < kept_lines(ex, ls).len() ==> line_kept(ex, #[trigger] kept_lines(ex, ls)[i]),
    decreases ls.len(),
{
    if ls.len() == 0 {
    } else {
        lemma_kept_lines_kept(ex, ls.drop_last());
        let prev = kept_lines(ex, ls.drop_last());
        assert forall|i: int| 0 <= i < kept_lines(ex, ls).len() implies line_kept(
            ex,
            #[trigger] kept_lines(ex, ls)[i],
        ) by {
            if line_kept(ex, ls.last()) {
                if i < prev.len() {
                    assert(kept_lines(ex, ls)[i] == prev[i]);
                }
            } else {
                assert(kept_lines(ex, ls)[i] == prev[i]);
            }
        }
    }
}

/// Filtered removal never outputs a record that references an excluded name:
/// every record of the output text is well formed, and neither its first nor
/// its third field is in the exclusion set. The output's records are exactly
/// the kept records of the input, in order.
pub proof fn lemma_removed_lines_kept(list: Seq<char>, graph: Seq<char>)
    ensures
        lines_of(removed_text(excluded_set(list), lines_of(graph))) == kept_lines(
            excluded_set(list),
            lines_of(graph),
        ),
        forall|i: int|
            0 <= i < lines_of(removed_text(excluded_set(list), lines_of(graph))).len()
                ==> line_kept(
                excluded_set(list),
                #[trigger] lines_of(removed_text(excluded_set(list), lines_of(graph)))[i],
            ),
{
    let ex = excluded_set(list);
    let ls = lines_of(graph);
    lemma_split_on_sep_free(graph, '\n');
    assert forall|i: int| 0 <= i < ls.len() implies sep_free(#[trigger] ls[i], '\n') by {
        assert(ls[i] == split_on(graph, '\n')[i]);
    }
    lemma_removed_split(ex, ls);
    let segs = split_on(removed_text(ex, ls), '\n');
    assert(segs.last() == Seq::<char>::empty());
    assert(lines_of(removed_text(ex, ls)) =~~= kept_lines(ex, ls)) by {
        assert(segs.drop_last() =~~= kept_lines(ex, ls));
    }
    lemma_kept_lines_kept(ex, ls);
}

/// Whether the batch of names holds this one.
fn list_contains(list: &Vec<String>, name: &String) -> (r: bool)
    ensures
        r == list.deep_view().contains(name@),
{
    let mut i: usize = 0;
    while i < list.len()
        invariant
            i <= list@.len(),
            forall|j: int| 0 <= j < i ==> list.deep_view()[j] != name@,
        decreases list@.len() - i,
    {
        if list[i] == *name {
            proof {
                assert(list.deep_view()[i as int] == name@);
                assert(list.deep_view().contains(name@));
            }
            return true;
        }
        i = i + 1;
    }
    proof {
        assert(!list.deep_view().contains(name@)) by {
            if list.deep_view().contains(name@) {
                let j = choose|j: int|
                    0 <= j < list.deep_view().len() && list.deep_view()[j] == name@;
                assert(list.deep_view()[j] != name@);
            }
        }
    }
    false
}

/// Filtered removal, at the text level: read an exclusion list (one name per
/// record), and from the network text keep exactly the well-formed records
/// neither of whose endpoint names is excluded. Malformed records are
/// dropped. No graph is built.
pub fn sif_quick_remove(list: &str, graph: &str) -> (r: String)
    ensures
        r@ == removed_text(excluded_set(list@), lines_of(graph@)),
{
    let ex = split_lines(list);
    let lines = split_lines(graph);
    let ghost exs = excluded_set(list@);
    let ghost ls = lines_of(graph@);
    let mut r = String::new();
    let mut i: usize = 0;
    proof {
        assert(ls.take(0) =~= Seq::<Seq<char>>::empty());
        assert(r@ =~= Seq::<char>::empty());
    }
    while i < lines.len()
        invariant
            i <= lines.len(),
            ex.deep_view() == lines_of(list@),
            exs == excluded_set(list@),
            lines.deep_view() == ls,
            r@ == removed_text(exs, ls.take(i as int)),
        decreases lines.len() - i,
    {
        let ghost l = ls[i as int];
        proof {
            assert(lines@[i as int]@ == ls[i as int]);
            assert(ls.take(i + 1 as int).drop_last() =~= ls.take(i as int));
            assert(ls.take(i + 1 as int).last() == l);
        }
        let fields = split_str(lines[i].as_str(), '\t');
        if fields.len() == 3 {
            proof {
                assert(line_wf(l));
                assert(fields@[0]@ == fields_of(l)[0]);
                assert(fields@[2]@ == fields_of(l)[2]);
            }
            let c0 = list_contains(&ex, &fields[0]);
            let c2 = list_contains(&ex, &fields[2]);
            if !c0 && !c2 {
                proof {
                    assert(!exs.contains(fields_of(l)[0]));
                    assert(!exs.contains(fields_of(l)[2]));
                    assert(line_kept(exs, l));
                }
                r.append(lines[i].as_str());
                r.append("\n");
                proof {
                    reveal_strlit("\n");
                    assert(("\n")@ =~= seq!['\n']);
                    assert(r@ =~= removed_text(exs, ls.take(i + 1 as int)));
                }
            } else {
                proof {
                    assert(!line_kept(exs, l));
                }
            }
        } else {
            proof {
                assert(!line_wf(l));
                assert(!line_kept(exs, l));
            }
        }
        i = i + 1;
    }
    proof {
        assert(ls.take(lines@.len() as int) =~= ls);
    }
    r
}

} // verus!
