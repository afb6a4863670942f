//! The interned network graph: node names are interned to small integer
//! handles (positions in the node vector), and an undirected labeled edge
//! connects at most one unordered pair of handles.

use vstd::prelude::*;

verus! {

/// A node of the network graph. The name is the interning key and is
/// immutable once the node is created.
#[derive(Debug)]
pub struct Node {
    pub name: String,
}

impl Node {
    /// Make a node carrying the given name.
    pub fn new(name: String) -> (n: Node)
        ensures
            n.name == name,
    {
        Node { name }
    }
}

/// An undirected edge between two node handles, carrying one label.
#[derive(Debug)]
pub struct Edge {
    pub a: usize,
    pub b: usize,
    pub label: String,
}

/// The mathematical image of one edge: handles as integers, the label as a
/// character sequence.
pub ghost struct EdgeModel {
    pub a: int,
    pub b: int,
    pub label: Seq<char>,
}

/// The edge `e` joins the unordered pair of handles `{a, b}`.
pub open spec fn joins(e: EdgeModel, a: int, b: int) -> bool {
    (e.a == a && e.b == b) || (e.a == b && e.b == a)
}

/// Every edge endpoint is a handle below `n`.
pub open spec fn valid_edges(es: Seq<EdgeModel>, n: int) -> bool {
    forall|k: int| 0 <= k < es.len() ==> 0 <= (#[trigger] es[k]).a < n && 0 <= es[k].b < n
}

/// No two edges join the same unordered pair of handles.
pub open spec fn pairs_unique(es: Seq<EdgeModel>) -> bool {
    forall|k: int, l: int|
        0 <= k < l < es.len() ==> !joins(#[trigger] es[k], (#[trigger] es[l]).a, es[l].b)
}

/// No name occurs twice.
pub open spec fn distinct_names(ns: Seq<Seq<char>>) -> bool {
    forall|i: int, j: int| 0 <= i < j < ns.len() ==> ns[i] != ns[j]
}

/// First position of `name` in `ns`, or `ns.len()` when absent.
pub open spec fn position_of(ns: Seq<Seq<char>>, name: Seq<char>) -> int
    decreases ns.len(),
{
    if ns.len() == 0 {
        0
    } else if ns[0] == name {
        0
    } else {
        1 + position_of(ns.drop_first(), name)
    }
}

/// `ns` with `name` interned: unchanged when the name is already present,
/// extended by it at the end otherwise.
pub open spec fn interned(ns: Seq<Seq<char>>, name: Seq<char>) -> Seq<Seq<char>> {
    if ns.contains(name) {
        ns
    } else {
        ns.push(name)
    }
}

/// `ns` with each name of `more` interned in order.
pub open spec fn intern_all(ns: Seq<Seq<char>>, more: Seq<Seq<char>>) -> Seq<Seq<char>>
    decreases more.len(),
{
    if more.len() == 0 {
        ns
    } else {
        interned(intern_all(ns, more.drop_last()), more.last())
    }
}

/// Some edge of `es` joins the pair `{a, b}`.
pub open spec fn has_pair(es: Seq<EdgeModel>, a: int, b: int) -> bool {
    exists|k: int| 0 <= k < es.len() && joins(#[trigger] es[k], a, b)
}

/// First position of an edge joining `{a, b}`, or `es.len()` when absent.
pub open spec fn edge_position(es: Seq<EdgeModel>, a: int, b: int) -> int
    decreases es.len(),
{
    if es.len() == 0 {
        0
    } else if joins(es[0], a, b) {
        0
    } else {
        1 + edge_position(es.drop_first(), a, b)
    }
}

/// `es` with the single edge of the unordered pair `{a, b}` set to `label`:
/// the first edge joining the pair is relabeled when one exists (its stored
/// endpoint order is kept), and a fresh edge `(a, b)` is appended otherwise.
pub open spec fn updated_edges(es: Seq<EdgeModel>, a: int, b: int, label: Seq<char>) -> Seq<
    EdgeModel,
> {
    if has_pair(es, a, b) {
        let k = edge_position(es, a, b);
        es.update(k, EdgeModel { a: es[k].a, b: es[k].b, label })
    } else {
        es.push(EdgeModel { a, b, label })
    }
}

/// The edge at position `k` joins nodes named `x` and `y`, in either
/// orientation.
pub open spec fn m_edge_joins_names(
    ns: Seq<Seq<char>>,
    es: Seq<EdgeModel>,
    k: int,
    x: Seq<char>,
    y: Seq<char>,
) -> bool {
    let e = es[k];
    &&& 0 <= e.a < ns.len()
    &&& 0 <= e.b < ns.len()
    &&& ((ns[e.a] == x && ns[e.b] == y) || (ns[e.a] == y && ns[e.b] == x))
}

/// Some edge joins nodes named `x` and `y`.
pub open spec fn m_has_edge_named(
    ns: Seq<Seq<char>>,
    es: Seq<EdgeModel>,
    x: Seq<char>,
    y: Seq<char>,
) -> bool {
    exists|k: int| 0 <= k < es.len() && m_edge_joins_names(ns, es, k, x, y)
}

/// The label of an edge joining nodes named `x` and `y` (the only such edge,
/// when the pairs are unique).
pub open spec fn m_label_named(
    ns: Seq<Seq<char>>,
    es: Seq<EdgeModel>,
    x: Seq<char>,
    y: Seq<char>,
) -> Seq<char> {
    let k = choose|k: int| 0 <= k < es.len() && m_edge_joins_names(ns, es, k, x, y);
    es[k].label
}

/// The undirected labeled graph with its interner. A name maps to the
/// position of its node in `nodes`; that position is the node's handle.
#[derive(Debug)]
pub struct MappedGraph {
    pub nodes: Vec<Node>,
    pub edges: Vec<Edge>,
}

impl MappedGraph {
    /// The node names in handle order: handle `i` carries `name_seq()[i]`.
    pub open spec fn name_seq(self) -> Seq<Seq<char>> {
        self.nodes@.map(|i: int, n: Node| n.name@)
    }

    /// The set of node names.
    pub open spec fn name_set(self) -> Set<Seq<char>> {
        self.name_seq().to_set()
    }

    /// The edges as mathematical values, in storage order.
    pub open spec fn edge_model(self) -> Seq<EdgeModel> {
        self.edges@.map(|i: int, e: Edge| EdgeModel { a: e.a as int, b: e.b as int, label: e.label@ })
    }

    /// Well-formed: edge endpoints are live handles, at most one edge joins
    /// any unordered pair, and the interner mapping is bijective (no name
    /// occurs on two handles).
    pub open spec fn wf(self) -> bool {
        &&& valid_edges(self.edge_model(), self.name_seq().len() as int)
        &&& pairs_unique(self.edge_model())
        &&& distinct_names(self.name_seq())
    }

    /// Some edge joins nodes named `x` and `y`.
    pub open spec fn has_edge_named(self, x: Seq<char>, y: Seq<char>) -> bool {
        m_has_edge_named(self.name_seq(), self.edge_model(), x, y)
    }

    /// The label of the edge joining nodes named `x` and `y`.
    pub open spec fn label_named(self, x: Seq<char>, y: Seq<char>) -> Seq<char> {
        m_label_named(self.name_seq(), self.edge_model(), x, y)
    }

    /// The edge set as unordered name pairs: a symmetric relation on names.
    pub open spec fn edge_pairs(self) -> Set<(Seq<char>, Seq<char>)> {
        Set::new(|p: (Seq<char>, Seq<char>)| self.has_edge_named(p.0, p.1))
    }

    /// Create an empty graph with an empty interner.
    pub fn new() -> (g: MappedGraph)
        ensures
            g.wf(),
            g.name_seq() == Seq::<Seq<char>>::empty(),
            g.edge_model() == Seq::<EdgeModel>::empty(),
    {
        let g = MappedGraph { nodes: Vec::new(), edges: Vec::new() };
        proof {
            assert(g.name_seq() =~= Seq::<Seq<char>>::empty());
            assert(g.edge_model() =~= Seq::<EdgeModel>::empty());
        }
        g
    }
}

impl MappedGraph {
    /// Intern-or-create: return the handle already mapped to the node's name,
    /// or allocate a fresh node for it and return the new handle. This is the
    /// sole insertion path for nodes and keeps the interner bijective.
    pub fn add_node(&mut self, node: Node) -> (idx: usize)
        requires
            old(self).wf(),
        ensures
            final(self).wf(),
            final(self).name_seq() == interned(old(self).name_seq(), node.name@),
            final(self).edge_model() == old(self).edge_model(),
            idx == position_of(old(self).name_seq(), node.name@),
            idx < final(self).name_seq().len(),
            final(self).name_seq()[idx as int] == node.name@,
    {
        let ghost ns = self.name_seq();
        let mut i: usize = 0;
        while i < self.nodes.len()
            invariant
                i <= self.nodes.len(),
                old(self).wf(),
                *self == *old(self),
                ns == self.name_seq(),
                forall|j: int| 0 <= j < i ==> ns[j] != node.name@,
            decreases self.nodes.len() - i,
        {
            if self.nodes[i].name == node.name {
                proof {
                    lemma_position_of(ns, node.name@);
                    assert(self.nodes@[i as int].name@ == node.name@);
                    assert(ns[i as int] == node.name@);
                    assert(ns.contains(node.name@));
                    let p = position_of(ns, node.name@);
                    assert(p == i) by {
                        if p < i {
                            assert(ns[p] == node.name@);
                        }
                    }
                }
                return i;
            }
            i = i + 1;
        }
        proof {
            lemma_position_of(ns, node.name@);
            assert(!ns.contains(node.name@)) by {
                if ns.contains(node.name@) {
                    let j = choose|j: int| 0 <= j < ns.len() && ns[j] == node.name@;
                    assert(ns[j] != node.name@);
                }
            }
        }
        self.nodes.push(node);
        proof {
            assert(self.name_seq() =~= ns.push(node.name@));
            assert(self.edge_model() =~= old(self).edge_model());
            assert(valid_edges(self.edge_model(), self.name_seq().len() as int));
            assert(distinct_names(self.name_seq()));
        }
        i
    }
}

impl MappedGraph {
    /// Set the single edge of the unordered pair `{a, b}` to carry `label`,
    /// creating the edge if absent and overwriting its label if present.
    /// No validation that `a != b`: a self-loop is a pair `{a, a}`.
    pub fn add_edge(&mut self, a: usize, b: usize, label: String)
        requires
            old(self).wf(),
            a < old(self).name_seq().len(),
            b < old(self).name_seq().len(),
        ensures
            final(self).wf(),
            final(self).name_seq() == old(self).name_seq(),
            final(self).edge_model() == updated_edges(
                old(self).edge_model(),
                a as int,
                b as int,
                label@,
            ),
    {
        let ghost es = self.edge_model();
        let mut k: usize = 0;
        while k < self.edges.len()
            invariant
                k <= self.edges.len(),
                old(self).wf(),
                a < old(self).name_seq().len(),
                b < old(self).name_seq().len(),
                *self == *old(self),
                es == self.edge_model(),
                forall|j: int| 0 <= j < k ==> !joins(#[trigger] es[j], a as int, b as int),
            decreases self.edges.len() - k,
        {
            let ea = self.edges[k].a;
            let eb = self.edges[k].b;
            if (ea == a && eb == b) || (ea == b && eb == a) {
                proof {
                    lemma_edge_position(es, a as int, b as int);
                    assert(joins(es[k as int], a as int, b as int));
                    assert(has_pair(es, a as int, b as int));
                    let p = edge_position(es, a as int, b as int);
                    assert(p == k) by {
                        if p < k {
                            assert(joins(es[p], a as int, b as int));
                        }
                    }
                }
                let e = self.edges.remove(k);
                self.edges.insert(k, Edge { a: e.a, b: e.b, label });
                proof {
                    let es2 = self.edge_model();
                    let enew = EdgeModel { a: es[k as int].a, b: es[k as int].b, label: label@ };
                    assert(es2 =~= es.update(k as int, enew));
                    assert(es2 == updated_edges(es, a as int, b as int, label@));
                    assert(self.name_seq() =~= old(self).name_seq());
                    assert forall|j: int| 0 <= j < es2.len() implies 0 <= (#[trigger] es2[j]).a
                        < self.name_seq().len() && 0 <= es2[j].b < self.name_seq().len() by {
                        assert(es2[j].a == es[j].a && es2[j].b == es[j].b);
                        assert(valid_edges(es, old(self).name_seq().len() as int));
                    }
                    assert forall|i: int, j: int| 0 <= i < j < es2.len() implies !joins(
                        #[trigger] es2[i],
                        (#[trigger] es2[j]).a,
                        es2[j].b,
                    ) by {
                        assert(es2[i].a == es[i].a && es2[i].b == es[i].b);
                        assert(es2[j].a == es[j].a && es2[j].b == es[j].b);
                        assert(pairs_unique(es));
                        assert(!joins(es[i], es[j].a, es[j].b));
                    }
                }
                return ;
            }
            k = k + 1;
        }
        proof {
            lemma_edge_position(es, a as int, b as int);
            assert(!has_pair(es, a as int, b as int)) by {
                if has_pair(es, a as int, b as int) {
                    let j = choose|j: int|
                        0 <= j < es.len() && joins(#[trigger] es[j], a as int, b as int);
                    assert(!joins(es[j], a as int, b as int));
                }
            }
        }
        self.edges.push(Edge { a, b, label });
        proof {
            let es2 = self.edge_model();
            let enew = EdgeModel { a: a as int, b: b as int, label: label@ };
            assert(es2 =~= es.push(enew));
            assert(es2 == updated_edges(es, a as int, b as int, label@));
            assert(self.name_seq() =~= old(self).name_seq());
            assert forall|i: int, j: int| 0 <= i < j < es2.len() implies !joins(
                #[trigger] es2[i],
                (#[trigger] es2[j]).a,
                es2[j].b,
            ) by {
                assert(pairs_unique(es));
                if j < es.len() {
                    assert(!joins(es[i], es[j].a, es[j].b));
                } else {
                    assert(es2[j] == enew);
                    assert(!joins(es[i], a as int, b as int));
                }
            }
            assert(valid_edges(es2, self.name_seq().len() as int)) by {
                assert(valid_edges(es, old(self).name_seq().len() as int));
                assert forall|j: int| 0 <= j < es2.len() implies 0 <= (#[trigger] es2[j]).a
                    < self.name_seq().len() && 0 <= es2[j].b < self.name_seq().len() by {
                    if j < es.len() {
                        assert(es2[j] == es[j]);
                    }
                }
            }
        }
    }

    /// Look a name up in the interner: the handle it maps to, or `None` when
    /// the graph holds no node of that name.
    pub fn find_node(&self, name: &String) -> (r: Option<usize>)
        ensures
            match r {
                Some(i) => self.name_seq().contains(name@) && i == position_of(
                    self.name_seq(),
                    name@,
                ) && i < self.name_seq().len() && self.name_seq()[i as int] == name@,
                None => !self.name_seq().contains(name@),
            },
    {
        let ghost ns = self.name_seq();
        let mut i: usize = 0;
        while i < self.nodes.len()
            invariant
                i <= self.nodes.len(),
                ns == self.name_seq(),
                forall|j: int| 0 <= j < i ==> ns[j] != name@,
            decreases self.nodes.len() - i,
        {
            if self.nodes[i].name == *name {
                proof {
                    lemma_position_of(ns, name@);
                    assert(ns[i as int] == name@);
                    assert(ns.contains(name@));
                    let p = position_of(ns, name@);
                    assert(p == i) by {
                        if p < i {
                            assert(ns[p] == name@);
                        }
                    }
                }
                return Some(i);
            }
            i = i + 1;
        }
        proof {
            assert(!ns.contains(name@)) by {
                if ns.contains(name@) {
                    let j = choose|j: int| 0 <= j < ns.len() && ns[j] == name@;
                    assert(ns[j] != name@);
                }
            }
        }
        None
    }

    /// The node names, in handle order.
    pub fn names(&self) -> (r: Vec<String>)
        ensures
            r.deep_view() == self.name_seq(),
    {
        let mut r: Vec<String> = Vec::new();
        let mut i: usize = 0;
        while i < self.nodes.len()
            invariant
                i <= self.nodes.len(),
                r@.len() == i,
                forall|j: int| 0 <= j < i ==> r@[j]@ == self.name_seq()[j],
            decreases self.nodes.len() - i,
        {
            r.push(self.nodes[i].name.clone());
            i = i + 1;
        }
        proof {
            assert(r.deep_view() =~= self.name_seq());
        }
        r
    }
}

/// `position_of` is the first index of `name`, or the length when absent.
pub proof fn lemma_position_of(ns: Seq<Seq<char>>, name: Seq<char>)
    ensures
        0 <= position_of(ns, name) <= ns.len(),
        position_of(ns, name) < ns.len() ==> ns[position_of(ns, name)] == name,
        forall|j: int| 0 <= j < position_of(ns, name) ==> ns[j] != name,
        ns.contains(name) <==> position_of(ns, name) < ns.len(),
    decreases ns.len(),
{
    if ns.len() == 0 {
        assert(!ns.contains(name));
    } else if ns[0] == name {
        assert(ns.contains(name));
    } else {
        lemma_position_of(ns.drop_first(), name);
        let p = position_of(ns, name);
        assert forall|j: int| 0 <= j < p implies ns[j] != name by {
            if j > 0 {
                assert(ns.drop_first()[j - 1] == ns[j]);
            }
        }
        if ns.contains(name) {
            let i = choose|i: int| 0 <= i < ns.len() && ns[i] == name;
            assert(ns.drop_first()[i - 1] == name);
            assert(ns.drop_first().contains(name));
        }
        if ns.drop_first().contains(name) {
            let i = choose|i: int| 0 <= i < ns.drop_first().len() && ns.drop_first()[i] == name;
            assert(ns[i + 1] == name);
            assert(ns.contains(name));
        }
    }
}

/// `edge_position` is the first index of an edge joining `{a, b}`, or the
/// length when no edge does.
pub proof fn lemma_edge_position(es: Seq<EdgeModel>, a: int, b: int)
    ensures
        0 <= edge_position(es, a, b) <= es.len(),
        edge_position(es, a, b) < es.len() ==> joins(es[edge_position(es, a, b)], a, b),
        forall|j: int| 0 <= j < edge_position(es, a, b) ==> !joins(#[trigger] es[j], a, b),
        has_pair(es, a, b) <==> edge_position(es, a, b) < es.len(),
    decreases es.len(),
{
    if es.len() == 0 {
        assert(!has_pair(es, a, b));
    } else if joins(es[0], a, b) {
        assert(has_pair(es, a, b));
    } else {
        lemma_edge_position(es.drop_first(), a, b);
        let p = edge_position(es, a, b);
        assert forall|j: int| 0 <= j < p implies !joins(#[trigger] es[j], a, b) by {
            if j > 0 {
                assert(es.drop_first()[j - 1] == es[j]);
            }
        }
        if has_pair(es, a, b) {
            let i = choose|i: int| 0 <= i < es.len() && joins(#[trigger] es[i], a, b);
            assert(joins(es.drop_first()[i - 1], a, b));
            assert(has_pair(es.drop_first(), a, b));
        }
        if has_pair(es.drop_first(), a, b) {
            let i = choose|i: int|
                0 <= i < es.drop_first().len() && joins(#[trigger] es.drop_first()[i], a, b);
            assert(joins(es[i + 1], a, b));
            assert(has_pair(es, a, b));
        }
    }
}

/// Interning is idempotent: interning a name a second time returns the same
/// handle as the first call did, and leaves the graph — in particular its
/// node count — unchanged.
pub proof fn lemma_intern_idempotent(ns: Seq<Seq<char>>, name: Seq<char>)
    ensures
        interned(interned(ns, name), name) == interned(ns, name),
        position_of(interned(ns, name), name) == position_of(ns, name),
        interned(interned(ns, name), name).len() == interned(ns, name).len(),
{
    let ns1 = interned(ns, name);
    lemma_position_of(ns, name);
    lemma_position_of(ns1, name);
    if ns.contains(name) {
    } else {
        assert(ns1[ns.len() as int] == name);
        assert(ns1.contains(name));
        let p = position_of(ns1, name);
        assert(p == ns.len()) by {
            if p < ns.len() {
                assert(ns1[p] == ns[p]);
                assert(ns.contains(name));
            }
        }
    }
}

/// Setting the edge of one unordered pair is idempotent under label
/// overwrite: setting it twice leaves exactly the edge set that setting it
/// once with the latest label leaves, and the pair carries that latest label.
pub proof fn lemma_add_edge_idempotent(
    es: Seq<EdgeModel>,
    a: int,
    b: int,
    l1: Seq<char>,
    l2: Seq<char>,
)
    ensures
        updated_edges(updated_edges(es, a, b, l1), a, b, l2) == updated_edges(es, a, b, l2),
        has_pair(updated_edges(es, a, b, l2), a, b),
        updated_edges(es, a, b, l2)[edge_position(updated_edges(es, a, b, l2), a, b)].label == l2,
{
    lemma_edge_position(es, a, b);
    let es1 = updated_edges(es, a, b, l1);
    let es2 = updated_edges(es, a, b, l2);
    lemma_edge_position(es1, a, b);
    lemma_edge_position(es2, a, b);
    if has_pair(es, a, b) {
        let k = edge_position(es, a, b);
        assert(joins(es1[k], a, b));
        assert(has_pair(es1, a, b));
        assert(edge_position(es1, a, b) == k) by {
            lemma_edge_position_stable(es, es1, a, b);
        }
        assert(updated_edges(es1, a, b, l2) =~= es2);
        assert(joins(es2[k], a, b));
        assert(has_pair(es2, a, b));
        assert(edge_position(es2, a, b) == k) by {
            lemma_edge_position_stable(es, es2, a, b);
        }
    } else {
        let n = es.len() as int;
        assert(es1[n] == EdgeModel { a, b, label: l1 });
        assert(joins(es1[n], a, b));
        assert(has_pair(es1, a, b));
        assert(edge_position(es1, a, b) == n) by {
            lemma_edge_position_stable(es, es1, a, b);
        }
        assert(updated_edges(es1, a, b, l2) =~= es2);
        assert(joins(es2[n], a, b));
        assert(has_pair(es2, a, b));
        assert(edge_position(es2, a, b) == n) by {
            lemma_edge_position_stable(es, es2, a, b);
        }
    }
}

/// After an edge update of the pair `{a, b}`, the first edge joining that
/// pair sits where `updated_edges` put it.
proof fn lemma_edge_position_stable(es: Seq<EdgeModel>, es2: Seq<EdgeModel>, a: int, b: int)
    requires
        es2.len() == if has_pair(es, a, b) {
            es.len() as int
        } else {
            es.len() + 1 as int
        },
        forall|j: int|
            0 <= j < es.len() ==> (#[trigger] es2[j]).a == es[j].a && es2[j].b == es[j].b,
        !has_pair(es, a, b) ==> joins(es2[es.len() as int], a, b),
    ensures
        edge_position(es2, a, b) == if has_pair(es, a, b) {
            edge_position(es, a, b)
        } else {
            es.len() as int
        },
{
    lemma_edge_position(es, a, b);
    lemma_edge_position(es2, a, b);
    let p2 = edge_position(es2, a, b);
    if has_pair(es, a, b) {
        let k = edge_position(es, a, b);
        assert(joins(es2[k], a, b));
        assert(has_pair(es2, a, b));
        assert(p2 <= k);
        if p2 < k {
            assert(joins(es[p2], a, b));
        }
    } else {
        let n = es.len() as int;
        assert(has_pair(es2, a, b));
        assert(p2 <= n);
        if p2 < n {
            assert(joins(es[p2], a, b));
            assert(has_pair(es, a, b));
        }
    }
}

/// Interning reaches exactly the old names and the interned one.
pub proof fn lemma_interned_contains(ns: Seq<Seq<char>>, y: Seq<char>)
    ensures
        forall|x: Seq<char>|
            #[trigger] interned(ns, y).contains(x) <==> (ns.contains(x) || x == y),
{
    let ns2 = interned(ns, y);
    assert forall|x: Seq<char>| #[trigger]
        ns2.contains(x) <==> (ns.contains(x) || x == y) by {
        if ns2.contains(x) {
            let i = choose|i: int| 0 <= i < ns2.len() && ns2[i] == x;
            if i < ns.len() {
                assert(ns[i] == x);
                assert(ns.contains(x));
            } else {
                assert(x == y);
            }
        }
        if ns.contains(x) {
            let i = choose|i: int| 0 <= i < ns.len() && ns[i] == x;
            assert(ns2[i] == x);
            assert(ns2.contains(x));
        }
        if x == y {
            if !ns.contains(y) {
                assert(ns2[ns.len() as int] == y);
                assert(ns2.contains(x));
            }
        }
    }
}

/// A first occurrence pins `position_of` down.
pub proof fn lemma_position_unique(ns: Seq<Seq<char>>, x: Seq<char>, i: int)
    requires
        0 <= i < ns.len(),
        ns[i] == x,
        forall|j: int| 0 <= j < i ==> ns[j] != x,
    ensures
        position_of(ns, x) == i,
{
    lemma_position_of(ns, x);
    let p = position_of(ns, x);
    assert(ns.contains(x));
    if p < i {
        assert(ns[p] != x);
    }
    if p > i {
        assert(ns[i] != x);
    }
}

/// Interning another name moves no existing name's handle.
pub proof fn lemma_interned_stable(ns: Seq<Seq<char>>, x: Seq<char>, y: Seq<char>)
    requires
        ns.contains(x),
    ensures
        interned(ns, y).contains(x),
        position_of(interned(ns, y), x) == position_of(ns, x),
{
    lemma_position_of(ns, x);
    let p = position_of(ns, x);
    let ns2 = interned(ns, y);
    assert(ns2[p] == x);
    assert(ns2.contains(x));
    lemma_position_unique(ns2, x, p);
}

/// Interning keeps names distinct.
pub proof fn lemma_interned_distinct(ns: Seq<Seq<char>>, y: Seq<char>)
    requires
        distinct_names(ns),
    ensures
        distinct_names(interned(ns, y)),
{
    if !ns.contains(y) {
        let ns2 = ns.push(y);
        assert forall|i: int, j: int| 0 <= i < j < ns2.len() implies ns2[i] != ns2[j] by {
            if j < ns.len() {
                assert(ns2[i] == ns[i] && ns2[j] == ns[j]);
            } else {
                assert(ns2[j] == y);
                assert(ns2[i] == ns[i]);
                if ns[i] == y {
                    assert(ns.contains(y));
                }
            }
        }
    }
}

/// An edge update preserves a well-formed edge model.
pub proof fn lemma_updated_edges_wf(es: Seq<EdgeModel>, n: int, a: int, b: int, label: Seq<char>)
    requires
        valid_edges(es, n),
        pairs_unique(es),
        0 <= a < n,
        0 <= b < n,
    ensures
        valid_edges(updated_edges(es, a, b, label), n),
        pairs_unique(updated_edges(es, a, b, label)),
{
    lemma_edge_position(es, a, b);
    let es2 = updated_edges(es, a, b, label);
    assert forall|k: int| 0 <= k < es2.len() implies 0 <= (#[trigger] es2[k]).a < n && 0 <= es2[k].b
        < n by {
        if k < es.len() {
            assert(es2[k].a == es[k].a && es2[k].b == es[k].b);
        }
    }
    assert forall|i: int, j: int| 0 <= i < j < es2.len() implies !joins(
        #[trigger] es2[i],
        (#[trigger] es2[j]).a,
        es2[j].b,
    ) by {
        if j < es.len() {
            assert(es2[i].a == es[i].a && es2[i].b == es[i].b);
            assert(es2[j].a == es[j].a && es2[j].b == es[j].b);
            assert(!joins(es[i], es[j].a, es[j].b));
        } else {
            assert(es2[i].a == es[i].a && es2[i].b == es[i].b);
            if joins(es2[i], a, b) {
                assert(joins(es[i], a, b));
                assert(has_pair(es, a, b));
            }
        }
    }
}

/// Appending one edge reads, at the name level, as one more joined pair.
pub proof fn lemma_has_named_push(
    ns: Seq<Seq<char>>,
    es: Seq<EdgeModel>,
    e: EdgeModel,
    x: Seq<char>,
    y: Seq<char>,
)
    requires
        0 <= e.a < ns.len(),
        0 <= e.b < ns.len(),
    ensures
        m_has_edge_named(ns, es.push(e), x, y) <==> (m_has_edge_named(ns, es, x, y) || (ns[e.a]
            == x && ns[e.b] == y) || (ns[e.a] == y && ns[e.b] == x)),
{
    let es2 = es.push(e);
    if m_has_edge_named(ns, es2, x, y) {
        let k = choose|k: int| 0 <= k < es2.len() && m_edge_joins_names(ns, es2, k, x, y);
        if k < es.len() {
            assert(m_edge_joins_names(ns, es, k, x, y));
            assert(m_has_edge_named(ns, es, x, y));
        }
    }
    if m_has_edge_named(ns, es, x, y) {
        let k = choose|k: int| 0 <= k < es.len() && m_edge_joins_names(ns, es, k, x, y);
        assert(m_edge_joins_names(ns, es2, k, x, y));
        assert(m_has_edge_named(ns, es2, x, y));
    }
    if (ns[e.a] == x && ns[e.b] == y) || (ns[e.a] == y && ns[e.b] == x) {
        assert(m_edge_joins_names(ns, es2, es.len() as int, x, y));
        assert(m_has_edge_named(ns, es2, x, y));
    }
}

/// Extending the name row with fresh handles changes no edge's reading: the
/// edges only mention handles the shorter row already had.
pub proof fn lemma_has_named_extend(
    ns1: Seq<Seq<char>>,
    ns2: Seq<Seq<char>>,
    es: Seq<EdgeModel>,
    x: Seq<char>,
    y: Seq<char>,
)
    requires
        ns1.len() <= ns2.len(),
        forall|j: int| 0 <= j < ns1.len() ==> ns2[j] == ns1[j],
        valid_edges(es, ns1.len() as int),
        distinct_names(ns2),
        pairs_unique(es),
    ensures
        m_has_edge_named(ns2, es, x, y) == m_has_edge_named(ns1, es, x, y),
        m_has_edge_named(ns1, es, x, y) ==> m_label_named(ns2, es, x, y) == m_label_named(
            ns1,
            es,
            x,
            y,
        ),
{
    assert forall|k: int| 0 <= k < es.len() implies (m_edge_joins_names(ns2, es, k, x, y)
        <==> m_edge_joins_names(ns1, es, k, x, y)) by {
        assert(0 <= (#[trigger] es[k]).a < ns1.len() && 0 <= es[k].b < ns1.len());
        assert(ns2[es[k].a] == ns1[es[k].a] && ns2[es[k].b] == ns1[es[k].b]);
    }
    if m_has_edge_named(ns1, es, x, y) {
        let k1 = choose|k: int| 0 <= k < es.len() && m_edge_joins_names(ns1, es, k, x, y);
        assert(m_edge_joins_names(ns2, es, k1, x, y));
        assert(m_has_edge_named(ns2, es, x, y));
        let k2 = choose|k: int| 0 <= k < es.len() && m_edge_joins_names(ns2, es, k, x, y);
        assert(m_edge_joins_names(ns2, es, k2, x, y));
        lemma_joins_names_unique(ns2, es, x, y, k1, k2);
    }
    if m_has_edge_named(ns2, es, x, y) {
        let k = choose|k: int| 0 <= k < es.len() && m_edge_joins_names(ns2, es, k, x, y);
        assert(m_edge_joins_names(ns1, es, k, x, y));
        assert(m_has_edge_named(ns1, es, x, y));
    }
}

/// Interning a batch of distinct names into an empty interner reproduces the
/// batch exactly.
pub proof fn lemma_intern_all_distinct(ns: Seq<Seq<char>>)
    requires
        distinct_names(ns),
    ensures
        intern_all(Seq::empty(), ns) == ns,
    decreases ns.len(),
{
    if ns.len() == 0 {
        assert(intern_all(Seq::empty(), ns) =~= ns);
    } else {
        let front = ns.drop_last();
        assert(distinct_names(front)) by {
            assert forall|i: int, j: int| 0 <= i < j < front.len() implies front[i] != front[j] by {
                assert(front[i] == ns[i] && front[j] == ns[j]);
            }
        }
        lemma_intern_all_distinct(front);
        assert(!front.contains(ns.last())) by {
            if front.contains(ns.last()) {
                let i = choose|i: int| 0 <= i < front.len() && front[i] == ns.last();
                assert(ns[i] == ns[ns.len() - 1]);
            }
        }
        assert(intern_all(Seq::empty(), ns) == front.push(ns.last()));
        assert(front.push(ns.last()) =~= ns);
    }
}

/// An edge joining the names at handles `a` and `b` joins those handles,
/// when names are distinct.
pub proof fn lemma_names_to_handles(
    ns: Seq<Seq<char>>,
    es: Seq<EdgeModel>,
    k: int,
    a: int,
    b: int,
)
    requires
        distinct_names(ns),
        0 <= a < ns.len(),
        0 <= b < ns.len(),
        0 <= k < es.len(),
        m_edge_joins_names(ns, es, k, ns[a], ns[b]),
    ensures
        joins(es[k], a, b),
{
    let e = es[k];
    assert forall|i: int, j: int|
        0 <= i < ns.len() && 0 <= j < ns.len() && ns[i] == ns[j] implies i == j by {
        if i < j {
            assert(ns[i] != ns[j]);
        }
        if j < i {
            assert(ns[j] != ns[i]);
        }
    }
}

/// With unique pairs and distinct names, at most one edge joins a given pair
/// of names.
pub proof fn lemma_joins_names_unique(
    ns: Seq<Seq<char>>,
    es: Seq<EdgeModel>,
    x: Seq<char>,
    y: Seq<char>,
    k1: int,
    k2: int,
)
    requires
        distinct_names(ns),
        pairs_unique(es),
        0 <= k1 < es.len(),
        0 <= k2 < es.len(),
        m_edge_joins_names(ns, es, k1, x, y),
        m_edge_joins_names(ns, es, k2, x, y),
    ensures
        k1 == k2,
{
    let e1 = es[k1];
    let e2 = es[k2];
    lemma_names_to_handles(ns, es, k1, e2.a, e2.b);
    if k1 < k2 {
        assert(!joins(es[k1], es[k2].a, es[k2].b));
    }
    if k2 < k1 {
        assert(!joins(es[k2], es[k1].a, es[k1].b));
        assert(joins(es[k1], e2.a, e2.b));
        assert(joins(es[k2], e1.a, e1.b));
    }
}

/// Name-level and handle-level edge queries agree on a well-formed model.
pub proof fn lemma_named_vs_handles(ns: Seq<Seq<char>>, es: Seq<EdgeModel>, a: int, b: int)
    requires
        distinct_names(ns),
        pairs_unique(es),
        0 <= a < ns.len(),
        0 <= b < ns.len(),
    ensures
        m_has_edge_named(ns, es, ns[a], ns[b]) <==> has_pair(es, a, b),
        has_pair(es, a, b) ==> m_label_named(ns, es, ns[a], ns[b]) == es[edge_position(
            es,
            a,
            b,
        )].label,
{
    lemma_edge_position(es, a, b);
    if m_has_edge_named(ns, es, ns[a], ns[b]) {
        let k = choose|k: int| 0 <= k < es.len() && m_edge_joins_names(ns, es, k, ns[a], ns[b]);
        lemma_names_to_handles(ns, es, k, a, b);
        assert(has_pair(es, a, b));
    }
    if has_pair(es, a, b) {
        let p = edge_position(es, a, b);
        assert(joins(es[p], a, b));
        assert(m_edge_joins_names(ns, es, p, ns[a], ns[b]));
        assert(m_has_edge_named(ns, es, ns[a], ns[b]));
        let k = choose|k: int| 0 <= k < es.len() && m_edge_joins_names(ns, es, k, ns[a], ns[b]);
        lemma_joins_names_unique(ns, es, ns[a], ns[b], k, p);
    }
}

/// How one edge update reads at the name level: exactly the unordered pair
/// `{ns[a], ns[b]}` gains (or re-labels to) `label`; every other name pair
/// keeps its edge and its label.
pub proof fn lemma_updated_edges_named(
    ns: Seq<Seq<char>>,
    es: Seq<EdgeModel>,
    a: int,
    b: int,
    label: Seq<char>,
)
    requires
        distinct_names(ns),
        valid_edges(es, ns.len() as int),
        pairs_unique(es),
        0 <= a < ns.len(),
        0 <= b < ns.len(),
    ensures
        forall|x: Seq<char>, y: Seq<char>|
            #[trigger] m_has_edge_named(ns, updated_edges(es, a, b, label), x, y) <==> (
            m_has_edge_named(ns, es, x, y) || (x == ns[a] && y == ns[b]) || (x == ns[b] && y
                == ns[a])),
        forall|x: Seq<char>, y: Seq<char>|
            m_has_edge_named(ns, updated_edges(es, a, b, label), x, y)
                ==> #[trigger] m_label_named(ns, updated_edges(es, a, b, label), x, y) == (if (x
                == ns[a] && y == ns[b]) || (x == ns[b] && y == ns[a]) {
                label
            } else {
                m_label_named(ns, es, x, y)
            }),
{
    lemma_edge_position(es, a, b);
    let es2 = updated_edges(es, a, b, label);
    let n0 = es.len() as int;
    if has_pair(es, a, b) {
        let k0 = edge_position(es, a, b);
        assert forall|x: Seq<char>, y: Seq<char>| #[trigger]
            m_has_edge_named(ns, es2, x, y) <==> (m_has_edge_named(ns, es, x, y) || (x == ns[a]
            && y == ns[b]) || (x == ns[b] && y == ns[a])) by {
            assert forall|k: int| 0 <= k < n0 implies (m_edge_joins_names(ns, es2, k, x, y)
                <==> m_edge_joins_names(ns, es, k, x, y)) by {
                assert(es2[k].a == es[k].a && es2[k].b == es[k].b);
            }
            if m_has_edge_named(ns, es2, x, y) {
                let k = choose|k: int| 0 <= k < es2.len() && m_edge_joins_names(ns, es2, k, x, y);
                assert(m_edge_joins_names(ns, es, k, x, y));
                assert(m_has_edge_named(ns, es, x, y));
            }
            if m_has_edge_named(ns, es, x, y) {
                let k = choose|k: int| 0 <= k < es.len() && m_edge_joins_names(ns, es, k, x, y);
                assert(m_edge_joins_names(ns, es2, k, x, y));
                assert(m_has_edge_named(ns, es2, x, y));
            }
            if (x == ns[a] && y == ns[b]) || (x == ns[b] && y == ns[a]) {
                assert(joins(es[k0], a, b));
                assert(m_edge_joins_names(ns, es, k0, x, y));
                assert(m_has_edge_named(ns, es, x, y));
            }
        }
        assert forall|x: Seq<char>, y: Seq<char>|
            m_has_edge_named(ns, es2, x, y) implies #[trigger] m_label_named(ns, es2, x, y) == (
        if (x == ns[a] && y == ns[b]) || (x == ns[b] && y == ns[a]) {
            label
        } else {
            m_label_named(ns, es, x, y)
        }) by {
            assert(pairs_unique(es2)) by {
                assert forall|i: int, j: int| 0 <= i < j < es2.len() implies !joins(
                    #[trigger] es2[i],
                    (#[trigger] es2[j]).a,
                    es2[j].b,
                ) by {
                    assert(es2[i].a == es[i].a && es2[i].b == es[i].b);
                    assert(es2[j].a == es[j].a && es2[j].b == es[j].b);
                    assert(!joins(es[i], es[j].a, es[j].b));
                }
            }
            let k2 = choose|k: int| 0 <= k < es2.len() && m_edge_joins_names(ns, es2, k, x, y);
            assert(m_edge_joins_names(ns, es, k2, x, y)) by {
                assert(es2[k2].a == es[k2].a && es2[k2].b == es[k2].b);
            }
            assert(m_has_edge_named(ns, es, x, y));
            let k1 = choose|k: int| 0 <= k < es.len() && m_edge_joins_names(ns, es, k, x, y);
            lemma_joins_names_unique(ns, es, x, y, k1, k2);
            if (x == ns[a] && y == ns[b]) || (x == ns[b] && y == ns[a]) {
                assert(joins(es[k0], a, b));
                assert(m_edge_joins_names(ns, es, k0, x, y));
                lemma_joins_names_unique(ns, es, x, y, k2, k0);
                assert(m_label_named(ns, es2, x, y) == label);
            } else {
                assert(k2 != k0) by {
                    if k2 == k0 {
                        assert(joins(es[k0], a, b));
                        let e = es[k0];
                        assert((ns[e.a] == x && ns[e.b] == y) || (ns[e.a] == y && ns[e.b] == x));
                    }
                }
                assert(es2[k2].label == es[k2].label);
                assert(m_label_named(ns, es, x, y) == es[k1].label);
            }
        }
    } else {
        assert(es2 == es.push(EdgeModel { a, b, label }));
        assert(es2[n0] == EdgeModel { a, b, label });
        assert forall|x: Seq<char>, y: Seq<char>| #[trigger]
            m_has_edge_named(ns, es2, x, y) <==> (m_has_edge_named(ns, es, x, y) || (x == ns[a]
            && y == ns[b]) || (x == ns[b] && y == ns[a])) by {
            if m_has_edge_named(ns, es2, x, y) {
                let k = choose|k: int| 0 <= k < es2.len() && m_edge_joins_names(ns, es2, k, x, y);
                if k < n0 {
                    assert(m_edge_joins_names(ns, es, k, x, y));
                    assert(m_has_edge_named(ns, es, x, y));
                } else {
                    assert((x == ns[a] && y == ns[b]) || (x == ns[b] && y == ns[a]));
                }
            }
            if m_has_edge_named(ns, es, x, y) {
                let k = choose|k: int| 0 <= k < es.len() && m_edge_joins_names(ns, es, k, x, y);
                assert(m_edge_joins_names(ns, es2, k, x, y));
                assert(m_has_edge_named(ns, es2, x, y));
            }
            if (x == ns[a] && y == ns[b]) || (x == ns[b] && y == ns[a]) {
                assert(m_edge_joins_names(ns, es2, n0, x, y));
                assert(m_has_edge_named(ns, es2, x, y));
            }
        }
        assert forall|x: Seq<char>, y: Seq<char>|
            m_has_edge_named(ns, es2, x, y) implies #[trigger] m_label_named(ns, es2, x, y) == (
        if (x == ns[a] && y == ns[b]) || (x == ns[b] && y == ns[a]) {
            label
        } else {
            m_label_named(ns, es, x, y)
        }) by {
            assert(pairs_unique(es2)) by {
                lemma_edge_position(es, a, b);
                assert forall|i: int, j: int| 0 <= i < j < es2.len() implies !joins(
                    #[trigger] es2[i],
                    (#[trigger] es2[j]).a,
                    es2[j].b,
                ) by {
                    if j < n0 {
                        assert(!joins(es[i], es[j].a, es[j].b));
                    } else {
                        assert(es2[j] == EdgeModel { a, b, label });
                        if joins(es2[i], a, b) {
                            assert(joins(es[i], a, b));
                            assert(has_pair(es, a, b));
                        }
                    }
                }
            }
            let k2 = choose|k: int| 0 <= k < es2.len() && m_edge_joins_names(ns, es2, k, x, y);
            if (x == ns[a] && y == ns[b]) || (x == ns[b] && y == ns[a]) {
                assert(m_edge_joins_names(ns, es2, n0, x, y));
                lemma_joins_names_unique(ns, es2, x, y, k2, n0);
                assert(m_label_named(ns, es2, x, y) == label);
            } else {
                assert(k2 != n0) by {
                    if k2 == n0 {
                        let e = es2[n0];
                        assert((ns[e.a] == x && ns[e.b] == y) || (ns[e.a] == y && ns[e.b] == x));
                    }
                }
                assert(m_edge_joins_names(ns, es, k2, x, y));
                assert(m_has_edge_named(ns, es, x, y));
                let k1 = choose|k: int| 0 <= k < es.len() && m_edge_joins_names(ns, es, k, x, y);
                lemma_joins_names_unique(ns, es, x, y, k1, k2);
                assert(m_label_named(ns, es, x, y) == es[k1].label);
            }
        }
    }
}

} // verus!
