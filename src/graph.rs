//! The dependency graph: crate names as sorted nodes, dependencies as edges
//! between node indices.
use core::cmp::Ordering;
use vstd::prelude::*;
use crate::order::{compare_names, names_of, sort_names, sorted_names, strictly_sorted_names, name_lt};
use crate::order::{lemma_sorted_distinct_is_strict, lemma_bytes_lt_irreflexive};
use crate::depmap::{DependencyMap, keys_of};

verus! {

/// Position of `x` in a list of distinct names.
pub open spec fn index_of(nodes: Seq<Seq<char>>, x: Seq<char>) -> int {
    choose|i: int| 0 <= i < nodes.len() && nodes[i] == x
}

/// Edges from node `src` to each of `deps` that is a node, in the order of `deps`.
pub open spec fn dep_edges(nodes: Seq<Seq<char>>, src: int, deps: Seq<Seq<char>>) -> Seq<(usize, usize)>
    decreases deps.len(),
{
    if deps.len() == 0 {
        Seq::empty()
    } else {
        let prev = dep_edges(nodes, src, deps.drop_last());
        if nodes.contains(deps.last()) {
            prev.push((src as usize, index_of(nodes, deps.last()) as usize))
        } else {
            prev
        }
    }
}

/// Edges of every entry whose name is a node, entry after entry.
pub open spec fn graph_edges(nodes: Seq<Seq<char>>, e: Seq<(Seq<char>, Seq<Seq<char>>)>) -> Seq<(usize, usize)>
    decreases e.len(),
{
    if e.len() == 0 {
        Seq::empty()
    } else {
        let prev = graph_edges(nodes, e.drop_last());
        if nodes.contains(e.last().0) {
            prev + dep_edges(nodes, index_of(nodes, e.last().0), e.last().1)
        } else {
            prev
        }
    }
}

/// `nodes` and `edges` are the graph built from the entries `e`: every name
/// once, in ascending order, and one edge for each dependency that is a node.
pub open spec fn is_graph_of(
    e: Seq<(Seq<char>, Seq<Seq<char>>)>,
    nodes: Seq<Seq<char>>,
    edges: Seq<(usize, usize)>,
) -> bool {
    &&& strictly_sorted_names(nodes)
    &&& nodes.len() == e.len()
    &&& nodes.len() <= usize::MAX
    &&& forall|k: Seq<char>| nodes.contains(k) <==> keys_of(e).contains(k)
    &&& edges == graph_edges(nodes, e)
}

/// A graph of named nodes and directed edges, each edge a pair of node
/// indices meaning "source depends on target".
pub struct Graph {
    nodes: Vec<String>,
    edges: Vec<(usize, usize)>,
}

impl Graph {
    pub closed spec fn nodes_view(&self) -> Seq<Seq<char>> {
        names_of(self.nodes@)
    }

    pub closed spec fn edges_view(&self) -> Seq<(usize, usize)> {
        self.edges@
    }
}

/// Binary search for `x` in a sorted list of names.
pub fn find_name(nodes: &Vec<String>, x: &str) -> (r: Option<usize>)
    requires
        sorted_names(names_of(nodes@)),
    ensures
        match r {
            Some(i) => i < nodes@.len() && nodes@[i as int]@ == x@,
            None => !names_of(nodes@).contains(x@),
        },
{
    let ghost s = names_of(nodes@);
    let mut lo: usize = 0;
    let mut hi: usize = nodes.len();
    while lo < hi
        invariant
            s == names_of(nodes@),
            sorted_names(s),
            lo <= hi <= s.len(),
            forall|k: int| 0 <= k < lo ==> s[k] != x@,
            forall|k: int| hi <= k < s.len() ==> s[k] != x@,
        decreases hi - lo,
    {
        let mid = lo + (hi - lo) / 2;
        match compare_names(nodes[mid].as_str(), x) {
            Ordering::Less => {
                assert forall|k: int| 0 <= k <= mid implies s[k] != x@ by {
                    if k < mid {
                        assert(!name_lt(s[mid as int], s[k]));
                    }
                }
                lo = mid + 1;
            },
            Ordering::Greater => {
                assert forall|k: int| mid <= k < s.len() implies s[k] != x@ by {
                    if k > mid {
                        assert(!name_lt(s[k], s[mid as int]));
                    }
                }
                hi = mid;
            },
            Ordering::Equal => {
                return Some(mid);
            },
        }
    }
    None
}

proof fn lemma_index_of(nodes: Seq<Seq<char>>, i: int)
    requires
        nodes.no_duplicates(),
        0 <= i < nodes.len(),
    ensures
        index_of(nodes, nodes[i]) == i,
        nodes.contains(nodes[i]),
{
    let j = index_of(nodes, nodes[i]);
}

proof fn lemma_strict_no_duplicates(s: Seq<Seq<char>>)
    requires
        strictly_sorted_names(s),
    ensures
        s.no_duplicates(),
{
    assert forall|i: int, j: int| 0 <= i < s.len() && 0 <= j < s.len() && i != j implies s[i] != s[j] by {
        lemma_bytes_lt_irreflexive(vstd::utf8::encode_utf8(s[i]));
        if i < j {
            assert(name_lt(s[i], s[j]));
        } else {
            assert(name_lt(s[j], s[i]));
        }
    }
}

/// Builds the graph of `m`: its names sorted as nodes, and an edge from an
/// entry to each of its dependencies that is itself an entry. Dependencies
/// on names without an entry are dropped.
pub fn build_graph(m: &DependencyMap) -> (r: Graph)
    ensures
        is_graph_of(m@, r.nodes_view(), r.edges_view()),
{
    proof {
        use_type_invariant(m);
    }
    let mut nodes: Vec<String> = Vec::new();
    let mut i: usize = 0;
    while i < m.len()
        invariant
            i <= m@.len(),
            names_of(nodes@) == keys_of(m@).take(i as int),
        decreases m@.len() - i,
    {
        let k = m.key(i).clone();
        let ghost before = nodes@;
        nodes.push(k);
        assert(nodes@ == before.push(k));
        assert(keys_of(m@)[i as int] == k@);
        assert(names_of(nodes@) =~= names_of(before).push(k@));
        assert(keys_of(m@).take(i + 1) =~= keys_of(m@).take(i as int).push(k@));
        assert(names_of(nodes@) =~= keys_of(m@).take(i + 1));
        i = i + 1;
    }
    let ghost keys = keys_of(m@);
    assert(names_of(nodes@) =~= keys);
    sort_names(&mut nodes);
    let ghost s = names_of(nodes@);
    proof {
        keys.to_multiset_ensures();
        s.to_multiset_ensures();
        keys.lemma_multiset_has_no_duplicates();
        s.lemma_multiset_has_no_duplicates_conv();
        lemma_sorted_distinct_is_strict(s);
        assert forall|k: Seq<char>| s.contains(k) <==> keys.contains(k) by {
            assert(s.to_multiset().count(k) == keys.to_multiset().count(k));
        }
    }
    let mut edges: Vec<(usize, usize)> = Vec::new();
    let mut i: usize = 0;
    while i < m.len()
        invariant
            i <= m@.len(),
            s == names_of(nodes@),
            sorted_names(s),
            s.no_duplicates(),
            edges@ == graph_edges(s, m@.take(i as int)),
        decreases m@.len() - i,
    {
        let ghost prefix = m@.take(i as int);
        assert(m@.take(i + 1).drop_last() =~= prefix);
        match find_name(&nodes, m.key(i).as_str()) {
            Some(src) => {
                proof {
                    lemma_index_of(s, src as int);
                }
                let deps = m.deps(i);
                let ghost dv = names_of(deps@);
                let mut j: usize = 0;
                assert(dv.take(0) =~= Seq::<Seq<char>>::empty());
                assert(graph_edges(s, prefix) =~= graph_edges(s, prefix) + Seq::<(usize, usize)>::empty());
                while j < deps.len()
                    invariant
                        j <= dv.len(),
                        dv == names_of(deps@),
                        s == names_of(nodes@),
                        sorted_names(s),
                        s.no_duplicates(),
                        src < s.len(),
                        edges@ == graph_edges(s, prefix) + dep_edges(s, src as int, dv.take(j as int)),
                    decreases dv.len() - j,
                {
                    assert(dv.take(j + 1).drop_last() =~= dv.take(j as int));
                    match find_name(&nodes, deps[j].as_str()) {
                        Some(dst) => {
                            proof {
                                lemma_index_of(s, dst as int);
                            }
                            edges.push((src, dst));
                        },
                        None => {},
                    }
                    proof {
                        assert(dv[j as int] == deps@[j as int]@);
                    }
                    assert(edges@ =~= graph_edges(s, prefix) + dep_edges(s, src as int, dv.take(j + 1)));
                    j = j + 1;
                }
                assert(dv.take(j as int) =~= dv);
            },
            None => {},
        }
        i = i + 1;
    }
    assert(m@.take(i as int) =~= m@);
    assert(s.len() == nodes@.len());
    Graph { nodes, edges }
}


proof fn lemma_dep_edges_valid(nodes: Seq<Seq<char>>, src: int, deps: Seq<Seq<char>>)
    requires
        0 <= src < nodes.len(),
        nodes.len() <= usize::MAX,
    ensures
        forall|x: int| 0 <= x < dep_edges(nodes, src, deps).len() ==> {
            let p = #[trigger] dep_edges(nodes, src, deps)[x];
            &&& p.0 == src
            &&& p.1 < nodes.len()
            &&& deps.contains(nodes[p.1 as int])
        },
    decreases deps.len(),
{
    if deps.len() > 0 {
        let prev = dep_edges(nodes, src, deps.drop_last());
        lemma_dep_edges_valid(nodes, src, deps.drop_last());
        assert forall|x: int| 0 <= x < prev.len() implies deps.contains(nodes[(#[trigger] prev[x]).1 as int]) by {
            let d = nodes[prev[x].1 as int];
            let y = choose|y: int| 0 <= y < deps.drop_last().len() && deps.drop_last()[y] == d;
            assert(deps[y] == d);
        }
        if nodes.contains(deps.last()) {
            assert(deps[deps.len() - 1] == deps.last());
        }
    }
}

proof fn lemma_graph_edges_valid(nodes: Seq<Seq<char>>, e: Seq<(Seq<char>, Seq<Seq<char>>)>)
    requires
        nodes.len() <= usize::MAX,
    ensures
        forall|x: int| 0 <= x < graph_edges(nodes, e).len() ==> {
            let p = #[trigger] graph_edges(nodes, e)[x];
            &&& p.0 < nodes.len()
            &&& p.1 < nodes.len()
            &&& exists|i: int| 0 <= i < e.len() && e[i].0 == nodes[p.0 as int] && e[i].1.contains(nodes[p.1 as int])
        },
    decreases e.len(),
{
    if e.len() > 0 {
        let prev = graph_edges(nodes, e.drop_last());
        lemma_graph_edges_valid(nodes, e.drop_last());
        assert forall|x: int| 0 <= x < prev.len() implies
            exists|i: int| 0 <= i < e.len() && e[i].0 == nodes[(#[trigger] prev[x]).0 as int] && e[i].1.contains(nodes[prev[x].1 as int]) by {
            let i = choose|i: int| 0 <= i < e.drop_last().len() && e.drop_last()[i].0 == nodes[prev[x].0 as int]
                && e.drop_last()[i].1.contains(nodes[prev[x].1 as int]);
            assert(e[i] == e.drop_last()[i]);
        }
        let k = e.last().0;
        if nodes.contains(k) {
            let src = index_of(nodes, k);
            let tail = dep_edges(nodes, src, e.last().1);
            lemma_dep_edges_valid(nodes, src, e.last().1);
            let all = prev + tail;
            assert forall|x: int| 0 <= x < all.len() implies {
                let p = #[trigger] all[x];
                &&& p.0 < nodes.len()
                &&& p.1 < nodes.len()
                &&& exists|i: int| 0 <= i < e.len() && e[i].0 == nodes[p.0 as int] && e[i].1.contains(nodes[p.1 as int])
            } by {
                if x >= prev.len() {
                    let p = tail[x - prev.len()];
                    assert(all[x] == p);
                    assert(e[e.len() - 1] == e.last());
                } else {
                    assert(all[x] == prev[x]);
                }
            }
        }
    }
}

/// Two sorted lists that hold the same distinct names are the same list.
proof fn lemma_strictly_sorted_unique(s: Seq<Seq<char>>, t: Seq<Seq<char>>)
    requires
        strictly_sorted_names(s),
        strictly_sorted_names(t),
        forall|k: Seq<char>| s.contains(k) <==> t.contains(k),
    ensures
        s == t,
    decreases s.len(),
{
    if s.len() == 0 {
        if t.len() > 0 {
            assert(t.contains(t[0]));
        }
        assert(s =~= t);
    } else {
        assert(s.contains(s[0]));
        let j = choose|j: int| 0 <= j < t.len() && t[j] == s[0];
        assert(t.contains(t[0]));
        let k = choose|k: int| 0 <= k < s.len() && s[k] == t[0];
        if j != 0 {
            assert(name_lt(t[0], t[j]));
            if k != 0 {
                assert(name_lt(s[0], s[k]));
                crate::order::lemma_bytes_lt_asymmetric(
                    vstd::utf8::encode_utf8(s[0]), vstd::utf8::encode_utf8(t[0]));
            }
            lemma_bytes_lt_irreflexive(vstd::utf8::encode_utf8(s[0]));
        }
        assert(t[0] == s[0]);
        lemma_strict_no_duplicates(s);
        lemma_strict_no_duplicates(t);
        let s1 = s.drop_first();
        let t1 = t.drop_first();
        assert forall|x: Seq<char>| s1.contains(x) <==> t1.contains(x) by {
            if s1.contains(x) {
                let a = choose|a: int| 0 <= a < s1.len() && s1[a] == x;
                assert(s[a + 1] == x);
                assert(s.contains(x));
                let b = choose|b: int| 0 <= b < t.len() && t[b] == x;
                assert(b != 0);
                assert(t1[b - 1] == x);
            }
            if t1.contains(x) {
                let a = choose|a: int| 0 <= a < t1.len() && t1[a] == x;
                assert(t[a + 1] == x);
                assert(t.contains(x));
                let b = choose|b: int| 0 <= b < s.len() && s[b] == x;
                assert(b != 0);
                assert(s1[b - 1] == x);
            }
        }
        lemma_strictly_sorted_unique(s1, t1);
        assert(s =~= seq![s[0]] + s1);
        assert(t =~= seq![t[0]] + t1);
    }
}

/// The nodes of the graph built from a map are in ascending order and hold
/// each name of the map exactly once.
pub proof fn lemma_nodes_sorted_once(m: DependencyMap, g: Graph)
    requires
        m.distinct_keys(),
        is_graph_of(m@, g.nodes_view(), g.edges_view()),
    ensures
        strictly_sorted_names(g.nodes_view()),
        g.nodes_view().no_duplicates(),
        forall|k: Seq<char>| g.nodes_view().contains(k) <==> crate::depmap::as_map(m@).contains_key(k),
{
    lemma_strict_no_duplicates(g.nodes_view());
}

/// Every edge of the graph built from a map joins two valid node indices,
/// and its source is a name of the map whose dependency list holds its target.
pub proof fn lemma_edges_valid(m: DependencyMap, g: Graph)
    requires
        m.distinct_keys(),
        is_graph_of(m@, g.nodes_view(), g.edges_view()),
    ensures
        forall|x: int| 0 <= x < g.edges_view().len() ==> {
            let p = #[trigger] g.edges_view()[x];
            let map = crate::depmap::as_map(m@);
            &&& p.0 < g.nodes_view().len()
            &&& p.1 < g.nodes_view().len()
            &&& map.contains_key(g.nodes_view()[p.0 as int])
            &&& map[g.nodes_view()[p.0 as int]].contains(g.nodes_view()[p.1 as int])
        },
{
    let nodes = g.nodes_view();
    lemma_graph_edges_valid(nodes, m@);
    assert forall|x: int| 0 <= x < g.edges_view().len() implies {
        let p = #[trigger] g.edges_view()[x];
        let map = crate::depmap::as_map(m@);
        &&& map.contains_key(nodes[p.0 as int])
        &&& map[nodes[p.0 as int]].contains(nodes[p.1 as int])
    } by {
        let p = g.edges_view()[x];
        let i = choose|i: int| 0 <= i < m@.len() && m@[i].0 == nodes[p.0 as int] && m@[i].1.contains(nodes[p.1 as int]);
        crate::depmap::lemma_key_index(m@, i);
    }
}

/// A dependency name that has no entry of its own appears in no edge of the
/// graph, neither as source nor as target.
pub proof fn lemma_dangling_dropped(m: DependencyMap, g: Graph, name: Seq<char>)
    requires
        m.distinct_keys(),
        is_graph_of(m@, g.nodes_view(), g.edges_view()),
        !crate::depmap::as_map(m@).contains_key(name),
    ensures
        forall|x: int| 0 <= x < g.edges_view().len() ==> {
            let p = #[trigger] g.edges_view()[x];
            &&& g.nodes_view()[p.0 as int] != name
            &&& g.nodes_view()[p.1 as int] != name
        },
{
    lemma_graph_edges_valid(g.nodes_view(), m@);
    assert forall|x: int| 0 <= x < g.edges_view().len() implies {
        let p = #[trigger] g.edges_view()[x];
        &&& g.nodes_view()[p.0 as int] != name
        &&& g.nodes_view()[p.1 as int] != name
    } by {
        let p = g.edges_view()[x];
        assert(g.nodes_view().contains(g.nodes_view()[p.0 as int]));
        assert(g.nodes_view().contains(g.nodes_view()[p.1 as int]));
    }
}

proof fn lemma_graph_edges_concat(
    nodes: Seq<Seq<char>>,
    a: Seq<(Seq<char>, Seq<Seq<char>>)>,
    b: Seq<(Seq<char>, Seq<Seq<char>>)>,
)
    ensures
        graph_edges(nodes, a + b) == graph_edges(nodes, a) + graph_edges(nodes, b),
    decreases b.len(),
{
    if b.len() == 0 {
        assert(a + b =~= a);
        assert(graph_edges(nodes, a) + graph_edges(nodes, b) =~= graph_edges(nodes, a));
    } else {
        lemma_graph_edges_concat(nodes, a, b.drop_last());
        assert((a + b).drop_last() =~= a + b.drop_last());
        assert((a + b).last() == b.last());
        let t = if nodes.contains(b.last().0) {
            dep_edges(nodes, index_of(nodes, b.last().0), b.last().1)
        } else {
            Seq::empty()
        };
        assert(graph_edges(nodes, b) =~= graph_edges(nodes, b.drop_last()) + t);
        assert(graph_edges(nodes, a + b) =~= graph_edges(nodes, a + b.drop_last()) + t);
        assert(graph_edges(nodes, a) + graph_edges(nodes, b.drop_last()) + t
            =~= graph_edges(nodes, a) + (graph_edges(nodes, b.drop_last()) + t));
    }
}

proof fn lemma_graph_edges_permuted(
    nodes: Seq<Seq<char>>,
    e1: Seq<(Seq<char>, Seq<Seq<char>>)>,
    e2: Seq<(Seq<char>, Seq<Seq<char>>)>,
)
    requires
        e1.no_duplicates(),
        e2.no_duplicates(),
        forall|x: (Seq<char>, Seq<Seq<char>>)| e1.contains(x) <==> e2.contains(x),
    ensures
        graph_edges(nodes, e1).to_multiset() == graph_edges(nodes, e2).to_multiset(),
    decreases e1.len(),
{
    broadcast use vstd::seq_lib::lemma_multiset_commutative;
    broadcast use vstd::multiset::group_multiset_axioms;
    if e1.len() == 0 {
        if e2.len() > 0 {
            assert(e2.contains(e2[0]));
        }
        assert(e1 =~= e2);
    } else {
        let n = e1.len() - 1;
        let x = e1[n];
        assert(e1.contains(x));
        let j = choose|j: int| 0 <= j < e2.len() && e2[j] == x;
        let e1p = e1.drop_last();
        let ea = e2.take(j);
        let eb = e2.skip(j + 1);
        let e2p = ea + eb;
        assert forall|i: int, k: int| 0 <= i < k < e2p.len() implies e2p[i] != e2p[k] by {
            let ii = if i < j { i } else { i + 1 };
            let kk = if k < j { k } else { k + 1 };
            assert(e2p[i] == e2[ii]);
            assert(e2p[k] == e2[kk]);
        }
        assert forall|y: (Seq<char>, Seq<Seq<char>>)| e1p.contains(y) <==> e2p.contains(y) by {
            if e1p.contains(y) {
                let i = choose|i: int| 0 <= i < e1p.len() && e1p[i] == y;
                assert(e1[i] == y);
                assert(e1.contains(y));
                let k = choose|k: int| 0 <= k < e2.len() && e2[k] == y;
                assert(y != x);
                assert(k != j);
                if k < j {
                    assert(e2p[k] == y);
                } else {
                    assert(e2p[k - 1] == y);
                }
            }
            if e2p.contains(y) {
                let k = choose|k: int| 0 <= k < e2p.len() && e2p[k] == y;
                let kk = if k < j { k } else { k + 1 };
                assert(e2[kk] == y);
                assert(e2.contains(y));
                let i = choose|i: int| 0 <= i < e1.len() && e1[i] == y;
                assert(kk != j);
                assert(i != n);
                assert(e1p[i] == y);
            }
        }
        lemma_graph_edges_permuted(nodes, e1p, e2p);
        let one = seq![x];
        assert(e1 =~= e1p + one);
        assert(e2 =~= ea + (one + eb));
        lemma_graph_edges_concat(nodes, e1p, one);
        lemma_graph_edges_concat(nodes, ea, one + eb);
        lemma_graph_edges_concat(nodes, one, eb);
        lemma_graph_edges_concat(nodes, ea, eb);
        let ga = graph_edges(nodes, ea);
        let gb = graph_edges(nodes, eb);
        let go = graph_edges(nodes, one);
        assert((ga + (go + gb)).to_multiset() =~= (ga + gb).to_multiset().add(go.to_multiset()));
    }
}

/// Building the graph from two maps that are equal as maps, whatever order
/// their names were inserted in, gives the same nodes, and the same edges
/// counted as a multiset.
pub proof fn lemma_build_order_independent(m1: DependencyMap, m2: DependencyMap, g1: Graph, g2: Graph)
    requires
        m1.distinct_keys(),
        m2.distinct_keys(),
        crate::depmap::as_map(m1@) == crate::depmap::as_map(m2@),
        is_graph_of(m1@, g1.nodes_view(), g1.edges_view()),
        is_graph_of(m2@, g2.nodes_view(), g2.edges_view()),
    ensures
        g1.nodes_view() == g2.nodes_view(),
        g1.edges_view().to_multiset() == g2.edges_view().to_multiset(),
{
    let e1 = m1@;
    let e2 = m2@;
    let map = crate::depmap::as_map(e1);
    assert forall|k: Seq<char>| keys_of(e1).contains(k) <==> keys_of(e2).contains(k) by {
        assert(map.contains_key(k) == keys_of(e1).contains(k));
        assert(crate::depmap::as_map(e2).contains_key(k) == keys_of(e2).contains(k));
    }
    lemma_strictly_sorted_unique(g1.nodes_view(), g2.nodes_view());
    assert forall|i: int, k: int| 0 <= i < k < e1.len() implies e1[i] != e1[k] by {
        assert(keys_of(e1)[i] == e1[i].0);
        assert(keys_of(e1)[k] == e1[k].0);
    }
    assert forall|i: int, k: int| 0 <= i < k < e2.len() implies e2[i] != e2[k] by {
        assert(keys_of(e2)[i] == e2[i].0);
        assert(keys_of(e2)[k] == e2[k].0);
    }
    assert forall|x: (Seq<char>, Seq<Seq<char>>)| e1.contains(x) ==> e2.contains(x) by {
        if e1.contains(x) {
            let i = choose|i: int| 0 <= i < e1.len() && e1[i] == x;
            crate::depmap::lemma_key_index(e1, i);
            assert(keys_of(e2).contains(x.0));
            let k = choose|k: int| 0 <= k < keys_of(e2).len() && keys_of(e2)[k] == x.0;
            crate::depmap::lemma_key_index(e2, k);
            assert(e2[k] == x);
        }
    }
    assert forall|x: (Seq<char>, Seq<Seq<char>>)| e2.contains(x) ==> e1.contains(x) by {
        if e2.contains(x) {
            let i = choose|i: int| 0 <= i < e2.len() && e2[i] == x;
            crate::depmap::lemma_key_index(e2, i);
            assert(keys_of(e1).contains(x.0));
            let k = choose|k: int| 0 <= k < keys_of(e1).len() && keys_of(e1)[k] == x.0;
            crate::depmap::lemma_key_index(e1, k);
            assert(e1[k] == x);
        }
    }
    lemma_graph_edges_permuted(g1.nodes_view(), e1, e2);
}

/// Building the graph twice from the same map gives the same nodes and the
/// same edges in the same order.
pub proof fn lemma_build_deterministic(m: DependencyMap, g1: Graph, g2: Graph)
    requires
        is_graph_of(m@, g1.nodes_view(), g1.edges_view()),
        is_graph_of(m@, g2.nodes_view(), g2.edges_view()),
    ensures
        g1.nodes_view() == g2.nodes_view(),
        g1.edges_view() == g2.edges_view(),
        g1.edges_view().to_multiset() == g2.edges_view().to_multiset(),
{
    lemma_strictly_sorted_unique(g1.nodes_view(), g2.nodes_view());
}


/// The decimal digit `d`.
pub open spec fn digit_char(d: nat) -> char {
    if d == 0 { '0' } else if d == 1 { '1' } else if d == 2 { '2' } else if d == 3 { '3' }
    else if d == 4 { '4' } else if d == 5 { '5' } else if d == 6 { '6' } else if d == 7 { '7' }
    else if d == 8 { '8' } else { '9' }
}

/// `n` written in decimal, without leading zeros.
pub open spec fn decimal(n: nat) -> Seq<char>
    decreases n,
{
    if n < 10 {
        seq![digit_char(n)]
    } else {
        decimal(n / 10).push(digit_char(n % 10))
    }
}

/// The identifier of node `n` in the graph description: `N` and its index.
pub open spec fn node_id_text(n: nat) -> Seq<char> {
    seq!['N'] + decimal(n)
}

pub open spec fn is_letter_or_underscore(c: char) -> bool {
    ('a' <= c && c <= 'z') || ('A' <= c && c <= 'Z') || c == '_'
}

/// A name that the graph description accepts as an identifier: a letter or
/// an underscore, then letters, underscores and decimal digits.
pub open spec fn is_plain_id(s: Seq<char>) -> bool {
    &&& s.len() > 0
    &&& is_letter_or_underscore(s[0])
    &&& forall|i: int| 1 <= i < s.len() ==> is_letter_or_underscore(#[trigger] s[i]) || ('0' <= s[i] && s[i] <= '9')
}

/// Relies on `dot::Id::new`, which accepts exactly the names that begin
/// with an ASCII letter or `_` and go on with ASCII letters, `_` and digits.
#[verifier::external_body]
fn is_dot_id(name: &str) -> (r: bool)
    ensures
        r == is_plain_id(name@),
{
    dot::Id::new(name.to_string()).is_ok()
}

/// An identifier of the graph description that is not a valid one.
pub struct SerializationError {
    pub id: String,
}

fn digit_str(d: usize) -> (r: &'static str)
    requires
        d < 10,
    ensures
        r@ == seq![digit_char(d as nat)],
{
    proof {
        reveal_strlit("0");
        reveal_strlit("1");
        reveal_strlit("2");
        reveal_strlit("3");
        reveal_strlit("4");
        reveal_strlit("5");
        reveal_strlit("6");
        reveal_strlit("7");
        reveal_strlit("8");
        reveal_strlit("9");
    }
    let r = if d == 0 { "0" } else if d == 1 { "1" } else if d == 2 { "2" } else if d == 3 { "3" }
        else if d == 4 { "4" } else if d == 5 { "5" } else if d == 6 { "6" } else if d == 7 { "7" }
        else if d == 8 { "8" } else { "9" };
    assert(r@ =~= seq![digit_char(d as nat)]);
    r
}

/// `n` in decimal.
pub fn decimal_string(n: usize) -> (r: String)
    ensures
        r@ == decimal(n as nat),
    decreases n,
{
    if n < 10 {
        String::from_str(digit_str(n))
    } else {
        let mut s = decimal_string(n / 10);
        s.append(digit_str(n % 10));
        assert(s@ =~= decimal(n as nat));
        s
    }
}

proof fn lemma_decimal_digits(n: nat)
    ensures
        decimal(n).len() > 0,
        forall|i: int| 0 <= i < decimal(n).len() ==> '0' <= #[trigger] decimal(n)[i] && decimal(n)[i] <= '9',
    decreases n,
{
    if n >= 10 {
        lemma_decimal_digits(n / 10);
    }
}

/// Every node identifier is a valid identifier of the graph description.
pub proof fn lemma_node_id_valid(n: nat)
    ensures
        is_plain_id(node_id_text(n)),
{
    lemma_decimal_digits(n);
    let s = node_id_text(n);
    assert forall|i: int| 1 <= i < s.len() implies '0' <= #[trigger] s[i] && s[i] <= '9' by {
        assert(s[i] == decimal(n)[i - 1]);
    }
}

impl Graph {
    /// The identifier of the graph.
    pub fn graph_id(&self) -> (r: &'static str)
        ensures
            r@ == seq!['e', 'x', 'a', 'm', 'p', 'l', 'e', '2'],
    {
        proof {
            reveal_strlit("example2");
        }
        "example2"
    }

    /// The identifier of node `n`: `N` followed by `n` in decimal.
    pub fn node_id(&self, n: usize) -> (r: String)
        ensures
            r@ == node_id_text(n as nat),
    {
        let mut s = String::from_str("N");
        proof {
            reveal_strlit("N");
        }
        let d = decimal_string(n);
        s.append(d.as_str());
        assert(s@ =~= node_id_text(n as nat));
        s
    }

    /// The label of node `n`: its name.
    pub fn node_label(&self, n: usize) -> (r: &String)
        requires
            n < self.nodes_view().len(),
        ensures
            r@ == self.nodes_view()[n as int],
    {
        &self.nodes[n]
    }

    /// The label of every edge, the same for all: the HTML entity of the
    /// subset-or-equal sign.
    pub fn edge_label(&self) -> (r: &'static str)
        ensures
            r@ == seq!['&', 's', 'u', 'b', 'e', ';'],
    {
        proof {
            reveal_strlit("&sube;");
        }
        "&sube;"
    }

    /// The node indices, in order: one for each node.
    pub fn nodes(&self) -> (r: Vec<usize>)
        ensures
            r@.len() == self.nodes_view().len(),
            forall|i: int| 0 <= i < r@.len() ==> r@[i] == i,
    {
        let mut r: Vec<usize> = Vec::new();
        let mut i: usize = 0;
        while i < self.nodes.len()
            invariant
                i <= self.nodes@.len(),
                r@.len() == i,
                forall|k: int| 0 <= k < i ==> r@[k] == k,
            decreases self.nodes@.len() - i,
        {
            r.push(i);
            i = i + 1;
        }
        r
    }

    /// The edges, in order.
    pub fn edges(&self) -> (r: &Vec<(usize, usize)>)
        ensures
            r@ == self.edges_view(),
    {
        &self.edges
    }

    /// The node names, in order.
    pub fn names(&self) -> (r: &Vec<String>)
        ensures
            names_of(r@) == self.nodes_view(),
    {
        &self.nodes
    }

    /// The node an edge leaves.
    pub fn source(&self, e: &(usize, usize)) -> (r: usize)
        ensures
            r == e.0,
    {
        e.0
    }

    /// The node an edge enters.
    pub fn target(&self, e: &(usize, usize)) -> (r: usize)
        ensures
            r == e.1,
    {
        e.1
    }

    /// Validates every identifier that the description of this graph uses:
    /// the graph's own and each node's. Each is valid, so this succeeds.
    pub fn validate_ids(&self) -> (r: Result<(), SerializationError>)
        ensures
            r is Ok,
    {
        let gid = self.graph_id();
        proof {
            reveal_strlit("example2");
        }
        if !is_dot_id(gid) {
            return Err(SerializationError { id: String::from_str(gid) });
        }
        let mut i: usize = 0;
        while i < self.nodes.len()
            invariant
                i <= self.nodes@.len(),
            decreases self.nodes@.len() - i,
        {
            let id = self.node_id(i);
            proof {
                lemma_node_id_valid(i as nat);
            }
            if !is_dot_id(id.as_str()) {
                return Err(SerializationError { id });
            }
            i = i + 1;
        }
        Ok(())
    }
}

} // verus!
