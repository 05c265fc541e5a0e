//! The node graph orderer: a deterministic topological order of the nodes
//! under precedence edges, with an id-sorted order when none exists.
use vstd::prelude::*;
use crate::model::EngineNode;
use crate::text::{
    lemma_lex_irreflexive, lemma_lex_total, lemma_lex_transitive, lex_le,
    lex_lt, text_lt,
};

verus! {

broadcast use vstd::seq_lib::group_to_multiset_ensures;

/// A precedence constraint: `source` renders before `target`.
#[derive(Debug)]
pub struct Edge {
    pub source: String,
    pub target: String,
}

pub open spec fn ids_of(nodes: Seq<EngineNode>) -> Seq<Seq<char>> {
    nodes.map_values(|n: EngineNode| n.id@)
}

/// No two nodes share an id.
pub open spec fn unique_ids(nodes: Seq<EngineNode>) -> bool {
    forall|i: int, j: int| 0 <= i < j < nodes.len() ==> nodes[i].id@ != nodes[j].id@
}

/// Both ends of `e` name a node; edges that do not are ignored.
pub open spec fn is_known(ids: Seq<Seq<char>>, e: Edge) -> bool {
    ids.contains(e.source@) && ids.contains(e.target@)
}

/// `v` still waits on a known edge whose source is not among `done`.
pub open spec fn blocked(ids: Seq<Seq<char>>, edges: Seq<Edge>, done: Seq<Seq<char>>, v: Seq<char>) -> bool {
    exists|k: int|
        0 <= k < edges.len() && is_known(ids, #[trigger] edges[k]) && edges[k].target@ == v
            && !done.contains(edges[k].source@)
}

/// `v` may come next once `done` has been placed.
pub open spec fn is_ready(ids: Seq<Seq<char>>, edges: Seq<Edge>, done: Seq<Seq<char>>, v: Seq<char>) -> bool {
    ids.contains(v) && !done.contains(v) && !blocked(ids, edges, done, v)
}

/// Each id of `order` is the smallest of those ready after its predecessors.
pub open spec fn is_kahn_order(order: Seq<Seq<char>>, ids: Seq<Seq<char>>, edges: Seq<Edge>) -> bool {
    forall|k: int|
        0 <= k < order.len() ==> {
            &&& is_ready(ids, edges, order.subrange(0, k), #[trigger] order[k])
            &&& forall|v: Seq<char>|
                is_ready(ids, edges, order.subrange(0, k), v) ==> lex_le(order[k], v)
        }
}

/// `order` lists every id once and puts the source of each known edge
/// before its target.
pub open spec fn is_topo_order(order: Seq<Seq<char>>, ids: Seq<Seq<char>>, edges: Seq<Edge>) -> bool {
    &&& order.no_duplicates()
    &&& forall|v: Seq<char>| ids.contains(v) <==> order.contains(v)
    &&& forall|k: int, i: int, j: int|
        #![trigger edges[k], order[i], order[j]]
        0 <= k < edges.len() && is_known(ids, edges[k]) && 0 <= i < order.len() && 0
            <= j < order.len() && order[i] == edges[k].source@ && order[j] == edges[k].target@
            ==> i < j
}

/// The graph is acyclic: some order of its ids respects every known edge.
pub open spec fn has_topo_order(ids: Seq<Seq<char>>, edges: Seq<Edge>) -> bool {
    exists|order: Seq<Seq<char>>| is_topo_order(order, ids, edges)
}

pub open spec fn has_id(x: Seq<char>) -> spec_fn(EngineNode) -> bool {
    |n: EngineNode| n.id@ == x
}

/// `r` holds the nodes of `nodes`, ordered by id ascending; nodes that share
/// an id keep their order.
pub open spec fn sorted_by_id(r: Seq<EngineNode>, nodes: Seq<EngineNode>) -> bool {
    &&& r.to_multiset() == nodes.to_multiset()
    &&& forall|i: int, j: int| 0 <= i < j < r.len() ==> lex_le(r[i].id@, r[j].id@)
    &&& forall|x: Seq<char>| #[trigger] r.filter(has_id(x)) == nodes.filter(has_id(x))
}

proof fn lemma_filter_none(s: Seq<EngineNode>, x: Seq<char>)
    requires
        forall|i: int| 0 <= i < s.len() ==> (#[trigger] s[i]).id@ != x,
    ensures
        s.filter(has_id(x)) == Seq::<EngineNode>::empty(),
    decreases s.len(),
{
    if s.len() == 0 {
        s.filter_lemma(has_id(x));
        assert(s.filter(has_id(x)) =~= Seq::<EngineNode>::empty());
    } else {
        assert forall|i: int| 0 <= i < s.drop_last().len() implies (#[trigger] s.drop_last()[i]).id@ != x by {
            assert(s.drop_last()[i] == s[i]);
        }
        lemma_filter_none(s.drop_last(), x);
        s.drop_last().lemma_filter_push(s.last(), has_id(x));
        assert(s.drop_last().push(s.last()) =~= s);
    }
}

proof fn lemma_filter_single(n: EngineNode, x: Seq<char>)
    ensures
        seq![n].filter(has_id(x)) == if n.id@ == x {
            seq![n]
        } else {
            Seq::<EngineNode>::empty()
        },
{
    let e = Seq::<EngineNode>::empty();
    e.filter_lemma(has_id(x));
    assert(e.filter(has_id(x)) =~= e);
    e.lemma_filter_push(n, has_id(x));
    assert(e.push(n) =~= seq![n]);
    assert(e.push(n) =~= seq![n]);
    if n.id@ == x {
        assert(e.filter(has_id(x)).push(n) =~= seq![n]);
    }
}

/// A node-for-node copy.
fn copy_nodes(nodes: &Vec<EngineNode>) -> (r: Vec<EngineNode>)
    ensures
        r@ == nodes@,
{
    let mut r: Vec<EngineNode> = Vec::new();
    let mut k: usize = 0;
    while k < nodes.len()
        invariant
            k <= nodes@.len(),
            r@ == nodes@.subrange(0, k as int),
        decreases nodes@.len() - k,
    {
        r.push(nodes[k].duplicate());
        assert(r@ =~= nodes@.subrange(0, k + 1));
        k = k + 1;
    }
    assert(r@ =~= nodes@);
    r
}

/// The nodes sorted by id ascending; nodes with equal ids keep their order.
pub fn sort_nodes_by_id(nodes: &Vec<EngineNode>) -> (r: Vec<EngineNode>)
    ensures
        sorted_by_id(r@, nodes@),
{
    let mut r: Vec<EngineNode> = Vec::new();
    let mut k: usize = 0;
    while k < nodes.len()
        invariant
            k <= nodes@.len(),
            r@.to_multiset() == nodes@.subrange(0, k as int).to_multiset(),
            forall|i: int, j: int| 0 <= i < j < r@.len() ==> lex_le(r@[i].id@, r@[j].id@),
            forall|y: Seq<char>| #[trigger] r@.filter(has_id(y)) == nodes@.subrange(0, k as int).filter(has_id(y)),
        decreases nodes@.len() - k,
    {
        let x = nodes[k].duplicate();
        let mut p: usize = r.len();
        while p > 0 && text_lt(x.id.as_str(), r[p - 1].id.as_str())
            invariant
                p <= r@.len(),
                forall|q: int| p <= q < r@.len() ==> lex_lt(x.id@, #[trigger] r@[q].id@),
            decreases p,
        {
            p = p - 1;
        }
        let ghost old_r = r@;
        let ghost nx = x;
        proof {
            if p > 0 {
                if old_r[p - 1].id@ != x.id@ {
                    lemma_lex_total(old_r[p - 1].id@, x.id@);
                }
            }
        }
        r.insert(p, x);
        proof {
            let a = old_r.subrange(0, p as int);
            let b = old_r.subrange(p as int, old_r.len() as int);
            assert(r@ =~= a + seq![nx] + b);
            assert(old_r =~= a + b);
            assert(nodes@.subrange(0, k + 1) =~= nodes@.subrange(0, k as int) + seq![nx]);
            assert forall|y: Seq<char>| #[trigger] r@.filter(has_id(y)) == nodes@.subrange(0, k + 1).filter(has_id(y)) by {
                Seq::filter_distributes_over_add(a + seq![nx], b, has_id(y));
                Seq::filter_distributes_over_add(a, seq![nx], has_id(y));
                Seq::filter_distributes_over_add(a, b, has_id(y));
                Seq::filter_distributes_over_add(nodes@.subrange(0, k as int), seq![nx], has_id(y));
                assert(old_r.filter(has_id(y)) == nodes@.subrange(0, k as int).filter(has_id(y)));
                lemma_filter_single(nx, y);
                if nx.id@ == y {
                    assert forall|i: int| 0 <= i < b.len() implies (#[trigger] b[i]).id@ != y by {
                        assert(b[i] == old_r[p + i]);
                        assert(lex_lt(x.id@, old_r[p + i].id@));
                        lemma_lex_irreflexive(x.id@);
                    }
                    lemma_filter_none(b, y);
                }
                assert(r@.filter(has_id(y)) =~= nodes@.subrange(0, k + 1).filter(has_id(y)));
            }
        }
        assert(r@.remove(p as int) =~= old_r);
        assert(r@[p as int] == x);
        assert(nodes@.subrange(0, k + 1) =~= nodes@.subrange(0, k as int).push(x));
        assert(r@.to_multiset() == old_r.to_multiset().insert(x)) by {
            assert(r@.remove(p as int).to_multiset() == r@.to_multiset().remove(x));
            assert(r@.to_multiset().count(x) > 0);
            assert(r@.to_multiset() =~= r@.to_multiset().remove(x).insert(x));
        }
        assert forall|i: int, j: int| 0 <= i < j < r@.len() implies lex_le(
            r@[i].id@,
            r@[j].id@,
        ) by {
            if j < p {
                assert(r@[i] == old_r[i] && r@[j] == old_r[j]);
            } else if j == p {
                assert(r@[i] == old_r[i]);
                if i < p - 1 {
                    assert(lex_le(old_r[i].id@, old_r[p - 1].id@));
                    if old_r[i].id@ != old_r[p - 1].id@ && old_r[p - 1].id@ != x.id@ {
                        lemma_lex_transitive(old_r[i].id@, old_r[p - 1].id@, x.id@);
                    }
                }
            } else if i < p {
                assert(r@[i] == old_r[i] && r@[j] == old_r[j - 1]);
                assert(lex_le(old_r[i].id@, old_r[j - 1].id@));
            } else if i == p {
                assert(r@[j] == old_r[j - 1]);
                assert(lex_lt(x.id@, old_r[j - 1].id@));
            } else {
                assert(r@[i] == old_r[i - 1] && r@[j] == old_r[j - 1]);
            }
        }
        k = k + 1;
    }
    assert(nodes@.subrange(0, nodes@.len() as int) =~= nodes@);
    r
}

/// The first index at or before `j` whose item is outside `p`.
proof fn lemma_first_outside(s: Seq<Seq<char>>, p: Seq<Seq<char>>, j: int) -> (m: int)
    requires
        0 <= j < s.len(),
        !p.contains(s[j]),
    ensures
        0 <= m <= j,
        !p.contains(s[m]),
        forall|i: int| 0 <= i < m ==> p.contains(#[trigger] s[i]),
    decreases j,
{
    if exists|i: int| 0 <= i < j && !p.contains(#[trigger] s[i]) {
        let i = choose|i: int| 0 <= i < j && !p.contains(#[trigger] s[i]);
        lemma_first_outside(s, p, i)
    } else {
        j
    }
}

/// When no id is ready while some are left, the graph has a cycle.
proof fn lemma_stuck_means_cycle(ids: Seq<Seq<char>>, edges: Seq<Edge>, done: Seq<Seq<char>>, v: Seq<char>)
    requires
        ids.contains(v),
        !done.contains(v),
        forall|w: Seq<char>| !is_ready(ids, edges, done, w),
    ensures
        !has_topo_order(ids, edges),
{
    if has_topo_order(ids, edges) {
        let order = choose|order: Seq<Seq<char>>| is_topo_order(order, ids, edges);
        assert(order.contains(v));
        let j = choose|j: int| 0 <= j < order.len() && order[j] == v;
        let m = lemma_first_outside(order, done, j);
        let w = order[m];
        assert(ids.contains(w));
        assert(!is_ready(ids, edges, done, w));
        assert(blocked(ids, edges, done, w));
        let k = choose|k: int|
            0 <= k < edges.len() && is_known(ids, #[trigger] edges[k]) && edges[k].target@ == w
                && !done.contains(edges[k].source@);
        let u = edges[k].source@;
        assert(order.contains(u));
        let i = choose|i: int| 0 <= i < order.len() && order[i] == u;
        assert(i < m);
        assert(done.contains(order[i]));
    }
}

/// A Kahn order that places every id respects every known edge.
proof fn lemma_complete_kahn_is_topo(order: Seq<Seq<char>>, ids: Seq<Seq<char>>, edges: Seq<Edge>)
    requires
        is_kahn_order(order, ids, edges),
        order.len() == ids.len(),
        ids.no_duplicates(),
    ensures
        is_topo_order(order, ids, edges),
{
    assert forall|i: int, j: int| 0 <= i < order.len() && 0 <= j < order.len() && i != j implies order[i] != order[j] by {
        if i < j {
            assert(is_ready(ids, edges, order.subrange(0, j), order[j]));
            assert(order.subrange(0, j)[i] == order[i]);
        } else {
            assert(is_ready(ids, edges, order.subrange(0, i), order[i]));
            assert(order.subrange(0, i)[j] == order[j]);
        }
    }
    assert(order.no_duplicates());
    assert forall|v: Seq<char>| order.contains(v) implies ids.contains(v) by {
        let k = choose|k: int| 0 <= k < order.len() && order[k] == v;
        assert(is_ready(ids, edges, order.subrange(0, k), order[k]));
    }
    order.unique_seq_to_set();
    ids.unique_seq_to_set();
    assert(order.to_set().subset_of(ids.to_set()));
    vstd::set_lib::lemma_subset_equality(order.to_set(), ids.to_set());
    assert forall|v: Seq<char>| ids.contains(v) implies order.contains(v) by {
        assert(ids.to_set().contains(v));
    }
    assert forall|k: int, i: int, j: int|
        #![trigger edges[k], order[i], order[j]]
        0 <= k < edges.len() && is_known(ids, edges[k]) && 0 <= i < order.len() && 0 <= j
            < order.len() && order[i] == edges[k].source@ && order[j] == edges[k].target@ implies i
        < j by {
        assert(is_ready(ids, edges, order.subrange(0, j), order[j]));
        if !order.subrange(0, j).contains(edges[k].source@) {
            assert(blocked(ids, edges, order.subrange(0, j), order[j]));
        } else {
            let q = choose|q: int| 0 <= q < j && order.subrange(0, j)[q] == edges[k].source@;
            assert(order[q] == order[i]);
        }
    }
}

/// What ordering `nodes` under `edges` yields: the nodes as given when there
/// are no edges; the Kahn order when the ids are distinct and the graph is
/// acyclic; else the nodes sorted by id.
pub open spec fn orders_as(nodes: Seq<EngineNode>, edges: Seq<Edge>, r: Seq<EngineNode>) -> bool {
    &&& edges.len() == 0 ==> r == nodes
    &&& edges.len() > 0 && unique_ids(nodes) && has_topo_order(ids_of(nodes), edges) ==> {
        &&& r.len() == nodes.len()
        &&& is_kahn_order(ids_of(r), ids_of(nodes), edges)
        &&& forall|k: int| 0 <= k < r.len() ==> nodes.contains(#[trigger] r[k])
    }
    &&& edges.len() > 0 && !(unique_ids(nodes) && has_topo_order(ids_of(nodes), edges))
        ==> sorted_by_id(r, nodes)
}

/// Where each edge's ends sit among the nodes.
pub open spec fn endpoints_ok(
    src: Seq<Option<usize>>,
    tgt: Seq<Option<usize>>,
    ids: Seq<Seq<char>>,
    edges: Seq<Edge>,
) -> bool {
    &&& src.len() == edges.len()
    &&& tgt.len() == edges.len()
    &&& forall|k: int|
        0 <= k < edges.len() ==> match #[trigger] src[k] {
            Some(i) => i < ids.len() && ids[i as int] == edges[k].source@,
            None => !ids.contains(edges[k].source@),
        }
    &&& forall|k: int|
        0 <= k < edges.len() ==> match #[trigger] tgt[k] {
            Some(i) => i < ids.len() && ids[i as int] == edges[k].target@,
            None => !ids.contains(edges[k].target@),
        }
}

/// The position of the node with id `id`, if any.
fn index_of_id(nodes: &Vec<EngineNode>, id: &str) -> (r: Option<usize>)
    ensures
        r matches Some(i) ==> i < nodes@.len() && nodes@[i as int].id@ == id@,
        r is None ==> !ids_of(nodes@).contains(id@),
{
    let key = id.to_owned();
    let mut k: usize = 0;
    while k < nodes.len()
        invariant
            k <= nodes@.len(),
            key@ == id@,
            forall|q: int| 0 <= q < k ==> nodes@[q].id@ != id@,
        decreases nodes@.len() - k,
    {
        if nodes[k].id == key {
            return Some(k);
        }
        k = k + 1;
    }
    assert forall|q: int| 0 <= q < nodes@.len() implies ids_of(nodes@)[q] != id@ by {
        assert(nodes@[q].id@ != id@);
    }
    None
}

/// Whether no two nodes share an id.
fn has_unique_ids(nodes: &Vec<EngineNode>) -> (r: bool)
    ensures
        r == unique_ids(nodes@),
{
    let mut i: usize = 0;
    while i < nodes.len()
        invariant
            i <= nodes@.len(),
            forall|a: int, b: int| 0 <= a < i && a < b < nodes@.len() ==> nodes@[a].id@ != nodes@[b].id@,
        decreases nodes@.len() - i,
    {
        let mut j: usize = i + 1;
        while j < nodes.len()
            invariant
                i < nodes@.len(),
                i + 1 <= j <= nodes@.len(),
                forall|a: int, b: int| 0 <= a < i && a < b < nodes@.len() ==> nodes@[a].id@ != nodes@[b].id@,
                forall|b: int| i < b < j ==> nodes@[i as int].id@ != nodes@[b].id@,
            decreases nodes@.len() - j,
        {
            if nodes[i].id == nodes[j].id {
                return false;
            }
            j = j + 1;
        }
        i = i + 1;
    }
    true
}

/// Whether a known edge into node `c` still has its source unplaced.
fn blocked_at(src: &Vec<Option<usize>>, tgt: &Vec<Option<usize>>, placed: &Vec<bool>, c: usize) -> (r: bool)
    requires
        src@.len() == tgt@.len(),
        forall|k: int| 0 <= k < src@.len() ==> (#[trigger] src@[k] matches Some(s) ==> s < placed@.len()),
    ensures
        r == exists|k: int|
            0 <= k < src@.len() && #[trigger] tgt@[k] == Some(c) && src@[k] is Some
                && !placed@[src@[k]->0 as int],
{
    let mut k: usize = 0;
    while k < src.len()
        invariant
            k <= src@.len(),
            src@.len() == tgt@.len(),
            forall|q: int| 0 <= q < src@.len() ==> (#[trigger] src@[q] matches Some(s) ==> s < placed@.len()),
            forall|q: int|
                0 <= q < k ==> !(#[trigger] tgt@[q] == Some(c) && src@[q] is Some
                    && !placed@[src@[q]->0 as int]),
        decreases src@.len() - k,
    {
        if tgt[k] == Some(c) {
            match src[k] {
                Some(s) => {
                    if !placed[s] {
                        return true;
                    }
                },
                None => {},
            }
        }
        k = k + 1;
    }
    false
}

/// The nodes in a stable order that respects the edges. Without edges the
/// nodes keep their order. Otherwise each step places the smallest id among
/// the nodes whose known incoming edges all start at placed nodes; edges with
/// an end that names no node are ignored. When that cannot place every node
/// (a cycle, or two nodes sharing an id), all nodes are sorted by id.
pub fn topo_sort_nodes(nodes: &Vec<EngineNode>, edges: &Vec<Edge>) -> (r: Vec<EngineNode>)
    ensures
        orders_as(nodes@, edges@, r@),
{
    if edges.len() == 0 {
        return copy_nodes(nodes);
    }
    if !has_unique_ids(nodes) {
        return sort_nodes_by_id(nodes);
    }
    let ghost ids = ids_of(nodes@);
    assert(ids.no_duplicates());
    let n = nodes.len();
    let mut src: Vec<Option<usize>> = Vec::new();
    let mut tgt: Vec<Option<usize>> = Vec::new();
    let mut k: usize = 0;
    while k < edges.len()
        invariant
            k <= edges@.len(),
            ids == ids_of(nodes@),
            endpoints_ok(src@, tgt@, ids, edges@.subrange(0, k as int)),
        decreases edges@.len() - k,
    {
        src.push(index_of_id(nodes, edges[k].source.as_str()));
        tgt.push(index_of_id(nodes, edges[k].target.as_str()));
        k = k + 1;
    }
    assert(edges@.subrange(0, edges@.len() as int) =~= edges@);
    let mut placed: Vec<bool> = Vec::new();
    while placed.len() < n
        invariant
            placed@.len() <= n,
            forall|i: int| 0 <= i < placed@.len() ==> !placed@[i],
        decreases n - placed@.len(),
    {
        placed.push(false);
    }
    let mut result: Vec<EngineNode> = Vec::new();
    let ghost mut done: Seq<Seq<char>> = seq![];
    assert(done =~= ids_of(result@));
    while result.len() < n
        invariant
            n == nodes@.len(),
            ids == ids_of(nodes@),
            ids.no_duplicates(),
            unique_ids(nodes@),
            endpoints_ok(src@, tgt@, ids, edges@),
            placed@.len() == n,
            done == ids_of(result@),
            result@.len() <= n,
            is_kahn_order(done, ids, edges@),
            forall|i: int| 0 <= i < n ==> (#[trigger] placed@[i] <==> done.contains(ids[i])),
            forall|q: int| 0 <= q < result@.len() ==> nodes@.contains(#[trigger] result@[q]),
        ensures
            ids == ids_of(nodes@),
            ids.no_duplicates(),
            placed@.len() == n,
            done == ids_of(result@),
            result@.len() <= n,
            is_kahn_order(done, ids, edges@),
            forall|i: int| 0 <= i < n ==> (#[trigger] placed@[i] <==> done.contains(ids[i])),
            forall|q: int| 0 <= q < result@.len() ==> nodes@.contains(#[trigger] result@[q]),
            result@.len() == n || forall|w: Seq<char>| !is_ready(ids, edges@, done, w),
        decreases n - result@.len(),
    {
        let mut best: Option<usize> = None;
        let mut c: usize = 0;
        while c < n
            invariant
                n == nodes@.len(),
                ids == ids_of(nodes@),
                ids.no_duplicates(),
                endpoints_ok(src@, tgt@, ids, edges@),
                placed@.len() == n,
                c <= n,
                forall|i: int| 0 <= i < n ==> (#[trigger] placed@[i] <==> done.contains(ids[i])),
                best matches Some(b) ==> b < n && is_ready(ids, edges@, done, ids[b as int])
                    && forall|q: int|
                    0 <= q < c && is_ready(ids, edges@, done, #[trigger] ids[q]) ==> lex_le(
                        ids[b as int],
                        ids[q],
                    ),
                best is None ==> forall|q: int| 0 <= q < c ==> !is_ready(ids, edges@, done, #[trigger] ids[q]),
            decreases n - c,
        {
            let is_blocked = blocked_at(&src, &tgt, &placed, c);
            assert(is_blocked == blocked(ids, edges@, done, ids[c as int])) by {
                if is_blocked {
                    let k = choose|k: int|
                        0 <= k < src@.len() && #[trigger] tgt@[k] == Some(c) && src@[k] is Some
                            && !placed@[src@[k]->0 as int];
                    assert(is_known(ids, edges@[k]));
                    assert(ids.contains(edges@[k].source@));
                } else {
                    if blocked(ids, edges@, done, ids[c as int]) {
                        let k = choose|k: int|
                            0 <= k < edges@.len() && is_known(ids, #[trigger] edges@[k])
                                && edges@[k].target@ == ids[c as int] && !done.contains(
                                edges@[k].source@,
                            );
                        assert(src@[k] is Some);
                        assert(tgt@[k] is Some);
                        assert(tgt@[k] == Some(c));
                    }
                }
            }
            assert(ids.contains(ids[c as int]));
            if !placed[c] && !is_blocked {
                match best {
                    None => {
                        best = Some(c);
                    },
                    Some(b) => {
                        if text_lt(nodes[c].id.as_str(), nodes[b].id.as_str()) {
                            proof {
                                assert forall|q: int|
                                    0 <= q < c + 1 && is_ready(ids, edges@, done, #[trigger] ids[q])
                                    implies lex_le(ids[c as int], ids[q]) by {
                                    if q < c && ids[b as int] != ids[q] {
                                        lemma_lex_transitive(ids[c as int], ids[b as int], ids[q]);
                                    }
                                }
                            }
                            best = Some(c);
                        } else {
                            proof {
                                if ids[c as int] != ids[b as int] {
                                    lemma_lex_total(ids[c as int], ids[b as int]);
                                }
                            }
                        }
                    },
                }
            }
            c = c + 1;
        }
        match best {
            None => {
                assert forall|w: Seq<char>| !is_ready(ids, edges@, done, w) by {
                    if is_ready(ids, edges@, done, w) {
                        let q = choose|q: int| 0 <= q < ids.len() && ids[q] == w;
                        assert(!is_ready(ids, edges@, done, ids[q]));
                    }
                }
                break;
            },
            Some(b) => {
                let ghost prev = done;
                proof {
                    assert forall|v: Seq<char>| is_ready(ids, edges@, done, v) implies lex_le(
                        ids[b as int],
                        v,
                    ) by {
                        let q = choose|q: int| 0 <= q < ids.len() && ids[q] == v;
                        assert(is_ready(ids, edges@, done, ids[q]));
                    }
                    done = done.push(ids[b as int]);
                    assert(done.subrange(0, prev.len() as int) =~= prev);
                    assert forall|j: int| 0 <= j < done.len() implies {
                        &&& is_ready(ids, edges@, done.subrange(0, j), #[trigger] done[j])
                        &&& forall|v: Seq<char>|
                            is_ready(ids, edges@, done.subrange(0, j), v) ==> lex_le(done[j], v)
                    } by {
                        if j < prev.len() {
                            assert(done.subrange(0, j) =~= prev.subrange(0, j));
                            assert(done[j] == prev[j]);
                        }
                    }
                    assert forall|i: int| 0 <= i < n implies (#[trigger] placed@[i] || i == b) <==> done.contains(ids[i]) by {
                        if done.contains(ids[i]) && !prev.contains(ids[i]) {
                            let q = choose|q: int| 0 <= q < done.len() && done[q] == ids[i];
                            assert(q == prev.len());
                            assert(ids[i] == ids[b as int]);
                        }
                        if i == b {
                            assert(done[prev.len() as int] == ids[i]);
                        }
                        if placed@[i] {
                            let q = choose|q: int| 0 <= q < prev.len() && prev[q] == ids[i];
                            assert(done[q] == ids[i]);
                        }
                    }
                }
                let ghost old_placed = placed@;
                placed.set(b, true);
                assert forall|i: int| 0 <= i < n implies (#[trigger] placed@[i] <==> done.contains(
                    ids[i],
                )) by {
                    assert(old_placed[i] || i == b <==> done.contains(ids[i]));
                    if i != b {
                        assert(placed@[i] == old_placed[i]);
                    }
                }
                result.push(nodes[b].duplicate());
                assert(done =~= ids_of(result@));
                assert(nodes@.contains(nodes@[b as int]));
            },
        }
    }
    if result.len() < n {
        proof {
            assert(ids_of(result@).len() < ids.len());
            assert(exists|i: int| 0 <= i < n && !placed@[i]) by {
                if forall|i: int| 0 <= i < n ==> placed@[i] {
                    assert forall|v: Seq<char>| ids.to_set().contains(v) implies done.to_set().contains(v) by {
                        let i = choose|i: int| 0 <= i < ids.len() && ids[i] == v;
                        assert(placed@[i]);
                    }
                    done.lemma_cardinality_of_set();
                    ids.unique_seq_to_set();
                    vstd::set_lib::lemma_len_subset(ids.to_set(), done.to_set());
                }
            }
            let i = choose|i: int| 0 <= i < n && !placed@[i];
            lemma_stuck_means_cycle(ids, edges@, done, ids[i]);
        }
        return sort_nodes_by_id(nodes);
    }
    proof {
        lemma_complete_kahn_is_topo(done, ids, edges@);
    }
    result
}

/// In an acyclic graph whose nodes have distinct ids, the source of every
/// edge between two nodes is placed before its target.
pub proof fn lemma_order_respects_edges(nodes: Seq<EngineNode>, edges: Seq<Edge>, r: Seq<EngineNode>)
    requires
        orders_as(nodes, edges, r),
        unique_ids(nodes),
        has_topo_order(ids_of(nodes), edges),
    ensures
        forall|k: int, i: int, j: int|
            #![trigger edges[k], r[i], r[j]]
            0 <= k < edges.len() && is_known(ids_of(nodes), edges[k]) && 0 <= i < r.len() && 0
                <= j < r.len() && r[i].id@ == edges[k].source@ && r[j].id@ == edges[k].target@
                ==> i < j,
{
    if edges.len() > 0 {
        let ids = ids_of(nodes);
        let order = ids_of(r);
        assert(ids.no_duplicates());
        lemma_complete_kahn_is_topo(order, ids, edges);
        assert forall|k: int, i: int, j: int|
            #![trigger edges[k], r[i], r[j]]
            0 <= k < edges.len() && is_known(ids, edges[k]) && 0 <= i < r.len() && 0 <= j < r.len()
                && r[i].id@ == edges[k].source@ && r[j].id@ == edges[k].target@ implies i < j by {
            assert(order[i] == r[i].id@ && order[j] == r[j].id@);
        }
    }
}

/// When the graph has a cycle the order is all nodes sorted by id.
pub proof fn lemma_cycle_sorts_by_id(nodes: Seq<EngineNode>, edges: Seq<Edge>, r: Seq<EngineNode>)
    requires
        orders_as(nodes, edges, r),
        edges.len() > 0,
        !has_topo_order(ids_of(nodes), edges),
    ensures
        sorted_by_id(r, nodes),
{
}

} // verus!
