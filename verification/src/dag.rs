//! The execution DAG of a rule schema: its nodes and edges, and the order in
//! which its nodes can run.

use vstd::prelude::*;

use crate::strmap::{lemma_sorted_index_of, lemma_sorted_no_duplicates, StrMap};

verus! {

/// What a DAG node stands for.
#[derive(Debug, Clone, Copy, PartialEq, Eq, Structural)]
pub enum DagNodeKind {
    Field,
    Rule,
}

/// Why one node comes before another.
#[derive(Debug, Clone, Copy, PartialEq, Eq, Structural)]
pub enum DagEdgeKind {
    Data,
    ControlThen,
    ControlElse,
}

pub struct DagNode {
    pub id: String,
    pub kind: DagNodeKind,
    pub target: Option<String>,
    pub operator: Option<String>,
    pub dependencies: Vec<String>,
    pub external_inputs: Vec<String>,
}

pub struct DagEdge {
    pub from: String,
    pub to: String,
    pub kind: DagEdgeKind,
}

/// The nodes, keyed by node id, and the edges between them.
pub struct ExecutionDag {
    pub nodes: StrMap<DagNode>,
    pub edges: Vec<DagEdge>,
}

/// Errors in building a DAG from a rule schema.
#[derive(Debug)]
pub enum DagBuildError {
    DuplicateField(String),
    DuplicateRule(String),
    UnknownBranchRuleReference { rule_id: String, referenced_rule: String },
    CycleDetected,
}

impl ExecutionDag {
    /// `order` lists every node id once and puts the source of every edge that
    /// ends at a node before that node.
    pub open spec fn is_topological_order(&self, order: Seq<Seq<char>>) -> bool {
        &&& order.no_duplicates()
        &&& forall|i: int| 0 <= i < order.len() ==> self.nodes.contains(#[trigger] order[i])
        &&& forall|key: Seq<char>| self.nodes.contains(key) ==> order.contains(key)
        &&& forall|k: int|
            0 <= k < self.edges@.len() && self.nodes.contains(#[trigger] self.edges@[k].to@)
                ==> exists|i: int, j: int|
                0 <= i < j < order.len() && order[i] == self.edges@[k].from@ && order[j]
                    == self.edges@[k].to@
    }

    /// Some order of the nodes respects every edge.
    pub open spec fn is_acyclic(&self) -> bool {
        exists|order: Seq<Seq<char>>| self.is_topological_order(order)
    }

    /// The node ids in an order in which each node comes after the sources of
    /// its incoming edges; `CycleDetected` when there is no such order.
    pub fn topological_order(&self) -> (r: Result<Vec<String>, DagBuildError>)
        ensures
            r is Ok == self.is_acyclic(),
            r matches Ok(order) ==> self.is_topological_order(crate::text::string_views(order@)),
            r matches Ok(order) ==> crate::text::string_views(order@) == self.kahn_order(),
            r matches Err(e) ==> e is CycleDetected,
    {
        proof {
            use_type_invariant(&self.nodes);
        }
        let n = self.nodes.len();
        let m = self.edges.len();
        let ghost keys = self.nodes.keys();
        let ghost edges = self.edges@;

        // Where each edge starts and ends among the nodes, if it does.
        let mut eto: Vec<Option<usize>> = Vec::new();
        let mut efrom: Vec<Option<usize>> = Vec::new();
        let mut k: usize = 0;
        while k < m
            invariant
                k <= m,
                m == edges.len(),
                n == keys.len(),
                keys == self.nodes.keys(),
                edges == self.edges@,
                eto@.len() == k,
                efrom@.len() == k,
                ends_located(keys, edges, eto@, efrom@, k as int),
            decreases m - k,
        {
            eto.push(self.nodes.find(self.edges[k].to.as_str()));
            efrom.push(self.nodes.find(self.edges[k].from.as_str()));
            k += 1;
        }

        let ghost to = eto@;
        let ghost from = efrom@;
        proof {
            lemma_sorted_no_duplicates(keys);
            assert forall|kk: int| 0 <= kk < m implies #[trigger] to[kk] == edge_targets(*self)[kk] && from[kk]
                == edge_sources(*self)[kk] by {
                match to[kk] {
                    Some(x) => {
                        lemma_sorted_index_of(keys, x as int);
                    },
                    None => {},
                }
                match from[kk] {
                    Some(x) => {
                        lemma_sorted_index_of(keys, x as int);
                    },
                    None => {},
                }
            }
            assert(to =~= edge_targets(*self));
            assert(from =~= edge_sources(*self));
        }

        // In-degrees.
        let mut deg: Vec<usize> = Vec::new();
        let mut v: usize = 0;
        while v < n
            invariant
                v <= n,
                deg@.len() == v,
                forall|w: int| 0 <= w < v ==> deg@[w] == 0,
            decreases n - v,
        {
            deg.push(0);
            v += 1;
        }
        k = 0;
        while k < m
            invariant
                k <= m,
                m == eto@.len(),
                deg@.len() == n,
                ends_located(keys, edges, eto@, efrom@, m as int),
                n == keys.len(),
                forall|w: usize| w < n ==> deg@[w as int] == cnt_all(eto@, w, k as int),
            decreases m - k,
        {
            proof {
                assert forall|w: usize| w < n implies cnt_all(eto@, w, k as int) <= k by {
                    lemma_cnt_all_bound(eto@, w, k as int);
                }
            }
            if let Some(w) = eto[k] {
                let d = deg[w];
                deg.set(w, d + 1);
            }
            k += 1;
        }

        // Nodes with no incoming edge, in key order.
        let mut queue: Vec<usize> = Vec::new();
        v = 0;
        while v < n
            invariant
                v <= n,
                deg@.len() == n,
                m == eto@.len(),
                forall|w: usize| w < n ==> deg@[w as int] == cnt_all(eto@, w, m as int),
                forall|i: int, j: int| 0 <= i < j < queue@.len() ==> queue@[i] < queue@[j],
                forall|i: int| 0 <= i < queue@.len() ==> queue@[i] < v,
                forall|w: usize| w < v ==> (queue@.contains(w) <==> deg@[w as int] == 0),
                queue@ == zero_degree(deg@, v as int),
            decreases n - v,
        {
            let ghost q1 = queue@;
            assert(forall|w: usize| w < v ==> (q1.contains(w) <==> deg@[w as int] == 0));
            if deg[v] == 0 {
                queue.push(v);
            }
            proof {
                assert forall|w: usize| w <= v implies (queue@.contains(w) <==> deg@[w as int] == 0) by {
                    if queue@.contains(w) && w < v {
                        let i = choose|i: int| 0 <= i < queue@.len() && queue@[i] == w;
                        if i < q1.len() {
                            assert(q1[i] == w);
                        }
                    }
                    if q1.contains(w) {
                        let i = choose|i: int| 0 <= i < q1.len() && q1[i] == w;
                        assert(queue@[i] == w);
                    }
                    if w == v && deg@[w as int] == 0 {
                        assert(queue@[queue@.len() - 1] == w);
                    }
                }
            }
            v += 1;
        }
        proof {
            assert forall|w: usize| w < n implies cnt_in(eto@, efrom@, w, Set::empty(), m as int) == 0 by {
                lemma_cnt_in_empty(eto@, efrom@, w, m as int);
            }
            assert forall|p: int| 0 <= p < queue@.len() implies preds_before(queue@, eto@, efrom@, p, m as int) by {
                let w = queue@[p];
                assert(queue@.contains(w));
                assert(deg@[w as int] == 0);
                assert(cnt_in(eto@, efrom@, w, Set::empty(), m as int) == 0);
                lemma_cnt_full(eto@, efrom@, w, Set::empty(), m as int);
            }
            assert(queue@.take(0).to_set() =~= Set::<usize>::empty());
        }

        let ghost deg0 = Seq::new(n as nat, |w: int| cnt_all(to, w as usize, to.len() as int) as usize);
        proof {
            assert(deg@ =~= deg0);
        }
        let ghost q_init = queue@;
        let mut out: Vec<String> = Vec::new();
        let mut head: usize = 0;
        let ghost mut done: Set<usize> = Set::empty();
        while head < queue.len()
            invariant
                n == keys.len(),
                m == eto@.len(),
                m == efrom@.len(),
                keys == self.nodes.keys(),
                crate::strmap::sorted_keys(keys),
                deg@.len() == n,
                head <= queue@.len(),
                queue@.no_duplicates(),
                forall|i: int| 0 <= i < queue@.len() ==> queue@[i] < n,
                done == queue@.take(head as int).to_set(),
                forall|w: usize| w < n ==> deg@[w as int] + cnt_in(eto@, efrom@, w, done, m as int) == cnt_all(eto@, w, m as int),
                forall|w: usize| w < n ==> (queue@.contains(w) <==> deg@[w as int] == 0),
                forall|p: int| 0 <= p < queue@.len() ==> preds_before(queue@, eto@, efrom@, p, m as int),
                out@.len() == head,
                forall|i: int| 0 <= i < head ==> #[trigger] out@[i]@ == keys[queue@[i] as int],
                forall|kk: int, w: usize| 0 <= kk < m && eto@[kk] == Some(w) ==> w < n,
                forall|kk: int, w: usize| 0 <= kk < m && efrom@[kk] == Some(w) ==> w < n,
                to == eto@,
                from == efrom@,
                kahn_from(to, from, n as int, q_init, deg0, 0) == kahn_from(to, from, n as int, queue@, deg@, head as int),
            decreases n - head,
        {
            proof {
                lemma_distinct_below(queue@, n);
            }
            let u = queue[head];
            out.push(self.nodes.key_at(u).clone());
            let ghost q0 = queue@;
            let ghost d0 = deg@;
            let ghost h0 = head as int;
            proof {
                assert(!done.contains(u)) by {
                    if done.contains(u) {
                        assert(queue@.take(head as int).contains(u));
                    }
                }
            }
            k = 0;
            while k < m
                invariant
                    n == keys.len(),
                    m == eto@.len(),
                    m == efrom@.len(),
                    deg@.len() == n,
                    k <= m,
                    u < n,
                    0 <= h0 < q0.len(),
                    q0[h0] == u,
                    !done.contains(u),
                    done == q0.take(h0).to_set(),
                    queue@.len() >= q0.len(),
                    queue@.take(q0.len() as int) == q0,
                    queue@.no_duplicates(),
                    forall|i: int| 0 <= i < queue@.len() ==> queue@[i] < n,
                    forall|w: usize| w < n ==> deg@[w as int] + cnt_in(eto@, efrom@, w, done, m as int) + cnt_from(eto@, efrom@, w, u, k as int) == cnt_all(eto@, w, m as int),
                    forall|w: usize| w < n ==> (queue@.contains(w) <==> deg@[w as int] == 0),
                    forall|p: int| 0 <= p < queue@.len() ==> preds_before(queue@, eto@, efrom@, p, m as int),
                    forall|kk: int, w: usize| 0 <= kk < m && eto@[kk] == Some(w) ==> w < n,
                    forall|kk: int, w: usize| 0 <= kk < m && efrom@[kk] == Some(w) ==> w < n,
                    to == eto@,
                    from == efrom@,
                    release(to, from, q0, d0, u, 0) == release(to, from, queue@, deg@, u, k as int),
                decreases m - k,
            {
                if efrom[k] == Some(u) {
                    if let Some(w) = eto[k] {
                        proof {
                            lemma_cnt_insert(eto@, efrom@, w, done, u, m as int);
                            lemma_cnt_in_bound(eto@, efrom@, w, done.insert(u), m as int);
                            lemma_cnt_from_mono(eto@, efrom@, w, u, k as int + 1, m as int);
                        }
                        let d = deg[w];
                        let ghost qa = queue@;
                        deg.set(w, d - 1);
                        if d == 1 {
                            let ghost qb = queue@;
                            proof {
                                assert(h0 < q0.len());
                                assert(qb.len() >= q0.len());
                                assert(qb.take(q0.len() as int)[h0] == qb[h0]);
                                assert(qb[h0] == u);
                                assert forall|y: int| 0 <= y < q0.len() implies qb[y] == q0[y] by {
                                    assert(qb.take(q0.len() as int)[y] == qb[y]);
                                }
                                lemma_distinct_below(queue@, n);
                                lemma_cnt_full(eto@, efrom@, w, done.insert(u), m as int);
                                assert(!queue@.contains(w));
                                assert forall|x: usize| done.insert(u).contains(x) implies qb.take(qb.len() as int).contains(x) by {
                                    if x == u {
                                        assert(qb[h0] == u);
                                    } else {
                                        assert(done.contains(x));
                                        assert(q0.take(h0).contains(x));
                                        let y = choose|y: int| 0 <= y < q0.take(h0).len() && q0.take(h0)[y] == x;
                                        assert(q0.take(h0)[y] == q0[y]);
                                        assert(qb[y] == x);
                                    }
                                }
                            }
                            queue.push(w);
                            proof {
                                assert(queue@.take(qb.len() as int) == qb);
                                assert(queue@.take(q0.len() as int) == q0);
                                assert forall|p: int| 0 <= p < queue@.len() implies preds_before(queue@, eto@, efrom@, p, m as int) by {
                                    if p < qb.len() {
                                        assert(queue@.take(p) == qb.take(p));
                                        assert(preds_before(qb, eto@, efrom@, p, m as int));
                                    } else {
                                        assert(queue@[p] == w);
                                    }
                                }
                            }
                        }
                        proof {
                            assert(!qa.contains(w));
                            assert forall|x: usize| x < n implies (queue@.contains(x) <==> deg@[x as int] == 0) by {
                                if x != w {
                                    if queue@.contains(x) {
                                        let i = choose|i: int| 0 <= i < queue@.len() && queue@[i] == x;
                                        if i < qa.len() {
                                            assert(qa[i] == x);
                                        }
                                    }
                                    if qa.contains(x) {
                                        let i = choose|i: int| 0 <= i < qa.len() && qa[i] == x;
                                        assert(queue@.take(qa.len() as int)[i] == queue@[i]);
                                    }
                                } else if d == 1 {
                                    assert(queue@[queue@.len() - 1] == w);
                                }
                            }
                        }
                    }
                }
                proof {
                    assert(cnt_from(eto@, efrom@, w_of(eto@, k as int), u, k as int + 1) == cnt_from(eto@, efrom@, w_of(eto@, k as int), u, k as int) + (if eto@[k as int] is Some && efrom@[k as int] == Some(u) { 1nat } else { 0nat }));
                }
                k += 1;
            }
            proof {
                assert forall|w: usize| w < n implies deg@[w as int] + cnt_in(eto@, efrom@, w, done.insert(u), m as int) == cnt_all(eto@, w, m as int) by {
                    lemma_cnt_insert(eto@, efrom@, w, done, u, m as int);
                }
                done = done.insert(u);
                assert(release(to, from, queue@, deg@, u, m as int) == (queue@, deg@));
                assert(kahn_from(to, from, n as int, q0, d0, h0) == kahn_from(to, from, n as int, queue@, deg@, h0 + 1));
                assert(queue@.take(h0 + 1) == q0.take(h0 + 1));
                assert(q0.take(h0 + 1) == q0.take(h0).push(u));
                assert(done =~= queue@.take(h0 + 1).to_set());
            }
            head += 1;
        }

        proof {
            lemma_distinct_below(queue@, n);
            assert(queue@.take(head as int) == queue@);
        }
        if out.len() != n {
            proof {
                assert forall|order: Seq<Seq<char>>| !self.is_topological_order(order) by {
                    lemma_no_order(self, order, queue@, eto@, efrom@, deg@, done, n);
                }
            }
            return Err(DagBuildError::CycleDetected);
        }
        proof {
            let o = crate::text::string_views(out@);
            lemma_sorted_no_duplicates(keys);
            assert forall|i: int| 0 <= i < o.len() implies self.nodes.contains(#[trigger] o[i]) by {
                lemma_sorted_index_of(keys, queue@[i] as int);
            }
            assert forall|key: Seq<char>| self.nodes.contains(key) implies o.contains(key) by {
                let v = keys.index_of(key);
                assert(queue@.contains(v as usize));
                let i = choose|i: int| 0 <= i < queue@.len() && queue@[i] == v as usize;
                assert(o[i] == key);
            }
            assert forall|i: int, j: int| 0 <= i < o.len() && 0 <= j < o.len() && i != j implies o[i] != o[j] by {
                assert(queue@[i] != queue@[j]);
            }
            assert forall|kk: int| 0 <= kk < self.edges@.len() && self.nodes.contains(#[trigger] self.edges@[kk].to@) implies exists|i: int, j: int|
                0 <= i < j < o.len() && o[i] == self.edges@[kk].from@ && o[j] == self.edges@[kk].to@ by {
                let w = eto@[kk]->0;
                assert(queue@.contains(w));
                let j = choose|j: int| 0 <= j < queue@.len() && queue@[j] == w;
                assert(preds_before(queue@, eto@, efrom@, j, m as int));
                let uu = efrom@[kk]->0;
                let i = choose|i: int| 0 <= i < j && queue@.take(j)[i] == uu;
                assert(o[i] == self.edges@[kk].from@);
                assert(o[j] == self.edges@[kk].to@);
            }
            assert(self.is_topological_order(o));
            assert(kahn_from(to, from, n as int, queue@, deg@, head as int) == queue@);
            assert(n == keys.len());
            assert(zero_degree(deg0, n as int) == q_init);
            assert(o =~= self.kahn_order());
        }
        Ok(out)
    }
}

/// The position among `keys` of a node id, if it is one of them.
pub open spec fn end_index(keys: Seq<Seq<char>>, id: Seq<char>) -> Option<usize> {
    if keys.contains(id) {
        Some(keys.index_of(id) as usize)
    } else {
        None
    }
}

/// The positions (among the DAG's node ids) of the nodes that the edges end
/// at, in edge order.
pub open spec fn edge_targets(dag: ExecutionDag) -> Seq<Option<usize>> {
    dag.edges@.map_values(|e: DagEdge| end_index(dag.nodes.keys(), e.to@))
}

/// The positions of the nodes that the edges start at, in edge order.
pub open spec fn edge_sources(dag: ExecutionDag) -> Seq<Option<usize>> {
    dag.edges@.map_values(|e: DagEdge| end_index(dag.nodes.keys(), e.from@))
}

/// The nodes among the first `v` whose count in `deg` is zero, in order.
pub open spec fn zero_degree(deg: Seq<usize>, v: int) -> Seq<usize>
    decreases v,
{
    if v <= 0 {
        Seq::empty()
    } else if deg[v - 1] == 0 {
        zero_degree(deg, v - 1).push((v - 1) as usize)
    } else {
        zero_degree(deg, v - 1)
    }
}

/// Removing node `u`'s outgoing edges, from edge `k` on: each decrements the
/// count of the node it ends at, and a node whose count drops to zero joins
/// the queue.
pub open spec fn release(
    to: Seq<Option<usize>>,
    from: Seq<Option<usize>>,
    q: Seq<usize>,
    deg: Seq<usize>,
    u: usize,
    k: int,
) -> (Seq<usize>, Seq<usize>)
    decreases to.len() - k,
{
    if k < 0 || k >= to.len() {
        (q, deg)
    } else if from[k] == Some(u) && to[k] is Some {
        let w = to[k]->0;
        let q1 = if deg[w as int] == 1 {
            q.push(w)
        } else {
            q
        };
        release(to, from, q1, deg.update(w as int, (deg[w as int] - 1) as usize), u, k + 1)
    } else {
        release(to, from, q, deg, u, k + 1)
    }
}

/// The queue of Kahn's algorithm once every queued node from position `h`
/// on has been taken in turn and its outgoing edges removed.
pub open spec fn kahn_from(
    to: Seq<Option<usize>>,
    from: Seq<Option<usize>>,
    n: int,
    q: Seq<usize>,
    deg: Seq<usize>,
    h: int,
) -> Seq<usize>
    decreases n - h,
{
    if 0 <= h < q.len() && h < n {
        let (q1, deg1) = release(to, from, q, deg, q[h], 0);
        kahn_from(to, from, n, q1, deg1, h + 1)
    } else {
        q
    }
}

impl ExecutionDag {
    /// The order in which Kahn's algorithm takes the nodes: first those with
    /// no incoming edge, in key order; then each node as the last of its
    /// incoming edges is removed, edges being removed node by node in queue
    /// order and, for each node, in edge order.
    pub open spec fn kahn_order(&self) -> Seq<Seq<char>> {
        let to = edge_targets(*self);
        let from = edge_sources(*self);
        let n = self.nodes.keys().len() as int;
        let deg0 = Seq::new(n as nat, |w: int| cnt_all(to, w as usize, to.len() as int) as usize);
        kahn_from(to, from, n, zero_degree(deg0, n), deg0, 0).map_values(|w: usize| self.nodes.keys()[w as int])
    }
}

/// Each edge end that is located is a node with that id; each that is not
/// names no node.
spec fn ends_located(
    keys: Seq<Seq<char>>,
    edges: Seq<DagEdge>,
    eto: Seq<Option<usize>>,
    efrom: Seq<Option<usize>>,
    k: int,
) -> bool {
    &&& forall|i: int|
        0 <= i < k ==> match #[trigger] eto[i] {
            Some(x) => x < keys.len() && keys[x as int] == edges[i].to@,
            None => !keys.contains(edges[i].to@),
        }
    &&& forall|i: int|
        0 <= i < k ==> match #[trigger] efrom[i] {
            Some(x) => x < keys.len() && keys[x as int] == edges[i].from@,
            None => !keys.contains(edges[i].from@),
        }
}

spec fn w_of(eto: Seq<Option<usize>>, k: int) -> usize {
    match eto[k] {
        Some(w) => w,
        None => 0,
    }
}

/// Edges among the first `m` that end at `v`.
pub open spec fn cnt_all(eto: Seq<Option<usize>>, v: usize, m: int) -> nat
    decreases m,
{
    if m <= 0 {
        0
    } else {
        cnt_all(eto, v, m - 1) + if eto[m - 1] == Some(v) {
            1nat
        } else {
            0nat
        }
    }
}

/// Edges among the first `m` that end at `v` and start at a node of `s`.
spec fn cnt_in(eto: Seq<Option<usize>>, efrom: Seq<Option<usize>>, v: usize, s: Set<usize>, m: int) -> nat
    decreases m,
{
    if m <= 0 {
        0
    } else {
        cnt_in(eto, efrom, v, s, m - 1) + if eto[m - 1] == Some(v) && (efrom[m - 1] matches Some(x)
            && s.contains(x)) {
            1nat
        } else {
            0nat
        }
    }
}

/// Edges among the first `m` that end at `v` and start at `u`.
spec fn cnt_from(eto: Seq<Option<usize>>, efrom: Seq<Option<usize>>, v: usize, u: usize, m: int) -> nat
    decreases m,
{
    if m <= 0 {
        0
    } else {
        cnt_from(eto, efrom, v, u, m - 1) + if eto[m - 1] == Some(v) && efrom[m - 1] == Some(u) {
            1nat
        } else {
            0nat
        }
    }
}

/// Every edge into the node at position `p` of the queue starts at a node
/// that stands earlier in the queue.
spec fn preds_before(q: Seq<usize>, eto: Seq<Option<usize>>, efrom: Seq<Option<usize>>, p: int, m: int) -> bool {
    forall|k: int|
        0 <= k < m && #[trigger] eto[k] == Some(q[p]) ==> (efrom[k] matches Some(x) && q.take(p).contains(x))
}

proof fn lemma_cnt_all_bound(eto: Seq<Option<usize>>, v: usize, m: int)
    requires
        m >= 0,
    ensures
        cnt_all(eto, v, m) <= m,
    decreases m,
{
    if m > 0 {
        lemma_cnt_all_bound(eto, v, m - 1);
    }
}

proof fn lemma_cnt_in_empty(eto: Seq<Option<usize>>, efrom: Seq<Option<usize>>, v: usize, m: int)
    ensures
        cnt_in(eto, efrom, v, Set::empty(), m) == 0,
    decreases m,
{
    if m > 0 {
        lemma_cnt_in_empty(eto, efrom, v, m - 1);
    }
}

proof fn lemma_cnt_in_bound(eto: Seq<Option<usize>>, efrom: Seq<Option<usize>>, v: usize, s: Set<usize>, m: int)
    ensures
        cnt_in(eto, efrom, v, s, m) <= cnt_all(eto, v, m),
    decreases m,
{
    if m > 0 {
        lemma_cnt_in_bound(eto, efrom, v, s, m - 1);
    }
}

proof fn lemma_cnt_from_mono(eto: Seq<Option<usize>>, efrom: Seq<Option<usize>>, v: usize, u: usize, a: int, b: int)
    requires
        a <= b,
    ensures
        cnt_from(eto, efrom, v, u, a) <= cnt_from(eto, efrom, v, u, b),
    decreases b - a,
{
    if a < b {
        lemma_cnt_from_mono(eto, efrom, v, u, a, b - 1);
    }
}

proof fn lemma_cnt_insert(eto: Seq<Option<usize>>, efrom: Seq<Option<usize>>, v: usize, s: Set<usize>, u: usize, m: int)
    requires
        !s.contains(u),
    ensures
        cnt_in(eto, efrom, v, s.insert(u), m) == cnt_in(eto, efrom, v, s, m) + cnt_from(eto, efrom, v, u, m),
    decreases m,
{
    if m > 0 {
        lemma_cnt_insert(eto, efrom, v, s, u, m - 1);
    }
}

/// When every edge into `v` is counted as starting in `s`, each of them does.
proof fn lemma_cnt_full(eto: Seq<Option<usize>>, efrom: Seq<Option<usize>>, v: usize, s: Set<usize>, m: int)
    ensures
        (cnt_in(eto, efrom, v, s, m) == cnt_all(eto, v, m)) == (forall|k: int|
            0 <= k < m && eto[k] == Some(v) ==> (efrom[k] matches Some(x) && s.contains(x))),
    decreases m,
{
    if m > 0 {
        lemma_cnt_full(eto, efrom, v, s, m - 1);
        lemma_cnt_in_bound(eto, efrom, v, s, m - 1);
    }
}

spec fn below(n: usize) -> Set<usize> {
    Set::new(|v: usize| v < n)
}

proof fn lemma_below(n: usize)
    ensures
        below(n).finite(),
        below(n).len() == n,
    decreases n,
{
    if n > 0 {
        assert(below(n) =~= below((n - 1) as usize).insert((n - 1) as usize));
        lemma_below((n - 1) as usize);
    } else {
        assert(below(n) =~= Set::empty());
    }
}

/// Distinct indices below `n` are at most `n`, and exactly `n` of them are
/// all of them.
proof fn lemma_distinct_below(s: Seq<usize>, n: usize)
    requires
        s.no_duplicates(),
        forall|i: int| 0 <= i < s.len() ==> s[i] < n,
    ensures
        s.len() <= n,
        (s.len() == n) == (forall|v: usize| v < n ==> s.contains(v)),
{
    lemma_below(n);
    s.unique_seq_to_set();
    assert(s.to_set().subset_of(below(n)));
    vstd::set_lib::lemma_len_subset(s.to_set(), below(n));
    if s.len() == n {
        assert forall|v: usize| v < n implies s.contains(v) by {
            if !s.contains(v) {
                assert(s.to_set().subset_of(below(n).remove(v)));
                vstd::set_lib::lemma_len_subset(s.to_set(), below(n).remove(v));
            }
        }
    }
    if forall|v: usize| v < n ==> s.contains(v) {
        assert(below(n).subset_of(s.to_set()));
        vstd::seq_lib::seq_to_set_is_finite(s);
        vstd::set_lib::lemma_len_subset(below(n), s.to_set());
    }
}

/// When the queue stopped short of all nodes, no order respects every edge:
/// a node left out that comes first in such an order would have an incoming
/// edge from a node before it, hence from the queue.
proof fn lemma_no_order(
    dag: &ExecutionDag,
    order: Seq<Seq<char>>,
    queue: Seq<usize>,
    eto: Seq<Option<usize>>,
    efrom: Seq<Option<usize>>,
    deg: Seq<usize>,
    done: Set<usize>,
    n: usize,
)
    requires
        n == dag.nodes.keys().len(),
        crate::strmap::sorted_keys(dag.nodes.keys()),
        ends_located(dag.nodes.keys(), dag.edges@, eto, efrom, eto.len() as int),
        eto.len() == dag.edges@.len(),
        efrom.len() == dag.edges@.len(),
        deg.len() == dag.nodes.keys().len(),
        queue.no_duplicates(),
        forall|i: int| 0 <= i < queue.len() ==> queue[i] < dag.nodes.keys().len(),
        queue.len() < dag.nodes.keys().len(),
        done == queue.to_set(),
        forall|w: usize| w < dag.nodes.keys().len() ==> deg[w as int] + cnt_in(eto, efrom, w, done, eto.len() as int) == cnt_all(eto, w, eto.len() as int),
        forall|w: usize| w < dag.nodes.keys().len() ==> (queue.contains(w) <==> deg[w as int] == 0),
    ensures
        !dag.is_topological_order(order),
{
    let keys = dag.nodes.keys();
    if !dag.is_topological_order(order) {
        return;
    }
    assert forall|i: int| 0 <= i < order.len() implies queue.contains(keys.index_of(order[i]) as usize) by {
        lemma_order_prefix_queued(dag, order, queue, eto, efrom, deg, done, i, n);
    }
    assert forall|v: usize| v < n implies queue.contains(v) by {
        lemma_sorted_index_of(keys, v as int);
        assert(order.contains(keys[v as int]));
        let i = choose|i: int| 0 <= i < order.len() && order[i] == keys[v as int];
        assert(keys.index_of(order[i]) == v);
    }
    lemma_distinct_below(queue, n);
}

proof fn lemma_order_prefix_queued(
    dag: &ExecutionDag,
    order: Seq<Seq<char>>,
    queue: Seq<usize>,
    eto: Seq<Option<usize>>,
    efrom: Seq<Option<usize>>,
    deg: Seq<usize>,
    done: Set<usize>,
    i: int,
    n: usize,
)
    requires
        n == dag.nodes.keys().len(),
        0 <= i < order.len(),
        dag.is_topological_order(order),
        crate::strmap::sorted_keys(dag.nodes.keys()),
        ends_located(dag.nodes.keys(), dag.edges@, eto, efrom, eto.len() as int),
        eto.len() == dag.edges@.len(),
        efrom.len() == dag.edges@.len(),
        deg.len() == dag.nodes.keys().len(),
        done == queue.to_set(),
        forall|w: usize| w < dag.nodes.keys().len() ==> deg[w as int] + cnt_in(eto, efrom, w, done, eto.len() as int) == cnt_all(eto, w, eto.len() as int),
        forall|w: usize| w < dag.nodes.keys().len() ==> (queue.contains(w) <==> deg[w as int] == 0),
    ensures
        queue.contains(dag.nodes.keys().index_of(order[i]) as usize),
    decreases i,
{
    let keys = dag.nodes.keys();
    let m = eto.len() as int;
    assert(dag.nodes.contains(order[i]));
    let v = keys.index_of(order[i]);
    let vu = v as usize;
    if !queue.contains(vu) {
        assert(0 <= v < keys.len());
        assert(deg[vu as int] + cnt_in(eto, efrom, vu, done, m) == cnt_all(eto, vu, m));
        assert(deg[vu as int] != 0);
        lemma_cnt_full(eto, efrom, vu, done, m);
        lemma_cnt_in_bound(eto, efrom, vu, done, m);
        let k = choose|k: int| 0 <= k < m && eto[k] == Some(vu) && !(efrom[k] matches Some(x) && done.contains(x));
        assert(eto[k] == Some(vu));
        assert(keys[v] == order[i]);
        assert(keys[vu as int] == dag.edges@[k].to@);
        assert(dag.edges@[k].to@ == order[i]);
        let (a, b) = choose|a: int, b: int| 0 <= a < b < order.len() && order[a] == dag.edges@[k].from@ && order[b] == dag.edges@[k].to@;
        assert(order[b] == order[i]);
        assert(b == i);
        assert(dag.nodes.contains(order[a]));
        lemma_order_prefix_queued(dag, order, queue, eto, efrom, deg, done, a, n);
        let x = keys.index_of(order[a]);
        assert(keys[x] == order[a]);
        assert(keys.contains(dag.edges@[k].from@));
        let y = efrom[k]->0;
        assert(efrom[k] is Some);
        lemma_sorted_index_of(keys, y as int);
        assert(efrom[k] == Some(x as usize));
        assert(done.contains(x as usize));
    }
}

} // verus!
