//! A directed graph over `usize` vertices with breadth-first traversal that
//! colors each vertex, records its distance from the source and the vertex it
//! was discovered from.
use std::collections::{HashMap, VecDeque};
use vstd::prelude::*;

verus! {

broadcast use vstd::std_specs::hash::group_hash_axioms;

/// The traversal state of a vertex: not yet discovered, discovered and
/// waiting in the queue, or finished.
#[derive(Clone, Copy, Debug, PartialEq, Eq, Structural)]
pub enum Color {
    White,
    Gray,
    Black,
}

/// A directed graph with the state of the last breadth-first traversal.
pub struct Graph {
    /// The vertices, each once, in the order they were added.
    vertices: Vec<usize>,
    /// The successors of each vertex that has an adjacency list.
    adjacent: HashMap<usize, Vec<usize>>,
    /// The color each vertex was left with by the last traversal.
    color: HashMap<usize, Color>,
    /// The number of edges from the last traversal's source.
    distance: HashMap<usize, usize>,
    /// The vertex each vertex was discovered from.
    pred: HashMap<usize, usize>,
}

/// Whether `x` is an item of `l`.
fn list_contains(l: &Vec<usize>, x: usize) -> (r: bool)
    ensures
        r == l@.contains(x),
{
    let mut k: usize = 0;
    while k < l.len()
        invariant
            0 <= k <= l@.len(),
            forall|j: int| 0 <= j < k ==> l@[j] != x,
        decreases l@.len() - k,
    {
        if l[k] == x {
            return true;
        }
        k = k + 1;
    }
    false
}

/// The adjacency `a` after adding the edge `from -> to`: `to` joins the
/// successors of `from`, and `to` gets an empty list if it had none.
pub open spec fn with_edge(a: Map<usize, Set<usize>>, from: usize, to: usize) -> Map<
    usize,
    Set<usize>,
> {
    let a1 = a.insert(
        from,
        if a.contains_key(from) {
            a[from].insert(to)
        } else {
            set![to]
        },
    );
    if a1.contains_key(to) {
        a1
    } else {
        a1.insert(to, Set::empty())
    }
}

/// `p` is a walk along the edges of `a`: every item but the last has a list
/// of successors that holds the next item.
pub open spec fn is_walk(a: Map<usize, Set<usize>>, p: Seq<usize>) -> bool {
    &&& p.len() > 0
    &&& forall|i: int|
        #![trigger p[i]]
        0 <= i < p.len() - 1 ==> a.contains_key(p[i]) && a[p[i]].contains(p[i + 1])
}

/// `x` is a vertex of `vs` or the source `s`.
spec fn in_scope(vs: Seq<usize>, s: usize, x: usize) -> bool {
    vs.contains(x) || x == s
}

/// A repeat-free sequence of vertices of `vs` and the source `s` is no longer
/// than `vs` and one more; no longer than `vs` if it misses a vertex of `vs`.
proof fn lemma_seen_len(seen: Seq<usize>, vs: Seq<usize>, s: usize)
    requires
        seen.no_duplicates(),
        vs.no_duplicates(),
        forall|x: usize| seen.contains(x) ==> in_scope(vs, s, x),
    ensures
        seen.len() <= vs.len() + 1,
        forall|w: usize| vs.contains(w) && !seen.contains(w) ==> seen.len() <= vs.len(),
{
    broadcast use vstd::seq_lib::seq_to_set_is_finite;

    seen.unique_seq_to_set();
    vs.unique_seq_to_set();
    let all = vs.to_set().insert(s);
    assert(seen.to_set().subset_of(all));
    vstd::set_lib::lemma_len_subset(seen.to_set(), all);
    assert forall|w: usize| vs.contains(w) && !seen.contains(w) implies seen.len() <= vs.len() by {
        let rest = vs.to_set().remove(w).insert(s);
        assert(seen.to_set().subset_of(rest));
        vstd::set_lib::lemma_len_subset(seen.to_set(), rest);
    }
}

impl Graph {
    /// The vertices added so far.
    pub closed spec fn vertex_set(&self) -> Set<usize> {
        self.vertices@.to_set()
    }

    /// The successors of each vertex that has an adjacency list.
    pub closed spec fn adjacency(&self) -> Map<usize, Set<usize>> {
        self.adjacent@.map_values(|l: Vec<usize>| l@.to_set())
    }

    /// The color of each vertex that has one.
    pub closed spec fn colors(&self) -> Map<usize, Color> {
        self.color@
    }

    /// The distance recorded for each vertex that has one.
    pub closed spec fn distances(&self) -> Map<usize, usize> {
        self.distance@
    }

    /// The predecessor recorded for each vertex that has one.
    pub closed spec fn preds(&self) -> Map<usize, usize> {
        self.pred@
    }

    /// Every successor of a listed vertex is a vertex and has a list of its own.
    pub closed spec fn wf(&self) -> bool {
        &&& self.vertices@.no_duplicates()
        &&& forall|u: usize, w: usize|
            #![trigger self.adjacent@[u]@.contains(w)]
            self.adjacent@.contains_key(u) && self.adjacent@[u]@.contains(w)
                ==> self.vertices@.contains(w) && self.adjacent@.contains_key(w)
    }

    /// A graph with no vertices, no edges and no traversal state.
    pub fn new() -> (g: Self)
        ensures
            g.wf(),
            g.vertex_set() == Set::<usize>::empty(),
            g.adjacency() == Map::<usize, Set<usize>>::empty(),
            g.colors() == Map::<usize, Color>::empty(),
            g.distances() == Map::<usize, usize>::empty(),
            g.preds() == Map::<usize, usize>::empty(),
    {
        let g = Graph {
            vertices: Vec::new(),
            adjacent: HashMap::new(),
            color: HashMap::new(),
            distance: HashMap::new(),
            pred: HashMap::new(),
        };
        assert(g.vertex_set() =~= Set::<usize>::empty());
        assert(g.adjacency() =~= Map::<usize, Set<usize>>::empty());
        g
    }

    /// Adds vertex `i`; a vertex already there is left as it is.
    pub fn add_node(&mut self, i: usize)
        requires
            old(self).wf(),
        ensures
            final(self).wf(),
            final(self).vertex_set() == old(self).vertex_set().insert(i),
            final(self).adjacency() == old(self).adjacency(),
            final(self).colors() == old(self).colors(),
            final(self).distances() == old(self).distances(),
            final(self).preds() == old(self).preds(),
    {
        if !list_contains(&self.vertices, i) {
            self.vertices.push(i);
            proof {
                let old_v = old(self).vertices@;
                assert(self.vertices@ == old_v.push(i));
                assert forall|a: int, b: int|
                    0 <= a < b < self.vertices@.len() implies self.vertices@[a]
                    != self.vertices@[b] by {
                    if b == old_v.len() {
                        assert(old_v.contains(old_v[a]));
                    }
                }
                assert forall|u: usize, w: usize|
                    self.adjacent@.contains_key(u) && #[trigger] self.adjacent@[u]@.contains(
                        w,
                    ) implies self.vertices@.contains(w) by {
                    assert(old_v.contains(w));
                    let j = choose|j: int| 0 <= j < old_v.len() && old_v[j] == w;
                    assert(self.vertices@[j] == w);
                }
                assert forall|x: usize| old_v.contains(x) implies self.vertices@.contains(x) by {
                    let j = choose|j: int| 0 <= j < old_v.len() && old_v[j] == x;
                    assert(self.vertices@[j] == x);
                }
                assert(self.vertices@[old_v.len() as int] == i);
            }
            assert(self.vertex_set() =~= old(self).vertex_set().insert(i));
        } else {
            assert(self.vertex_set() =~= old(self).vertex_set().insert(i));
        }
    }

    /// Adds the edge `from -> to`. `to` becomes a vertex and gets an empty
    /// list of successors if it had none; `from` gets a list of successors but
    /// is not made a vertex.
    pub fn add_edge(&mut self, from: usize, to: usize)
        requires
            old(self).wf(),
        ensures
            final(self).wf(),
            final(self).vertex_set() == old(self).vertex_set().insert(to),
            final(self).adjacency() == with_edge(old(self).adjacency(), from, to),
            final(self).colors() == old(self).colors(),
            final(self).distances() == old(self).distances(),
            final(self).preds() == old(self).preds(),
    {
        self.add_node(to);
        let ghost a0 = self.adjacent@;
        let ghost old_adj = old(self).adjacency();
        assert(self.adjacency() == old_adj);
        match self.adjacent.remove(&from) {
            Some(l) => {
                let mut l = l;
                let ghost l0 = l@;
                if !list_contains(&l, to) {
                    l.push(to);
                }
                assert(l@.to_set() =~= l0.to_set().insert(to)) by {
                    if !l0.contains(to) {
                        assert(l@ == l0.push(to));
                        assert(l@[l0.len() as int] == to);
                        assert forall|x: usize| l0.contains(x) implies l@.contains(x) by {
                            let j = choose|j: int| 0 <= j < l0.len() && l0[j] == x;
                            assert(l@[j] == x);
                        }
                    }
                }
                self.adjacent.insert(from, l);
            },
            None => {
                let mut l: Vec<usize> = Vec::new();
                l.push(to);
                assert(l@[0] == to);
                assert(l@.to_set() =~= set![to]);
                self.adjacent.insert(from, l);
            },
        }
        if !self.adjacent.contains_key(&to) {
            let l: Vec<usize> = Vec::new();
            assert(l@.to_set() =~= Set::<usize>::empty());
            self.adjacent.insert(to, l);
        }
        assert(self.adjacency() =~= with_edge(old_adj, from, to));
        assert forall|u: usize, w: usize|
            self.adjacent@.contains_key(u) && #[trigger] self.adjacent@[u]@.contains(w) implies
            self.vertices@.contains(w) && self.adjacent@.contains_key(w) by {
            assert(self.vertices@.contains(to)) by {
                assert(self.vertex_set().contains(to));
            }
            assert(self.adjacency()[u] == self.adjacent@[u]@.to_set());
            assert(self.adjacency()[u].contains(w));
            if u == from {
                if w != to {
                    assert(old_adj.contains_key(from));
                    assert(old_adj[from].contains(w));
                    assert(a0[u]@.to_set().contains(w));
                    assert(a0[u]@.contains(w));
                }
            } else if u == to && !a0.contains_key(to) {
                assert(self.adjacent@[u]@.to_set().contains(w));
            } else {
                assert(a0[u]@.to_set() == self.adjacent@[u]@.to_set());
                assert(a0[u]@.to_set().contains(w));
                assert(a0[u]@.contains(w));
            }
        }
    }

    /// Colors every vertex white and sets its distance to 0; the state of
    /// everything else is left as it is.
    fn bleach(&mut self)
        ensures
            final(self).vertices == old(self).vertices,
            final(self).adjacent == old(self).adjacent,
            final(self).pred == old(self).pred,
            forall|x: usize|
                #![trigger final(self).color@.contains_key(x)]
                #![trigger final(self).color@[x]]
                old(self).vertices@.contains(x) ==> final(self).color@.contains_key(x)
                    && final(self).color@[x] == Color::White && final(self).distance@.contains_key(
                    x,
                ) && final(self).distance@[x] == 0,
            forall|x: usize|
                #![trigger final(self).color@.contains_key(x)]
                #![trigger final(self).color@[x]]
                !old(self).vertices@.contains(x) ==> final(self).color@.contains_key(x)
                    == old(self).color@.contains_key(x) && final(self).color@[x] == old(
                    self,
                ).color@[x] && final(self).distance@.contains_key(x) == old(
                    self,
                ).distance@.contains_key(x) && final(self).distance@[x] == old(self).distance@[x],
    {
        let mut k: usize = 0;
        while k < self.vertices.len()
            invariant
                0 <= k <= self.vertices@.len(),
                self.vertices == old(self).vertices,
                self.adjacent == old(self).adjacent,
                self.pred == old(self).pred,
                forall|j: int|
                    0 <= j < k ==> self.color@.contains_key(#[trigger] self.vertices@[j])
                        && self.color@[self.vertices@[j]] == Color::White
                        && self.distance@.contains_key(self.vertices@[j])
                        && self.distance@[self.vertices@[j]] == 0,
                forall|x: usize|
                    #![trigger self.color@.contains_key(x)]
                    #![trigger self.color@[x]]
                    !self.vertices@.subrange(0, k as int).contains(x) ==> self.color@.contains_key(
                        x,
                    ) == old(self).color@.contains_key(x) && self.color@[x] == old(
                        self,
                    ).color@[x] && self.distance@.contains_key(x) == old(
                        self,
                    ).distance@.contains_key(x) && self.distance@[x] == old(self).distance@[x],
            decreases self.vertices@.len() - k,
        {
            let v = self.vertices[k];
            self.color.insert(v, Color::White);
            self.distance.insert(v, 0);
            proof {
                let vs = self.vertices@;
                assert forall|x: usize| vs.subrange(0, k as int).contains(x) implies vs.subrange(
                    0,
                    k + 1,
                ).contains(x) by {
                    let j = choose|j: int| 0 <= j < k && vs.subrange(0, k as int)[j] == x;
                    assert(vs.subrange(0, k + 1)[j] == x);
                }
                assert(vs.subrange(0, k + 1)[k as int] == v);
                assert forall|x: usize| !vs.subrange(0, k + 1).contains(x) implies x != v
                    && !vs.subrange(0, k as int).contains(x) by {
                    if vs.subrange(0, k as int).contains(x) {
                        let j = choose|j: int| 0 <= j < k && vs.subrange(0, k as int)[j] == x;
                        assert(vs.subrange(0, k + 1)[j] == x);
                    }
                }
            }
            k = k + 1;
        }
        proof {
            let vs = self.vertices@;
            assert(vs.subrange(0, vs.len() as int) =~= vs);
            assert forall|x: usize| vs.contains(x) implies self.color@.contains_key(x)
                && self.color@[x] == Color::White && self.distance@.contains_key(x)
                && self.distance@[x] == 0 by {
                let j = choose|j: int| 0 <= j < vs.len() && vs[j] == x;
                assert(self.color@.contains_key(vs[j]));
            }
        }
    }

    /// Along a walk from `s`, where `s` is black at distance 0, the black
    /// vertices are closed under edges and each successor of a black vertex
    /// is at most one step further, the `k`-th vertex is black and at most
    /// `k` steps away.
    proof fn lemma_walk_black(&self, s: usize, p: Seq<usize>)
        requires
            self.wf(),
            is_walk(self.adjacency(), p),
            p[0] == s,
            self.colors()[s] == Color::Black,
            forall|u: usize, w: usize|
                #![trigger self.colors()[u], self.adjacency()[u].contains(w)]
                self.vertex_set().insert(s).contains(u) && self.colors()[u] == Color::Black
                    && self.adjacency()[u].contains(w) ==> self.colors()[w] == Color::Black,
            self.distances()[s] == 0,
            forall|u: usize, w: usize|
                #![trigger self.colors()[u], self.adjacency()[u].contains(w)]
                self.vertex_set().insert(s).contains(u) && self.colors()[u] == Color::Black
                    && self.adjacency()[u].contains(w) ==> self.distances()[w] <= self.distances()[u]
                    + 1,
        ensures
            forall|k: int|
                0 <= k < p.len() ==> self.colors()[#[trigger] p[k]] == Color::Black
                    && self.distances()[p[k]] <= k,
    {
        assert forall|k: int| 0 <= k < p.len() implies self.colors()[#[trigger] p[k]]
            == Color::Black && self.distances()[p[k]] <= k by {
            self.lemma_walk_prefix(s, p, k);
        }
    }

    /// Following recorded predecessors back from a black vertex gives a walk
    /// from `s` to it.
    proof fn lemma_black_reached(&self, s: usize, w: usize)
        requires
            self.vertex_set().insert(s).contains(w),
            self.colors()[w] == Color::Black,
            forall|x: usize|
                #![trigger self.preds()[x]]
                self.vertex_set().insert(s).contains(x) && x != s && self.colors()[x]
                    == Color::Black ==> {
                    let p = self.preds()[x];
                    &&& self.preds().contains_key(x)
                    &&& self.vertex_set().insert(s).contains(p)
                    &&& self.colors()[p] == Color::Black
                    &&& self.adjacency().contains_key(p)
                    &&& self.adjacency()[p].contains(x)
                    &&& self.distances()[x] == self.distances()[p] + 1
                },
            self.distances()[s] == 0,
        ensures
            exists|p: Seq<usize>| #[trigger]
                is_walk(self.adjacency(), p) && p[0] == s && p.last() == w && p.len()
                    == self.distances()[w] + 1,
        decreases self.distances()[w],
    {
        if w == s {
            let p = seq![s];
            assert(is_walk(self.adjacency(), p) && p[0] == s && p.last() == w && p.len()
                == self.distances()[w] + 1);
        } else {
            let x = self.preds()[w];
            self.lemma_black_reached(s, x);
            let q = choose|q: Seq<usize>| #[trigger]
                is_walk(self.adjacency(), q) && q[0] == s && q.last() == x && q.len()
                    == self.distances()[x] + 1;
            let p = q.push(w);
            assert forall|i: int| #![trigger p[i]] 0 <= i < p.len() - 1 implies self.adjacency().contains_key(
                p[i],
            ) && self.adjacency()[p[i]].contains(p[i + 1]) by {
                assert(p[i] == q[i]);
                if i < q.len() - 1 {
                    assert(q[i + 1] == p[i + 1]);
                } else {
                    assert(p[i + 1] == w);
                }
            }
            assert(is_walk(self.adjacency(), p) && p[0] == s && p.last() == w && p.len()
                == self.distances()[w] + 1);
        }
    }

    proof fn lemma_walk_prefix(&self, s: usize, p: Seq<usize>, k: int)
        requires
            self.wf(),
            is_walk(self.adjacency(), p),
            p[0] == s,
            0 <= k < p.len(),
            self.colors()[s] == Color::Black,
            forall|u: usize, w: usize|
                #![trigger self.colors()[u], self.adjacency()[u].contains(w)]
                self.vertex_set().insert(s).contains(u) && self.colors()[u] == Color::Black
                    && self.adjacency()[u].contains(w) ==> self.colors()[w] == Color::Black,
            self.distances()[s] == 0,
            forall|u: usize, w: usize|
                #![trigger self.colors()[u], self.adjacency()[u].contains(w)]
                self.vertex_set().insert(s).contains(u) && self.colors()[u] == Color::Black
                    && self.adjacency()[u].contains(w) ==> self.distances()[w] <= self.distances()[u]
                    + 1,
        ensures
            self.colors()[p[k]] == Color::Black,
            self.vertex_set().insert(s).contains(p[k]),
            self.distances()[p[k]] <= k,
        decreases k,
    {
        if k > 0 {
            self.lemma_walk_prefix(s, p, k - 1);
            let i = k - 1;
            let u = p[i];
            assert(self.adjacency()[u].contains(p[i + 1]));
            assert(self.adjacent@[u]@.to_set().contains(p[k]));
            assert(self.adjacent@[u]@.contains(p[k]));
            assert(self.vertices@.contains(p[k]));
            assert(self.vertex_set().contains(p[k]));
        }
    }

    #[verifier::opaque]
    /// The traversal state between steps of `bfs` from `s` over vertices `vs`
    /// and lists `a`: `q` is the queue, `seen` every vertex discovered so far,
    /// and `cur` the vertex whose successors are being examined, if any.
    spec fn bfs_state(
        &self,
        vs: Seq<usize>,
        a: Map<usize, Vec<usize>>,
        s: usize,
        q: Seq<usize>,
        seen: Seq<usize>,
        cur: Option<usize>,
    ) -> bool {
        &&& self.vertices@ == vs
        &&& self.adjacent@ == a
        &&& self.wf()
        &&& a.contains_key(s)
        &&& seen.no_duplicates()
        &&& seen.len() <= vs.len() + 1
        &&& forall|i: int|
            0 <= i < seen.len() ==> in_scope(vs, s, #[trigger] seen[i]) && self.color@.contains_key(
                seen[i],
            ) && self.color@[seen[i]] != Color::White
        &&& forall|x: usize|
            #![trigger in_scope(vs, s, x)]
            in_scope(vs, s, x) ==> {
                &&& self.color@.contains_key(x)
                &&& self.distance@.contains_key(x)
                &&& self.color@[x] != Color::White ==> seen.contains(x) && self.distance@[x]
                    < seen.len()
                &&& self.color@[x] == Color::Gray ==> q.contains(x) || cur == Some(x)
                &&& self.color@[x] == Color::White ==> self.distance@[x] == 0
                &&& self.color@[x] == Color::Black ==> a.contains_key(x) && forall|w: usize|
                    #[trigger] a[x]@.contains(w) ==> self.color@[w] != Color::White
                &&& x != s && self.color@[x] != Color::White ==> {
                    let p = self.pred@[x];
                    &&& self.pred@.contains_key(x)
                    &&& in_scope(vs, s, p)
                    &&& self.color@[p] != Color::White
                    &&& a.contains_key(p)
                    &&& a[p]@.contains(x)
                    &&& self.distance@[x] == self.distance@[p] + 1
                }
            }
        &&& q.no_duplicates()
        &&& forall|j: int|
            0 <= j < q.len() ==> in_scope(vs, s, #[trigger] q[j]) && self.color@[q[j]]
                == Color::Gray && a.contains_key(q[j]) && cur != Some(q[j])
        &&& self.color@[s] != Color::White
        &&& self.distance@[s] == 0
        &&& match cur {
            Some(v) => in_scope(vs, s, v) && self.color@[v] == Color::Gray && a.contains_key(v),
            None => true,
        }
    }

    /// The distances during `bfs` come in layers: along the queue they never
    /// fall and rise by at most one over the vertex being expanded (or the
    /// queue's front), no black vertex lies further out than that, and a
    /// successor of a black vertex is at most one step further than it.
    #[verifier::opaque]
    spec fn layered(
        &self,
        vs: Seq<usize>,
        a: Map<usize, Vec<usize>>,
        s: usize,
        q: Seq<usize>,
        cur: Option<usize>,
    ) -> bool {
        let d = self.distance@;
        let lo = match cur {
            Some(v) => d[v],
            None => d[q[0]],
        };
        let busy = q.len() > 0 || cur is Some;
        &&& forall|i: int, j: int|
            #![trigger d[q[i]], d[q[j]]]
            0 <= i < j < q.len() ==> d[q[i]] <= d[q[j]]
        &&& forall|j: int| 0 <= j < q.len() ==> lo <= #[trigger] d[q[j]] <= lo + 1
        &&& forall|x: usize|
            #![trigger in_scope(vs, s, x)]
            in_scope(vs, s, x) && self.color@[x] == Color::Black ==> (busy ==> d[x] <= lo) && (
            forall|w: usize| #[trigger] a[x]@.contains(w) ==> d[w] <= d[x] + 1)
    }

    /// Marks the white successor `w` of `v` as discovered from `v`, one step
    /// further from the source, and queues it.
    #[verifier::rlimit(50)]
    fn discover(
        &mut self,
        q: &mut VecDeque<usize>,
        v: usize,
        w: usize,
        dv: usize,
        Ghost(vs): Ghost<Seq<usize>>,
        Ghost(a): Ghost<Map<usize, Vec<usize>>>,
        Ghost(s): Ghost<usize>,
        Ghost(seen): Ghost<Seq<usize>>,
    )
        requires
            old(self).bfs_state(vs, a, s, old(q)@, seen, Some(v)),
            a[v]@.contains(w),
            old(self).color@[w] == Color::White,
            old(self).distance@[v] == dv,
            old(self).layered(vs, a, s, old(q)@, Some(v)),
        ensures
            final(self).bfs_state(vs, a, s, final(q)@, seen.push(w), Some(v)),
            final(self).layered(vs, a, s, final(q)@, Some(v)),
            final(self).color@ == old(self).color@.insert(w, Color::Gray),
            final(q)@ == old(q)@.push(w),
            seen.len() <= vs.len(),
    {
        reveal(Graph::bfs_state);
        assert(in_scope(vs, s, w));
        proof {
            assert(in_scope(vs, s, v));
            lemma_seen_len(seen, vs, s);
            if seen.contains(w) {
                let i = choose|i: int| 0 <= i < seen.len() && seen[i] == w;
                assert(self.color@[seen[i]] != Color::White);
            }
            assert(vs.contains(w));
        }
        let ghost st = *self;
        let ghost q1 = q@;
        // the vertex list's length bounds `seen`, and so the new distance
        let _n = self.vertices.len();
        proof {
            assert(dv < seen.len() <= vs.len());
        }
        self.color.insert(w, Color::Gray);
        self.distance.insert(w, dv + 1);
        self.pred.insert(w, v);
        q.push_back(w);
        proof {
            let seen1 = seen.push(w);
            assert forall|j: int| 0 <= j < q1.len() implies #[trigger] q1[j] != w by {
                assert(st.color@[q1[j]] == Color::Gray);
            }
            assert(q@.no_duplicates());
            assert(seen1.no_duplicates());
            assert(seen1[seen.len() as int] == w);
            assert forall|i: int| 0 <= i < seen1.len() implies in_scope(
                vs,
                s,
                #[trigger] seen1[i],
            ) && self.color@.contains_key(seen1[i]) && self.color@[seen1[i]]
                != Color::White by {
                if i < seen.len() {
                    assert(seen1[i] == seen[i]);
                }
            }
            assert(q@[q1.len() as int] == w);
            assert forall|x: usize| #[trigger] in_scope(vs, s, x) implies {
                &&& self.color@.contains_key(x)
                &&& self.distance@.contains_key(x)
                &&& self.color@[x] != Color::White ==> seen1.contains(x)
                    && self.distance@[x] < seen1.len()
                &&& self.color@[x] == Color::Gray ==> q@.contains(x) || Some(v)
                    == Some(x)
                &&& self.color@[x] == Color::Black ==> a.contains_key(x)
                    && forall|u: usize| #[trigger]
                    a[x]@.contains(u) ==> self.color@[u] != Color::White
                &&& x != s && self.color@[x] != Color::White ==> {
                    let p = self.pred@[x];
                    &&& self.pred@.contains_key(x)
                    &&& in_scope(vs, s, p)
                    &&& self.color@[p] != Color::White
                    &&& a.contains_key(p)
                    &&& a[p]@.contains(x)
                    &&& self.distance@[x] == self.distance@[p] + 1
                }
            } by {
                if x == w {
                    assert(seen1.contains(w));
                    assert(q@.contains(w));
                } else {
                    if st.color@[x] != Color::White {
                        let i = choose|i: int| 0 <= i < seen.len() && seen[i] == x;
                        assert(seen1[i] == x);
                    }
                    if st.color@[x] == Color::Gray && x != v {
                        let j = choose|j: int| 0 <= j < q1.len() && q1[j] == x;
                        assert(q@[j] == x);
                    }
                    if x != s && st.color@[x] != Color::White {
                        let p = st.pred@[x];
                        assert(in_scope(vs, s, p));
                        assert(p != w);
                    }
                }
            }
                assert(self.bfs_state(vs, a, s, q@, seen1, Some(v)));
            reveal(Graph::layered);
            assert(self.distance@[v] == dv);
            assert forall|j: int| 0 <= j < q@.len() implies dv <= #[trigger] self.distance@[q@[j]]
                <= dv + 1 by {
                if j < q1.len() {
                    assert(q@[j] == q1[j]);
                    assert(q1[j] != w);
                }
            }
            assert forall|i: int, j: int| 0 <= i < j < q@.len() implies #[trigger] self.distance@[
                q@[i]] <= #[trigger] self.distance@[q@[j]] by {
                assert(q@[i] == q1[i]);
                assert(q1[i] != w);
                if j < q1.len() {
                    assert(q@[j] == q1[j]);
                    assert(q1[j] != w);
                }
            }
            assert forall|x: usize| #[trigger] in_scope(vs, s, x) && self.color@[x] == Color::Black
                implies self.distance@[x] <= dv && (forall|u: usize| #[trigger]
                a[x]@.contains(u) ==> self.distance@[u] <= self.distance@[x] + 1) by {
                assert(x != w);
                assert forall|u: usize| #[trigger] a[x]@.contains(u) implies self.distance@[u]
                    <= self.distance@[x] + 1 by {
                    assert(st.color@[u] != Color::White);
                    assert(u != w);
                }
            }
            assert(self.layered(vs, a, s, q@, Some(v)));
        }
    }

    /// Breadth-first traversal from `s`. Every vertex is first colored white
    /// at distance 0. At the end, among the vertices and `s`, those that a walk
    /// from `s` reaches are black and the others white; a black vertex's
    /// distance is the fewest edges of a walk from `s` to it, and a black
    /// vertex other than `s` has as predecessor a black vertex one step
    /// closer with an edge to it.
    pub fn bfs(&mut self, s: usize)
        requires
            old(self).wf(),
            old(self).adjacency().contains_key(s),
        ensures
            final(self).wf(),
            final(self).vertex_set() == old(self).vertex_set(),
            final(self).adjacency() == old(self).adjacency(),
            final(self).colors().contains_key(s) && final(self).colors()[s] == Color::Black,
            final(self).distances().contains_key(s) && final(self).distances()[s] == 0,
            forall|x: usize|
                #![trigger final(self).colors()[x]]
                final(self).vertex_set().insert(s).contains(x) ==> final(self).colors().contains_key(
                    x,
                ) && final(self).distances().contains_key(x) && final(self).colors()[x]
                    != Color::Gray,
            forall|x: usize|
                #![trigger final(self).distances()[x]]
                final(self).vertex_set().insert(s).contains(x) && final(self).colors()[x]
                    == Color::White ==> final(self).distances()[x] == 0,
            forall|u: usize, w: usize|
                #![trigger final(self).colors()[u], final(self).adjacency()[u].contains(w)]
                final(self).vertex_set().insert(s).contains(u) && final(self).colors()[u]
                    == Color::Black && final(self).adjacency()[u].contains(w)
                    ==> final(self).colors()[w] == Color::Black,
            forall|u: usize|
                #![trigger final(self).colors()[u]]
                final(self).vertex_set().insert(s).contains(u) && final(self).colors()[u]
                    == Color::Black ==> final(self).adjacency().contains_key(u),
            forall|p: Seq<usize>|
                #[trigger] is_walk(final(self).adjacency(), p) && p[0] == s
                    ==> final(self).colors()[p.last()] == Color::Black
                    && final(self).distances()[p.last()] < p.len(),
            forall|x: usize|
                #![trigger final(self).colors()[x]]
                final(self).vertex_set().insert(s).contains(x) && final(self).colors()[x]
                    == Color::Black ==> exists|p: Seq<usize>| #[trigger]
                    is_walk(final(self).adjacency(), p) && p[0] == s && p.last() == x && p.len()
                        == final(self).distances()[x] + 1,
            forall|w: usize|
                #![trigger final(self).preds()[w]]
                final(self).vertex_set().insert(s).contains(w) && w != s && final(self).colors()[w]
                    == Color::Black ==> {
                    let p = final(self).preds()[w];
                    &&& final(self).preds().contains_key(w)
                    &&& final(self).vertex_set().insert(s).contains(p)
                    &&& final(self).colors()[p] == Color::Black
                    &&& final(self).adjacency()[p].contains(w)
                    &&& final(self).distances()[w] == final(self).distances()[p] + 1
                },
    {
        self.bleach();
        let ghost vs = self.vertices@;
        let ghost a = self.adjacent@;
        let mut q: VecDeque<usize> = VecDeque::new();
        q.push_back(s);
        self.color.insert(s, Color::Gray);
        self.distance.insert(s, 0);
        let ghost mut seen: Seq<usize> = seq![s];
        proof {
            assert(seen[0] == s);
            assert(q@[0] == s);
            assert forall|x: usize| #[trigger] in_scope(vs, s, x) implies self.color@.contains_key(x)
                && self.distance@.contains_key(x) && self.color@[x] != Color::Black && (
            self.color@[x] != Color::White ==> x == s && seen.contains(x) && q@.contains(x))
                by {
                if x == s {
                    assert(seen.contains(s));
                    assert(q@.contains(s));
                }
            }
            reveal(Graph::bfs_state);
            assert(self.bfs_state(vs, a, s, q@, seen, None));
            reveal(Graph::layered);
            assert(self.layered(vs, a, s, q@, None));
        }
        while q.len() > 0
            invariant
                self.bfs_state(vs, a, s, q@, seen, None),
                self.layered(vs, a, s, q@, None),
                seen.len() <= vs.len() + 1,
                vs == old(self).vertices@,
                a == old(self).adjacent@,
            decreases 2 * (vs.len() + 1 - seen.len()) + q@.len(),
        {
            let ghost measure = 2 * (vs.len() + 1 - seen.len()) + q@.len();
            let ghost q0 = q@;
            let v = match q.pop_front() {
                Some(v) => v,
                None => s,
            };
            proof {
                reveal(Graph::bfs_state);
                assert forall|x: usize| #[trigger] in_scope(vs, s, x) && self.color@[x]
                    == Color::Gray implies q@.contains(x) || x == v by {
                    if x != v {
                        let j = choose|j: int| 0 <= j < q0.len() && q0[j] == x;
                        assert(j != 0);
                        assert(q@[j - 1] == x);
                    }
                }
                assert(q0[0] == v);
                assert forall|j: int| 0 <= j < q@.len() implies #[trigger] q@[j] != v by {
                    assert(q@[j] == q0[j + 1]);
                }
                assert(self.bfs_state(vs, a, s, q@, seen, Some(v)));
                reveal(Graph::layered);
                assert forall|j: int| 0 <= j < q@.len() implies self.distance@[v]
                    <= #[trigger] self.distance@[q@[j]] <= self.distance@[v] + 1 by {
                    assert(q@[j] == q0[j + 1]);
                    assert(self.distance@[q0[0]] <= self.distance@[q0[j + 1]]);
                }
                assert forall|i: int, j: int| 0 <= i < j < q@.len() implies #[trigger] self.distance@[
                    q@[i]] <= #[trigger] self.distance@[q@[j]] by {
                    assert(q@[i] == q0[i + 1]);
                    assert(q@[j] == q0[j + 1]);
                }
                assert(self.layered(vs, a, s, q@, Some(v)));
            }
            proof {
                reveal(Graph::bfs_state);
            }
            let ghost la = a[v]@;
            if let Some(lr) = self.adjacent.get(&v) {
                let l = lr.clone();
                assert(l@ =~= la);
                let mut k: usize = 0;
                while k < l.len()
                    invariant
                        self.bfs_state(vs, a, s, q@, seen, Some(v)),
                        self.layered(vs, a, s, q@, Some(v)),
                        vs == old(self).vertices@,
                        a == old(self).adjacent@,
                        l@ == a[v]@,
                        0 <= k <= l@.len(),
                        forall|j: int|
                            0 <= j < k ==> self.color@[#[trigger] l@[j]] != Color::White,
                        2 * (vs.len() + 1 - seen.len()) + q@.len() < measure,
                        seen.len() <= vs.len() + 1,
                    decreases l@.len() - k,
                {
                    let w = l[k];
                    proof {
                        reveal(Graph::bfs_state);
                        assert(a[v]@.contains(w));
                        assert(in_scope(vs, s, w));
                        assert(in_scope(vs, s, v));
                        assert(self.color@.contains_key(w));
                        assert(self.distance@.contains_key(v));
                    }
                    let white = match self.color.get(&w) {
                        Some(c) => *c == Color::White,
                        None => false,
                    };
                    if white {
                        let dv: usize = match self.distance.get(&v) {
                            Some(d) => *d,
                            None => 0,
                        };
                        self.discover(&mut q, v, w, dv, Ghost(vs), Ghost(a), Ghost(s), Ghost(seen));
                        proof {
                            seen = seen.push(w);
                        }
                    }
                    k = k + 1;
                }
            }
            let ghost st = *self;
            self.color.insert(v, Color::Black);
            proof {
                reveal(Graph::bfs_state);
                let l = a[v]@;
                assert forall|u: usize| #[trigger] l.contains(u) implies self.color@[u]
                    != Color::White by {
                    let j = choose|j: int| 0 <= j < l.len() && l[j] == u;
                    assert(st.color@[l[j]] != Color::White);
                }
                assert(self.bfs_state(vs, a, s, q@, seen, None));
                reveal(Graph::layered);
                let d = self.distance@;
                assert(d == st.distance@);
                assert(st.layered(vs, a, s, q@, Some(v)));
                assert forall|u: usize| #[trigger] l.contains(u) implies d[u] <= d[v] + 1 by {
                    assert(in_scope(vs, s, u));
                    if st.color@[u] == Color::Gray && u != v {
                        let j = choose|j: int| 0 <= j < q@.len() && q@[j] == u;
                        assert(d[q@[j]] <= d[v] + 1);
                    }
                }
                if q@.len() > 0 {
                    assert(d[v] <= d[q@[0]]);
                }
                assert forall|j: int| 0 <= j < q@.len() implies d[q@[0]] <= #[trigger] d[q@[j]]
                    <= d[q@[0]] + 1 by {
                    if j > 0 {
                        assert(d[q@[0]] <= d[q@[j]]);
                    }
                }
                assert forall|x: usize| #[trigger] in_scope(vs, s, x) && self.color@[x]
                    == Color::Black implies (q@.len() > 0 ==> d[x] <= d[q@[0]]) && (forall|
                    u: usize,
                | #[trigger] a[x]@.contains(u) ==> d[u] <= d[x] + 1) by {
                    if x != v {
                        assert(st.color@[x] == Color::Black);
                    }
                }
                assert(self.layered(vs, a, s, q@, None));
            }
        }
        proof {
            reveal(Graph::bfs_state);
            let vp = self.vertex_set().insert(s);
            assert(self.vertex_set() =~= old(self).vertex_set());
            assert(self.adjacency() =~= old(self).adjacency());
            assert(self.vertices@ == vs);
            assert forall|x: usize| vp.contains(x) implies #[trigger] in_scope(vs, s, x) by {
                if x != s {
                    assert(self.vertices@.to_set().contains(x));
                    assert(vs.contains(x));
                }
            }
            assert forall|x: usize| vp.contains(x) implies #[trigger] in_scope(vs, s, x)
                && self.color@[x] != Color::Gray by {
                assert(in_scope(vs, s, x));
                assert(!q@.contains(x));
            }
            assert(in_scope(vs, s, s));
            assert forall|u: usize, w: usize|
                vp.contains(u) && self.colors()[u] == Color::Black && #[trigger] self.adjacency()[
                    u
                ].contains(w) implies self.colors()[w] == Color::Black by {
                assert(in_scope(vs, s, u));
                assert(a[u]@.to_set().contains(w));
                assert(a[u]@.contains(w));
                assert(vs.contains(w));
                assert(vp.contains(w));
                assert(in_scope(vs, s, w));
                assert(!q@.contains(w));
            }
            assert forall|x: usize| vp.contains(x) implies self.colors().contains_key(x)
                && self.distances().contains_key(x) && #[trigger] self.colors()[x] != Color::Gray
                by {
                assert(in_scope(vs, s, x));
                assert(!q@.contains(x));
            }
            assert forall|x: usize| vp.contains(x) && self.colors()[x] == Color::White implies
                #[trigger] self.distances()[x] == 0 by {
                assert(in_scope(vs, s, x));
            }
            assert forall|u: usize| vp.contains(u) && #[trigger] self.colors()[u] == Color::Black
                implies self.adjacency().contains_key(u) by {
                assert(in_scope(vs, s, u));
            }
            reveal(Graph::layered);
            assert forall|u: usize, w: usize|
                vp.contains(u) && self.colors()[u] == Color::Black && #[trigger] self.adjacency()[
                    u
                ].contains(w) implies self.distances()[w] <= self.distances()[u] + 1 by {
                assert(in_scope(vs, s, u));
                assert(a[u]@.to_set().contains(w));
                assert(a[u]@.contains(w));
            }
            assert forall|p: Seq<usize>|
                #[trigger] is_walk(self.adjacency(), p) && p[0] == s implies self.colors()[p.last()]
                == Color::Black && self.distances()[p.last()] < p.len() by {
                self.lemma_walk_black(s, p);
                assert(p.last() == p[p.len() - 1]);
            }
            assert forall|w: usize|
                vp.contains(w) && w != s && self.colors()[w] == Color::Black implies {
                let p = #[trigger] self.preds()[w];
                &&& self.preds().contains_key(w)
                &&& vp.contains(p)
                &&& self.colors()[p] == Color::Black
                &&& self.adjacency()[p].contains(w)
                &&& self.distances()[w] == self.distances()[p] + 1
            } by {
                assert(in_scope(vs, s, w));
                let p = self.pred@[w];
                assert(in_scope(vs, s, p));
                assert(vp.contains(p));
                assert(a[p]@.to_set().contains(w));
            }
            assert forall|x: usize|
                vp.contains(x) && #[trigger] self.colors()[x] == Color::Black implies exists|
                p: Seq<usize>,
            | #[trigger] is_walk(self.adjacency(), p) && p[0] == s && p.last() == x && p.len()
                == self.distances()[x] + 1 by {
                self.lemma_black_reached(s, x);
            }
        }
    }

    /// Whether `v` has been added as a vertex.
    pub fn is_vertex(&self, v: usize) -> (r: bool)
        ensures
            r == self.vertex_set().contains(v),
    {
        list_contains(&self.vertices, v)
    }

    /// The color of `v`, if it has one.
    pub fn color_of(&self, v: usize) -> (r: Option<Color>)
        ensures
            r == (if self.colors().contains_key(v) {
                Some(self.colors()[v])
            } else {
                None
            }),
    {
        match self.color.get(&v) {
            Some(c) => Some(*c),
            None => None,
        }
    }

    /// The distance recorded for `v`, if any.
    pub fn distance_of(&self, v: usize) -> (r: Option<usize>)
        ensures
            r == (if self.distances().contains_key(v) {
                Some(self.distances()[v])
            } else {
                None
            }),
    {
        match self.distance.get(&v) {
            Some(d) => Some(*d),
            None => None,
        }
    }

    /// The predecessor recorded for `v`, if any.
    pub fn pred_of(&self, v: usize) -> (r: Option<usize>)
        ensures
            r == (if self.preds().contains_key(v) {
                Some(self.preds()[v])
            } else {
                None
            }),
    {
        match self.pred.get(&v) {
            Some(p) => Some(*p),
            None => None,
        }
    }
}

} // verus!
