use crate::graph::{graph_wf, labels_unique, targets, Sodg, SodgError, VertexView};
use crate::ops::lemma_targets_push;
use crate::hex::Hex;
use vstd::prelude::*;

verus! {

broadcast use {vstd::std_specs::hash::group_hash_axioms, vstd::std_specs::btree::group_btree_axioms};

/// A vertex that may be reclaimed: its data was read and nothing points to it.
pub open spec fn collectible(m: Map<u32, VertexView>, x: u32) -> bool {
    m.contains_key(x) && m[x].taken && m[x].parents.is_empty()
}

/// The store with vertex `v` marked as read.
pub open spec fn marked(m: Map<u32, VertexView>, v: u32) -> Map<u32, VertexView> {
    m.insert(v, VertexView { edges: m[v].edges, parents: m[v].parents, data: m[v].data, taken: true })
}

/// Some vertex of `ys` has an edge to `x`.
pub open spec fn reached_from(m: Map<u32, VertexView>, ys: Seq<u32>, x: u32) -> bool {
    exists|j: int| 0 <= j < ys.len() && #[trigger] targets(m[ys[j]].edges, x)
}

/// An order in which a collection started at `v` may reclaim vertices: it
/// starts at `v`, and each later vertex in it is a child of one reclaimed
/// before it, was read, and had no parents but vertices reclaimed before it.
pub open spec fn removal_order(m: Map<u32, VertexView>, v: u32, order: Seq<u32>) -> bool {
    &&& order.no_duplicates()
    &&& order.len() > 0 ==> order[0] == v
    &&& forall|i: int| 0 <= i < order.len() ==> m.contains_key(#[trigger] order[i])
    &&& forall|i: int| 0 <= i < order.len() ==> m[#[trigger] order[i]].taken
    &&& forall|i: int|
        0 <= i < order.len() ==> m[#[trigger] order[i]].parents.subset_of(order.take(i).to_set())
    &&& forall|i: int| 0 < i < order.len() ==> reached_from(m, order.take(i), #[trigger] order[i])
}

/// The store without the vertices of `gone`, which also leave every parent set.
pub open spec fn swept(m: Map<u32, VertexView>, gone: Set<u32>) -> Map<u32, VertexView> {
    Map::new(
        |x: u32| m.contains_key(x) && !gone.contains(x),
        |x: u32|
            VertexView {
                edges: m[x].edges,
                parents: m[x].parents.difference(gone),
                data: m[x].data,
                taken: m[x].taken,
            },
    )
}

/// A vertex that a collection from `v` looked at: `v` itself, or a child of a reclaimed one.
pub open spec fn touched(m: Map<u32, VertexView>, v: u32, gone: Set<u32>, x: u32) -> bool {
    x == v || exists|y: u32| gone.contains(y) && #[trigger] targets(m[y].edges, x)
}

/// `n` is what a collection started at `v` leaves of `m`: the vertices of some
/// removal order are gone, and no vertex that it looked at is left collectible.
pub open spec fn collected(m: Map<u32, VertexView>, v: u32, n: Map<u32, VertexView>) -> bool {
    exists|order: Seq<u32>|
        {
            &&& #[trigger] removal_order(m, v, order)
            &&& n == swept(m, order.to_set())
            &&& forall|x: u32|
                n.contains_key(x) && touched(m, v, order.to_set(), x) ==> !#[trigger] collectible(n, x)
        }
}

/// The store without the collectible vertex `c`, which also leaves every parent set.
pub open spec fn dropped(m: Map<u32, VertexView>, c: u32) -> Map<u32, VertexView> {
    Map::new(
        |x: u32| m.contains_key(x) && x != c,
        |x: u32|
            VertexView {
                edges: m[x].edges,
                parents: m[x].parents.remove(c),
                data: m[x].data,
                taken: m[x].taken,
            },
    )
}

/// Sweeping nothing leaves the store as it is.
proof fn lemma_swept_nothing(m: Map<u32, VertexView>)
    ensures
        swept(m, Set::empty()) == m,
{
    let n = swept(m, Set::empty());
    assert forall|x: u32| #[trigger] m.contains_key(x) implies n[x] == m[x] by {
        assert(m[x].parents.difference(Set::empty()) =~= m[x].parents);
    }
    assert(n =~= m);
}

/// Sweeping one more vertex is dropping it from the swept store.
proof fn lemma_swept_step(m: Map<u32, VertexView>, gone: Set<u32>, c: u32)
    ensures
        swept(m, gone.insert(c)) == dropped(swept(m, gone), c),
{
    let a = swept(m, gone.insert(c));
    let b = dropped(swept(m, gone), c);
    assert forall|x: u32| #[trigger] a.contains_key(x) implies a[x] == b[x] by {
        assert(m[x].parents.difference(gone.insert(c)) =~= m[x].parents.difference(gone).remove(c));
    }
    assert(a =~= b);
}

/// Dropping a collectible vertex keeps the store's invariants.
proof fn lemma_dropped_wf(m: Map<u32, VertexView>, c: u32)
    requires
        graph_wf(m),
        collectible(m, c),
    ensures
        graph_wf(dropped(m, c)),
{
    let n = dropped(m, c);
    assert forall|v: u32, i: int|
        n.contains_key(v) && 0 <= i < n[v].edges.len() implies n.contains_key(#[trigger] n[v].edges[i].1) by {
        let w = m[v].edges[i].1;
        assert(m.contains_key(w));
        if w == c {
            assert(targets(m[v].edges, c));
            assert(m[c].parents.contains(v));
        }
    }
    assert forall|v: u32, p: u32| n.contains_key(v) && #[trigger] n[v].parents.contains(p) implies n.contains_key(p) by {
        assert(m[v].parents.contains(p));
    }
    assert forall|v: u32| #[trigger] n.contains_key(v) implies labels_unique(n[v].edges) by {
        assert(m.contains_key(v));
    }
    assert forall|v: u32| #[trigger] n.contains_key(v) implies !targets(n[v].edges, v) by {
        assert(m.contains_key(v));
    }
    assert forall|x1: u32, x2: u32|
        n.contains_key(x1) && n.contains_key(x2) implies (#[trigger] n[x2].parents.contains(x1)
        <==> #[trigger] targets(n[x1].edges, x2)) by {
        assert(m[x2].parents.contains(x1) <==> targets(m[x1].edges, x2));
    }
}

impl Sodg {
    /// Reclaims `v` if it is collectible, and then, in turn, each child that this leaves collectible.
    fn collect(&mut self, v: u32)
        ensures
            old(self).wf() ==> final(self).wf(),
            final(self).same_settings(old(self)),
            old(self).wf() ==> collected(old(self)@, v, final(self)@),
    {
        let ghost m = self@;
        let ghost w = graph_wf(m);
        let ghost mut order: Seq<u32> = Seq::empty();
        let mut todo: Vec<u32> = vec![v];
        proof {
            lemma_swept_nothing(m);
            assert(order.to_set() =~= Set::<u32>::empty());
        }
        while todo.len() > 0
            invariant
                self.same_settings(old(self)),
                m == old(self)@,
                w == graph_wf(m),
                self.vertices@.dom() == self@.dom(),
                order.len() == 0 ==> forall|k: int| 0 <= k < todo@.len() ==> todo@[k] == v,
                w ==> self.wf(),
                w ==> removal_order(m, v, order),
                w ==> self@ == swept(m, order.to_set()),
                w ==> forall|x: u32|
                    self@.contains_key(x) && touched(m, v, order.to_set(), x) && collectible(self@, x)
                        ==> #[trigger] todo@.contains(x),
                w ==> forall|k: int| 0 <= k < todo@.len() ==> #[trigger] todo@[k] == v || reached_from(m, order, todo@[k]),
            decreases self.vertices@.len(), todo@.len(),
        {
            let ghost todo_before = todo@;
            let c = todo.pop().unwrap();
            let ghost base = todo@;
            assert(todo_before == base.push(c));
            let mut go = false;
            match self.vertices.get(&c) {
                Some(x) => {
                    go = x.taken && x.parents.is_empty();
                },
                None => {},
            }
            if !go {
                proof {
                    if w {
                        assert forall|k: int| 0 <= k < todo@.len() implies #[trigger] todo@[k] == v || reached_from(m, order, todo@[k]) by {
                            assert(todo@[k] == todo_before[k]);
                        }
                        assert forall|x: u32|
                            self@.contains_key(x) && touched(m, v, order.to_set(), x) && collectible(self@, x)
                                implies #[trigger] todo@.contains(x) by {
                            assert(todo_before.contains(x));
                            let k = choose|k: int| 0 <= k < todo_before.len() && todo_before[k] == x;
                            if k < todo@.len() {
                                assert(todo@[k] == x);
                            }
                        }
                    }
                }
            } else {
                let ghost pre = self@;
                let ghost gone = order.to_set();
                proof {
                    if w {
                        assert(collectible(pre, c));
                        lemma_dropped_wf(pre, c);
                    }
                    lemma_swept_step(m, gone, c);
                }
                let vtx = self.vertices.remove(&c).unwrap();
                let ghost es = vtx@.edges;
                proof {
                    assert(pre[c] == vtx@);
                    assert(es.take(0) =~= Seq::<(Seq<char>, u32)>::empty());
                    assert forall|x: u32| #[trigger] self@.contains_key(x) implies self@[x] == (VertexView {
                        edges: pre[x].edges,
                        parents: if targets(es.take(0), x) {
                            pre[x].parents.remove(c)
                        } else {
                            pre[x].parents
                        },
                        data: pre[x].data,
                        taken: pre[x].taken,
                    }) by {}
                    assert(base + es.take(0).map_values(|e: (Seq<char>, u32)| e.1) =~= base);
                }
                let mut j: usize = 0;
                while j < vtx.edges.len()
                    invariant
                        vtx@.edges == es,
                        pre.contains_key(c),
                        pre[c].edges == es,
                        j <= es.len(),
                        self.same_settings(old(self)),
                        self.vertices@.dom() == pre.dom().remove(c),
                        self@.dom() == pre.dom().remove(c),
                        forall|x: u32|
                            #[trigger] self@.contains_key(x) ==> self@[x] == (VertexView {
                                edges: pre[x].edges,
                                parents: if targets(es.take(j as int), x) {
                                    pre[x].parents.remove(c)
                                } else {
                                    pre[x].parents
                                },
                                data: pre[x].data,
                                taken: pre[x].taken,
                            }),
                        todo@ == base + es.take(j as int).map_values(|e: (Seq<char>, u32)| e.1),
                    decreases es.len() - j,
                {
                    let ghost prev = self@;
                    let ghost prev_todo = todo@;
                    let to = vtx.edges[j].to;
                    if self.vertices.contains_key(&to) {
                        let mut child = self.vertices.remove(&to).unwrap();
                        child.parents.remove(&c);
                        self.vertices.insert(to, child);
                    }
                    todo.push(to);
                    proof {
                        let tj = es.take(j as int);
                        assert(es.take(j as int + 1) =~= tj.push(es[j as int]));
                        assert(es.take(j as int + 1).map_values(|e: (Seq<char>, u32)| e.1) =~= tj.map_values(
                            |e: (Seq<char>, u32)| e.1,
                        ).push(to));
                        assert(todo@ =~= base + es.take(j as int + 1).map_values(|e: (Seq<char>, u32)| e.1));
                        assert forall|x: u32| #[trigger] self@.contains_key(x) implies self@[x] == (VertexView {
                            edges: pre[x].edges,
                            parents: if targets(es.take(j as int + 1), x) {
                                pre[x].parents.remove(c)
                            } else {
                                pre[x].parents
                            },
                            data: pre[x].data,
                            taken: pre[x].taken,
                        }) by {
                            lemma_targets_push(tj, es[j as int], x);
                            assert(prev.contains_key(x));
                            if x == to {
                                assert(self@[x].parents =~= pre[x].parents.remove(c));
                            }
                        }
                        assert(self@.dom() =~= pre.dom().remove(c));
                        assert(self.vertices@.dom() =~= pre.dom().remove(c));
                    }
                    j = j + 1;
                }
                proof {
                    if w {
                        let n = dropped(pre, c);
                        let gone2 = order.push(c).to_set();
                        assert(es.take(es.len() as int) =~= es);
                        assert forall|x: u32| #[trigger] self@.contains_key(x) implies self@[x] == n[x] by {
                            assert(pre[x].parents.contains(c) <==> targets(pre[c].edges, x));
                            assert(self@[x].parents =~= n[x].parents);
                        }
                        assert(self@ =~= n);
                        order.lemma_push_to_set_commute(c);
                        assert(gone2 =~= gone.insert(c));
                        // the order grows by c
                        let o2 = order.push(c);
                        assert(o2.take(order.len() as int) =~= order);
                        assert forall|i: int| 0 <= i < o2.len() implies m[#[trigger] o2[i]].parents.subset_of(
                            o2.take(i).to_set(),
                        ) by {
                            if i < order.len() {
                                assert(o2.take(i) =~= order.take(i));
                            } else {
                                assert(pre[c].parents == m[c].parents.difference(gone));
                                assert forall|p: u32| m[c].parents.contains(p) implies gone.contains(p) by {
                                    if !gone.contains(p) {
                                        assert(pre[c].parents.contains(p));
                                    }
                                }
                            }
                        }
                        assert(!order.contains(c)) by {
                            if order.contains(c) {
                                let k = choose|k: int| 0 <= k < order.len() && order[k] == c;
                                assert(gone.contains(order[k]));
                            }
                        }
                        assert(removal_order(m, v, o2));
                        // every touched collectible vertex is still to be looked at
                        let fin = base + es.map_values(|e: (Seq<char>, u32)| e.1);
                        assert(todo@ == fin);
                        assert forall|x: u32|
                            self@.contains_key(x) && touched(m, v, gone2, x) && collectible(self@, x)
                                implies #[trigger] todo@.contains(x) by {
                            if targets(es, x) {
                                let k = choose|k: int| 0 <= k < es.len() && #[trigger] es[k].1 == x;
                                assert(fin[base.len() + k] == x);
                            } else {
                                assert(!pre[x].parents.contains(c));
                                assert(self@[x].parents =~= pre[x].parents);
                                assert(collectible(pre, x));
                                if x != v {
                                    let y = choose|y: u32| gone2.contains(y) && #[trigger] targets(m[y].edges, x);
                                    if y == c {
                                        assert(m[c].edges == es);
                                    }
                                    assert(touched(m, v, gone, x));
                                }
                                assert(todo_before.contains(x));
                                let k = choose|k: int| 0 <= k < todo_before.len() && todo_before[k] == x;
                                assert(k < base.len());
                                assert(fin[k] == x);
                            }
                        }
                        // c comes from v or from a vertex reclaimed before it
                        assert(todo_before[todo_before.len() - 1] == c);
                        if order.len() > 0 {
                            assert(gone.contains(order[0]));
                            assert(c != v);
                            assert(reached_from(m, order, c));
                        }
                        assert forall|i: int| 0 < i < o2.len() implies reached_from(m, o2.take(i), #[trigger] o2[i]) by {
                            if i < order.len() {
                                assert(o2.take(i) =~= order.take(i));
                                assert(o2[i] == order[i]);
                            } else {
                                assert(o2.take(i) =~= order);
                            }
                        }
                        assert(removal_order(m, v, o2));
                        assert forall|k: int| 0 <= k < todo@.len() implies #[trigger] todo@[k] == v || reached_from(m, o2, todo@[k]) by {
                            if k < base.len() {
                                assert(todo@[k] == todo_before[k]);
                                if todo@[k] != v {
                                    assert(reached_from(m, order, todo_before[k]));
                                    let jj = choose|jj: int| 0 <= jj < order.len() && #[trigger] targets(m[order[jj]].edges, todo_before[k]);
                                    assert(o2[jj] == order[jj]);
                                    assert(targets(m[o2[jj]].edges, todo@[k]));
                                }
                            } else {
                                let kk = k - base.len();
                                assert(todo@[k] == fin[k]);
                                assert(fin[k] == es[kk].1);
                                assert(m[c].edges == es);
                                assert(m[c].edges[kk].1 == todo@[k]);
                                assert(o2[order.len() as int] == c);
                                assert(targets(m[o2[order.len() as int]].edges, todo@[k]));
                            }
                        }
                    }
                    order = order.push(c);
                }
            }
        }
        proof {
            if w {
                assert(removal_order(m, v, order));
                assert forall|x: u32|
                    self@.contains_key(x) && touched(m, v, order.to_set(), x) implies !#[trigger] collectible(self@, x) by {
                    if collectible(self@, x) {
                        assert(todo@.contains(x));
                    }
                }
            }
        }
    }

    /// Reads the data of vertex `v` and marks it as read; with garbage
    /// collection on, `v` and what hung on it alone may then be reclaimed.
    pub fn data(&mut self, v: u32) -> (r: Result<Hex, SodgError>)
        ensures
            old(self).wf() ==> final(self).wf(),
            final(self).same_settings(old(self)),
            !old(self)@.contains_key(v) ==> r == Err::<Hex, SodgError>(SodgError::NotFound(v))
                && final(self)@ == old(self)@,
            old(self)@.contains_key(v) ==> r is Ok && r->Ok_0@ == old(self)@[v].data,
            old(self)@.contains_key(v) && !old(self).gc ==> final(self)@ == marked(old(self)@, v),
            old(self)@.contains_key(v) && old(self).gc && old(self).wf() ==> collected(
                marked(old(self)@, v),
                v,
                final(self)@,
            ),
    {
        if !self.vertices.contains_key(&v) {
            return Err(SodgError::NotFound(v));
        }
        let mut vtx = self.vertices.remove(&v).unwrap();
        let d = vtx.data.duplicate();
        vtx.taken = true;
        self.vertices.insert(v, vtx);
        proof {
            assert(self@ =~= marked(old(self)@, v));
            if old(self).wf() {
                let m = self@;
                assert forall|v1: u32, v2: u32|
                    m.contains_key(v1) && m.contains_key(v2) implies (#[trigger] m[v2].parents.contains(v1)
                    <==> #[trigger] targets(m[v1].edges, v2)) by {
                    assert(m[v2].parents == old(self)@[v2].parents);
                    assert(m[v1].edges == old(self)@[v1].edges);
                }
            }
        }
        if self.gc {
            self.collect(v);
        }
        Ok(d)
    }
}

} // verus!
