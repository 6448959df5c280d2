use crate::graph::{
    fresh_vertex, graph_wf, label_index, labels_unique, targets, Edge, Sodg, SodgError, Vertex,
    VertexView,
};
use crate::hex::Hex;
use std::collections::BTreeSet;
use vstd::prelude::*;
use vstd::string::StringExecFns;

verus! {

broadcast use {vstd::std_specs::hash::group_hash_axioms, vstd::std_specs::btree::group_btree_axioms};

/// The store after `add(v)`: a fresh vertex under `v`, unless `v` is there already.
pub open spec fn added(m: Map<u32, VertexView>, v: u32) -> Map<u32, VertexView> {
    if m.contains_key(v) {
        m
    } else {
        m.insert(v, fresh_vertex())
    }
}

/// The store after `put(v, d)`: the data of `v` replaced by `d`.
pub open spec fn with_data(m: Map<u32, VertexView>, v: u32, d: Seq<u8>) -> Map<u32, VertexView> {
    m.insert(v, VertexView { edges: m[v].edges, parents: m[v].parents, data: d, taken: m[v].taken })
}

/// The destination of the edge labelled `a` that leaves `v`, if there is one.
pub open spec fn kid_of(m: Map<u32, VertexView>, v: u32, a: Seq<char>) -> Option<u32> {
    if m.contains_key(v) && label_index(m[v].edges, a) >= 0 {
        Some(m[v].edges[label_index(m[v].edges, a)].1)
    } else {
        None
    }
}

/// The edges after binding label `a` to `to`: the edge with that label keeps its
/// place and changes its destination; a new label goes last.
pub open spec fn rebound(es: Seq<(Seq<char>, u32)>, a: Seq<char>, to: u32) -> Seq<(Seq<char>, u32)> {
    if label_index(es, a) >= 0 {
        es.update(label_index(es, a), (a, to))
    } else {
        es.push((a, to))
    }
}

/// The store after `bind(v1, v2, a)`: the edges of `v1` rebound, and `v1` a parent
/// of exactly the vertices that its edges now reach.
pub open spec fn bound(m: Map<u32, VertexView>, v1: u32, v2: u32, a: Seq<char>) -> Map<
    u32,
    VertexView,
> {
    let es = rebound(m[v1].edges, a, v2);
    Map::new(
        |w: u32| m.contains_key(w),
        |w: u32|
            if w == v1 {
                VertexView { edges: es, parents: m[w].parents, data: m[w].data, taken: m[w].taken }
            } else {
                VertexView {
                    edges: m[w].edges,
                    parents: if targets(es, w) {
                        m[w].parents.insert(v1)
                    } else {
                        m[w].parents.remove(v1)
                    },
                    data: m[w].data,
                    taken: m[w].taken,
                }
            },
    )
}

/// The first edge labelled `a`, found at `i`, is the one `label_index` names.
pub proof fn lemma_label_index(es: Seq<(Seq<char>, u32)>, a: Seq<char>, i: int)
    requires
        0 <= i < es.len(),
        es[i].0 == a,
        forall|k: int| 0 <= k < i ==> #[trigger] es[k].0 != a,
    ensures
        label_index(es, a) == i,
{
    assert(0 <= i < es.len() && es[i].0 == a && (forall|k: int| 0 <= k < i ==> es[k].0 != a));
    let j = label_index(es, a);
    assert(0 <= j < es.len() && es[j].0 == a && (forall|k: int| 0 <= k < j ==> es[k].0 != a));
    if j < i {
        assert(es[j].0 != a);
    } else if i < j {
        assert(es[i].0 != a);
    }
}

/// Where some edge carries label `a`, `label_index` names one.
pub proof fn lemma_first_match(es: Seq<(Seq<char>, u32)>, a: Seq<char>, i: int)
    requires
        0 <= i < es.len(),
        es[i].0 == a,
    ensures
        label_index(es, a) >= 0,
    decreases i,
{
    if exists|k: int| 0 <= k < i && #[trigger] es[k].0 == a {
        let k = choose|k: int| 0 <= k < i && #[trigger] es[k].0 == a;
        lemma_first_match(es, a, k);
    } else {
        assert(0 <= i < es.len() && es[i].0 == a && (forall|k: int| 0 <= k < i ==> es[k].0 != a));
    }
}

/// Where `a` labels no edge, `label_index` says so.
pub proof fn lemma_label_absent(es: Seq<(Seq<char>, u32)>, a: Seq<char>)
    requires
        forall|k: int| 0 <= k < es.len() ==> #[trigger] es[k].0 != a,
    ensures
        label_index(es, a) == -1,
{
}


/// Where only position `i` changes destination, from `o` to `to`, every other
/// vertex is reached by both edge lists or by neither.
pub proof fn lemma_targets_update(es: Seq<(Seq<char>, u32)>, i: int, e: (Seq<char>, u32), w: u32)
    requires
        0 <= i < es.len(),
        w != es[i].1,
        w != e.1,
    ensures
        targets(es.update(i, e), w) == targets(es, w),
{
    let ns = es.update(i, e);
    if targets(es, w) {
        let k = choose|k: int| 0 <= k < es.len() && #[trigger] es[k].1 == w;
        assert(ns[k].1 == w);
    }
    if targets(ns, w) {
        let k = choose|k: int| 0 <= k < ns.len() && #[trigger] ns[k].1 == w;
        assert(es[k].1 == w);
    }
}

/// Pushing an edge to `to` reaches `to` and otherwise what was reached before.
pub proof fn lemma_targets_push(es: Seq<(Seq<char>, u32)>, e: (Seq<char>, u32), w: u32)
    ensures
        targets(es.push(e), w) == (targets(es, w) || e.1 == w),
{
    let ns = es.push(e);
    if targets(es, w) {
        let k = choose|k: int| 0 <= k < es.len() && #[trigger] es[k].1 == w;
        assert(ns[k].1 == w);
    }
    if e.1 == w {
        assert(ns[es.len() as int].1 == w);
    }
    if targets(ns, w) {
        let k = choose|k: int| 0 <= k < ns.len() && #[trigger] ns[k].1 == w;
        if k < es.len() {
            assert(es[k].1 == w);
        }
    }
}

/// Binding keeps the store's invariants.
pub proof fn lemma_bound_wf(m: Map<u32, VertexView>, v1: u32, v2: u32, a: Seq<char>)
    requires
        graph_wf(m),
        m.contains_key(v1),
        m.contains_key(v2),
        v1 != v2,
    ensures
        graph_wf(bound(m, v1, v2, a)),
        bound(m, v1, v2, a).dom() == m.dom(),
{
    let n = bound(m, v1, v2, a);
    let es = m[v1].edges;
    let ns = rebound(es, a, v2);
    assert(n.dom() =~= m.dom());
    let idx = label_index(es, a);
    if idx >= 0 {
        assert(0 <= idx < es.len() && es[idx].0 == a);
    }
    assert(n[v1].edges == ns);
    // the new edges reach v2, and besides it only what the old ones reached
    assert forall|w: u32| w != v2 && #[trigger] targets(ns, w) implies targets(es, w) by {
        if idx >= 0 {
            if w != es[idx].1 {
                lemma_targets_update(es, idx, (a, v2), w);
            } else {
                assert(targets(es, w));
            }
        } else {
            lemma_targets_push(es, (a, v2), w);
        }
    }
    assert(targets(ns, v2)) by {
        if idx >= 0 {
            assert(ns[idx].1 == v2);
        } else {
            lemma_targets_push(es, (a, v2), v2);
        }
    }
    // closed
    assert forall|v: u32, i: int|
        n.contains_key(v) && 0 <= i < n[v].edges.len() implies n.contains_key(#[trigger] n[v].edges[i].1) by {
        if v == v1 {
            let w = ns[i].1;
            assert(targets(ns, w));
            if w != v2 {
                let k = choose|k: int| 0 <= k < es.len() && #[trigger] es[k].1 == w;
                assert(m.contains_key(es[k].1));
            }
        } else {
            assert(m.contains_key(m[v].edges[i].1));
        }
    }
    assert forall|v: u32, p: u32| n.contains_key(v) && #[trigger] n[v].parents.contains(p) implies n.contains_key(p) by {
        if v != v1 && p != v1 {
            assert(m[v].parents.contains(p));
        }
    }
    // unique labels
    assert forall|v: u32| #[trigger] n.contains_key(v) implies labels_unique(n[v].edges) by {
        if v == v1 {
            assert(labels_unique(es));
            if idx < 0 {
                assert forall|i: int, j: int| 0 <= i < j < ns.len() implies #[trigger] ns[i].0 != #[trigger] ns[j].0 by {
                    if j == es.len() {
                        if es[i].0 == a {
                            lemma_first_match(es, a, i);
                        }
                    }
                }
            } else {
                assert forall|i: int, j: int| 0 <= i < j < ns.len() implies #[trigger] ns[i].0 != #[trigger] ns[j].0 by {
                    if i != idx && j != idx {
                        assert(es[i].0 != es[j].0);
                    } else if i == idx {
                        assert(es[idx].0 != es[j].0);
                    } else {
                        assert(es[i].0 != es[idx].0);
                    }
                }
            }
        }
    }
    // no self-loops
    assert forall|v: u32| #[trigger] n.contains_key(v) implies !targets(n[v].edges, v) by {
        if v == v1 {
            if targets(ns, v1) {
                assert(targets(es, v1));
            }
        }
    }
    // symmetry
    assert forall|x1: u32, x2: u32|
        n.contains_key(x1) && n.contains_key(x2) implies (#[trigger] n[x2].parents.contains(x1)
        <==> #[trigger] targets(n[x1].edges, x2)) by {
        assert(m[x2].parents.contains(x1) <==> targets(m[x1].edges, x2));
        if x2 == v1 {
            assert(!m[v1].parents.contains(v1));
            if x1 == v1 {
                if targets(ns, v1) {
                    assert(targets(es, v1));
                }
            }
        }
    }
}

impl Sodg {
    /// Adds vertex `v`; adding one that is there already changes nothing and succeeds.
    pub fn add(&mut self, v: u32) -> (r: Result<(), SodgError>)
        ensures
            old(self).wf() ==> final(self).wf(),
            final(self)@ == added(old(self)@, v),
            final(self).same_settings(old(self)),
            old(self)@.contains_key(v) ==> r is Ok,
            (!old(self).alerts_active || old(self).alerts@.len() == 0) ==> r is Ok,
            r is Err ==> r->Err_0 is ValidationFailed,
    {
        if self.vertices.contains_key(&v) {
            return Ok(());
        }
        let vtx = Vertex { edges: Vec::new(), parents: BTreeSet::new(), data: Hex::empty(), taken: false };
        self.vertices.insert(v, vtx);
        proof {
            assert(vtx@.edges =~= Seq::<(Seq<char>, u32)>::empty());
            assert(self@ =~= added(old(self)@, v));
            if old(self).wf() {
                let m = self@;
                assert forall|v1: u32, v2: u32|
                    m.contains_key(v1) && m.contains_key(v2) implies (#[trigger] m[v2].parents.contains(v1)
                    <==> #[trigger] targets(m[v1].edges, v2)) by {
                    if v1 != v && v2 != v {
                        assert(m[v2] == old(self)@[v2]);
                        assert(m[v1] == old(self)@[v1]);
                    }
                }
            }
        }
        let ids = vec![v];
        self.validate(&ids)
    }

    /// Binds label `a` from `v1` to `v2`: an edge of `v1` with that label is
    /// redirected in place, otherwise a new edge goes last; `v1` leaves the
    /// parents of a former destination that it no longer reaches, and joins
    /// those of `v2`. Absent vertices are reported first, `v1` before `v2`;
    /// a self-loop or an empty label between present vertices is refused.
    pub fn bind(&mut self, v1: u32, v2: u32, a: &str) -> (r: Result<(), SodgError>)
        requires
            old(self).wf(),
        ensures
            final(self).wf(),
            final(self).same_settings(old(self)),
            !old(self)@.contains_key(v1) ==> r == Err::<(), SodgError>(SodgError::NotFound(v1))
                && final(self)@ == old(self)@,
            old(self)@.contains_key(v1) && !old(self)@.contains_key(v2) ==> r == Err::<(), SodgError>(
                SodgError::NotFound(v2),
            ) && final(self)@ == old(self)@,
            old(self)@.contains_key(v1) && old(self)@.contains_key(v2) && (v1 == v2 || a@.len() == 0)
                ==> r == Err::<(), SodgError>(SodgError::InvalidArgument) && final(self)@ == old(self)@,
            v1 != v2 && a@.len() > 0 && old(self)@.contains_key(v1) && old(self)@.contains_key(v2)
                ==> {
                &&& final(self)@ == bound(old(self)@, v1, v2, a@)
                &&& (!old(self).alerts_active || old(self).alerts@.len() == 0) ==> r is Ok
                &&& r is Err ==> r->Err_0 is ValidationFailed
            },
    {
        if !self.vertices.contains_key(&v1) {
            return Err(SodgError::NotFound(v1));
        }
        if !self.vertices.contains_key(&v2) {
            return Err(SodgError::NotFound(v2));
        }
        if v1 == v2 || a.is_empty() {
            return Err(SodgError::InvalidArgument);
        }
        let ghost m = self@;
        proof {
            lemma_bound_wf(m, v1, v2, a@);
        }
        let key = String::from_str(a);
        let mut vtx1 = self.vertices.remove(&v1).unwrap();
        let ghost es = vtx1@.edges;
        assert(m.contains_key(v1));
        assert(labels_unique(es));
        let mut i: usize = 0;
        let mut found: Option<usize> = None;
        while i < vtx1.edges.len()
            invariant_except_break
                found is None,
            invariant
                vtx1@ == m[v1],
                es == m[v1].edges,
                labels_unique(es),
                key@ == a@,
                i <= es.len(),
                forall|k: int| 0 <= k < i ==> #[trigger] es[k].0 != a@,
            ensures
                found is None ==> forall|k: int| 0 <= k < es.len() ==> #[trigger] es[k].0 != a@,
                found is Some ==> found->0 < es.len() && es[found->0 as int].0 == a@,
            decreases es.len() - i,
        {
            if vtx1.edges[i].a == key {
                found = Some(i);
                break;
            }
            i = i + 1;
        }
        let ghost ns = rebound(es, a@, v2);
        let mut former: Option<u32> = None;
        match found {
            Some(k) => {
                proof {
                    lemma_label_index(es, a@, k as int);
                }
                assert(m.contains_key(es[k as int].1));
                former = Some(vtx1.edges[k].to);
                vtx1.edges.set(k, Edge { to: v2, a: key });
                assert(vtx1@.edges =~= ns);
            },
            None => {
                proof {
                    lemma_label_absent(es, a@);
                }
                vtx1.edges.push(Edge { to: v2, a: key });
                assert(vtx1@.edges =~= ns);
            },
        }
        // does v1 still reach its former destination?
        let mut still = false;
        if let Some(o) = former {
            let mut j: usize = 0;
            while j < vtx1.edges.len()
                invariant_except_break
                    !still,
                invariant
                    vtx1@.edges == ns,
                    j <= ns.len(),
                    forall|k: int| 0 <= k < j ==> #[trigger] ns[k].1 != o,
                ensures
                    still <==> targets(ns, o),
                decreases ns.len() - j,
            {
                if vtx1.edges[j].to == o {
                    assert(ns[j as int].1 == o);
                    still = true;
                    break;
                }
                j = j + 1;
            }
        }
        assert(former is Some ==> (still <==> targets(ns, former->0)));
        self.vertices.insert(v1, vtx1);
        let mut vtx2 = self.vertices.remove(&v2).unwrap();
        vtx2.parents.insert(v1);
        self.vertices.insert(v2, vtx2);
        if let Some(o) = former {
            if o != v2 && !still {
                let mut vo = self.vertices.remove(&o).unwrap();
                vo.parents.remove(&v1);
                self.vertices.insert(o, vo);
            }
        }
        proof {
            let n = bound(m, v1, v2, a@);
            assert(self.vertices@.dom() =~= old(self).vertices@.dom());
            assert(self@.dom() =~= n.dom());
            assert forall|w: u32| #[trigger] self@.contains_key(w) implies self@[w] == n[w] by {
                if w != v1 && w != v2 && (former is None || w != former->0) {
                    if former is Some {
                        lemma_targets_update(es, label_index(es, a@), (a@, v2), w);
                    } else {
                        lemma_targets_push(es, (a@, v2), w);
                    }
                    assert(m[w].parents.contains(v1) <==> targets(es, w));
                    assert(self@[w].parents =~= n[w].parents);
                }
                if former is Some && w == former->0 && w != v2 {
                    assert(es[label_index(es, a@)].1 == w);
                    assert(targets(es, w));
                    assert(m[w].parents.contains(v1) <==> targets(m[v1].edges, w));
                    assert(self@[w].parents =~= n[w].parents);
                }
                if w == v2 {
                    assert(targets(ns, v2)) by {
                        if former is Some {
                            assert(ns[label_index(es, a@)].1 == v2);
                        } else {
                            lemma_targets_push(es, (a@, v2), v2);
                        }
                    }
                }
            }
            assert(self@ =~= n);
        }
        let ids = vec![v1, v2];
        self.validate(&ids)
    }

    /// Replaces the data of vertex `v` with `d`.
    pub fn put(&mut self, v: u32, d: &Hex) -> (r: Result<(), SodgError>)
        ensures
            old(self).wf() ==> final(self).wf(),
            final(self).same_settings(old(self)),
            !old(self)@.contains_key(v) ==> r == Err::<(), SodgError>(SodgError::NotFound(v))
                && final(self)@ == old(self)@,
            old(self)@.contains_key(v) ==> final(self)@ == with_data(old(self)@, v, d@),
            old(self)@.contains_key(v) && (!old(self).alerts_active || old(self).alerts@.len() == 0) ==> r is Ok,
            old(self)@.contains_key(v) && r is Err ==> r->Err_0 is ValidationFailed,
    {
        if !self.vertices.contains_key(&v) {
            return Err(SodgError::NotFound(v));
        }
        let mut vtx = self.vertices.remove(&v).unwrap();
        vtx.data = d.duplicate();
        self.vertices.insert(v, vtx);
        proof {
            assert(self@ =~= with_data(old(self)@, v, d@));
            if old(self).wf() {
                let m = self@;
                assert forall|v1: u32, v2: u32|
                    m.contains_key(v1) && m.contains_key(v2) implies (#[trigger] m[v2].parents.contains(v1)
                    <==> #[trigger] targets(m[v1].edges, v2)) by {
                    assert(m[v2].parents == old(self)@[v2].parents);
                    assert(m[v1].edges == old(self)@[v1].edges);
                }
            }
        }
        let ids = vec![v];
        self.validate(&ids)
    }

    /// The edges leaving vertex `v`, as label and destination, in bind order.
    pub fn kids(&self, v: u32) -> (r: Result<Vec<(String, u32)>, SodgError>)
        ensures
            !self@.contains_key(v) ==> r == Err::<Vec<(String, u32)>, SodgError>(SodgError::NotFound(v)),
            self@.contains_key(v) ==> r is Ok && r->Ok_0@.len() == self@[v].edges.len() && forall|i: int|
                0 <= i < r->Ok_0@.len() ==> (#[trigger] r->Ok_0@[i].0@, r->Ok_0@[i].1)
                    == self@[v].edges[i],
    {
        let vtx = match self.vertices.get(&v) {
            Some(x) => x,
            None => return Err(SodgError::NotFound(v)),
        };
        let mut ks: Vec<(String, u32)> = Vec::new();
        let mut i: usize = 0;
        while i < vtx.edges.len()
            invariant
                self@.contains_key(v),
                self@[v] == vtx@,
                i <= vtx.edges@.len(),
                ks@.len() == i,
                forall|k: int| 0 <= k < i ==> (#[trigger] ks@[k].0@, ks@[k].1) == vtx@.edges[k],
            decreases vtx.edges@.len() - i,
        {
            let e = &vtx.edges[i];
            ks.push((e.a.clone(), e.to));
            i = i + 1;
        }
        Ok(ks)
    }

    /// The destination of the edge labelled `a` that leaves `v`; nothing where
    /// there is no such vertex or edge.
    pub fn kid(&self, v: u32, a: &str) -> (r: Option<u32>)
        ensures
            r == kid_of(self@, v, a@),
    {
        let vtx = match self.vertices.get(&v) {
            Some(x) => x,
            None => return None,
        };
        let key = String::from_str(a);
        let mut i: usize = 0;
        while i < vtx.edges.len()
            invariant
                self@.contains_key(v),
                self@[v] == vtx@,
                key@ == a@,
                i <= vtx.edges@.len(),
                forall|k: int| 0 <= k < i ==> #[trigger] vtx@.edges[k].0 != a@,
            decreases vtx.edges@.len() - i,
        {
            if vtx.edges[i].a == key {
                proof {
                    lemma_label_index(vtx@.edges, a@, i as int);
                }
                return Some(vtx.edges[i].to);
            }
            i = i + 1;
        }
        proof {
            lemma_label_absent(vtx@.edges, a@);
        }
        None
    }
}

} // verus!
