use crate::gc::{collected, collectible, marked, removal_order, swept, touched};
use crate::label::{accepted, alpha_of, lemma_digits, padded, str_len, stands_for, Label};
use crate::graph::{graph_wf, label_index, labels_unique, targets, Sodg, VertexView};
use crate::ops::{added, bound, kid_of, rebound};
use crate::slice::{approved_step, is_walk, reachable, sliced};
use vstd::prelude::*;

verus! {

/// Adding a vertex twice leaves the store as adding it once does, with that vertex in it.
pub proof fn law_add_idempotent(m: Map<u32, VertexView>, x: u32)
    ensures
        added(added(m, x), x) == added(m, x),
        added(m, x).contains_key(x),
        added(m, x).dom() == m.dom().insert(x),
{
    assert(added(m, x).dom() =~= m.dom().insert(x));
}

/// Binding a label of `v1` twice keeps one edge under it, which leads to the
/// second destination: the edge count is what the first bind left.
pub proof fn law_bind_replaces(m: Map<u32, VertexView>, v1: u32, v2: u32, v3: u32, a: Seq<char>)
    requires
        graph_wf(m),
        m.contains_key(v1),
        m.contains_key(v2),
        m.contains_key(v3),
        v1 != v2,
        v1 != v3,
    ensures
        kid_of(bound(bound(m, v1, v2, a), v1, v3, a), v1, a) == Some(v3),
        bound(bound(m, v1, v2, a), v1, v3, a)[v1].edges.len() == bound(m, v1, v2, a)[v1].edges.len(),
{
    let n1 = bound(m, v1, v2, a);
    let n2 = bound(n1, v1, v3, a);
    crate::ops::lemma_bound_wf(m, v1, v2, a);
    crate::ops::lemma_bound_wf(n1, v1, v3, a);
    let es = m[v1].edges;
    let e1 = n1[v1].edges;
    assert(e1 == rebound(es, a, v2));
    // the label stands somewhere in e1
    let i: int = if label_index(es, a) >= 0 { label_index(es, a) } else { es.len() as int };
    if label_index(es, a) >= 0 {
        assert(0 <= label_index(es, a) < es.len() && es[label_index(es, a)].0 == a);
    }
    assert(0 <= i < e1.len() && e1[i].0 == a);
    assert(labels_unique(e1));
    assert forall|k: int| 0 <= k < i implies #[trigger] e1[k].0 != a by {
        assert(e1[k].0 != e1[i].0);
    }
    crate::ops::lemma_label_index(e1, a, i);
    let e2 = n2[v1].edges;
    assert(e2 == e1.update(i, (a, v3)));
    assert(labels_unique(e2));
    assert forall|k: int| 0 <= k < i implies #[trigger] e2[k].0 != a by {
        assert(e2[k].0 != e2[i].0);
    }
    crate::ops::lemma_label_index(e2, a, i);
}

/// In a well-formed store, `v1` is among the parents of `v2` exactly when
/// some edge of `v1` arrives at `v2`.
pub proof fn law_parent_child_symmetry(g: &Sodg, v1: u32, v2: u32)
    requires
        g.wf(),
        g@.contains_key(v1),
        g@.contains_key(v2),
    ensures
        g@[v2].parents.contains(v1) <==> exists|i: int|
            0 <= i < g@[v1].edges.len() && #[trigger] g@[v1].edges[i].1 == v2,
{
    assert(g@[v2].parents.contains(v1) <==> targets(g@[v1].edges, v2));
}

/// Reading a vertex that has no parents reclaims it.
pub proof fn law_gc_reclaims_consumed_leaf(m: Map<u32, VertexView>, v: u32, n: Map<u32, VertexView>)
    requires
        m.contains_key(v),
        m[v].parents.is_empty(),
        collected(marked(m, v), v, n),
    ensures
        !n.contains_key(v),
        m.dom() == set![v] ==> n.dom().is_empty(),
{
    let mm = marked(m, v);
    let order = choose|order: Seq<u32>|
        {
            &&& #[trigger] removal_order(mm, v, order)
            &&& n == swept(mm, order.to_set())
            &&& forall|x: u32|
                n.contains_key(x) && touched(mm, v, order.to_set(), x) ==> !#[trigger] collectible(n, x)
        };
    if n.contains_key(v) {
        assert(touched(mm, v, order.to_set(), v));
        assert(n[v].parents =~= Set::<u32>::empty());
        assert(collectible(n, v));
    }
    if m.dom() == set![v] {
        assert(n.dom() =~= Set::<u32>::empty()) by {
            assert forall|x: u32| !n.contains_key(x) by {
                if n.contains_key(x) {
                    assert(mm.contains_key(x));
                    assert(m.dom().contains(x));
                }
            }
        }
    }
}

/// While another vertex `b` still has an edge to `c`, reading `c` reclaims nothing.
pub proof fn law_gc_respects_shared_parents(m: Map<u32, VertexView>, b: u32, c: u32, n: Map<u32, VertexView>)
    requires
        graph_wf(m),
        m.contains_key(b),
        m.contains_key(c),
        targets(m[b].edges, c),
        collected(marked(m, c), c, n),
    ensures
        n.contains_key(c),
        n == marked(m, c),
{
    let mm = marked(m, c);
    let order = choose|order: Seq<u32>|
        {
            &&& #[trigger] removal_order(mm, c, order)
            &&& n == swept(mm, order.to_set())
            &&& forall|x: u32|
                n.contains_key(x) && touched(mm, c, order.to_set(), x) ==> !#[trigger] collectible(n, x)
        };
    assert(m[c].parents.contains(b));
    if order.len() > 0 {
        assert(order[0] == c);
        assert(order.take(0).to_set() =~= Set::<u32>::empty());
        assert(mm[order[0]].parents.subset_of(order.take(0).to_set()));
        assert(false);
    }
    assert(order.to_set() =~= Set::<u32>::empty());
    let s = swept(mm, order.to_set());
    assert forall|x: u32| #[trigger] mm.contains_key(x) implies s[x] == mm[x] by {
        assert(mm[x].parents.difference(Set::empty()) =~= mm[x].parents);
    }
    assert(s =~= mm);
}

/// A slice taken under a predicate that approves no edge holds the start vertex alone.
pub proof fn law_slice_refusing_all_keeps_start<F: Fn(u32, u32, String) -> bool>(
    g: &Sodg,
    p: F,
    s: u32,
    r: &Sodg,
)
    requires
        sliced(g, p, s, r),
        forall|x: u32, y: u32, a: String, ok: bool| #[trigger] p.ensures((x, y, a), ok) ==> !ok,
    ensures
        r.vertices@.dom() == set![s],
{
    assert forall|x: u32| #[trigger] r.vertices@.contains_key(x) implies x == s by {
        assert(reachable(g, p, s, x));
        let path = choose|path: Seq<u32>| #[trigger] is_walk(g, p, path) && path[0] == s && path.last() == x;
        if path.len() > 1 {
            let k: int = 0;
            assert(approved_step(g, p, path[k], path[k + 1]));
            let i = choose|i: int|
                0 <= i < g.vertices@[path[k]].edges@.len() && #[trigger] g.vertices@[path[k]].edges@[i].to == path[k + 1]
                    && p.ensures((path[k], path[k + 1], g.vertices@[path[k]].edges@[i].a), true);
            assert(p.ensures((path[k], path[k + 1], g.vertices@[path[k]].edges@[i].a), true));
        }
    }
    assert(r.vertices@.dom() =~= set![s]);
}

/// Binding away the only edge of `p1` to `c` takes `p1` out of the parents of
/// `c`; while `p2` still has an edge to `c`, a later read of `c` reclaims nothing.
pub proof fn law_rebind_keeps_shared_child(
    m: Map<u32, VertexView>,
    p1: u32,
    p2: u32,
    c: u32,
    x: u32,
    l: Seq<char>,
    n2: Map<u32, VertexView>,
)
    requires
        graph_wf(m),
        m.contains_key(p1),
        m.contains_key(p2),
        m.contains_key(c),
        m.contains_key(x),
        p1 != p2,
        p1 != x,
        x != c,
        label_index(m[p1].edges, l) >= 0,
        m[p1].edges[label_index(m[p1].edges, l)].1 == c,
        forall|i: int| 0 <= i < m[p1].edges.len() && #[trigger] m[p1].edges[i].1 == c ==> m[p1].edges[i].0 == l,
        targets(m[p2].edges, c),
    ensures
        graph_wf(bound(m, p1, x, l)),
        bound(m, p1, x, l)[c].parents == m[c].parents.remove(p1),
        bound(m, p1, x, l)[c].parents.contains(p2),
        bound(m, p1, x, l)[c].taken == m[c].taken,
        collected(marked(bound(m, p1, x, l), c), c, n2) ==> n2.contains_key(c),
{
    let n = bound(m, p1, x, l);
    crate::ops::lemma_bound_wf(m, p1, x, l);
    let es = m[p1].edges;
    let idx = label_index(es, l);
    assert(0 <= idx < es.len() && es[idx].0 == l);
    let ns = rebound(es, l, x);
    assert(ns == es.update(idx, (l, x)));
    assert(!targets(ns, c)) by {
        if targets(ns, c) {
            let i = choose|i: int| 0 <= i < ns.len() && #[trigger] ns[i].1 == c;
            assert(i != idx);
            assert(es[i].1 == c);
            assert(es[i].0 == l);
            assert(labels_unique(es));
            if i < idx {
                assert(es[i].0 != es[idx].0);
            } else {
                assert(es[idx].0 != es[i].0);
            }
        }
    }
    assert(m[c].parents.contains(p2));
    assert(n[p2].edges == m[p2].edges);
    if collected(marked(n, c), c, n2) {
        law_gc_respects_shared_parents(n, p2, c, n2);
    }
}

/// The text of a label stands for that label again.
pub proof fn law_label_round_trip(l: Label)
    requires
        l.wf(),
    ensures
        accepted(l.text_of()),
        stands_for(l.text_of(), l),
{
    let t = l.text_of();
    match l {
        Label::Greek(c) => {},
        Label::Alpha(n) => {
            lemma_digits(n as nat);
            let ds = crate::label::digits_of(n as nat);
            assert(t.skip(1) =~= ds);
            assert forall|k: int| 1 <= k < t.len() implies crate::label::is_digit_char(#[trigger] t[k]) by {
                assert(t[k] == ds[k - 1]);
            }
            assert(alpha_of(t) == Some(n));
        },
        Label::Str(a) => {
            let len = str_len(a@);
            if exists|i: int| 0 <= i < a@.len() && a@[i] == '\0' && (forall|k: int| 0 <= k < i ==> #[trigger] a@[k] != '\0') {
                assert(len < 8);
            }
            assert(t.len() == len);
            assert(a@ =~= padded(t));
        },
    }
}

} // verus!
