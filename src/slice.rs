use crate::graph::{targets, Sodg, SodgError, VertexView};
use crate::ops::kid_of;
use std::collections::HashSet;
use vstd::prelude::*;
use vstd::std_specs::hash::spec_keys_iter;
use vstd::std_specs::iter::IteratorSpec;
use vstd::string::StringSliceAdditionalSpecFns;

verus! {

broadcast use {vstd::std_specs::hash::group_hash_axioms, vstd::std_specs::btree::group_btree_axioms};

/// Whether byte `b` is an ASCII decimal digit.
pub open spec fn is_digit(b: u8) -> bool {
    48 <= b <= 57
}

/// The number that a sequence of decimal digits writes.
pub open spec fn decimal(ds: Seq<u8>) -> nat
    decreases ds.len(),
{
    if ds.len() == 0 {
        0
    } else {
        decimal(ds.drop_last()) * 10 + (ds.last() - 48) as nat
    }
}

/// The vertex that a locator `ν<digits>` names by its id, given the locator's UTF-8 bytes.
pub open spec fn absolute_of(b: Seq<u8>) -> Option<u32> {
    if b.len() > 2 && b[0] == 0xCE && b[1] == 0xBD && (forall|k: int|
        2 <= k < b.len() ==> is_digit(#[trigger] b[k])) && decimal(b.skip(2)) <= u32::MAX {
        Some(decimal(b.skip(2)) as u32)
    } else {
        None
    }
}

/// Where a locator leads from the present vertex `v`: an empty locator stays at
/// `v`, `ν<digits>` goes to the vertex with that id, and any other text follows
/// the edge of `v` with that label to a vertex of the store.
pub open spec fn located(m: Map<u32, VertexView>, v: u32, text: Seq<char>, bytes: Seq<u8>) -> Result<
    u32,
    SodgError,
> {
    if text.len() == 0 {
        Ok(v)
    } else if absolute_of(bytes) is Some {
        if m.contains_key(absolute_of(bytes)->0) {
            Ok(absolute_of(bytes)->0)
        } else {
            Err(SodgError::NotFound(absolute_of(bytes)->0))
        }
    } else if kid_of(m, v, text) is Some && m.contains_key(kid_of(m, v, text)->0) {
        Ok(kid_of(m, v, text)->0)
    } else {
        Err(SodgError::NotFound(v))
    }
}

/// Vertex `x` of `g` has an edge to `y` whose traversal `p` approves.
pub open spec fn approved_step<F: Fn(u32, u32, String) -> bool>(g: &Sodg, p: F, x: u32, y: u32) -> bool {
    exists|i: int|
        0 <= i < g.vertices@[x].edges@.len() && #[trigger] g.vertices@[x].edges@[i].to == y
            && p.ensures((x, y, g.vertices@[x].edges@[i].a), true)
}

/// `path` runs through vertices of `g`, each step along an edge that `p` approves.
pub open spec fn is_walk<F: Fn(u32, u32, String) -> bool>(g: &Sodg, p: F, path: Seq<u32>) -> bool {
    &&& path.len() >= 1
    &&& forall|k: int| 0 <= k < path.len() ==> g.vertices@.contains_key(#[trigger] path[k])
    &&& forall|k: int| 0 <= k < path.len() - 1 ==> #[trigger] approved_step(g, p, path[k], path[k + 1])
}

/// `x` can be reached from `s` in `g` along edges that `p` approves.
pub open spec fn reachable<F: Fn(u32, u32, String) -> bool>(g: &Sodg, p: F, s: u32, x: u32) -> bool {
    exists|path: Seq<u32>| #[trigger] is_walk(g, p, path) && path[0] == s && path.last() == x
}

/// Every edge of `x` in `g` leads into `kept` or out of `g`, or `p` turned it down.
pub open spec fn expanded<F: Fn(u32, u32, String) -> bool>(g: &Sodg, p: F, kept: Set<u32>, x: u32) -> bool {
    forall|i: int|
        0 <= i < g.vertices@[x].edges@.len() ==> kept.contains(#[trigger] g.vertices@[x].edges@[i].to)
            || !g.vertices@.contains_key(g.vertices@[x].edges@[i].to)
            || p.ensures((x, g.vertices@[x].edges@[i].to, g.vertices@[x].edges@[i].a), false)
}

/// `r` is a slice of `g` from `s` under `p`: verbatim copies of vertices of `g`,
/// `s` among them, each reachable from `s` under `p`, with every edge leaving
/// them kept, turned down by `p`, or leading out of `g`; the counter, as many
/// alerts (clones of the shared ones), and the settings come along.
pub open spec fn sliced<F: Fn(u32, u32, String) -> bool>(g: &Sodg, p: F, s: u32, r: &Sodg) -> bool {
    &&& r.vertices@.contains_key(s)
    &&& forall|x: u32| #[trigger]
        r.vertices@.contains_key(x) ==> g.vertices@.contains_key(x) && r.vertices@[x] == g.vertices@[x]
    &&& forall|x: u32| #[trigger] r.vertices@.contains_key(x) ==> reachable(g, p, s, x)
    &&& forall|x: u32| #[trigger] r.vertices@.contains_key(x) ==> expanded(g, p, r.vertices@.dom(), x)
    &&& r.next_v == g.next_v
    &&& r.alerts@.len() == g.alerts@.len()
    &&& r.alerts_active == g.alerts_active
    &&& r.gc == g.gc
}

/// Where a slice of `g` starts: the vertex that `loc` leads to from vertex 0.
pub open spec fn slice_start(g: &Sodg, loc: &str) -> Result<u32, SodgError> {
    if g@.contains_key(0) {
        located(g@, 0, loc@, loc.spec_bytes())
    } else {
        Err(SodgError::NotFound(0))
    }
}

/// `path` runs through vertices of `m`, each step along an edge.
pub open spec fn walks(m: Map<u32, VertexView>, path: Seq<u32>) -> bool {
    &&& path.len() >= 1
    &&& forall|k: int| 0 <= k < path.len() ==> m.contains_key(#[trigger] path[k])
    &&& forall|k: int| 0 <= k < path.len() - 1 ==> #[trigger] targets(m[path[k]].edges, path[k + 1])
}

/// `x` can be reached from `s` along edges of `m`.
pub open spec fn reaches(m: Map<u32, VertexView>, s: u32, x: u32) -> bool {
    exists|path: Seq<u32>| #[trigger] walks(m, path) && path[0] == s && path.last() == x
}

/// The vertices of `m` reachable from `s`.
pub open spec fn reach_set(m: Map<u32, VertexView>, s: u32) -> Set<u32> {
    Set::new(|x: u32| reaches(m, s, x))
}

/// A longer run of digits writes a number at least as large.
proof fn lemma_decimal_grows(ds: Seq<u8>, k: int)
    requires
        0 <= k <= ds.len(),
        forall|i: int| 0 <= i < ds.len() ==> is_digit(#[trigger] ds[i]),
    ensures
        decimal(ds.take(k)) <= decimal(ds),
    decreases ds.len(),
{
    if k < ds.len() {
        assert(ds.drop_last().take(k) =~= ds.take(k));
        lemma_decimal_grows(ds.drop_last(), k);
    } else {
        assert(ds.take(k) =~= ds);
    }
}

/// The id that `ν<digits>` names, if the bytes have that shape and the number fits.
fn parse_absolute(b: &[u8]) -> (r: Option<u32>)
    ensures
        r == absolute_of(b@),
{
    let n = b.len();
    if n <= 2 || b[0] != 0xCE || b[1] != 0xBD {
        return None;
    }
    let ghost ds = b@.skip(2);
    let mut val: u64 = 0;
    let mut k: usize = 2;
    while k < n
        invariant
            n == b@.len(),
            ds == b@.skip(2),
            2 <= k <= n,
            forall|i: int| 2 <= i < k ==> is_digit(#[trigger] b@[i]),
            val == decimal(ds.take(k - 2)),
            val <= u32::MAX,
        decreases n - k,
    {
        let c = b[k];
        if c < 48 || c > 57 {
            assert(!is_digit(b@[k as int]));
            return None;
        }
        assert(ds.take(k - 1).drop_last() =~= ds.take(k - 2));
        val = val * 10 + (c - 48) as u64;
        k = k + 1;
        if val > 0xFFFF_FFFF {
            proof {
                let kk = k;
                assert forall|i: int| 0 <= i < ds.len() && i < kk - 2 implies is_digit(#[trigger] ds[i]) by {
                    assert(ds[i] == b@[i + 2]);
                }
            }
            // the number only grows with more digits, unless a later byte is no digit
            let mut rest: usize = k;
            while rest < n
                invariant
                    n == b@.len(),
                    2 <= k <= rest <= n,
                    forall|i: int| 2 <= i < rest ==> is_digit(#[trigger] b@[i]),
                decreases n - rest,
            {
                if b[rest] < 48 || b[rest] > 57 {
                    assert(!is_digit(b@[rest as int]));
                    return None;
                }
                rest = rest + 1;
            }
            proof {
                assert forall|i: int| 0 <= i < ds.len() implies is_digit(#[trigger] ds[i]) by {
                    assert(ds[i] == b@[i + 2]);
                }
                lemma_decimal_grows(ds, k - 2);
            }
            return None;
        }
    }
    assert(ds.take(n - 2) =~= ds);
    Some(val as u32)
}

/// A set that holds `path[0]` and is closed under the edges of `m` holds the whole path.
proof fn lemma_walk_inside(m: Map<u32, VertexView>, kept: Set<u32>, path: Seq<u32>, k: int)
    requires
        walks(m, path),
        kept.contains(path[0]),
        forall|x: u32, y: u32| kept.contains(x) && m.contains_key(x) && m.contains_key(y) && #[trigger] targets(m[x].edges, y) ==> kept.contains(y),
        0 <= k < path.len(),
    ensures
        kept.contains(path[k]),
    decreases k,
{
    if k > 0 {
        lemma_walk_inside(m, kept, path, k - 1);
        let j = k - 1;
        assert(targets(m[path[j]].edges, path[j + 1]));
        assert(j + 1 == k);
    }
}

impl Sodg {
    /// A new store with the vertex that `loc` leads to from vertex 0 and every
    /// vertex reachable from it, copied verbatim.
    pub fn slice(&self, loc: &str) -> (r: Result<Sodg, SodgError>)
        ensures
            slice_start(self, loc) is Err ==> r is Err && r->Err_0 == slice_start(self, loc)->Err_0,
            slice_start(self, loc) is Ok ==> {
                &&& r is Ok
                &&& r->Ok_0@ == self@.restrict(reach_set(self@, slice_start(self, loc)->Ok_0))
                &&& r->Ok_0.next_v == self.next_v
                &&& r->Ok_0.alerts@.len() == self.alerts@.len()
                &&& r->Ok_0.alerts_active == self.alerts_active
                &&& r->Ok_0.gc == self.gc
            },
    {
        let all = |_v: u32, _to: u32, _a: String| -> (ok: bool)
            ensures
                ok,
            { true };
        let r = self.slice_some(loc, all);
        proof {
            if slice_start(self, loc) is Ok {
                let s = slice_start(self, loc)->Ok_0;
                let g = r->Ok_0;
                let kept = g.vertices@.dom();
                let m = self@;
                assert forall|x: u32, y: u32| kept.contains(x) && m.contains_key(x) && m.contains_key(y) && #[trigger] targets(m[x].edges, y) implies kept.contains(y) by {
                    assert(expanded(self, all, kept, x));
                    let i = choose|i: int| 0 <= i < m[x].edges.len() && #[trigger] m[x].edges[i].1 == y;
                    assert(self.vertices@[x].edges@[i].to == y);
                }
                assert forall|x: u32| #[trigger] g@.contains_key(x) <==> reach_set(m, s).contains(x) && m.contains_key(x) by {
                    if g@.contains_key(x) {
                        assert(reachable(self, all, s, x));
                        let path = choose|path: Seq<u32>| #[trigger] is_walk(self, all, path) && path[0] == s && path.last() == x;
                        assert forall|k: int| 0 <= k < path.len() - 1 implies #[trigger] targets(m[path[k]].edges, path[k + 1]) by {
                            assert(approved_step(self, all, path[k], path[k + 1]));
                            let i = choose|i: int| 0 <= i < self.vertices@[path[k]].edges@.len() && #[trigger] self.vertices@[path[k]].edges@[i].to == path[k + 1]
                                && all.ensures((path[k], path[k + 1], self.vertices@[path[k]].edges@[i].a), true);
                            assert(m[path[k]].edges[i].1 == path[k + 1]);
                        }
                        assert(walks(m, path));
                    }
                    if reach_set(m, s).contains(x) && m.contains_key(x) {
                        let path = choose|path: Seq<u32>| #[trigger] walks(m, path) && path[0] == s && path.last() == x;
                        lemma_walk_inside(m, kept, path, path.len() - 1);
                    }
                }
                assert(g@ =~= m.restrict(reach_set(m, s)));
            }
        }
        r
    }

    /// A new store with the vertex that `loc` leads to from vertex 0 and every
    /// vertex reachable from it along edges whose traversal `p(from, to, label)`
    /// approves. Vertices are copied verbatim, so an edge or a parent may name a
    /// vertex outside the slice, which then need not satisfy `wf`.
    pub fn slice_some<F: Fn(u32, u32, String) -> bool>(&self, loc: &str, p: F) -> (r: Result<Sodg, SodgError>)
        requires
            forall|x: u32, y: u32, a: String| #[trigger] p.requires((x, y, a)),
        ensures
            slice_start(self, loc) is Err ==> r is Err && r->Err_0 == slice_start(self, loc)->Err_0,
            slice_start(self, loc) is Ok ==> r is Ok && sliced(self, p, slice_start(self, loc)->Ok_0, &r->Ok_0),
    {
        let s = match self.find(0, loc) {
            Ok(x) => x,
            Err(e) => return Err(e),
        };
        let mut done: HashSet<u32> = HashSet::new();
        done.insert(s);
        let mut todo: Vec<u32> = vec![s];
        let ghost mut paths: Map<u32, Seq<u32>> = map![s => seq![s]];
        proof {
            assert(is_walk(self, p, seq![s]));
        }
        while todo.len() > 0
            invariant
                forall|x: u32, y: u32, a: String| #[trigger] p.requires((x, y, a)),
                done@.contains(s),
                done@.subset_of(self.vertices@.dom()),
                forall|x: u32| #[trigger] done@.contains(x) ==> paths.contains_key(x) && is_walk(self, p, paths[x])
                    && paths[x][0] == s && paths[x].last() == x,
                forall|k: int| 0 <= k < todo@.len() ==> done@.contains(#[trigger] todo@[k]),
                forall|x: u32| #[trigger] done@.contains(x) && !todo@.contains(x) ==> expanded(self, p, done@, x),
            decreases self.vertices@.len() - done@.len(), todo@.len(),
        {
            proof {
                vstd::set_lib::lemma_len_subset(done@, self.vertices@.dom());
            }
            let ghost todo_before = todo@;
            let ghost done_before = done@;
            let v = todo.pop().unwrap();
            let ghost base = todo@;
            assert(todo_before == base.push(v));
            assert(done@.contains(todo_before[todo_before.len() - 1]));
            let vtx = self.vertices.get(&v).unwrap();
            let mut j: usize = 0;
            while j < vtx.edges.len()
                invariant
                    forall|x: u32, y: u32, a: String| #[trigger] p.requires((x, y, a)),
                    self.vertices@.contains_key(v),
                    *vtx == self.vertices@[v],
                    j <= vtx.edges@.len(),
                    done_before.subset_of(done@),
                    done@.subset_of(self.vertices@.dom()),
                    done@.contains(v),
                    forall|x: u32| #[trigger] done@.contains(x) ==> paths.contains_key(x) && is_walk(self, p, paths[x])
                        && paths[x][0] == s && paths[x].last() == x,
                    base.len() <= todo@.len(),
                    forall|k: int| 0 <= k < base.len() ==> todo@[k] == base[k],
                    forall|k: int| 0 <= k < todo@.len() ==> done@.contains(#[trigger] todo@[k]),
                    forall|x: u32| #[trigger] done@.contains(x) && !done_before.contains(x) ==> todo@.contains(x),
                    done@.len() == done_before.len() + (todo@.len() - base.len()),
                    forall|i: int|
                        0 <= i < j ==> done@.contains(#[trigger] vtx.edges@[i].to)
                            || !self.vertices@.contains_key(vtx.edges@[i].to) || p.ensures(
                            (v, vtx.edges@[i].to, vtx.edges@[i].a),
                            false,
                        ),
                decreases vtx.edges@.len() - j,
            {
                let e = &vtx.edges[j];
                if !done.contains(&e.to) && self.vertices.contains_key(&e.to) {
                    let ok = p(v, e.to, e.a.clone());
                    if ok {
                        proof {
                            let pv = paths[v];
                            let np = pv.push(e.to);
                            assert(approved_step(self, p, v, e.to));
                            assert forall|k: int| 0 <= k < np.len() - 1 implies #[trigger] approved_step(self, p, np[k], np[k + 1]) by {
                                if k < pv.len() - 1 {
                                    assert(approved_step(self, p, pv[k], pv[k + 1]));
                                }
                            }
                            assert(is_walk(self, p, np));
                            paths = paths.insert(e.to, np);
                        }
                        let ghost prev_todo = todo@;
                        let ghost prev_done = done@;
                        proof {
                            vstd::set_lib::lemma_len_subset(done@, self.vertices@.dom());
                        }
                        done.insert(e.to);
                        todo.push(e.to);
                        proof {
                            assert(todo@[todo@.len() - 1] == e.to);
                            assert forall|x: u32| #[trigger] done@.contains(x) && !done_before.contains(x) implies todo@.contains(x) by {
                                if x != e.to {
                                    assert(prev_done.contains(x));
                                    let k = choose|k: int| 0 <= k < prev_todo.len() && prev_todo[k] == x;
                                    assert(todo@[k] == x);
                                }
                            }
                        }
                    }
                }
                j = j + 1;
            }
            proof {
                vstd::set_lib::lemma_len_subset(done@, self.vertices@.dom());
                assert(expanded(self, p, done@, v));
                assert forall|x: u32| #[trigger] done@.contains(x) && !todo@.contains(x) implies expanded(self, p, done@, x) by {
                    if x != v {
                        if done_before.contains(x) {
                            if todo_before.contains(x) {
                                let k = choose|k: int| 0 <= k < todo_before.len() && todo_before[k] == x;
                                assert(k < base.len());
                                assert(todo@[k] == x);
                            }
                            assert(expanded(self, p, done_before, x));
                        }
                    }
                }
            }
        }
        let mut nv = self.vertices.clone();
        let ghost all = spec_keys_iter(&self.vertices).remaining().unref();
        let ghost mut seen: int = 0;
        proof {
            assert(all.to_set() == self.vertices@.dom());
        }
        for k in it: self.vertices.keys()
            invariant
                it.seq().unref() == all,
                all.to_set() == self.vertices@.dom(),
                seen == it.index(),
                forall|x: u32| #[trigger] nv@.contains_key(x) ==> self.vertices@.contains_key(x) && nv@[x] == self.vertices@[x],
                done@.subset_of(nv@.dom()),
                forall|i: int| 0 <= i < seen ==> (nv@.contains_key(#[trigger] all[i]) ==> done@.contains(all[i])),
        {
            if !done.contains(k) {
                nv.remove(k);
            }
            proof {
                seen = seen + 1;
            }
        }
        assert(seen == all.len());
        let r = Sodg {
            vertices: nv,
            next_v: self.next_v,
            alerts: self.alerts.clone(),
            alerts_active: self.alerts_active,
            gc: self.gc,
        };
        proof {
            assert(r.vertices@.dom() =~= done@) by {
                assert forall|x: u32| #[trigger] r.vertices@.contains_key(x) implies done@.contains(x) by {
                    if !done@.contains(x) {
                        assert(all.to_set().contains(x));
                        let i = choose|i: int| 0 <= i < all.len() && all[i] == x;
                        assert(nv@.contains_key(all[i]));
                    }
                }
            }
        }
        Ok(r)
    }

    /// The vertex that locator `loc` leads to from vertex `v` (see `located`).
    pub fn find(&self, v: u32, loc: &str) -> (r: Result<u32, SodgError>)
        ensures
            !self@.contains_key(v) ==> r == Err::<u32, SodgError>(SodgError::NotFound(v)),
            self@.contains_key(v) ==> r == located(self@, v, loc@, loc.spec_bytes()),
            r is Ok ==> self@.contains_key(r->Ok_0),
    {
        if !self.vertices.contains_key(&v) {
            return Err(SodgError::NotFound(v));
        }
        if loc.is_empty() {
            return Ok(v);
        }
        match parse_absolute(loc.as_bytes()) {
            Some(n) => {
                if self.vertices.contains_key(&n) {
                    Ok(n)
                } else {
                    Err(SodgError::NotFound(n))
                }
            },
            None => match self.kid(v, loc) {
                Some(w) => {
                    if self.vertices.contains_key(&w) {
                        Ok(w)
                    } else {
                        Err(SodgError::NotFound(v))
                    }
                },
                None => Err(SodgError::NotFound(v)),
            },
        }
    }
}

} // verus!
