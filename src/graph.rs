use crate::hex::Hex;
use std::collections::{BTreeSet, HashMap};
use std::rc::Rc;
use vstd::prelude::*;
use vstd::string::StringExecFns;

verus! {

broadcast use {vstd::std_specs::hash::group_hash_axioms, vstd::std_specs::btree::group_btree_axioms};

/// What can go wrong in an operation on a store.
#[derive(Debug, Clone)]
pub enum SodgError {
    /// The vertex with this id is not in the store.
    NotFound(u32),
    /// A self-loop or an empty label was asked for.
    InvalidArgument,
    /// An alert reported violations after the change; the change stays applied.
    ValidationFailed(String),
}

/// A labelled edge, as held by the vertex it departs from.
#[derive(Clone, Debug)]
pub struct Edge {
    pub to: u32,
    pub a: String,
}

impl View for Edge {
    type V = (Seq<char>, u32);

    open spec fn view(&self) -> (Seq<char>, u32) {
        (self.a@, self.to)
    }
}

/// A vertex: its outgoing edges in bind order, the ids of the vertices that
/// point to it, its data, and whether that data has been read.
#[derive(Clone, Debug)]
pub struct Vertex {
    pub edges: Vec<Edge>,
    pub parents: BTreeSet<u32>,
    pub data: Hex,
    pub taken: bool,
}

/// The mathematical content of a vertex.
pub struct VertexView {
    pub edges: Seq<(Seq<char>, u32)>,
    pub parents: Set<u32>,
    pub data: Seq<u8>,
    pub taken: bool,
}

impl View for Vertex {
    type V = VertexView;

    open spec fn view(&self) -> VertexView {
        VertexView {
            edges: self.edges@.map_values(|e: Edge| e@),
            parents: self.parents@,
            data: self.data@,
            taken: self.taken,
        }
    }
}

/// A check run over the store after each change, given the ids the change
/// touched; it returns one message per violation it finds. Register one by
/// pushing it onto `Sodg::alerts`.
pub trait Alert {
    fn check(&self, g: &HashMap<u32, Vertex>, vx: &Vec<u32>) -> Vec<String>;
}

/// A registered alert, shared between a store and the slices taken of it.
pub type AlertRef = Rc<dyn Alert>;

/// A surging object di-graph.
pub struct Sodg {
    /// The vertices by id.
    pub vertices: HashMap<u32, Vertex>,
    /// The next id that `next_id` hands out.
    pub next_v: u32,
    /// The checks run after each change, in order of registration.
    pub alerts: Vec<AlertRef>,
    /// Whether the alerts run at all.
    pub alerts_active: bool,
    /// Whether reading a vertex's data may reclaim vertices.
    pub gc: bool,
}

/// A vertex as `add` creates it.
pub open spec fn fresh_vertex() -> VertexView {
    VertexView { edges: Seq::empty(), parents: Set::empty(), data: Seq::empty(), taken: false }
}

/// Whether some edge of `es` arrives at `w`.
pub open spec fn targets(es: Seq<(Seq<char>, u32)>, w: u32) -> bool {
    exists|i: int| 0 <= i < es.len() && #[trigger] es[i].1 == w
}

/// No two edges of `es` carry the same label.
pub open spec fn labels_unique(es: Seq<(Seq<char>, u32)>) -> bool {
    forall|i: int, j: int| 0 <= i < j < es.len() ==> #[trigger] es[i].0 != #[trigger] es[j].0
}

/// Where the first edge labelled `a` stands in `es`, or -1.
pub open spec fn label_index(es: Seq<(Seq<char>, u32)>, a: Seq<char>) -> int {
    if exists|i: int| 0 <= i < es.len() && #[trigger] es[i].0 == a && (forall|k: int| 0 <= k < i ==> es[k].0 != a) {
        choose|i: int| 0 <= i < es.len() && #[trigger] es[i].0 == a && (forall|k: int| 0 <= k < i ==> es[k].0 != a)
    } else {
        -1
    }
}

/// Every edge and every parent of the store names a vertex of it.
pub open spec fn closed(m: Map<u32, VertexView>) -> bool {
    &&& forall|v: u32, i: int|
        m.contains_key(v) && 0 <= i < m[v].edges.len() ==> m.contains_key(#[trigger] m[v].edges[i].1)
    &&& forall|v: u32, p: u32| m.contains_key(v) && #[trigger] m[v].parents.contains(p) ==> m.contains_key(p)
}

/// The store's invariants: edges and parents name present vertices, labels are
/// unique per vertex, there are no self-loops, and `v1` is a parent of `v2`
/// exactly when `v1` has an edge to `v2`.
pub open spec fn graph_wf(m: Map<u32, VertexView>) -> bool {
    &&& closed(m)
    &&& forall|v: u32| #[trigger] m.contains_key(v) ==> labels_unique(m[v].edges)
    &&& forall|v: u32| #[trigger] m.contains_key(v) ==> !targets(m[v].edges, v)
    &&& forall|v1: u32, v2: u32|
        m.contains_key(v1) && m.contains_key(v2) ==> (#[trigger] m[v2].parents.contains(v1)
            <==> #[trigger] targets(m[v1].edges, v2))
}

impl View for Sodg {
    type V = Map<u32, VertexView>;

    open spec fn view(&self) -> Map<u32, VertexView> {
        self.vertices@.map_values(|x: Vertex| x@)
    }
}

impl Sodg {
    /// The store satisfies its invariants (see `graph_wf`).
    pub open spec fn wf(&self) -> bool {
        graph_wf(self@)
    }

    /// Everything but the vertices is the same in both stores.
    pub open spec fn same_settings(&self, o: &Sodg) -> bool {
        &&& self.next_v == o.next_v
        &&& self.alerts == o.alerts
        &&& self.alerts_active == o.alerts_active
        &&& self.gc == o.gc
    }

    /// A store with no vertices, no alerts, and alerts switched on.
    pub fn empty() -> (r: Sodg)
        ensures
            r.wf(),
            r@ == Map::<u32, VertexView>::empty(),
            r.next_v == 0,
            r.alerts@.len() == 0,
            r.alerts_active,
            !r.gc,
    {
        let r = Sodg {
            vertices: HashMap::new(),
            next_v: 0,
            alerts: Vec::new(),
            alerts_active: true,
            gc: false,
        };
        assert(r@ =~= Map::<u32, VertexView>::empty());
        r
    }

    /// How many vertices there are.
    pub fn len(&self) -> (r: usize)
        ensures
            r == self@.len(),
    {
        assert(self@.dom() =~= self.vertices@.dom());
        self.vertices.len()
    }

    /// Whether there are no vertices.
    pub fn is_empty(&self) -> (r: bool)
        ensures
            r == (self@.len() == 0),
    {
        assert(self@.dom() =~= self.vertices@.dom());
        self.vertices.is_empty()
    }

    /// Whether vertex `v` is present.
    pub fn contains(&self, v: u32) -> (r: bool)
        ensures
            r == self@.contains_key(v),
    {
        self.vertices.contains_key(&v)
    }

    /// Switches the alerts off: changes are no longer checked.
    pub fn alerts_off(&mut self)
        ensures
            final(self)@ == old(self)@,
            final(self).next_v == old(self).next_v,
            final(self).alerts == old(self).alerts,
            final(self).gc == old(self).gc,
            !final(self).alerts_active,
    {
        self.alerts_active = false;
    }

    /// Switches the alerts on again.
    pub fn alerts_on(&mut self)
        ensures
            final(self)@ == old(self)@,
            final(self).next_v == old(self).next_v,
            final(self).alerts == old(self).alerts,
            final(self).gc == old(self).gc,
            final(self).alerts_active,
    {
        self.alerts_active = true;
    }

    /// Switches garbage collection on: reading a vertex's data may then reclaim it.
    pub fn gc_on(&mut self)
        ensures
            final(self)@ == old(self)@,
            final(self).next_v == old(self).next_v,
            final(self).alerts == old(self).alerts,
            final(self).alerts_active == old(self).alerts_active,
            final(self).gc,
    {
        self.gc = true;
    }

    /// Switches garbage collection off.
    pub fn gc_off(&mut self)
        ensures
            final(self)@ == old(self)@,
            final(self).next_v == old(self).next_v,
            final(self).alerts == old(self).alerts,
            final(self).alerts_active == old(self).alerts_active,
            !final(self).gc,
    {
        self.gc = false;
    }

    /// Hands out the next id of the allocation counter and moves the counter on.
    pub fn next_id(&mut self) -> (r: u32)
        requires
            old(self).next_v < u32::MAX,
        ensures
            r == old(self).next_v,
            final(self).next_v == old(self).next_v + 1,
            final(self)@ == old(self)@,
            final(self).alerts == old(self).alerts,
            final(self).alerts_active == old(self).alerts_active,
            final(self).gc == old(self).gc,
    {
        let r = self.next_v;
        self.next_v = self.next_v + 1;
        r
    }

    /// Runs the alerts, while they are on, over the ids `vx`; the first alert
    /// that reports anything makes it fail.
    pub fn validate(&self, vx: &Vec<u32>) -> (r: Result<(), SodgError>)
        ensures
            !self.alerts_active || self.alerts@.len() == 0 ==> r is Ok,
            r is Err ==> r->Err_0 is ValidationFailed,
    {
        if !self.alerts_active {
            return Ok(());
        }
        let mut i: usize = 0;
        while i < self.alerts.len()
            invariant
                i <= self.alerts@.len(),
                self.alerts_active,
            decreases self.alerts@.len() - i,
        {
            let msgs = self.alerts[i].check(&self.vertices, vx);
            let v = verdict(&msgs);
            if v.is_err() {
                return v;
            }
            i = i + 1;
        }
        Ok(())
    }
}

/// What stands between two messages of a failed validation.
pub open spec fn separator() -> Seq<char> {
    seq![';', ' ']
}

/// The messages joined into one text, "; " between two of them.
pub open spec fn joined(msgs: Seq<Seq<char>>) -> Seq<char>
    decreases msgs.len(),
{
    if msgs.len() == 0 {
        Seq::empty()
    } else if msgs.len() == 1 {
        msgs[0]
    } else {
        joined(msgs.drop_last()) + separator() + msgs.last()
    }
}

/// What an alert's report means: no messages pass, any message fails with all of them joined.
pub fn verdict(msgs: &Vec<String>) -> (r: Result<(), SodgError>)
    ensures
        msgs@.len() == 0 <==> r is Ok,
        r is Err ==> r->Err_0 is ValidationFailed && r->Err_0->ValidationFailed_0@ == joined(
            msgs@.map_values(|s: String| s@),
        ),
{
    if msgs.len() == 0 {
        return Ok(());
    }
    let ghost ms = msgs@.map_values(|s: String| s@);
    let mut text = msgs[0].clone();
    let mut i: usize = 1;
    assert(ms.take(1) =~= seq![ms[0]]);
    while i < msgs.len()
        invariant
            1 <= i <= msgs@.len(),
            ms == msgs@.map_values(|s: String| s@),
            text@ == joined(ms.take(i as int)),
        decreases msgs@.len() - i,
    {
        proof {
            reveal_strlit("; ");
        }
        text.append("; ");
        text.append(msgs[i].as_str());
        assert(ms.take(i as int + 1).drop_last() =~= ms.take(i as int));
        assert(ms.take(i as int + 1).last() == msgs@[i as int]@);
        assert("; "@ =~= separator());
        i = i + 1;
    }
    assert(ms.take(i as int) =~= ms);
    Err(SodgError::ValidationFailed(text))
}

} // verus!
