//! The automaton: its accepting labels and its transition graph, and the
//! rules by which transitions are declared.

use crate::graph::{
    extends, label_seq, labels_unique, lemma_extends_trans, lemma_vertex_of_stable, lemma_with_vertex, vertex_of,
    with_vertex, Edge, Graph,
};
use vstd::laws_eq::obeys_concrete_eq;
use vstd::prelude::*;

verus! {

/// How a transition changes the stack.
#[derive(Debug, Copy, Clone, PartialEq, Eq, Structural)]
pub enum Action {
    Push,
    Pop,
    Replace,
}

/// What an edge carries: the guard on the stack top (none matches any top),
/// the input symbol, and the action.
pub type Transition<C> = (Option<C>, C, Action);

/// A transition as it is declared: guard, input symbol, action, and the
/// label of the destination state.
pub type Declared<'a, C> = (Option<C>, C, Action, &'a str);

/// Edge `e` leaves `src` and is keyed by `guard` and `input`.
pub open spec fn same_key<C>(e: Edge<Transition<C>>, src: int, guard: Option<C>, input: C) -> bool {
    e.source == src && e.weight.0 == guard && e.weight.1 == input
}

/// Some edge leaves `src` keyed by `guard` and `input`.
pub open spec fn has_key<C>(edges: Seq<Edge<Transition<C>>>, src: int, guard: Option<C>, input: C) -> bool {
    exists|k: int| 0 <= k < edges.len() && #[trigger] same_key(edges[k], src, guard, input)
}

/// No two edges leave one vertex under the same guard and input.
pub open spec fn keys_unique<C>(edges: Seq<Edge<Transition<C>>>) -> bool {
    forall|i: int, j: int|
        0 <= i < edges.len() && 0 <= j < edges.len() && #[trigger] same_key(
            edges[i],
            edges[j].source as int,
            edges[j].weight.0,
            edges[j].weight.1,
        ) ==> i == j
}

/// The position of the edge keyed by `src`, `guard` and `input`, where one is.
pub open spec fn key_index<C>(edges: Seq<Edge<Transition<C>>>, src: int, guard: Option<C>, input: C) -> int {
    choose|k: int| 0 <= k < edges.len() && same_key(edges[k], src, guard, input)
}

/// The edges after an edge `src -> dst` carrying `t` was inserted: it takes the
/// place of the edge with the same key, or goes last where there is none.
pub open spec fn replace_edge_spec<C>(
    edges: Seq<Edge<Transition<C>>>,
    src: usize,
    t: Transition<C>,
    dst: usize,
) -> Seq<Edge<Transition<C>>> {
    let e = Edge { source: src, dest: dst, weight: t };
    if has_key(edges, src as int, t.0, t.1) {
        edges.update(key_index(edges, src as int, t.0, t.1), e)
    } else {
        edges.push(e)
    }
}

/// Labels and edges after one transition of `src` was declared.
pub open spec fn declare_one<C>(
    g: (Seq<Seq<char>>, Seq<Edge<Transition<C>>>),
    src: usize,
    t: Declared<'_, C>,
) -> (Seq<Seq<char>>, Seq<Edge<Transition<C>>>) {
    let labels = with_vertex(g.0, t.3@);
    (labels, replace_edge_spec(g.1, src, (t.0, t.1, t.2), vertex_of(labels, t.3@) as usize))
}

/// Labels and edges after the transitions `ts` of `src` were declared in order.
pub open spec fn declare_all<C>(
    g: (Seq<Seq<char>>, Seq<Edge<Transition<C>>>),
    src: usize,
    ts: Seq<Declared<'_, C>>,
) -> (Seq<Seq<char>>, Seq<Edge<Transition<C>>>)
    decreases ts.len(),
{
    if ts.len() == 0 {
        g
    } else {
        declare_one(declare_all(g, src, ts.drop_last()), src, ts.last())
    }
}

/// Whether two optional symbols are equal.
pub fn option_eq<C: PartialEq>(a: &Option<C>, b: &Option<C>) -> (r: bool)
    requires
        obeys_concrete_eq::<C>(),
    ensures
        r == (*a == *b),
{
    proof {
        reveal(obeys_concrete_eq);
    }
    match (a, b) {
        (None, None) => true,
        (Some(x), Some(y)) => x.eq(y),
        _ => false,
    }
}

/// The position of the edge that leaves `src` keyed by `guard` and `input`.
fn find_key<C: PartialEq>(
    edges: &Vec<Edge<Transition<C>>>,
    src: usize,
    guard: &Option<C>,
    input: &C,
) -> (r: Option<usize>)
    requires
        obeys_concrete_eq::<C>(),
    ensures
        r is None <==> !has_key(edges@, src as int, *guard, *input),
        r matches Some(k) ==> k < edges@.len() && same_key(edges@[k as int], src as int, *guard, *input),
{
    let mut k: usize = 0;
    while k < edges.len()
        invariant
            k <= edges@.len(),
            obeys_concrete_eq::<C>(),
            forall|j: int| 0 <= j < k ==> !#[trigger] same_key(edges@[j], src as int, *guard, *input),
        decreases edges@.len() - k,
    {
        proof {
            reveal(obeys_concrete_eq);
        }
        let e = &edges[k];
        if e.source == src && option_eq(&e.weight.0, guard) && e.weight.1.eq(input) {
            assert(same_key(edges@[k as int], src as int, *guard, *input));
            return Some(k);
        }
        k = k + 1;
    }
    None
}

/// Inserting an edge keeps the key of every edge, and adds the key of the new one.
pub proof fn lemma_replace_edge_keys<C>(
    edges: Seq<Edge<Transition<C>>>,
    src: usize,
    t: Transition<C>,
    dst: usize,
    s: int,
    guard: Option<C>,
    input: C,
)
    ensures
        has_key(edges, s, guard, input) ==> has_key(replace_edge_spec(edges, src, t, dst), s, guard, input),
        has_key(replace_edge_spec(edges, src, t, dst), src as int, t.0, t.1),
{
    let r = replace_edge_spec(edges, src, t, dst);
    if has_key(edges, src as int, t.0, t.1) {
        let kk = key_index(edges, src as int, t.0, t.1);
        assert(same_key(r[kk], src as int, t.0, t.1));
        if has_key(edges, s, guard, input) {
            let k = choose|k: int| 0 <= k < edges.len() && same_key(edges[k], s, guard, input);
            assert(same_key(r[k], s, guard, input));
        }
    } else {
        assert(same_key(r[edges.len() as int], src as int, t.0, t.1));
        if has_key(edges, s, guard, input) {
            let k = choose|k: int| 0 <= k < edges.len() && same_key(edges[k], s, guard, input);
            assert(same_key(r[k], s, guard, input));
        }
    }
}

/// An automaton: the labels of its accepting states, and its states and
/// transitions as a graph.
///
/// The symbols `C` are compared with `==`; the methods that compare them ask
/// that `==` on `C` be equality of values (`obeys_concrete_eq`).
#[derive(Debug)]
pub struct DPDA<C> {
    pub accept: Vec<String>,
    pub graph: Graph<Transition<C>>,
}

impl<C: Clone + PartialEq + Eq> Default for DPDA<C> {
    /// The same as [`DPDA::new`].
    fn default() -> (r: Self)
        ensures
            r.wf(),
            r.accepting() == Set::<Seq<char>>::empty(),
            r.graph.labels() == Seq::<Seq<char>>::empty(),
            r.graph.edges@ == Seq::<Edge<Transition<C>>>::empty(),
    {
        Self::new()
    }
}

impl<C: Clone + PartialEq + Eq> DPDA<C> {
    /// The labels of the accepting states.
    pub open spec fn accepting(&self) -> Set<Seq<char>> {
        label_seq(self.accept@).to_set()
    }

    /// Labels and edges together.
    pub open spec fn table(&self) -> (Seq<Seq<char>>, Seq<Edge<Transition<C>>>) {
        (self.graph.labels(), self.graph.edges@)
    }

    /// The graph is well formed, and no two edges leave one state under the
    /// same guard and input.
    pub open spec fn wf(&self) -> bool {
        &&& self.graph.wf()
        &&& keys_unique(self.graph.edges@)
    }

    /// An automaton with no states, no transitions and no accepting labels.
    pub fn new() -> (r: Self)
        ensures
            r.wf(),
            r.accepting() == Set::<Seq<char>>::empty(),
            r.graph.labels() == Seq::<Seq<char>>::empty(),
            r.graph.edges@ == Seq::<Edge<Transition<C>>>::empty(),
    {
        let r = DPDA { accept: Vec::new(), graph: Graph::new() };
        assert(label_seq(r.accept@) =~= Seq::<Seq<char>>::empty());
        assert(r.accepting() =~= Set::<Seq<char>>::empty());
        r
    }

    /// Inserts an edge `src -> dst` carrying `t`, in place of the edge that
    /// leaves `src` under the same guard and input where there is one.
    fn replace_edge(&mut self, src: usize, t: Transition<C>, dst: usize)
        requires
            old(self).wf(),
            obeys_concrete_eq::<C>(),
            src < old(self).graph.verts@.len(),
            dst < old(self).graph.verts@.len(),
        ensures
            final(self).wf(),
            final(self).accept == old(self).accept,
            final(self).graph.verts == old(self).graph.verts,
            final(self).graph.edges@ == replace_edge_spec(old(self).graph.edges@, src, t, dst),
    {
        let ghost tv = t;
        let ghost old_edges = self.graph.edges@;
        match find_key(&self.graph.edges, src, &t.0, &t.1) {
            Some(k) => {
                proof {
                    let kk = key_index(old_edges, src as int, tv.0, tv.1);
                    assert(same_key(old_edges[kk], src as int, tv.0, tv.1));
                    assert(same_key(old_edges[k as int], old_edges[kk].source as int, old_edges[kk].weight.0, old_edges[kk].weight.1));
                }
                self.graph.edges.set(k, Edge { source: src, dest: dst, weight: t });
                proof {
                    let es = self.graph.edges@;
                    let nv = self.graph.verts@.len();
                    assert forall|x: int| 0 <= x < es.len() implies #[trigger] es[x].source < nv
                        && es[x].dest < nv by {
                        if x != k {
                            assert(es[x] == old_edges[x]);
                        }
                    }
                    assert forall|i: int, j: int|
                        0 <= i < es.len() && 0 <= j < es.len() && #[trigger] same_key(
                            es[i],
                            es[j].source as int,
                            es[j].weight.0,
                            es[j].weight.1,
                        ) implies i == j by {
                        assert(es[i].source == old_edges[i].source && es[i].weight.0 == old_edges[i].weight.0
                            && es[i].weight.1 == old_edges[i].weight.1);
                        assert(es[j].source == old_edges[j].source && es[j].weight.0 == old_edges[j].weight.0
                            && es[j].weight.1 == old_edges[j].weight.1);
                        assert(same_key(old_edges[i], old_edges[j].source as int, old_edges[j].weight.0, old_edges[j].weight.1));
                    }
                }
            },
            None => {
                self.graph.edges.push(Edge { source: src, dest: dst, weight: t });
                proof {
                    let es = self.graph.edges@;
                    let nv = self.graph.verts@.len();
                    assert forall|x: int| 0 <= x < es.len() implies #[trigger] es[x].source < nv
                        && es[x].dest < nv by {
                        if x < old_edges.len() {
                            assert(es[x] == old_edges[x]);
                        }
                    }
                    let n = old_edges.len() as int;
                    assert forall|i: int, j: int|
                        0 <= i < es.len() && 0 <= j < es.len() && #[trigger] same_key(
                            es[i],
                            es[j].source as int,
                            es[j].weight.0,
                            es[j].weight.1,
                        ) implies i == j by {
                        if i < n && j < n {
                        } else if i < n {
                            assert(same_key(old_edges[i], src as int, tv.0, tv.1));
                        } else if j < n {
                            assert(same_key(old_edges[j], src as int, tv.0, tv.1));
                        }
                    }
                }
            },
        }
    }

    /// Makes sure that a state labelled `id` exists, then declares each of
    /// `transitions` in order as leaving it. A destination state is created
    /// the first time it is named.
    pub fn state(&mut self, id: &str, transitions: Vec<Declared<'_, C>>) -> (ret: &mut Self)
        requires
            old(self).wf(),
            obeys_concrete_eq::<C>(),
        ensures
            ret.wf(),
            ret.accept == old(self).accept,
            ret.table() == declare_all(
                (with_vertex(old(self).graph.labels(), id@), old(self).graph.edges@),
                vertex_of(with_vertex(old(self).graph.labels(), id@), id@) as usize,
                transitions@,
            ),
            *final(self) == *final(ret),
    {
        let label: String = id.to_owned();
        let src = self.graph.find_or_create_vertex(&label);
        let ghost start = self.table();
        let ghost ts0 = transitions@;
        let n: usize = transitions.len();
        let mut ts = transitions;
        let mut i: usize = 0;
        assert(ts0.subrange(0, 0) =~= Seq::<Declared<'_, C>>::empty());
        assert(ts0.subrange(0, ts0.len() as int) =~= ts0);
        while ts.len() > 0
            invariant
                self.wf(),
                obeys_concrete_eq::<C>(),
                src < self.graph.verts@.len(),
                ts0.len() == n,
                ts0.len() == i + ts@.len(),
                ts@ == ts0.subrange(i as int, ts0.len() as int),
                self.table() == declare_all(start, src, ts0.subrange(0, i as int)),
                self.accept == old(self).accept,
            decreases ts@.len(),
        {
            let t = ts.remove(0);
            let (guard, input, act, dest) = t;
            let dlabel: String = dest.to_owned();
            let dst = self.graph.find_or_create_vertex(&dlabel);
            self.replace_edge(src, (guard, input, act), dst);
            proof {
                assert(ts0.subrange(0, i + 1).drop_last() =~= ts0.subrange(0, i as int));
                assert(ts@ =~= ts0.subrange(i + 1, ts0.len() as int));
            }
            i = i + 1;
        }
        self
    }

    /// Adds each of `acc` to the accepting labels.
    pub fn accept(&mut self, acc: &[&str]) -> (ret: &mut Self)
        ensures
            ret.accepting() == old(self).accepting() + acc@.map_values(|s: &str| s@).to_set(),
            ret.graph == old(self).graph,
            *final(self) == *final(ret),
    {
        let mut i: usize = 0;
        while i < acc.len()
            invariant
                i <= acc@.len(),
                self.graph == old(self).graph,
                self.accepting() == old(self).accepting() + acc@.subrange(0, i as int).map_values(
                    |s: &str| s@,
                ).to_set(),
            decreases acc@.len() - i,
        {
            let s: String = acc[i].to_owned();
            let mut found = false;
            let mut j: usize = 0;
            while j < self.accept.len()
                invariant
                    j <= self.accept@.len(),
                    !found ==> forall|k: int| 0 <= k < j ==> self.accept@[k]@ != s@,
                    found ==> self.accepting().contains(s@),
                decreases self.accept@.len() - j,
            {
                if self.accept[j] == s {
                    assert(label_seq(self.accept@)[j as int] == s@);
                    found = true;
                }
                j = j + 1;
            }
            let ghost pre = label_seq(self.accept@);
            let ghost sv = s@;
            if !found {
                self.accept.push(s);
                proof {
                    assert(label_seq(self.accept@) =~= pre.push(sv));
                    pre.lemma_push_to_set_commute(sv);
                }
            }
            proof {
                let f = |t: &str| t@;
                assert(acc@.subrange(0, i + 1).map_values(f) =~= acc@.subrange(0, i as int).map_values(
                    f,
                ).push(sv));
                acc@.subrange(0, i as int).map_values(f).lemma_push_to_set_commute(sv);
                assert(self.accepting() =~= old(self).accepting() + acc@.subrange(
                    0,
                    i + 1,
                ).map_values(f).to_set());
            }
            i = i + 1;
        }
        assert(acc@.subrange(0, acc@.len() as int) =~= acc@);
        self
    }
}

/// Declaring transitions keeps the labels unique, only adds labels at the
/// end, keeps every key that an edge had, and gives each declared transition
/// an edge keyed by its guard and input.
pub proof fn lemma_declare_all<C>(
    g: (Seq<Seq<char>>, Seq<Edge<Transition<C>>>),
    src: usize,
    ts: Seq<Declared<'_, C>>,
)
    requires
        labels_unique(g.0),
    ensures
        labels_unique(declare_all(g, src, ts).0),
        extends(g.0, declare_all(g, src, ts).0),
        forall|s: int, guard: Option<C>, input: C|
            has_key(g.1, s, guard, input) ==> #[trigger] has_key(declare_all(g, src, ts).1, s, guard, input),
        forall|i: int| 0 <= i < ts.len() ==> has_key(declare_all(g, src, ts).1, src as int, #[trigger] ts[i].0, ts[i].1),
    decreases ts.len(),
{
    if ts.len() > 0 {
        let p = declare_all(g, src, ts.drop_last());
        lemma_declare_all(g, src, ts.drop_last());
        let t = ts.last();
        let labels = with_vertex(p.0, t.3@);
        let d = vertex_of(labels, t.3@) as usize;
        let r = declare_all(g, src, ts);
        lemma_with_vertex(p.0, t.3@);
        assert(r.0 == labels);
        lemma_extends_trans(g.0, p.0, labels);
        assert forall|s: int, guard: Option<C>, input: C|
            has_key(g.1, s, guard, input) implies #[trigger] has_key(r.1, s, guard, input) by {
            assert(has_key(p.1, s, guard, input));
            lemma_replace_edge_keys(p.1, src, (t.0, t.1, t.2), d, s, guard, input);
        }
        assert forall|i: int| 0 <= i < ts.len() implies has_key(r.1, src as int, #[trigger] ts[i].0, ts[i].1) by {
            lemma_replace_edge_keys(p.1, src, (t.0, t.1, t.2), d, src as int, ts[i].0, ts[i].1);
            if i < ts.len() - 1 {
                assert(ts.drop_last()[i] == ts[i]);
            }
        }
    } else {
        assert(g.0.subrange(0, g.0.len() as int) =~= g.0);
    }
}

/// Declaring a state a second time adds no vertex for it: its label occurs
/// once, it keeps the vertex of the first declaration, and the transitions of
/// both declarations leave that vertex under their guards and inputs.
pub proof fn lemma_declare_state_twice<C: Clone + PartialEq + Eq>(
    m: DPDA<C>,
    id: Seq<char>,
    ts1: Seq<Declared<'_, C>>,
    ts2: Seq<Declared<'_, C>>,
)
    requires
        m.wf(),
        m.graph.verts@.len() < usize::MAX,
    ensures
        ({
            let l1 = with_vertex(m.graph.labels(), id);
            let src1 = vertex_of(l1, id);
            let g1 = declare_all((l1, m.graph.edges@), src1 as usize, ts1);
            let l2 = with_vertex(g1.0, id);
            let src2 = vertex_of(l2, id);
            let g2 = declare_all((l2, g1.1), src2 as usize, ts2);
            &&& l2 == g1.0
            &&& src2 == src1
            &&& labels_unique(g2.0)
            &&& 0 <= src1 < g2.0.len()
            &&& g2.0[src1] == id
            &&& forall|i: int| 0 <= i < ts1.len() ==> has_key(g2.1, src1, #[trigger] ts1[i].0, ts1[i].1)
            &&& forall|i: int| 0 <= i < ts2.len() ==> has_key(g2.1, src1, #[trigger] ts2[i].0, ts2[i].1)
        }),
{
    let l1 = with_vertex(m.graph.labels(), id);
    lemma_with_vertex(m.graph.labels(), id);
    let src1 = vertex_of(l1, id);
    let g1 = declare_all((l1, m.graph.edges@), src1 as usize, ts1);
    lemma_declare_all((l1, m.graph.edges@), src1 as usize, ts1);
    lemma_vertex_of_stable(l1, g1.0, id);
    assert(g1.0[src1] == id);
    assert(g1.0.contains(id));
    let l2 = with_vertex(g1.0, id);
    assert(l2 == g1.0);
    let g2 = declare_all((l2, g1.1), src1 as usize, ts2);
    lemma_declare_all((l2, g1.1), src1 as usize, ts2);
    lemma_extends_trans(l1, g1.0, g2.0);
    lemma_vertex_of_stable(l1, g2.0, id);
    assert forall|i: int| 0 <= i < ts1.len() implies has_key(g2.1, src1, #[trigger] ts1[i].0, ts1[i].1) by {
        assert(has_key(g1.1, src1, ts1[i].0, ts1[i].1));
    }
}

/// Declaring a transition whose source, guard and input are already taken
/// overwrites that edge: afterwards one edge has that key, it carries the new
/// action and destination, and the number of edges is unchanged.
pub proof fn lemma_redeclare_transition<C: Clone + PartialEq + Eq>(
    m: DPDA<C>,
    src: usize,
    t: Declared<'_, C>,
)
    requires
        m.wf(),
        has_key(m.graph.edges@, src as int, t.0, t.1),
    ensures
        ({
            let g = declare_one(m.table(), src, t);
            let e = Edge { source: src, dest: vertex_of(g.0, t.3@) as usize, weight: (t.0, t.1, t.2) };
            &&& g.1.len() == m.graph.edges@.len()
            &&& exists|k: int| 0 <= k < g.1.len() && g.1[k] == e
            &&& forall|k: int| 0 <= k < g.1.len() && #[trigger] same_key(g.1[k], src as int, t.0, t.1) ==> g.1[k] == e
        }),
{
    let es = m.graph.edges@;
    let g = declare_one(m.table(), src, t);
    let kk = key_index(es, src as int, t.0, t.1);
    assert(same_key(es[kk], src as int, t.0, t.1));
    let e = Edge { source: src, dest: vertex_of(g.0, t.3@) as usize, weight: (t.0, t.1, t.2) };
    assert(g.1 == es.update(kk, e));
    assert(g.1[kk] == e);
    assert forall|k: int| 0 <= k < g.1.len() && #[trigger] same_key(g.1[k], src as int, t.0, t.1) implies k == kk by {
        if k != kk {
            assert(same_key(es[k], es[kk].source as int, es[kk].weight.0, es[kk].weight.1));
        }
    }
}

} // verus!
