//! A directed graph whose vertices carry a text label and whose edges carry a
//! payload. Edges are kept in insertion order.

use vstd::prelude::*;

verus! {

/// A directed edge from `source` to `dest`.
#[derive(Debug)]
pub struct Edge<E> {
    pub source: usize,
    pub dest: usize,
    pub weight: E,
}

/// Vertex `i` is labelled `verts[i]`; no two vertices share a label.
#[derive(Debug)]
pub struct Graph<E> {
    pub verts: Vec<String>,
    pub edges: Vec<Edge<E>>,
}

/// The labels of a sequence of strings, as character sequences.
pub open spec fn label_seq(v: Seq<String>) -> Seq<Seq<char>> {
    v.map_values(|s: String| s@)
}

/// The index of the vertex labelled `l`, where one is.
pub open spec fn vertex_of(labels: Seq<Seq<char>>, l: Seq<char>) -> int {
    choose|i: int| 0 <= i < labels.len() && labels[i] == l
}

/// The labels after `l` has been looked up or added.
pub open spec fn with_vertex(labels: Seq<Seq<char>>, l: Seq<char>) -> Seq<Seq<char>> {
    if labels.contains(l) {
        labels
    } else {
        labels.push(l)
    }
}

/// No label occurs twice.
pub open spec fn labels_unique(labels: Seq<Seq<char>>) -> bool {
    forall|i: int, j: int|
        0 <= i < labels.len() && 0 <= j < labels.len() && #[trigger] labels[i] == #[trigger] labels[j]
            ==> i == j
}

/// `a` is an initial part of `b`.
pub open spec fn extends(a: Seq<Seq<char>>, b: Seq<Seq<char>>) -> bool {
    a.len() <= b.len() && b.subrange(0, a.len() as int) == a
}

/// Extending is transitive.
pub proof fn lemma_extends_trans(a: Seq<Seq<char>>, b: Seq<Seq<char>>, c: Seq<Seq<char>>)
    requires
        extends(a, b),
        extends(b, c),
    ensures
        extends(a, c),
{
    assert(c.subrange(0, a.len() as int) =~= c.subrange(0, b.len() as int).subrange(0, a.len() as int));
}

/// A label that is present keeps its vertex when labels are added after it.
pub proof fn lemma_vertex_of_stable(a: Seq<Seq<char>>, b: Seq<Seq<char>>, l: Seq<char>)
    requires
        labels_unique(b),
        extends(a, b),
        a.contains(l),
    ensures
        0 <= vertex_of(a, l) < a.len(),
        a[vertex_of(a, l)] == l,
        vertex_of(b, l) == vertex_of(a, l),
{
    let i = choose|i: int| 0 <= i < a.len() && a[i] == l;
    assert(b[i] == a[i]);
    let va = vertex_of(a, l);
    assert(b[va] == a[va]);
    let vb = vertex_of(b, l);
    assert(b[vb] == l);
}

/// Looking up or adding a label keeps the labels unique and only adds at the end.
pub proof fn lemma_with_vertex(a: Seq<Seq<char>>, l: Seq<char>)
    requires
        labels_unique(a),
    ensures
        labels_unique(with_vertex(a, l)),
        extends(a, with_vertex(a, l)),
        with_vertex(a, l).contains(l),
{
    let b = with_vertex(a, l);
    assert(b.subrange(0, a.len() as int) =~= a);
    if !a.contains(l) {
        assert(b[a.len() as int] == l);
        assert forall|i: int, j: int|
            0 <= i < b.len() && 0 <= j < b.len() && #[trigger] b[i] == #[trigger] b[j] implies i == j by {
            if i < a.len() && j == a.len() {
                assert(a[i] == l);
            }
            if j < a.len() && i == a.len() {
                assert(a[j] == l);
            }
        }
    }
}

impl<E> Graph<E> {
    /// The vertex labels, by index.
    pub open spec fn labels(&self) -> Seq<Seq<char>> {
        label_seq(self.verts@)
    }

    /// Labels are unique, and every edge joins two vertices of the graph.
    pub open spec fn wf(&self) -> bool {
        &&& labels_unique(self.labels())
        &&& forall|k: int|
            0 <= k < self.edges@.len() ==> #[trigger] self.edges@[k].source < self.verts@.len()
                && self.edges@[k].dest < self.verts@.len()
    }

    /// An empty graph.
    pub fn new() -> (r: Self)
        ensures
            r.wf(),
            r.labels() == Seq::<Seq<char>>::empty(),
            r.edges@ == Seq::<Edge<E>>::empty(),
    {
        let r = Graph { verts: Vec::new(), edges: Vec::new() };
        assert(r.labels() =~= Seq::<Seq<char>>::empty());
        r
    }

    /// The index of the vertex labelled `label`, if there is one.
    pub fn find_vertex(&self, label: &String) -> (r: Option<usize>)
        requires
            self.wf(),
        ensures
            r is None <==> !self.labels().contains(label@),
            r matches Some(i) ==> i < self.verts@.len() && self.labels()[i as int] == label@,
    {
        let mut i: usize = 0;
        while i < self.verts.len()
            invariant
                i <= self.verts@.len(),
                forall|j: int| 0 <= j < i ==> self.labels()[j] != label@,
            decreases self.verts@.len() - i,
        {
            if self.verts[i] == *label {
                assert(self.labels()[i as int] == label@);
                return Some(i);
            }
            i = i + 1;
        }
        proof {
            if self.labels().contains(label@) {
                let j = choose|j: int| 0 <= j < self.labels().len() && self.labels()[j] == label@;
                assert(self.labels()[j] == label@);
            }
        }
        None
    }

    /// The index of the vertex labelled `label`, which is added first where
    /// no vertex has that label.
    pub fn find_or_create_vertex(&mut self, label: &String) -> (r: usize)
        requires
            old(self).wf(),
        ensures
            final(self).wf(),
            final(self).labels() == with_vertex(old(self).labels(), label@),
            final(self).edges@ == old(self).edges@,
            r < final(self).verts@.len(),
            final(self).labels()[r as int] == label@,
            r == vertex_of(final(self).labels(), label@),
    {
        let r = match self.find_vertex(label) {
            Some(i) => i,
            None => {
                let n = self.verts.len();
                self.verts.push(label.clone());
                assert(self.labels() =~= old(self).labels().push(label@));
                n
            },
        };
        proof {
            let ls = self.labels();
            assert(0 <= r < ls.len() && ls[r as int] == label@);
            let c = vertex_of(ls, label@);
            assert(0 <= c < ls.len() && ls[c] == label@);
        }
        r
    }
}

} // verus!
