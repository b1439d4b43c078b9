//! Running an automaton: one step at a time, or over a whole input.

use crate::automaton::{Action, Transition, DPDA};
use crate::graph::{label_seq, Edge};
use vstd::laws_eq::obeys_concrete_eq;
use vstd::prelude::*;

verus! {

/// The one way in which a step fails.
#[derive(Debug, Clone, Copy, PartialEq, Eq, Structural)]
pub enum TransitionError {
    /// No transition of the current state takes the input under the current stack top.
    NoTransition,
}

/// The top of a stack, if it is not empty.
pub open spec fn top_of<C>(stack: Seq<C>) -> Option<C> {
    if stack.len() == 0 {
        None
    } else {
        Some(stack.last())
    }
}

/// A guard lets a transition through when the stack is empty, when there is
/// no guard, or when the guard is the top of the stack.
pub open spec fn guard_admits<C>(guard: Option<C>, top: Option<C>) -> bool {
    top is None || guard is None || guard == top
}

/// Edge `e` can be taken from vertex `cur` on `input` with `stack`.
pub open spec fn fires<C>(e: Edge<Transition<C>>, cur: usize, input: C, stack: Seq<C>) -> bool {
    e.source == cur && e.weight.1 == input && guard_admits(e.weight.0, top_of(stack))
}

/// Edge `k` is the first of `edges` that can be taken.
pub open spec fn first_fire<C>(
    edges: Seq<Edge<Transition<C>>>,
    cur: usize,
    input: C,
    stack: Seq<C>,
    k: int,
) -> bool {
    &&& 0 <= k < edges.len()
    &&& fires(edges[k], cur, input, stack)
    &&& forall|j: int| 0 <= j < k ==> !#[trigger] fires(edges[j], cur, input, stack)
}

/// Removes the top of `stack`: the stack that is left and what was removed.
pub open spec fn pop_of<C>(stack: Seq<C>) -> (Seq<C>, Option<C>) {
    if stack.len() == 0 {
        (stack, None)
    } else {
        (stack.drop_last(), Some(stack.last()))
    }
}

/// The stack after `act` on `input`, and the symbol that was popped.
pub open spec fn apply<C>(stack: Seq<C>, act: Action, input: C) -> (Seq<C>, Option<C>) {
    match act {
        Action::Push => (stack.push(input), None),
        Action::Pop => pop_of(stack),
        Action::Replace => (pop_of(stack).0.push(input), pop_of(stack).1),
    }
}

/// The edge that a step takes, where one can be taken.
pub open spec fn chosen<C>(edges: Seq<Edge<Transition<C>>>, cur: usize, stack: Seq<C>, input: C) -> int {
    choose|k: int| first_fire(edges, cur, input, stack, k)
}

/// One step: the next vertex, the next stack and the popped symbol, or
/// `None` where no transition can be taken.
pub open spec fn step<C>(edges: Seq<Edge<Transition<C>>>, cur: usize, stack: Seq<C>, input: C) -> Option<
    (usize, Seq<C>, Option<C>),
> {
    if exists|k: int| first_fire(edges, cur, input, stack, k) {
        let k = chosen(edges, cur, stack, input);
        let (s, o) = apply(stack, edges[k].weight.2, input);
        Some((edges[k].dest, s, o))
    } else {
        None
    }
}

/// The steps over `inputs` in order, stopping at the first that fails: the
/// vertex, the stack, the popped symbols, and whether every step was taken.
pub open spec fn run_from<C>(
    edges: Seq<Edge<Transition<C>>>,
    cur: usize,
    stack: Seq<C>,
    inputs: Seq<C>,
) -> (usize, Seq<C>, Seq<Option<C>>, bool)
    decreases inputs.len(),
{
    if inputs.len() == 0 {
        (cur, stack, Seq::empty(), true)
    } else {
        let p = run_from(edges, cur, stack, inputs.drop_last());
        if !p.3 {
            p
        } else {
            match step(edges, p.0, p.1, inputs.last()) {
                Some(t) => (t.0, t.1, p.2.push(t.2), true),
                None => (p.0, p.1, p.2, false),
            }
        }
    }
}

/// After a failed step the run stays where it stopped, whatever follows.
pub proof fn lemma_run_stops<C>(
    edges: Seq<Edge<Transition<C>>>,
    cur: usize,
    stack: Seq<C>,
    xs: Seq<C>,
    ys: Seq<C>,
)
    requires
        !run_from(edges, cur, stack, xs).3,
    ensures
        run_from(edges, cur, stack, xs + ys) == run_from(edges, cur, stack, xs),
    decreases ys.len(),
{
    if ys.len() == 0 {
        assert(xs + ys =~= xs);
    } else {
        assert((xs + ys).drop_last() =~= xs + ys.drop_last());
        lemma_run_stops(edges, cur, stack, xs, ys.drop_last());
    }
}

/// The stack and the popped symbols after the actions of `steps`, each with
/// its input symbol, were applied in order.
pub open spec fn apply_all<C>(stack: Seq<C>, steps: Seq<(Action, C)>) -> (Seq<C>, Seq<Option<C>>)
    decreases steps.len(),
{
    if steps.len() == 0 {
        (stack, Seq::empty())
    } else {
        let p = apply_all(stack, steps.drop_last());
        let q = apply(p.0, steps.last().0, steps.last().1);
        (q.0, p.1.push(q.1))
    }
}

/// A `Push` of each of `xs`.
pub open spec fn pushes<C>(xs: Seq<C>) -> Seq<(Action, C)> {
    xs.map_values(|x: C| (Action::Push, x))
}

/// A `Pop` on each of `ys`.
pub open spec fn pops<C>(ys: Seq<C>) -> Seq<(Action, C)> {
    ys.map_values(|y: C| (Action::Pop, y))
}

/// Applying `a` and then `b` is applying `a + b`.
pub proof fn lemma_apply_all_concat<C>(stack: Seq<C>, a: Seq<(Action, C)>, b: Seq<(Action, C)>)
    ensures
        apply_all(stack, a + b) == (
            apply_all(apply_all(stack, a).0, b).0,
            apply_all(stack, a).1 + apply_all(apply_all(stack, a).0, b).1,
        ),
    decreases b.len(),
{
    if b.len() == 0 {
        assert(a + b =~= a);
        assert(apply_all(stack, a).1 + Seq::<Option<C>>::empty() =~= apply_all(stack, a).1);
    } else {
        assert((a + b).drop_last() =~= a + b.drop_last());
        lemma_apply_all_concat(stack, a, b.drop_last());
        let p = apply_all(stack, a);
        let q = apply_all(p.0, b.drop_last());
        assert(p.1 + q.1.push(apply(q.0, b.last().0, b.last().1).1) =~= (p.1 + q.1).push(
            apply(q.0, b.last().0, b.last().1).1,
        ));
    }
}

/// Pushing `xs` puts them on the stack and pops nothing.
pub proof fn lemma_pushes<C>(stack: Seq<C>, xs: Seq<C>)
    ensures
        apply_all(stack, pushes(xs)) == (stack + xs, Seq::new(xs.len(), |i: int| None::<C>)),
    decreases xs.len(),
{
    if xs.len() == 0 {
        assert(stack + xs =~= stack);
        assert(Seq::new(xs.len(), |i: int| None::<C>) =~= Seq::<Option<C>>::empty());
    } else {
        assert(pushes(xs).drop_last() =~= pushes(xs.drop_last()));
        lemma_pushes(stack, xs.drop_last());
        assert((stack + xs.drop_last()).push(xs.last()) =~= stack + xs);
        assert(Seq::new(xs.drop_last().len(), |i: int| None::<C>).push(None) =~= Seq::new(
            xs.len(),
            |i: int| None::<C>,
        ));
    }
}

/// `k` pops after `xs` was pushed return the last `k` of `xs`, last first,
/// and leave the rest.
pub proof fn lemma_pops<C>(stack: Seq<C>, xs: Seq<C>, ys: Seq<C>)
    requires
        ys.len() <= xs.len(),
    ensures
        apply_all(stack + xs, pops(ys)) == (
            stack + xs.subrange(0, xs.len() - ys.len()),
            Seq::new(ys.len(), |i: int| Some(xs[xs.len() - 1 - i])),
        ),
    decreases ys.len(),
{
    let n = xs.len() as int;
    let k = ys.len() as int;
    if k == 0 {
        assert(xs.subrange(0, n) =~= xs);
        assert(Seq::new(0, |i: int| Some(xs[n - 1 - i])) =~= Seq::<Option<C>>::empty());
    } else {
        assert(pops(ys).drop_last() =~= pops(ys.drop_last()));
        lemma_pops(stack, xs, ys.drop_last());
        let s1 = stack + xs.subrange(0, n - (k - 1));
        assert(s1.last() == xs[n - k]);
        assert(s1.drop_last() =~= stack + xs.subrange(0, n - k));
        assert(Seq::new((k - 1) as nat, |i: int| Some(xs[n - 1 - i])).push(Some(xs[n - k])) =~= Seq::new(
            k as nat,
            |i: int| Some(xs[n - 1 - i]),
        ));
    }
}

/// Pushing `xs` and then popping as many times leaves the stack as it was:
/// the pushes pop nothing, and each pop returns the symbol pushed at the
/// matching position, the last pushed first.
pub proof fn lemma_push_then_pop<C>(stack: Seq<C>, xs: Seq<C>, ys: Seq<C>)
    requires
        ys.len() == xs.len(),
    ensures
        apply_all(stack, pushes(xs) + pops(ys)) == (
            stack,
            Seq::new(xs.len(), |i: int| None::<C>) + Seq::new(xs.len(), |i: int| Some(xs[xs.len() - 1 - i])),
        ),
{
    lemma_apply_all_concat(stack, pushes(xs), pops(ys));
    lemma_pushes(stack, xs);
    lemma_pops(stack, xs, ys);
    assert(stack + xs.subrange(0, 0) =~= stack);
}

/// The actions that the steps over `inputs` take, each with its input
/// symbol, up to the first step that fails.
pub open spec fn actions_of<C>(
    edges: Seq<Edge<Transition<C>>>,
    cur: usize,
    stack: Seq<C>,
    inputs: Seq<C>,
) -> Seq<(Action, C)>
    decreases inputs.len(),
{
    if inputs.len() == 0 {
        Seq::empty()
    } else {
        let a = actions_of(edges, cur, stack, inputs.drop_last());
        let p = run_from(edges, cur, stack, inputs.drop_last());
        if p.3 && step(edges, p.0, p.1, inputs.last()) is Some {
            a.push((edges[chosen(edges, p.0, p.1, inputs.last())].weight.2, inputs.last()))
        } else {
            a
        }
    }
}

/// A run that takes every step leaves the stack and pops the symbols that
/// its actions, applied in order, give.
pub proof fn lemma_run_applies_actions<C>(
    edges: Seq<Edge<Transition<C>>>,
    cur: usize,
    stack: Seq<C>,
    inputs: Seq<C>,
)
    requires
        run_from(edges, cur, stack, inputs).3,
    ensures
        (run_from(edges, cur, stack, inputs).1, run_from(edges, cur, stack, inputs).2) == apply_all(
            stack,
            actions_of(edges, cur, stack, inputs),
        ),
    decreases inputs.len(),
{
    if inputs.len() > 0 {
        let p = run_from(edges, cur, stack, inputs.drop_last());
        if !p.3 {
            assert(run_from(edges, cur, stack, inputs) == p);
        }
        lemma_run_applies_actions(edges, cur, stack, inputs.drop_last());
        let a = actions_of(edges, cur, stack, inputs);
        assert(a.drop_last() =~= actions_of(edges, cur, stack, inputs.drop_last()));
    }
}

/// A run of `n` pushes followed by `n` pops that takes every step ends with
/// the stack it started with; the pushes pop nothing, and each pop returns
/// the symbol pushed at the matching position, the last pushed first.
pub proof fn lemma_run_push_then_pop<C: Clone + PartialEq + Eq>(
    r: Runner<'_, C>,
    inputs: Seq<C>,
    xs: Seq<C>,
    ys: Seq<C>,
)
    requires
        run_from(r.machine.graph.edges@, r.current, r.stack@, inputs).3,
        actions_of(r.machine.graph.edges@, r.current, r.stack@, inputs) == pushes(xs) + pops(ys),
        xs.len() == ys.len(),
    ensures
        run_from(r.machine.graph.edges@, r.current, r.stack@, inputs).1 == r.stack@,
        run_from(r.machine.graph.edges@, r.current, r.stack@, inputs).2 == Seq::new(
            xs.len(),
            |i: int| None::<C>,
        ) + Seq::new(xs.len(), |i: int| Some(xs[xs.len() - 1 - i])),
{
    lemma_run_applies_actions(r.machine.graph.edges@, r.current, r.stack@, inputs);
    lemma_push_then_pop(r.stack@, xs, ys);
}

/// One run of an automaton: its position and its stack.
pub struct Runner<'m, C> {
    pub machine: &'m DPDA<C>,
    pub stack: Vec<C>,
    pub current: usize,
    pub acc_empty: bool,
}

impl<C: Clone + PartialEq + Eq> DPDA<C> {
    /// A run that starts at the first state created, with an empty stack.
    pub fn runner(&self, acc_empty: bool) -> (r: Runner<'_, C>)
        ensures
            r.machine == self,
            r.stack@ == Seq::<C>::empty(),
            r.current == 0,
            r.acc_empty == acc_empty,
    {
        Runner { stack: Vec::new(), machine: self, acc_empty, current: 0 }
    }
}

impl<'m, C: Clone + PartialEq + Eq> Runner<'m, C> {
    /// Whether the run accepts now: the stack is empty and that counts, or
    /// the current state is accepting.
    pub open spec fn accepts(&self) -> bool {
        (self.acc_empty && self.stack@.len() == 0) || (self.current < self.machine.graph.verts@.len()
            && self.machine.accepting().contains(self.machine.graph.labels()[self.current as int]))
    }

    /// With acceptance by empty stack, a run whose stack is empty accepts
    /// whatever its state; without it, a run accepts exactly when its state
    /// is accepting.
    pub proof fn lemma_acceptance_modes(&self)
        ensures
            self.acc_empty && self.stack@.len() == 0 ==> self.accepts(),
            !self.acc_empty ==> (self.accepts() <==> (self.current < self.machine.graph.verts@.len()
                && self.machine.accepting().contains(self.machine.graph.labels()[self.current as int]))),
    {
    }

    /// Whether the run accepts now.
    pub fn check(&self) -> (r: bool)
        ensures
            r == self.accepts(),
    {
        if self.acc_empty && self.stack.len() == 0 {
            return true;
        }
        if self.current >= self.machine.graph.verts.len() {
            return false;
        }
        let label = &self.machine.graph.verts[self.current];
        let acc = &self.machine.accept;
        let mut j: usize = 0;
        while j < acc.len()
            invariant
                j <= acc@.len(),
                *label == self.machine.graph.verts@[self.current as int],
                *acc == self.machine.accept,
                self.current < self.machine.graph.verts@.len(),
                forall|i: int| 0 <= i < j ==> acc@[i]@ != label@,
            decreases acc@.len() - j,
        {
            if acc[j] == *label {
                assert(label_seq(acc@)[j as int] == label@);
                assert(self.machine.graph.labels()[self.current as int] == label@);
                return true;
            }
            j = j + 1;
        }
        proof {
            assert(self.machine.graph.labels()[self.current as int] == label@);
            if label_seq(acc@).contains(label@) {
                let i = choose|i: int| 0 <= i < label_seq(acc@).len() && label_seq(acc@)[i] == label@;
                assert(acc@[i]@ == label@);
            }
        }
        false
    }

    /// Steps through `input` in order and returns the popped symbols and
    /// whether the run then accepts. The first step that fails ends the run
    /// with its error; the steps before it stay taken.
    pub fn run(&mut self, input: Vec<C>) -> (r: Result<(Vec<Option<C>>, bool), TransitionError>)
        requires
            obeys_concrete_eq::<C>(),
        ensures
            final(self).machine == old(self).machine,
            final(self).acc_empty == old(self).acc_empty,
            final(self).current == run_from(old(self).machine.graph.edges@, old(self).current, old(self).stack@, input@).0,
            final(self).stack@ == run_from(old(self).machine.graph.edges@, old(self).current, old(self).stack@, input@).1,
            r is Ok <==> run_from(old(self).machine.graph.edges@, old(self).current, old(self).stack@, input@).3,
            r is Err ==> r == Err::<(Vec<Option<C>>, bool), TransitionError>(TransitionError::NoTransition),
            r matches Ok((outs, acc)) ==> outs@ == run_from(
                old(self).machine.graph.edges@,
                old(self).current,
                old(self).stack@,
                input@,
            ).2 && acc == final(self).accepts(),
    {
        let ghost edges = self.machine.graph.edges@;
        let ghost c0 = self.current;
        let ghost s0 = self.stack@;
        let ghost xs = input@;
        let n: usize = input.len();
        let mut ts = input;
        let mut res: Vec<Option<C>> = Vec::new();
        let mut i: usize = 0;
        assert(xs.subrange(0, 0) =~= Seq::<C>::empty());
        assert(xs.subrange(0, n as int) =~= xs);
        while ts.len() > 0
            invariant
                obeys_concrete_eq::<C>(),
                xs.len() == n,
                xs.len() == i + ts@.len(),
                ts@ == xs.subrange(i as int, n as int),
                self.machine == old(self).machine,
                self.acc_empty == old(self).acc_empty,
                edges == self.machine.graph.edges@,
                edges == old(self).machine.graph.edges@,
                c0 == old(self).current,
                s0 == old(self).stack@,
                xs == input@,
                run_from(edges, c0, s0, xs.subrange(0, i as int)) == (
                    self.current,
                    self.stack@,
                    res@,
                    true,
                ),
            decreases ts@.len(),
        {
            let x = ts.remove(0);
            proof {
                assert(xs.subrange(0, i + 1).last() == x);
                assert(xs.subrange(0, i + 1).drop_last() =~= xs.subrange(0, i as int));
                assert(ts@ =~= xs.subrange(i + 1, n as int));
            }
            match self.next(x) {
                Ok(o) => {
                    res.push(o);
                },
                Err(e) => {
                    proof {
                        assert(run_from(edges, c0, s0, xs.subrange(0, i + 1)) == (
                            self.current,
                            self.stack@,
                            res@,
                            false,
                        ));
                        lemma_run_stops(edges, c0, s0, xs.subrange(0, i + 1), xs.subrange(i + 1, n as int));
                        assert(xs.subrange(0, i + 1) + xs.subrange(i + 1, n as int) =~= xs);
                    }
                    return Err(e);
                },
            }
            i = i + 1;
        }
        let acc = self.check();
        Ok((res, acc))
    }

    /// Takes the first transition of the current state that fits `input` and
    /// the stack top, and returns the symbol that it popped.
    pub fn next(&mut self, input: C) -> (r: Result<Option<C>, TransitionError>)
        requires
            obeys_concrete_eq::<C>(),
        ensures
            final(self).machine == old(self).machine,
            final(self).acc_empty == old(self).acc_empty,
            match step(old(self).machine.graph.edges@, old(self).current, old(self).stack@, input) {
                Some(t) => r == Ok::<Option<C>, TransitionError>(t.2) && final(self).current == t.0
                    && final(self).stack@ == t.1,
                None => r == Err::<Option<C>, TransitionError>(TransitionError::NoTransition)
                    && final(self).current == old(self).current && final(self).stack@ == old(self).stack@,
            },
    {
        let edges = &self.machine.graph.edges;
        let ghost es = edges@;
        let ghost st = self.stack@;
        let n = self.stack.len();
        let cur = self.current;
        let mut k: usize = 0;
        let mut found: Option<usize> = None;
        while k < edges.len()
            invariant_except_break
                found is None,
            invariant
                obeys_concrete_eq::<C>(),
                k <= es.len(),
                es == edges@,
                st == self.stack@,
                n == st.len(),
                forall|j: int| 0 <= j < k ==> !#[trigger] fires(es[j], cur, input, st),
            ensures
                found is None ==> k >= es.len(),
                found matches Some(f) ==> f == k && k < es.len() && fires(es[f as int], cur, input, st),
            decreases es.len() - k,
        {
            proof {
                reveal(obeys_concrete_eq);
            }
            let e = &edges[k];
            let admitted = match &e.weight.0 {
                None => true,
                Some(g) => n == 0 || g.eq(&self.stack[n - 1]),
            };
            if e.source == cur && e.weight.1.eq(&input) && admitted {
                found = Some(k);
                break;
            }
            k = k + 1;
        }
        proof {
            if exists|j: int| first_fire(es, cur, input, st, j) {
                let j = choose|j: int| first_fire(es, cur, input, st, j);
                assert(fires(es[j], cur, input, st));
            }
        }
        match found {
            None => Err(TransitionError::NoTransition),
            Some(f) => {
                proof {
                    assert(first_fire(es, cur, input, st, f as int));
                    let c = chosen(es, cur, st, input);
                    assert(first_fire(es, cur, input, st, c));
                    if c < f {
                        assert(!fires(es[c], cur, input, st));
                    }
                    if f < c {
                        assert(!fires(es[f as int], cur, input, st));
                    }
                }
                let e = &edges[f];
                self.current = e.dest;
                match e.weight.2 {
                    Action::Push => {
                        self.stack.push(input);
                        Ok(None)
                    },
                    Action::Pop => Ok(self.stack.pop()),
                    Action::Replace => {
                        let res = self.stack.pop();
                        self.stack.push(input);
                        Ok(res)
                    },
                }
            },
        }
    }
}

} // verus!
