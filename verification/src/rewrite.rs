//! The rewrite of the children of a term, run node by node on a stack of
//! frames, so that a term of any depth is rewritten without deep recursion.

use crate::book::{Book, Definition};
use crate::copy::SpecFrame;
use crate::float::{
    ctx_of, float_all, float_child, float_children, float_combinator, floats_whole,
    lemma_float_child_settles, lemma_float_children_size, refloat_all, settle, state_of, view_defs,
    FloatCtx, FloatState,
};
use crate::names::set_names;
use crate::safety::spec_is_safe;
use crate::scope::has_unscoped_diff;
use crate::shell::{
    children, join, lemma_children_join, lemma_join_children, rev_terms, shell_of, Shell,
};
use crate::term::{
    lemma_seq_size_first, lemma_term_size_positive, lemma_view_terms, seq_size, term_size,
    view_terms, Name, SpecTerm, Term,
};
use indexmap::IndexSet;
use vstd::prelude::*;

verus! {

/// A node whose children are being rewritten: its shell, the children that
/// are ready, those that are still to come, from the last to the first,
/// whether the children have only their own children rewritten, and
/// whether the node is settled once they are ready.
pub struct Frame {
    pub shell: Shell,
    pub done: Vec<Term>,
    pub todo: Vec<Term>,
    pub refloat: bool,
    pub classify: bool,
}

/// The model of a [`Frame`].
pub struct Job {
    pub frame: SpecFrame,
    pub refloat: bool,
    pub classify: bool,
}

impl View for Frame {
    type V = Job;

    open spec fn view(&self) -> Job {
        Job {
            frame: SpecFrame {
                shell: self.shell@,
                done: view_terms(self.done@),
                todo: rev_terms(self.todo@),
            },
            refloat: self.refloat,
            classify: self.classify,
        }
    }
}

impl Job {
    /// The job for a term none of whose children is rewritten yet.
    pub open spec fn fresh(t: SpecTerm, refloat: bool, classify: bool) -> Job {
        Job {
            frame: SpecFrame { shell: shell_of(t), done: Seq::empty(), todo: children(t) },
            refloat,
            classify,
        }
    }

    /// The job with one more child ready.
    pub open spec fn with_done(self, t: SpecTerm) -> Job {
        Job { frame: self.frame.with_done(t), refloat: self.refloat, classify: self.classify }
    }

    /// The job without the next child.
    pub open spec fn without_next(self) -> Job {
        Job {
            frame: SpecFrame {
                shell: self.frame.shell,
                done: self.frame.done,
                todo: self.frame.todo.drop_first(),
            },
            refloat: self.refloat,
            classify: self.classify,
        }
    }
}

/// A term, the state that the rewrite left, and the steps that it took.
pub struct Outcome {
    pub term: SpecTerm,
    pub state: FloatState,
    pub steps: nat,
}

/// The steps that the rewrite of a child takes.
pub open spec fn cost_child(c: SpecTerm, st: FloatState, cx: FloatCtx) -> nat
    decreases term_size(c), 2nat,
{
    let safe = spec_is_safe(c, cx.defs, st.memo);
    let st0 = FloatState { memo: safe.1, next: st.next, minted: st.minted };
    if safe.0 || has_unscoped_diff(c) {
        1
    } else {
        let r = float_children(c, st0, cx);
        proof {
            lemma_float_children_size(c, st0, cx);
            lemma_join_children(r.0);
        }
        cost_children(c, st0, cx) + match r.0 {
            SpecTerm::Sup { els, .. } => cost_refloat_all(els, r.1, cx) + 1,
            _ => 0,
        }
    }
}

/// The steps that the rewrite of the children of a term takes.
pub open spec fn cost_children(t: SpecTerm, st: FloatState, cx: FloatCtx) -> nat
    decreases term_size(t), 1nat,
{
    proof {
        lemma_join_children(t);
    }
    2 + cost_all(children(t), st, cx)
}

/// The steps that the rewrite of a sequence of children takes.
pub open spec fn cost_all(ts: Seq<SpecTerm>, st: FloatState, cx: FloatCtx) -> nat
    decreases seq_size(ts), 3nat,
{
    if ts.len() == 0 {
        0
    } else {
        proof {
            lemma_seq_size_first(ts);
            lemma_term_size_positive(ts[0]);
        }
        cost_child(ts[0], st, cx) + cost_all(ts.drop_first(), float_child(ts[0], st, cx).1, cx)
    }
}

/// The steps that the second rewrite of a sequence takes.
pub open spec fn cost_refloat_all(ts: Seq<SpecTerm>, st: FloatState, cx: FloatCtx) -> nat
    decreases seq_size(ts), 3nat,
{
    if ts.len() == 0 {
        0
    } else {
        proof {
            lemma_seq_size_first(ts);
            lemma_term_size_positive(ts[0]);
        }
        cost_children(ts[0], st, cx) + cost_refloat_all(
            ts.drop_first(),
            float_children(ts[0], st, cx).1,
            cx,
        )
    }
}

/// The steps that settling a term takes after the step that completes its
/// frame.
pub open spec fn settle_cost(t: SpecTerm, st: FloatState, cx: FloatCtx) -> nat {
    match t {
        SpecTerm::Sup { els, .. } => cost_refloat_all(els, st, cx) + 1,
        _ => 0,
    }
}

/// What a job comes to, from the state `st` on.
pub open spec fn finish(j: Job, st: FloatState, cx: FloatCtx) -> Outcome {
    let e = if j.refloat {
        refloat_all(j.frame.todo, st, cx)
    } else {
        float_all(j.frame.todo, st, cx)
    };
    let n = if j.refloat {
        cost_refloat_all(j.frame.todo, st, cx)
    } else {
        cost_all(j.frame.todo, st, cx)
    };
    let t = join(j.frame.shell, j.frame.done + e.0);
    if j.classify {
        let s = settle(t, e.1, cx);
        Outcome { term: s.0, state: s.1, steps: n + 1 + settle_cost(t, e.1, cx) }
    } else {
        Outcome { term: t, state: e.1, steps: n + 1 }
    }
}

/// What a stack of jobs comes to: what the top job comes to is the next
/// child of the job below it.
pub open spec fn run(stack: Seq<Job>, st: FloatState, cx: FloatCtx) -> Outcome
    decreases stack.len(),
{
    if stack.len() == 0 {
        Outcome { term: SpecTerm::Era, state: st, steps: 0 }
    } else {
        let o = finish(stack.last(), st, cx);
        if stack.len() == 1 {
            o
        } else {
            let below = stack.drop_last();
            let r = run(below.drop_last().push(below.last().with_done(o.term)), o.state, cx);
            Outcome { term: r.term, state: r.state, steps: o.steps + r.steps }
        }
    }
}

/// The jobs of a stack fit: the top job holds all its children, each other
/// job all but one.
pub open spec fn jobs_fit(stack: Seq<Job>) -> bool {
    forall|i: int|
        0 <= i < stack.len() ==> (#[trigger] stack[i]).frame.fits(
            if i == stack.len() - 1 {
                0nat
            } else {
                1nat
            },
        )
}

/// The top job counts in `run` only by what it comes to.
pub proof fn lemma_run_top(
    below: Seq<Job>,
    j1: Job,
    st1: FloatState,
    j2: Job,
    st2: FloatState,
    cx: FloatCtx,
)
    requires
        finish(j1, st1, cx).term == finish(j2, st2, cx).term,
        finish(j1, st1, cx).state == finish(j2, st2, cx).state,
    ensures
        run(below.push(j1), st1, cx).term == run(below.push(j2), st2, cx).term,
        run(below.push(j1), st1, cx).state == run(below.push(j2), st2, cx).state,
        run(below.push(j1), st1, cx).steps + finish(j2, st2, cx).steps == run(
            below.push(j2),
            st2,
            cx,
        ).steps + finish(j1, st1, cx).steps,
{
    assert(below.push(j1).drop_last() =~= below);
    assert(below.push(j2).drop_last() =~= below);
}

/// What the top job comes to goes to the job below it.
pub proof fn lemma_run_deliver(lower: Seq<Job>, p: Job, j: Job, st: FloatState, cx: FloatCtx)
    ensures
        run(lower.push(p).push(j), st, cx).term == run(
            lower.push(p.with_done(finish(j, st, cx).term)),
            finish(j, st, cx).state,
            cx,
        ).term,
        run(lower.push(p).push(j), st, cx).state == run(
            lower.push(p.with_done(finish(j, st, cx).term)),
            finish(j, st, cx).state,
            cx,
        ).state,
        run(lower.push(p).push(j), st, cx).steps == finish(j, st, cx).steps + run(
            lower.push(p.with_done(finish(j, st, cx).term)),
            finish(j, st, cx).state,
            cx,
        ).steps,
{
    let s = lower.push(p).push(j);
    assert(s.drop_last() =~= lower.push(p));
    assert(lower.push(p).drop_last() =~= lower);
}

/// A job comes to the same with its next child rewritten ahead, in the
/// steps that this rewrite takes less.
pub proof fn lemma_finish_take(j: Job, st: FloatState, cx: FloatCtx)
    requires
        j.frame.todo.len() > 0,
    ensures
        !j.refloat ==> finish(j, st, cx).term == finish(
            j.without_next().with_done(float_child(j.frame.todo[0], st, cx).0),
            float_child(j.frame.todo[0], st, cx).1,
            cx,
        ).term && finish(j, st, cx).state == finish(
            j.without_next().with_done(float_child(j.frame.todo[0], st, cx).0),
            float_child(j.frame.todo[0], st, cx).1,
            cx,
        ).state && finish(j, st, cx).steps == finish(
            j.without_next().with_done(float_child(j.frame.todo[0], st, cx).0),
            float_child(j.frame.todo[0], st, cx).1,
            cx,
        ).steps + cost_child(j.frame.todo[0], st, cx),
        j.refloat ==> finish(j, st, cx).term == finish(
            j.without_next().with_done(float_children(j.frame.todo[0], st, cx).0),
            float_children(j.frame.todo[0], st, cx).1,
            cx,
        ).term && finish(j, st, cx).state == finish(
            j.without_next().with_done(float_children(j.frame.todo[0], st, cx).0),
            float_children(j.frame.todo[0], st, cx).1,
            cx,
        ).state && finish(j, st, cx).steps == finish(
            j.without_next().with_done(float_children(j.frame.todo[0], st, cx).0),
            float_children(j.frame.todo[0], st, cx).1,
            cx,
        ).steps + cost_children(j.frame.todo[0], st, cx),
{
    let c = j.frame.todo[0];
    let rest = j.frame.todo.drop_first();
    if j.refloat {
        let f = float_children(c, st, cx);
        let r = refloat_all(rest, f.1, cx);
        assert(refloat_all(j.frame.todo, st, cx) == (seq![f.0] + r.0, r.1));
        assert(j.frame.done + (seq![f.0] + r.0) =~= j.frame.done.push(f.0) + r.0);
        assert(cost_refloat_all(j.frame.todo, st, cx) == cost_children(c, st, cx) + cost_refloat_all(
            rest,
            f.1,
            cx,
        ));
    } else {
        let f = float_child(c, st, cx);
        let r = float_all(rest, f.1, cx);
        assert(float_all(j.frame.todo, st, cx) == (seq![f.0] + r.0, r.1));
        assert(j.frame.done + (seq![f.0] + r.0) =~= j.frame.done.push(f.0) + r.0);
        assert(cost_all(j.frame.todo, st, cx) == cost_child(c, st, cx) + cost_all(rest, f.1, cx));
    }
}

/// What the job for a term comes to whose children are all still to come.
pub proof fn lemma_finish_fresh(t: SpecTerm, st: FloatState, cx: FloatCtx)
    ensures
        finish(Job::fresh(t, false, false), st, cx).term == float_children(t, st, cx).0,
        finish(Job::fresh(t, false, false), st, cx).state == float_children(t, st, cx).1,
        finish(Job::fresh(t, false, false), st, cx).steps + 1 == cost_children(t, st, cx),
        finish(Job::fresh(t, false, true), st, cx).term == settle(
            float_children(t, st, cx).0,
            float_children(t, st, cx).1,
            cx,
        ).0,
        finish(Job::fresh(t, false, true), st, cx).state == settle(
            float_children(t, st, cx).0,
            float_children(t, st, cx).1,
            cx,
        ).1,
        finish(Job::fresh(t, false, true), st, cx).steps + 1 == cost_children(t, st, cx) + settle_cost(
            float_children(t, st, cx).0,
            float_children(t, st, cx).1,
            cx,
        ),
{
    let e = float_all(children(t), st, cx);
    assert(Seq::<SpecTerm>::empty() + e.0 =~= e.0);
}

/// The steps of the rewrite of a child that is neither safe nor
/// unbalanced.
pub proof fn lemma_cost_child_settles(c: SpecTerm, st: FloatState, cx: FloatCtx)
    requires
        !spec_is_safe(c, cx.defs, st.memo).0,
        !has_unscoped_diff(c),
    ensures
        cost_child(c, st, cx) == cost_children(
            c,
            FloatState { memo: spec_is_safe(c, cx.defs, st.memo).1, next: st.next, minted: st.minted },
            cx,
        ) + settle_cost(
            float_children(
                c,
                FloatState { memo: spec_is_safe(c, cx.defs, st.memo).1, next: st.next, minted: st.minted },
                cx,
            ).0,
            float_children(
                c,
                FloatState { memo: spec_is_safe(c, cx.defs, st.memo).1, next: st.next, minted: st.minted },
                cx,
            ).1,
            cx,
        ),
{
}

/// A job for a superposition that is ready and to be settled comes to what
/// the job for its second rewrite comes to, in one step more.
pub proof fn lemma_finish_refloat(j: Job, st: FloatState, cx: FloatCtx)
    requires
        j.frame.todo.len() == 0,
        j.classify,
        j.frame.fits(0),
        join(j.frame.shell, j.frame.done) is Sup,
    ensures
        finish(j, st, cx).term == finish(
            Job::fresh(join(j.frame.shell, j.frame.done), true, false),
            st,
            cx,
        ).term,
        finish(j, st, cx).state == finish(
            Job::fresh(join(j.frame.shell, j.frame.done), true, false),
            st,
            cx,
        ).state,
        finish(j, st, cx).steps == finish(
            Job::fresh(join(j.frame.shell, j.frame.done), true, false),
            st,
            cx,
        ).steps + 1,
{
    let t = join(j.frame.shell, j.frame.done);
    assert(j.frame.done + Seq::<SpecTerm>::empty() =~= j.frame.done);
    let e = refloat_all(children(t), st, cx);
    assert(Seq::<SpecTerm>::empty() + e.0 =~= e.0);
}

/// What a job comes to that is ready.
pub proof fn lemma_finish_ready(j: Job, st: FloatState, cx: FloatCtx)
    requires
        j.frame.todo.len() == 0,
    ensures
        !j.classify ==> finish(j, st, cx) == (Outcome {
            term: join(j.frame.shell, j.frame.done),
            state: st,
            steps: 1,
        }),
        j.classify && !(join(j.frame.shell, j.frame.done) is Sup) ==> finish(j, st, cx) == (Outcome {
            term: settle(join(j.frame.shell, j.frame.done), st, cx).0,
            state: settle(join(j.frame.shell, j.frame.done), st, cx).1,
            steps: 1,
        }),
{
    assert(j.frame.done + Seq::<SpecTerm>::empty() =~= j.frame.done);
}

/// What a job comes to leaves the counter no smaller.
pub proof fn lemma_finish_next(j: Job, st: FloatState, cx: FloatCtx)
    ensures
        finish(j, st, cx).state.next >= st.next,
        j.classify && j.frame.todo.len() == 0 && floats_whole(join(j.frame.shell, j.frame.done)) && !(
        join(j.frame.shell, j.frame.done) is Sup) ==> finish(j, st, cx).state.next == st.next + 1,
{
    crate::float::lemma_float_all_size(j.frame.todo, st, cx);
    crate::float::lemma_refloat_all_size(j.frame.todo, st, cx);
    let e = if j.refloat {
        refloat_all(j.frame.todo, st, cx)
    } else {
        float_all(j.frame.todo, st, cx)
    };
    let t = join(j.frame.shell, j.frame.done + e.0);
    match t {
        SpecTerm::Sup { tag, els } => {
            crate::float::lemma_refloat_all_size(els, e.1, cx);
        },
        _ => {},
    }
    if j.frame.todo.len() == 0 {
        assert(j.frame.done + Seq::<SpecTerm>::empty() =~= j.frame.done);
    }
}

/// What a stack of jobs comes to leaves the counter no smaller than what
/// its top job comes to.
pub proof fn lemma_run_next(stack: Seq<Job>, st: FloatState, cx: FloatCtx)
    requires
        stack.len() > 0,
    ensures
        run(stack, st, cx).state.next >= finish(stack.last(), st, cx).state.next,
        run(stack, st, cx).state.next >= st.next,
    decreases stack.len(),
{
    lemma_finish_next(stack.last(), st, cx);
    if stack.len() > 1 {
        let o = finish(stack.last(), st, cx);
        let below = stack.drop_last();
        let next = below.drop_last().push(below.last().with_done(o.term));
        lemma_run_next(next, o.state, cx);
    }
}

/// The outcome `a` is the outcome `b`, reached in `k` steps less.
pub open spec fn ahead(a: Outcome, b: Outcome, k: nat) -> bool {
    a.term == b.term && a.state == b.state && a.steps + k == b.steps
}

/// The models of the frames of a stack.
pub open spec fn jobs_of(stack: Seq<Frame>) -> Seq<Job> {
    stack.map_values(|f: Frame| f@)
}

/// The state after the safety analysis of a child.
pub open spec fn analysed(c: SpecTerm, st: FloatState, cx: FloatCtx) -> FloatState {
    FloatState { memo: spec_is_safe(c, cx.defs, st.memo).1, next: st.next, minted: st.minted }
}

/// Whether the rewrite passes over a child.
pub open spec fn passes_over(c: SpecTerm, st: FloatState, cx: FloatCtx) -> bool {
    spec_is_safe(c, cx.defs, st.memo).0 || has_unscoped_diff(c)
}

/// The step that opens a frame for the next child of a job of the second
/// rewrite.
pub proof fn lemma_step_refloat(below: Seq<Job>, p: Job, st: FloatState, cx: FloatCtx)
    requires
        p.frame.todo.len() > 0,
        p.refloat,
    ensures
        ahead(
            run(below.push(p.without_next()).push(Job::fresh(p.frame.todo[0], false, false)), st, cx),
            run(below.push(p), st, cx),
            1,
        ),
{
    let c = p.frame.todo[0];
    let q = p.without_next();
    let n = Job::fresh(c, false, false);
    lemma_finish_take(p, st, cx);
    lemma_finish_fresh(c, st, cx);
    lemma_run_deliver(below, q, n, st, cx);
    let f = float_children(c, st, cx);
    lemma_run_top(below, p, st, q.with_done(f.0), f.1, cx);
}

/// The step that passes over the next child of a job.
pub proof fn lemma_step_skip(below: Seq<Job>, p: Job, st: FloatState, cx: FloatCtx)
    requires
        p.frame.todo.len() > 0,
        !p.refloat,
        passes_over(p.frame.todo[0], st, cx),
    ensures
        ahead(
            run(
                below.push(p.without_next().with_done(p.frame.todo[0])),
                analysed(p.frame.todo[0], st, cx),
                cx,
            ),
            run(below.push(p), st, cx),
            1,
        ),
{
    let c = p.frame.todo[0];
    lemma_finish_take(p, st, cx);
    lemma_run_top(below, p, st, p.without_next().with_done(c), analysed(c, st, cx), cx);
}

/// The step that opens a frame for the next child of a job.
pub proof fn lemma_step_descend(below: Seq<Job>, p: Job, st: FloatState, cx: FloatCtx)
    requires
        p.frame.todo.len() > 0,
        !p.refloat,
        !passes_over(p.frame.todo[0], st, cx),
    ensures
        ahead(
            run(
                below.push(p.without_next()).push(Job::fresh(p.frame.todo[0], false, true)),
                analysed(p.frame.todo[0], st, cx),
                cx,
            ),
            run(below.push(p), st, cx),
            1,
        ),
{
    let c = p.frame.todo[0];
    let q = p.without_next();
    let n = Job::fresh(c, false, true);
    let st0 = analysed(c, st, cx);
    lemma_finish_take(p, st, cx);
    lemma_finish_fresh(c, st0, cx);
    lemma_float_child_settles(c, st, cx);
    lemma_cost_child_settles(c, st, cx);
    lemma_run_deliver(below, q, n, st0, cx);
    let f = float_child(c, st, cx);
    lemma_run_top(below, p, st, q.with_done(f.0), f.1, cx);
}

/// The step that opens the frame for the second rewrite of a
/// superposition.
pub proof fn lemma_step_resettle(below: Seq<Job>, p: Job, st: FloatState, cx: FloatCtx)
    requires
        p.frame.todo.len() == 0,
        p.classify,
        p.frame.fits(0),
        join(p.frame.shell, p.frame.done) is Sup,
    ensures
        ahead(
            run(below.push(Job::fresh(join(p.frame.shell, p.frame.done), true, false)), st, cx),
            run(below.push(p), st, cx),
            1,
        ),
{
    let n = Job::fresh(join(p.frame.shell, p.frame.done), true, false);
    lemma_finish_refloat(p, st, cx);
    lemma_run_top(below, p, st, n, st, cx);
}

/// What a job comes to that is ready and is no superposition to settle.
pub open spec fn ready_outcome(p: Job, st: FloatState, cx: FloatCtx) -> (SpecTerm, FloatState) {
    if p.classify {
        settle(join(p.frame.shell, p.frame.done), st, cx)
    } else {
        (join(p.frame.shell, p.frame.done), st)
    }
}

/// The step that hands a term that is ready to the job below, or ends the
/// run.
pub proof fn lemma_step_deliver(lower: Seq<Job>, pq: Job, p: Job, st: FloatState, cx: FloatCtx)
    requires
        p.frame.todo.len() == 0,
        !(p.classify && join(p.frame.shell, p.frame.done) is Sup),
    ensures
        ahead(
            run(
                lower.push(pq.with_done(ready_outcome(p, st, cx).0)),
                ready_outcome(p, st, cx).1,
                cx,
            ),
            run(lower.push(pq).push(p), st, cx),
            1,
        ),
        run(seq![p], st, cx).term == ready_outcome(p, st, cx).0,
        run(seq![p], st, cx).state == ready_outcome(p, st, cx).1,
{
    lemma_finish_ready(p, st, cx);
    lemma_run_deliver(lower, pq, p, st, cx);
}

/// A frame for the next child of the top job fits on the stack.
pub proof fn lemma_fits_descend(below: Seq<Job>, p: Job, n: Job)
    requires
        jobs_fit(below.push(p)),
        p.frame.todo.len() > 0,
        n.frame.fits(0),
    ensures
        jobs_fit(below.push(p.without_next()).push(n)),
{
    let was = below.push(p);
    let now = below.push(p.without_next()).push(n);
    assert(was[below.len() as int].frame.fits(0));
    assert forall|i: int| 0 <= i < now.len() implies (#[trigger] now[i]).frame.fits(
        if i == now.len() - 1 {
            0nat
        } else {
            1nat
        },
    ) by {
        if i < below.len() {
            assert(was[i].frame.fits(1));
        }
    }
}

/// Another job that holds all its children fits in the place of the top
/// job.
pub proof fn lemma_fits_top(below: Seq<Job>, p: Job, q: Job)
    requires
        jobs_fit(below.push(p)),
        q.frame.fits(0),
    ensures
        jobs_fit(below.push(q)),
{
    let was = below.push(p);
    let now = below.push(q);
    assert forall|i: int| 0 <= i < now.len() implies (#[trigger] now[i]).frame.fits(
        if i == now.len() - 1 {
            0nat
        } else {
            1nat
        },
    ) by {
        if i < below.len() {
            assert(was[i].frame.fits(1));
        }
    }
}

/// The job below the top job fits as the top job once it has the child
/// that it was waiting for.
pub proof fn lemma_fits_deliver(lower: Seq<Job>, pq: Job, p: Job, t: SpecTerm)
    requires
        jobs_fit(lower.push(pq).push(p)),
    ensures
        jobs_fit(lower.push(pq.with_done(t))),
{
    let was = lower.push(pq).push(p);
    let now = lower.push(pq.with_done(t));
    assert(was[lower.len() as int].frame.fits(1));
    assert forall|i: int| 0 <= i < now.len() implies (#[trigger] now[i]).frame.fits(
        if i == now.len() - 1 {
            0nat
        } else {
            1nat
        },
    ) by {
        if i < lower.len() {
            assert(was[i].frame.fits(1));
        }
    }
}

/// Opens a frame for a term on top of the stack.
fn open_frame(stack: &mut Vec<Frame>, t: Term, refloat: bool, classify: bool)
    ensures
        jobs_of(final(stack)@) == jobs_of(old(stack)@).push(Job::fresh(t@, refloat, classify)),
        Job::fresh(t@, refloat, classify).frame.fits(0),
{
    proof {
        lemma_join_children(t@);
    }
    let (shell, kids) = t.split();
    stack.push(Frame { shell, done: Vec::new(), todo: kids, refloat, classify });
    assert(jobs_of(stack@) =~= jobs_of(old(stack)@).push(Job::fresh(t@, refloat, classify)));
}

/// Puts a frame on top of the stack.
fn push_frame(stack: &mut Vec<Frame>, f: Frame)
    ensures
        jobs_of(final(stack)@) == jobs_of(old(stack)@).push(f@),
{
    stack.push(f);
    assert(jobs_of(stack@) =~= jobs_of(old(stack)@).push(f@));
}

/// Takes the top frame off the stack.
fn pop_frame(stack: &mut Vec<Frame>) -> (f: Frame)
    requires
        old(stack)@.len() > 0,
    ensures
        jobs_of(old(stack)@) == jobs_of(final(stack)@).push(f@),
        final(stack)@.len() + 1 == old(stack)@.len(),
{
    let f = stack.pop().unwrap();
    assert(jobs_of(old(stack)@) =~= jobs_of(stack@).push(f@));
    f
}

/// Takes the next child off a frame.
fn next_child(top: &mut Frame) -> (c: Term)
    requires
        old(top).todo@.len() > 0,
    ensures
        old(top)@.frame.todo.len() > 0,
        c@ == old(top)@.frame.todo[0],
        final(top)@ == old(top)@.without_next(),
{
    let c = top.todo.pop().unwrap();
    assert(top@.frame.todo =~= old(top)@.frame.todo.drop_first());
    c
}

/// Adds a child that is ready to a frame.
fn add_done(top: &mut Frame, t: Term)
    ensures
        final(top)@ == old(top)@.with_done(t@),
{
    let ghost ready = top.done@;
    top.done.push(t);
    proof {
        lemma_view_terms(top.done@);
        lemma_view_terms(ready);
        assert(view_terms(top.done@) =~= view_terms(ready).push(t@));
    }
}

/// One step on a frame whose next child is still to come: the child is
/// passed over, or a frame is opened for it.
fn take_next(
    stack: &mut Vec<Frame>,
    top: Frame,
    book: &Book,
    def_name: &Name,
    builtin: bool,
    safe_defs: &mut IndexSet<Name>,
    Ghost(at): Ghost<FloatState>,
)
    requires
        top.todo@.len() > 0,
        jobs_fit(jobs_of(old(stack)@).push(top@)),
        at.memo == set_names(*old(safe_defs)),
    ensures
        final(stack)@.len() > 0,
        jobs_fit(jobs_of(final(stack)@)),
        ahead(
            run(
                jobs_of(final(stack)@),
                FloatState { memo: set_names(*final(safe_defs)), next: at.next, minted: at.minted },
                ctx_of(book, def_name, builtin),
            ),
            run(jobs_of(old(stack)@).push(top@), at, ctx_of(book, def_name, builtin)),
            1,
        ),
{
    let ghost cx = ctx_of(book, def_name, builtin);
    let ghost st = at;
    let ghost below = jobs_of(stack@);
    let ghost p = top@;
    let mut top = top;
    let c = next_child(&mut top);
    if top.refloat {
        push_frame(stack, top);
        open_frame(stack, c, false, false);
        proof {
            lemma_step_refloat(below, p, st, cx);
            lemma_fits_descend(below, p, Job::fresh(c@, false, false));
        }
    } else {
        let safe = c.is_safe(book, safe_defs);
        let skip = safe || c.has_unscoped_diff();
        if skip {
            add_done(&mut top, c);
            push_frame(stack, top);
            proof {
                lemma_step_skip(below, p, st, cx);
                assert(below.push(p)[below.len() as int].frame.fits(0));
                lemma_fits_top(below, p, p.without_next().with_done(c@));
            }
        } else {
            push_frame(stack, top);
            open_frame(stack, c, false, true);
            proof {
                lemma_step_descend(below, p, st, cx);
                lemma_fits_descend(below, p, Job::fresh(c@, false, true));
            }
        }
    }
}

/// The state with this memo, counter and combinators.
pub open spec fn made(memo: Set<Seq<char>>, next: usize, combs: Vec<Definition>) -> FloatState {
    FloatState { memo, next: next as nat, minted: view_defs(combs@) }
}

/// One step on a frame whose children are ready: the frame for the second
/// rewrite of a superposition is opened, or the term goes to the frame
/// below; without a frame below it is the result.
fn hand_over(
    stack: &mut Vec<Frame>,
    top: Frame,
    book: &Book,
    def_name: &Name,
    builtin: bool,
    Ghost(memo): Ghost<Set<Seq<char>>>,
    name_gen: &mut usize,
    combinators: &mut Vec<Definition>,
) -> (r: Option<Term>)
    requires
        top.todo@.len() == 0,
        jobs_fit(jobs_of(old(stack)@).push(top@)),
        *old(name_gen) <= old(combinators).len() || run(
            jobs_of(old(stack)@).push(top@),
            made(memo, *old(name_gen), *old(combinators)),
            ctx_of(book, def_name, builtin),
        ).state.next <= usize::MAX,
    ensures
        *old(name_gen) <= old(combinators).len() ==> *final(name_gen) <= final(combinators).len(),
        match r {
            Some(t) => {
                &&& t@ == run(
                    jobs_of(old(stack)@).push(top@),
                    made(memo, *old(name_gen), *old(combinators)),
                    ctx_of(book, def_name, builtin),
                ).term
                &&& made(memo, *final(name_gen), *final(combinators)) == run(
                    jobs_of(old(stack)@).push(top@),
                    made(memo, *old(name_gen), *old(combinators)),
                    ctx_of(book, def_name, builtin),
                ).state
            },
            None => {
                &&& final(stack)@.len() > 0
                &&& jobs_fit(jobs_of(final(stack)@))
                &&& ahead(
                    run(
                        jobs_of(final(stack)@),
                        made(memo, *final(name_gen), *final(combinators)),
                        ctx_of(book, def_name, builtin),
                    ),
                    run(
                        jobs_of(old(stack)@).push(top@),
                        made(memo, *old(name_gen), *old(combinators)),
                        ctx_of(book, def_name, builtin),
                    ),
                    1,
                )
            },
        },
{
    let ghost cx = ctx_of(book, def_name, builtin);
    let ghost st = made(memo, *name_gen, *combinators);
    let ghost below = jobs_of(stack@);
    let ghost p = top@;
    proof {
        assert(below.push(p)[below.len() as int].frame.fits(0));
        assert(rev_terms(top.todo@) =~= Seq::<SpecTerm>::empty());
        lemma_view_terms(top.done@);
        lemma_children_join(p.frame.shell, p.frame.done);
    }
    let classify = top.classify;
    let mut t = Term::join(top.shell, top.done);
    if classify && t.is_sup() {
        open_frame(stack, t, true, false);
        proof {
            lemma_step_resettle(below, p, st, cx);
            lemma_fits_top(below, p, Job::fresh(join(p.frame.shell, p.frame.done), true, false));
        }
        None
    } else {
        if classify && t.floats_whole() {
            proof {
                lemma_run_next(below.push(p), st, cx);
            }
            float_combinator(def_name, name_gen, &mut t, builtin, combinators);
        }
        let ghost st1 = made(memo, *name_gen, *combinators);
        proof {
            assert(ready_outcome(p, st, cx) == (t@, st1));
        }
        if stack.len() == 0 {
            proof {
                assert(below =~= Seq::<Job>::empty());
                assert(below.push(p) =~= seq![p]);
                lemma_step_deliver(below, p, p, st, cx);
            }
            Some(t)
        } else {
            let mut parent = pop_frame(stack);
            let ghost pq = parent@;
            let ghost lower = jobs_of(stack@);
            add_done(&mut parent, t);
            push_frame(stack, parent);
            proof {
                lemma_step_deliver(lower, pq, p, st, cx);
                lemma_fits_deliver(lower, pq, p, t@);
            }
            None
        }
    }
}

impl Term {
    /// Rewrites the children of the term, from the first to the last:
    /// floats what qualifies in each of them, and then the child itself if
    /// it qualifies. The counter must have room: it is at most the number
    /// of the combinators, which a vector keeps below the largest number,
    /// or there is room for as many combinators as the term has nodes.
    pub(crate) fn float_combinators(
        &mut self,
        combinators: &mut Vec<Definition>,
        name_gen: &mut usize,
        book: &Book,
        def_name: &Name,
        builtin: bool,
        safe_defs: &mut IndexSet<Name>,
    )
        requires
            *old(name_gen) <= old(combinators).len() || *old(name_gen) + term_size(old(self)@)
                <= usize::MAX,
        ensures
            float_children(
                old(self)@,
                state_of(*old(safe_defs), *old(name_gen), *old(combinators)),
                ctx_of(book, def_name, builtin),
            ) == (final(self)@, state_of(*final(safe_defs), *final(name_gen), *final(combinators))),
            *old(name_gen) <= old(combinators).len() ==> *final(name_gen)
                <= final(combinators).len(),
    {
        let ghost cx = ctx_of(book, def_name, builtin);
        let ghost goal = float_children(self@, state_of(*safe_defs, *name_gen, *combinators), cx);
        assert(goal == float_children(
            old(self)@,
            state_of(*old(safe_defs), *old(name_gen), *old(combinators)),
            ctx_of(book, def_name, builtin),
        ));
        let mut root = Term::Era;
        core::mem::swap(self, &mut root);
        let mut stack: Vec<Frame> = Vec::new();
        proof {
            lemma_float_children_size(root@, state_of(*safe_defs, *name_gen, *combinators), cx);
            lemma_finish_fresh(root@, state_of(*safe_defs, *name_gen, *combinators), cx);
            assert(jobs_of(stack@) =~= Seq::<Job>::empty());
            assert(Seq::<Job>::empty().push(Job::fresh(root@, false, false)) =~= seq![
                Job::fresh(root@, false, false),
            ]);
        }
        open_frame(&mut stack, root, false, false);
        loop
            invariant
                stack@.len() > 0,
                cx == ctx_of(book, def_name, builtin),
                goal == float_children(
                    old(self)@,
                    state_of(*old(safe_defs), *old(name_gen), *old(combinators)),
                    cx,
                ),
                *name_gen <= combinators.len() || goal.1.next <= usize::MAX,
                *old(name_gen) <= old(combinators).len() ==> *name_gen <= combinators.len(),
                jobs_fit(jobs_of(stack@)),
                run(jobs_of(stack@), state_of(*safe_defs, *name_gen, *combinators), cx).term == goal.0,
                run(jobs_of(stack@), state_of(*safe_defs, *name_gen, *combinators), cx).state
                    == goal.1,
            decreases run(jobs_of(stack@), state_of(*safe_defs, *name_gen, *combinators), cx).steps,
        {
            let top = pop_frame(&mut stack);
            if top.todo.len() > 0 {
                take_next(
                    &mut stack,
                    top,
                    book,
                    def_name,
                    builtin,
                    safe_defs,
                    Ghost(state_of(*safe_defs, *name_gen, *combinators)),
                );
            } else {
                match hand_over(
                    &mut stack,
                    top,
                    book,
                    def_name,
                    builtin,
                    Ghost(set_names(*safe_defs)),
                    name_gen,
                    combinators,
                ) {
                    Some(t) => {
                        assert(t@ == goal.0);
                        assert(state_of(*safe_defs, *name_gen, *combinators) == goal.1);
                        assert(goal == (goal.0, goal.1));
                        *self = t;
                        return ;
                    },
                    None => {},
                }
            }
        }
    }
}

} // verus!
