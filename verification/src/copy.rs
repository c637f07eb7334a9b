//! Deep copies of terms, made node by node on a stack of frames.

use crate::shell::{
    arity_fits, children, join, lemma_join_children, pending_of, shell_of, Shell, SpecShell,
};
use crate::term::{lemma_seq_size_first, lemma_view_terms, seq_size, view_terms, SpecTerm, Term};
use vstd::prelude::*;

verus! {

/// The model of a node under construction: its shell, the children that
/// are ready, and those that are still to come.
pub struct SpecFrame {
    pub shell: SpecShell,
    pub done: Seq<SpecTerm>,
    pub todo: Seq<SpecTerm>,
}

impl SpecFrame {
    /// The node with the children that are ready and those still to come.
    pub open spec fn whole(self) -> SpecTerm {
        join(self.shell, self.done + self.todo)
    }

    /// The frame with one more child ready.
    pub open spec fn with_done(self, t: SpecTerm) -> SpecFrame {
        SpecFrame { shell: self.shell, done: self.done.push(t), todo: self.todo }
    }

    /// The frame takes as many children as it holds, and `extra` more.
    pub open spec fn fits(self, extra: nat) -> bool {
        arity_fits(self.shell, self.done.len() + self.todo.len() + extra)
    }
}

/// The term that a stack of frames stands for: each frame but the lowest
/// is the next child of the frame below it.
pub open spec fn assemble(stack: Seq<SpecFrame>) -> SpecTerm
    decreases stack.len(),
{
    if stack.len() == 0 {
        SpecTerm::Era
    } else if stack.len() == 1 {
        stack.last().whole()
    } else {
        let below = stack.drop_last();
        assemble(below.drop_last().push(below.last().with_done(stack.last().whole())))
    }
}

/// The frames of a stack fit: the top frame holds all its children, each
/// other frame all but one.
pub open spec fn stack_fits(stack: Seq<SpecFrame>) -> bool {
    forall|i: int|
        0 <= i < stack.len() ==> (#[trigger] stack[i]).fits(
            if i == stack.len() - 1 {
                0nat
            } else {
                1nat
            },
        )
}

/// What is left to do on a stack of frames: a step for each frame, and two
/// for each node still to come.
pub open spec fn work(stack: Seq<SpecFrame>) -> nat
    decreases stack.len(),
{
    if stack.len() == 0 {
        0
    } else {
        work(stack.drop_last()) + 2 * seq_size(stack.last().todo) + 1
    }
}

/// The top frame counts in `assemble` only by the term that it stands for.
pub proof fn lemma_assemble_top(below: Seq<SpecFrame>, f: SpecFrame, g: SpecFrame)
    requires
        f.whole() == g.whole(),
    ensures
        assemble(below.push(f)) == assemble(below.push(g)),
{
    assert(below.push(f).drop_last() =~= below);
    assert(below.push(g).drop_last() =~= below);
}

/// A frame for the next child of the top frame leaves the term of the
/// stack as it is, and one step less to do.
pub proof fn lemma_assemble_descend(below: Seq<SpecFrame>, p: SpecFrame)
    requires
        p.todo.len() > 0,
    ensures
        assemble(
            below.push(
                SpecFrame { shell: p.shell, done: p.done, todo: p.todo.drop_first() },
            ).push(
                SpecFrame {
                    shell: shell_of(p.todo[0]),
                    done: Seq::empty(),
                    todo: children(p.todo[0]),
                },
            ),
        ) == assemble(below.push(p)),
        work(
            below.push(
                SpecFrame { shell: p.shell, done: p.done, todo: p.todo.drop_first() },
            ).push(
                SpecFrame {
                    shell: shell_of(p.todo[0]),
                    done: Seq::empty(),
                    todo: children(p.todo[0]),
                },
            ),
        ) + 1 == work(below.push(p)),
{
    let c = p.todo[0];
    let q = SpecFrame { shell: p.shell, done: p.done, todo: p.todo.drop_first() };
    let n = SpecFrame { shell: shell_of(c), done: Seq::empty(), todo: children(c) };
    let s = below.push(q).push(n);
    lemma_join_children(c);
    assert(n.done + n.todo =~= children(c));
    assert(s.drop_last() =~= below.push(q));
    assert(below.push(q).drop_last() =~= below);
    assert(q.with_done(c).done + q.with_done(c).todo =~= p.done + p.todo);
    lemma_assemble_top(below, q.with_done(c), p);
    assert(below.push(p).drop_last() =~= below);
    lemma_seq_size_first(p.todo);
    assert(work(s) == work(below.push(q)) + 2 * seq_size(n.todo) + 1);
    assert(work(below.push(q)) == work(below) + 2 * seq_size(q.todo) + 1);
    assert(work(below.push(p)) == work(below) + 2 * seq_size(p.todo) + 1);
}

/// A child that is ready goes to the frame below, and one step less is
/// left to do.
pub proof fn lemma_assemble_deliver(lower: Seq<SpecFrame>, q: SpecFrame, p: SpecFrame)
    requires
        p.todo.len() == 0,
    ensures
        assemble(lower.push(q.with_done(p.whole()))) == assemble(lower.push(q).push(p)),
        work(lower.push(q.with_done(p.whole()))) + 1 == work(lower.push(q).push(p)),
{
    let s = lower.push(q).push(p);
    assert(s.drop_last() =~= lower.push(q));
    assert(lower.push(q).drop_last() =~= lower);
    assert(lower.push(q.with_done(p.whole())).drop_last() =~= lower);
    assert(seq_size(p.todo) == 0);
    assert(work(s) == work(lower.push(q)) + 2 * seq_size(p.todo) + 1);
    assert(work(lower.push(q)) == work(lower) + 2 * seq_size(q.todo) + 1);
    assert(work(lower.push(q.with_done(p.whole()))) == work(lower) + 2 * seq_size(q.todo) + 1);
}

/// A node under construction: its shell, the children that are ready, and
/// references to those that are still to come, from the last to the first.
pub struct CopyFrame<'a> {
    pub shell: Shell,
    pub done: Vec<Term>,
    pub todo: Vec<&'a Term>,
}

impl<'a> View for CopyFrame<'a> {
    type V = SpecFrame;

    open spec fn view(&self) -> SpecFrame {
        SpecFrame { shell: self.shell@, done: view_terms(self.done@), todo: pending_of(self.todo@) }
    }
}

impl Term {
    /// A deep copy of the term, made node by node.
    pub fn duplicate(&self) -> (r: Term)
        ensures
            r@ == self@,
    {
        let (shell, kids) = self.split_ref();
        let mut stack: Vec<CopyFrame> = Vec::new();
        stack.push(CopyFrame { shell, done: Vec::new(), todo: kids });
        proof {
            lemma_join_children(self@);
            let f = stack@[0]@;
            assert(f.done + f.todo =~= children(self@));
            assert(stack@.map_values(|f: CopyFrame| f@) =~= seq![f]);
        }
        loop
            invariant
                stack@.len() > 0,
                assemble(stack@.map_values(|f: CopyFrame| f@)) == self@,
                stack_fits(stack@.map_values(|f: CopyFrame| f@)),
            decreases work(stack@.map_values(|f: CopyFrame| f@)),
        {
            let ghost views = stack@.map_values(|f: CopyFrame| f@);
            let mut top = stack.pop().unwrap();
            let ghost below = stack@.map_values(|f: CopyFrame| f@);
            let ghost p = top@;
            proof {
                assert(views =~= below.push(p));
                assert(views.drop_last() =~= below);
                assert(views[views.len() - 1].fits(0));
            }
            if top.todo.len() > 0 {
                let c = top.todo.pop().unwrap();
                let (shell, kids) = c.split_ref();
                proof {
                    assert(p.todo[0] == c@);
                    assert(top@.todo =~= p.todo.drop_first());
                    lemma_assemble_descend(below, p);
                    lemma_join_children(c@);
                }
                stack.push(top);
                stack.push(CopyFrame { shell, done: Vec::new(), todo: kids });
                proof {
                    let q = SpecFrame { shell: p.shell, done: p.done, todo: p.todo.drop_first() };
                    let n = SpecFrame { shell: shell_of(c@), done: Seq::empty(), todo: children(c@) };
                    assert(stack@.map_values(|f: CopyFrame| f@) =~= below.push(q).push(n));
                    assert forall|i: int| 0 <= i < below.push(q).push(n).len() implies (#[trigger] below.push(
                        q,
                    ).push(n)[i]).fits(
                        if i == below.push(q).push(n).len() - 1 {
                            0nat
                        } else {
                            1nat
                        },
                    ) by {
                        if i < below.len() {
                            assert(views[i].fits(1));
                        }
                    }
                }
            } else {
                proof {
                    assert(p.done + p.todo =~= p.done);
                    lemma_view_terms(top.done@);
                }
                let t = Term::join(top.shell, top.done);
                if stack.len() == 0 {
                    assert(below =~= Seq::<SpecFrame>::empty());
                    assert(views =~= seq![p]);
                    return t;
                }
                let mut parent = stack.pop().unwrap();
                let ghost q = parent@;
                let ghost lower = stack@.map_values(|f: CopyFrame| f@);
                let ghost ready = parent.done@;
                parent.done.push(t);
                proof {
                    lemma_view_terms(parent.done@);
                    lemma_view_terms(ready);
                    assert(below =~= lower.push(q));
                    assert(view_terms(parent.done@) =~= view_terms(ready).push(t@));
                    assert(parent@ == q.with_done(p.whole()));
                    lemma_assemble_deliver(lower, q, p);
                    assert(views[lower.len() as int].fits(1));
                }
                stack.push(parent);
                proof {
                    let now = stack@.map_values(|f: CopyFrame| f@);
                    assert(now =~= lower.push(q.with_done(p.whole())));
                    assert forall|i: int| 0 <= i < now.len() implies (#[trigger] now[i]).fits(
                        if i == now.len() - 1 {
                            0nat
                        } else {
                            1nat
                        },
                    ) by {
                        if i < lower.len() {
                            assert(views[i].fits(1));
                        }
                    }
                }
            }
        }
    }
}

} // verus!
