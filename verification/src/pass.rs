//! The pass over a whole book.

use crate::book::{
    lemma_find_entry, map_insert, map_new, put_entry, Book, Definition, SpecBook, SpecDefinition,
};
use crate::float::{float_children, view_defs, FloatCtx, FloatState};
use crate::names::set_new;
use crate::naming::{name_before, name_lt};
use crate::term::Name;
use indexmap::IndexSet;
use vstd::prelude::*;

verus! {

/// How far the pass has come: the entries rewritten so far, and the
/// combinators floated so far, in the order in which they were made.
pub struct RunState {
    pub entries: Seq<(Seq<char>, SpecDefinition)>,
    pub minted: Seq<SpecDefinition>,
}

/// Whether the pass rewrites the entry at `i`: it is not the entrypoint,
/// and it has a rule.
pub open spec fn is_rewritten(book: SpecBook, i: int) -> bool {
    book.entrypoint != Some(book.defs[i].0) && book.defs[i].1.rules.len() > 0
}

/// The frame of the rewrite of the entry at `i`.
pub open spec fn entry_ctx(book: SpecBook, i: int) -> FloatCtx {
    FloatCtx { defs: book.defs, def_name: book.defs[i].0, builtin: book.defs[i].1.builtin }
}

/// The pass over the first `n` entries of the book. The body of the first
/// rule of each entry but the entrypoint has its children rewritten, with a
/// counter that starts at zero and a memo that starts empty for each entry;
/// the combinators run through all the entries.
pub open spec fn float_defs(book: SpecBook, n: nat) -> RunState
    decreases n,
{
    if n == 0 || n > book.defs.len() {
        RunState { entries: Seq::empty(), minted: Seq::empty() }
    } else {
        let p = float_defs(book, (n - 1) as nat);
        let i = n - 1;
        let (key, def) = book.defs[i];
        if is_rewritten(book, i) {
            let r = float_children(
                def.rules[0].body,
                FloatState { memo: Set::empty(), next: 0, minted: p.minted },
                entry_ctx(book, i),
            );
            RunState { entries: p.entries.push((key, def.with_body(r.0))), minted: r.1.minted }
        } else {
            RunState { entries: p.entries.push((key, def)), minted: p.minted }
        }
    }
}

/// A sequence of definitions in the order of their names, after `d` entered
/// it: in the place of the definition of the same name, or else where the
/// order puts it.
pub open spec fn tree_insert(s: Seq<SpecDefinition>, d: SpecDefinition) -> Seq<SpecDefinition>
    decreases s.len(),
{
    if s.len() == 0 {
        seq![d]
    } else if name_lt(s.last().name, d.name) {
        s.push(d)
    } else if s.last().name == d.name {
        s.drop_last().push(d)
    } else {
        tree_insert(s.drop_last(), d).push(s.last())
    }
}

/// The definitions of a sequence in the order of their names; of two with
/// one name the later one stays.
pub open spec fn tree_of(ds: Seq<SpecDefinition>) -> Seq<SpecDefinition>
    decreases ds.len(),
{
    if ds.len() == 0 {
        Seq::empty()
    } else {
        tree_insert(tree_of(ds.drop_last()), ds.last())
    }
}

/// The entries after each definition of `ds`, in turn, was put under its
/// name.
pub open spec fn extend_entries(
    entries: Seq<(Seq<char>, SpecDefinition)>,
    ds: Seq<SpecDefinition>,
) -> Seq<(Seq<char>, SpecDefinition)>
    decreases ds.len(),
{
    if ds.len() == 0 {
        entries
    } else {
        put_entry(extend_entries(entries, ds.drop_last()), ds.last().name, ds.last())
    }
}

/// The book after the pass: the entries with the bodies rewritten, then the
/// combinators, which enter in the order of their names.
pub open spec fn float_book(book: SpecBook) -> SpecBook {
    let run = float_defs(book, book.defs.len());
    SpecBook {
        defs: extend_entries(run.entries, tree_of(run.minted)),
        entrypoint: book.entrypoint,
    }
}

/// The rewritten entries keep the names of the entries, in order.
pub proof fn lemma_float_defs_keys(book: SpecBook, n: nat)
    requires
        n <= book.defs.len(),
    ensures
        float_defs(book, n).entries.len() == n,
        forall|j: int| 0 <= j < n ==> (#[trigger] float_defs(book, n).entries[j]).0 == book.defs[j].0,
    decreases n,
{
    if n > 0 {
        lemma_float_defs_keys(book, (n - 1) as nat);
    }
}

/// The definitions in the opposite order.
fn reverse_defs(v: Vec<Definition>) -> (r: Vec<Definition>)
    ensures
        r@.len() == v@.len(),
        forall|i: int| 0 <= i < r@.len() ==> (#[trigger] r@[i]) == v@[v@.len() - 1 - i],
{
    let mut v = v;
    let ghost orig = v@;
    let mut r: Vec<Definition> = Vec::new();
    while v.len() > 0
        invariant
            v@.len() + r@.len() == orig.len(),
            forall|i: int| 0 <= i < v@.len() ==> (#[trigger] v@[i]) == orig[i],
            forall|i: int| 0 <= i < r@.len() ==> (#[trigger] r@[i]) == orig[orig.len() - 1 - i],
        decreases v@.len(),
    {
        let d = v.pop().unwrap();
        r.push(d);
    }
    r
}

/// Puts `d` into a vector that is in the order of the names.
fn insert_by_name(sorted: &mut Vec<Definition>, d: Definition)
    ensures
        view_defs(final(sorted)@) == tree_insert(view_defs(old(sorted)@), d@),
{
    let ghost full = view_defs(sorted@);
    let mut j: usize = sorted.len();
    assert(full.take(j as int) =~= full);
    assert(tree_insert(full.take(j as int), d@) + full.skip(j as int) =~= tree_insert(full, d@));
    while j > 0
        invariant
            j <= sorted.len(),
            sorted@ == old(sorted)@,
            full == view_defs(sorted@),
            tree_insert(full, d@) == tree_insert(full.take(j as int), d@) + full.skip(j as int),
        decreases j,
    {
        let ghost cur = full.take(j as int);
        assert(cur.last() == sorted@[j - 1]@);
        assert(cur.drop_last() =~= full.take(j - 1));
        if name_before(&sorted[j - 1].name, &d.name) {
            sorted.insert(j, d);
            assert(view_defs(sorted@) =~= cur.push(d@) + full.skip(j as int));
            return ;
        }
        if sorted[j - 1].name == d.name {
            let mut d = d;
            let ghost entering = d@;
            core::mem::swap(&mut sorted[j - 1], &mut d);
            assert(view_defs(sorted@) =~= cur.drop_last().push(entering) + full.skip(j as int));
            d.dismantle();
            return ;
        }
        assert(tree_insert(cur, d@) + full.skip(j as int) =~= tree_insert(full.take(j - 1), d@)
            + full.skip(j - 1));
        j -= 1;
    }
    assert(full.take(0) =~= Seq::<SpecDefinition>::empty());
    assert(full.skip(0) =~= full);
    sorted.insert(0, d);
    assert(view_defs(sorted@) =~= seq![d@] + full);
}

/// The definitions in the order of their names.
fn sort_by_name(ds: Vec<Definition>) -> (r: Vec<Definition>)
    ensures
        view_defs(r@) == tree_of(view_defs(ds@)),
{
    let ghost orig = view_defs(ds@);
    let ghost n = ds@.len();
    let mut rev = reverse_defs(ds);
    let mut sorted: Vec<Definition> = Vec::new();
    assert(orig.take(0) =~= Seq::<SpecDefinition>::empty());
    assert(view_defs(sorted@) =~= tree_of(orig.take(0)));
    while rev.len() > 0
        invariant
            orig.len() == n,
            rev@.len() <= n,
            forall|i: int| 0 <= i < rev@.len() ==> (#[trigger] rev@[i])@ == orig[n - 1 - i],
            view_defs(sorted@) == tree_of(orig.take(n - rev@.len())),
        decreases rev@.len(),
    {
        let ghost k = n - rev@.len();
        let d = rev.pop().unwrap();
        assert(d@ == orig[k]);
        insert_by_name(&mut sorted, d);
        assert(orig.take(k + 1).drop_last() =~= orig.take(k));
        assert(orig.take(k + 1).last() == orig[k]);
    }
    assert(orig.take(n as int) =~= orig);
    sorted
}

/// Puts each of the definitions, in turn, into the table under its name.
fn extend_defs(defs: &mut indexmap::IndexMap<Name, Definition>, ds: Vec<Definition>)
    ensures
        crate::book::map_entries(*final(defs)) == extend_entries(
            crate::book::map_entries(*old(defs)),
            view_defs(ds@),
        ),
{
    let ghost orig = view_defs(ds@);
    let ghost n = ds@.len();
    let ghost start = crate::book::map_entries(*defs);
    let mut rev = reverse_defs(ds);
    assert(orig.take(0) =~= Seq::<SpecDefinition>::empty());
    while rev.len() > 0
        invariant
            orig.len() == n,
            rev@.len() <= n,
            forall|i: int| 0 <= i < rev@.len() ==> (#[trigger] rev@[i])@ == orig[n - 1 - i],
            crate::book::map_entries(*defs) == extend_entries(start, orig.take(n - rev@.len())),
        decreases rev@.len(),
    {
        let ghost k = n - rev@.len();
        let d = rev.pop().unwrap();
        assert(d@ == orig[k]);
        let key = d.name.clone();
        match map_insert(defs, key, d) {
            Some(replaced) => {
                replaced.dismantle();
            },
            None => {},
        }
        assert(orig.take(k + 1).drop_last() =~= orig.take(k));
        assert(orig.take(k + 1).last() == orig[k]);
    }
    assert(orig.take(n as int) =~= orig);
}

impl Book {
    /// Floats the combinators of every definition but the entrypoint into
    /// new definitions of the book. The bodies are rewritten against the
    /// book as it is before the pass; the new definitions enter behind the
    /// others, in the order of their names.
    pub fn float_combinators(&mut self)
        requires
            old(self).wf(),
        ensures
            final(self)@ == float_book(old(self)@),
            final(self).wf(),
    {
        proof {
            crate::laws::lemma_float_book_wf(self@);
        }
        let mut combinators: Vec<Definition> = Vec::new();
        let mut defs = map_new();
        let n = self.len();
        let mut i: usize = 0;
        assert(view_defs(combinators@) =~= Seq::<SpecDefinition>::empty());
        while i < n
            invariant
                i <= n,
                n == self@.defs.len(),
                *self == *old(self),
                self.wf(),
                float_defs(self@, i as nat) == (RunState {
                    entries: crate::book::map_entries(defs),
                    minted: view_defs(combinators@),
                }),
            decreases n - i,
        {
            match self.def_at(i) {
                Some((key, def)) => {
                    let mut new_def = def.clone();
                    if !self.is_entrypoint(key) && new_def.rules.len() > 0 {
                        let mut name_gen: usize = 0;
                        let mut safe_defs: IndexSet<Name> = set_new();
                        let builtin = new_def.builtin;
                        new_def.rules[0].body.float_combinators(
                            &mut combinators,
                            &mut name_gen,
                            &*self,
                            key,
                            builtin,
                            &mut safe_defs,
                        );
                        assert(new_def@.rules =~= def@.rules.update(
                            0,
                            crate::book::SpecRule {
                                pats: def@.rules[0].pats,
                                body: new_def.rules@[0].body@,
                            },
                        ));
                    }
                    proof {
                        lemma_float_defs_keys(self@, i as nat);
                        lemma_find_entry(crate::book::map_entries(defs), key@);
                    }
                    match map_insert(&mut defs, key.clone(), new_def) {
                        Some(replaced) => {
                            replaced.dismantle();
                        },
                        None => {},
                    }
                },
                None => {},
            }
            i += 1;
        }
        let sorted = sort_by_name(combinators);
        extend_defs(&mut defs, sorted);
        core::mem::swap(&mut self.defs, &mut defs);
        crate::book::dismantle_defs(defs);
    }
}

} // verus!
