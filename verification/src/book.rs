//! Definitions and the program table that owns them.

use crate::term::{Name, SpecTerm, Term};
use indexmap::IndexMap;
use std::hash::RandomState;
use vstd::prelude::*;

verus! {

/// A flat pattern of a rule.
#[allow(inconsistent_fields)]
#[derive(Debug, PartialEq, Eq)]
pub enum Pattern {
    /// A variable, or a wildcard where there is no name.
    Var { nam: Option<Name> },
    /// A number literal.
    Num { val: u32 },
    /// A constructor applied to variables.
    Ctr { nam: Name, args: Vec<Name> },
}

/// One equation of a definition.
#[derive(Debug, PartialEq, Eq)]
pub struct Rule {
    pub pats: Vec<Pattern>,
    pub body: Term,
}

/// A named top-level definition.
#[derive(Debug, PartialEq, Eq)]
pub struct Definition {
    pub name: Name,
    pub rules: Vec<Rule>,
    /// Whether the runtime provides the definition.
    pub builtin: bool,
}

/// The whole program: the definitions in the order in which they were added,
/// each under its name, and the name of the entrypoint.
#[derive(Debug)]
pub struct Book {
    pub defs: IndexMap<Name, Definition>,
    pub entrypoint: Option<Name>,
}

/// The model of a [`Pattern`].
#[allow(inconsistent_fields)]
pub enum SpecPattern {
    Var { nam: Option<Seq<char>> },
    Num { val: u32 },
    Ctr { nam: Seq<char>, args: Seq<Seq<char>> },
}

/// The model of a [`Rule`].
pub struct SpecRule {
    pub pats: Seq<SpecPattern>,
    pub body: SpecTerm,
}

/// The model of a [`Definition`].
pub struct SpecDefinition {
    pub name: Seq<char>,
    pub rules: Seq<SpecRule>,
    pub builtin: bool,
}

/// The model of a [`Book`]: its entries in order, each a name and a
/// definition, and the entrypoint.
pub struct SpecBook {
    pub defs: Seq<(Seq<char>, SpecDefinition)>,
    pub entrypoint: Option<Seq<char>>,
}

impl View for Pattern {
    type V = SpecPattern;

    open spec fn view(&self) -> SpecPattern {
        match self {
            Pattern::Var { nam } => SpecPattern::Var { nam: crate::term::view_opt_name(*nam) },
            Pattern::Num { val } => SpecPattern::Num { val: *val },
            Pattern::Ctr { nam, args } => SpecPattern::Ctr {
                nam: nam@,
                args: args@.map_values(|a: Name| a@),
            },
        }
    }
}

impl View for Rule {
    type V = SpecRule;

    open spec fn view(&self) -> SpecRule {
        SpecRule { pats: self.pats@.map_values(|p: Pattern| p@), body: self.body@ }
    }
}

impl View for Definition {
    type V = SpecDefinition;

    open spec fn view(&self) -> SpecDefinition {
        SpecDefinition {
            name: self.name@,
            rules: self.rules@.map_values(|r: Rule| r@),
            builtin: self.builtin,
        }
    }
}

impl SpecDefinition {
    /// The body of the first rule, which is the one that the analyses read.
    pub open spec fn body(self) -> Option<SpecTerm> {
        if self.rules.len() > 0 {
            Some(self.rules[0].body)
        } else {
            None
        }
    }

    /// The definition that holds `body` as its only rule, without patterns.
    pub open spec fn combinator(name: Seq<char>, body: SpecTerm, builtin: bool) -> SpecDefinition {
        SpecDefinition { name, rules: seq![SpecRule { pats: Seq::empty(), body }], builtin }
    }

    /// The definition with the body of its first rule replaced.
    pub open spec fn with_body(self, body: SpecTerm) -> SpecDefinition {
        if self.rules.len() > 0 {
            SpecDefinition {
                rules: self.rules.update(0, SpecRule { pats: self.rules[0].pats, body }),
                ..self
            }
        } else {
            self
        }
    }
}

impl Clone for Pattern {
    fn clone(&self) -> (r: Pattern)
        ensures
            r@ == self@,
    {
        match self {
            Pattern::Var { nam } => {
                let nam = crate::term::duplicate_opt_name(nam);
                Pattern::Var { nam }
            },
            Pattern::Num { val } => Pattern::Num { val: *val },
            Pattern::Ctr { nam, args } => {
                let mut out: Vec<Name> = Vec::new();
                let mut i: usize = 0;
                while i < args.len()
                    invariant
                        i <= args.len(),
                        out@.len() == i,
                        forall|j: int| 0 <= j < i ==> (#[trigger] out@[j])@ == args@[j]@,
                    decreases args.len() - i,
                {
                    out.push(args[i].clone());
                    i += 1;
                }
                assert(out@.map_values(|a: Name| a@) =~= args@.map_values(|a: Name| a@));
                Pattern::Ctr { nam: nam.clone(), args: out }
            },
        }
    }
}

impl Clone for Rule {
    fn clone(&self) -> (r: Rule)
        ensures
            r@ == self@,
    {
        let mut pats: Vec<Pattern> = Vec::new();
        let mut i: usize = 0;
        while i < self.pats.len()
            invariant
                i <= self.pats.len(),
                pats@.len() == i,
                forall|j: int| 0 <= j < i ==> (#[trigger] pats@[j])@ == self.pats@[j]@,
            decreases self.pats.len() - i,
        {
            pats.push(self.pats[i].clone());
            i += 1;
        }
        assert(pats@.map_values(|p: Pattern| p@) =~= self.pats@.map_values(|p: Pattern| p@));
        Rule { pats, body: self.body.clone() }
    }
}

impl Clone for Definition {
    fn clone(&self) -> (r: Definition)
        ensures
            r@ == self@,
    {
        let mut rules: Vec<Rule> = Vec::new();
        let mut i: usize = 0;
        while i < self.rules.len()
            invariant
                i <= self.rules.len(),
                rules@.len() == i,
                forall|j: int| 0 <= j < i ==> (#[trigger] rules@[j])@ == self.rules@[j]@,
            decreases self.rules.len() - i,
        {
            rules.push(self.rules[i].clone());
            i += 1;
        }
        assert(rules@.map_values(|r: Rule| r@) =~= self.rules@.map_values(|r: Rule| r@));
        Definition { name: self.name.clone(), rules, builtin: self.builtin }
    }
}

impl Clone for Book {
    /// A copy of the book, definition by definition.
    fn clone(&self) -> (r: Book)
        ensures
            self.wf() ==> r@ == self@,
    {
        let mut defs = map_new();
        let n = map_len(&self.defs);
        let mut i: usize = 0;
        while i < n
            invariant
                i <= n,
                n == self@.defs.len(),
                self.wf() ==> map_entries(defs) == self@.defs.take(i as int),
            decreases n - i,
        {
            match map_get_index(&self.defs, i) {
                Some((key, def)) => {
                    proof {
                        if self.wf() {
                            lemma_find_entry(self@.defs.take(i as int), key@);
                            assert(self@.defs.take(i + 1) =~= self@.defs.take(i as int).push(
                                (key@, def@),
                            ));
                        }
                    }
                    map_insert(&mut defs, key.clone(), def.clone());
                },
                None => {},
            }
            i += 1;
        }
        assert(self@.defs.take(n as int) =~= self@.defs);
        let entrypoint = crate::term::duplicate_opt_name(&self.entrypoint);
        Book { defs, entrypoint }
    }
}

impl Definition {
    /// The definition that holds `body` as its only rule, without patterns.
    pub fn combinator(name: Name, body: Term, builtin: bool) -> (r: Definition)
        ensures
            r@ == SpecDefinition::combinator(name@, body@, builtin),
    {
        let mut rules: Vec<Rule> = Vec::new();
        rules.push(Rule { pats: Vec::new(), body });
        let r = Definition { name, rules, builtin };
        assert(r@.rules =~= seq![SpecRule { pats: Seq::empty(), body: body@ }]) by {
            assert(r.rules@[0]@.pats =~= Seq::<SpecPattern>::empty());
        }
        r
    }

    /// Gives the definition up node by node, so that bodies of any depth
    /// go without deep recursion.
    pub fn dismantle(self) {
        let mut rules = self.rules;
        while rules.len() > 0
            decreases rules.len(),
        {
            let rule = rules.pop().unwrap();
            rule.body.dismantle();
        }
    }

    /// The body of the first rule, where there is one.
    pub fn body(&self) -> (r: Option<&Term>)
        ensures
            match r {
                Some(t) => self@.body() == Some(t@),
                None => self@.body().is_none(),
            },
    {
        if self.rules.len() > 0 {
            Some(&self.rules[0].body)
        } else {
            None
        }
    }
}

/// The first position of `entries` that holds `key`.
pub open spec fn find_entry(entries: Seq<(Seq<char>, SpecDefinition)>, key: Seq<char>) -> Option<int>
    decreases entries.len(),
{
    if entries.len() == 0 {
        None
    } else {
        match find_entry(entries.drop_last(), key) {
            Some(i) => Some(i),
            None => if entries.last().0 == key {
                Some(entries.len() - 1)
            } else {
                None
            },
        }
    }
}

/// The definition that `entries` holds under `key`.
pub open spec fn lookup(entries: Seq<(Seq<char>, SpecDefinition)>, key: Seq<char>) -> Option<
    SpecDefinition,
> {
    match find_entry(entries, key) {
        Some(i) => Some(entries[i].1),
        None => None,
    }
}

/// `entries` after `def` was put under `key`: in the place of the entry that
/// held the key, or else behind all the others.
pub open spec fn put_entry(
    entries: Seq<(Seq<char>, SpecDefinition)>,
    key: Seq<char>,
    def: SpecDefinition,
) -> Seq<(Seq<char>, SpecDefinition)> {
    match find_entry(entries, key) {
        Some(i) => entries.update(i, (key, def)),
        None => entries.push((key, def)),
    }
}

/// No two entries hold the same key.
pub open spec fn distinct_keys(entries: Seq<(Seq<char>, SpecDefinition)>) -> bool {
    forall|i: int, j: int|
        0 <= i < j < entries.len() ==> (#[trigger] entries[i]).0 != (#[trigger] entries[j]).0
}

/// What `find_entry` finds: the least position with the key, if there is one.
pub proof fn lemma_find_entry(entries: Seq<(Seq<char>, SpecDefinition)>, key: Seq<char>)
    ensures
        match find_entry(entries, key) {
            Some(i) => 0 <= i < entries.len() && entries[i].0 == key && forall|j: int|
                0 <= j < i ==> (#[trigger] entries[j]).0 != key,
            None => forall|j: int| 0 <= j < entries.len() ==> (#[trigger] entries[j]).0 != key,
        },
    decreases entries.len(),
{
    if entries.len() > 0 {
        let pre = entries.drop_last();
        lemma_find_entry(pre, key);
        assert forall|j: int| 0 <= j < pre.len() implies (#[trigger] entries[j]) == pre[j] by {}
    }
}

/// Putting a definition keeps the keys distinct.
pub proof fn lemma_put_entry_distinct(
    entries: Seq<(Seq<char>, SpecDefinition)>,
    key: Seq<char>,
    def: SpecDefinition,
)
    requires
        distinct_keys(entries),
    ensures
        distinct_keys(put_entry(entries, key, def)),
{
    lemma_find_entry(entries, key);
}

/// What an `indexmap::IndexMap` of definitions holds: its entries in the
/// order of the table, each a key and a definition, by their models.
pub uninterp spec fn map_entries(m: IndexMap<Name, Definition, RandomState>) -> Seq<
    (Seq<char>, SpecDefinition),
>;

/// `indexmap::IndexMap::new`: the table without entries.
#[verifier::external_body]
pub(crate) fn map_new() -> (m: IndexMap<Name, Definition>)
    ensures
        map_entries(m) == Seq::<(Seq<char>, SpecDefinition)>::empty(),
{
    IndexMap::new()
}

/// `indexmap::IndexMap::len`: the number of entries.
#[verifier::external_body]
fn map_len(m: &IndexMap<Name, Definition>) -> (n: usize)
    ensures
        n == map_entries(*m).len(),
{
    m.len()
}

/// `indexmap::IndexMap::get`: the definition of the entry with this key, if
/// there is such an entry.
#[verifier::external_body]
fn map_get<'a>(m: &'a IndexMap<Name, Definition>, key: &Name) -> (r: Option<&'a Definition>)
    ensures
        match r {
            Some(d) => lookup(map_entries(*m), key@) == Some(d@),
            None => lookup(map_entries(*m), key@).is_none(),
        },
{
    m.get(key)
}

/// `indexmap::IndexMap::get_index`: the key and the definition of the entry
/// at a position, if the position is below the length.
#[verifier::external_body]
fn map_get_index(m: &IndexMap<Name, Definition>, i: usize) -> (r: Option<(&Name, &Definition)>)
    ensures
        match r {
            Some(e) => {
                &&& i < map_entries(*m).len()
                &&& e.0@ == map_entries(*m)[i as int].0
                &&& e.1@ == map_entries(*m)[i as int].1
            },
            None => i >= map_entries(*m).len(),
        },
{
    m.get_index(i)
}

/// `indexmap::IndexMap::insert`: where an entry holds the key, its
/// definition is replaced in place and handed back; otherwise a new entry
/// goes behind all the others.
#[verifier::external_body]
pub(crate) fn map_insert(m: &mut IndexMap<Name, Definition>, key: Name, def: Definition) -> (prev:
    Option<Definition>)
    ensures
        map_entries(*final(m)) == put_entry(map_entries(*old(m)), key@, def@),
        match prev {
            Some(d) => lookup(map_entries(*old(m)), key@) == Some(d@),
            None => lookup(map_entries(*old(m)), key@).is_none(),
        },
{
    m.insert(key, def)
}

/// `indexmap::IndexMap::pop`: takes the last entry off the table and hands
/// it out, if the table has an entry.
#[verifier::external_body]
pub(crate) fn map_pop(m: &mut IndexMap<Name, Definition>) -> (r: Option<(Name, Definition)>)
    ensures
        match r {
            Some(e) => {
                &&& map_entries(*old(m)).len() > 0
                &&& map_entries(*final(m)) == map_entries(*old(m)).drop_last()
                &&& e.0@ == map_entries(*old(m)).last().0
                &&& e.1@ == map_entries(*old(m)).last().1
            },
            None => map_entries(*old(m)).len() == 0 && map_entries(*final(m)) == map_entries(
                *old(m),
            ),
        },
{
    m.pop()
}

/// Gives a table up entry by entry, and each definition node by node.
pub(crate) fn dismantle_defs(defs: IndexMap<Name, Definition>) {
    let mut defs = defs;
    loop
        decreases map_entries(defs).len(),
    {
        match map_pop(&mut defs) {
            Some(e) => {
                e.1.dismantle();
            },
            None => {
                return ;
            },
        }
    }
}

impl View for Book {
    type V = SpecBook;

    open spec fn view(&self) -> SpecBook {
        SpecBook {
            defs: map_entries(self.defs),
            entrypoint: crate::term::view_opt_name(self.entrypoint),
        }
    }
}

impl Book {
    /// No two definitions of the book have the same name.
    pub open spec fn wf(&self) -> bool {
        distinct_keys(self@.defs)
    }

    /// The book without definitions and without an entrypoint.
    pub fn new() -> (r: Book)
        ensures
            r@.defs.len() == 0,
            r@.entrypoint.is_none(),
            r.wf(),
    {
        Book { defs: map_new(), entrypoint: None }
    }

    /// Gives the book up node by node, so that bodies of any depth go
    /// without deep recursion.
    pub fn dismantle(self) {
        dismantle_defs(self.defs);
    }

    /// The number of definitions.
    pub fn len(&self) -> (n: usize)
        ensures
            n == self@.defs.len(),
    {
        map_len(&self.defs)
    }

    /// Puts `def` into the book under its own name. A definition that had
    /// the name is replaced where it stood and handed back.
    pub fn add_def(&mut self, def: Definition) -> (prev: Option<Definition>)
        ensures
            final(self)@.defs == put_entry(old(self)@.defs, def@.name, def@),
            final(self)@.entrypoint == old(self)@.entrypoint,
            old(self).wf() ==> final(self).wf(),
            match prev {
                Some(d) => lookup(old(self)@.defs, def@.name) == Some(d@),
                None => lookup(old(self)@.defs, def@.name).is_none(),
            },
    {
        proof {
            if old(self).wf() {
                lemma_put_entry_distinct(old(self)@.defs, def@.name, def@);
            }
        }
        let key = def.name.clone();
        map_insert(&mut self.defs, key, def)
    }

    /// The definition of this name, if the book has one.
    pub fn get_def(&self, name: &Name) -> (r: Option<&Definition>)
        ensures
            match r {
                Some(d) => lookup(self@.defs, name@) == Some(d@),
                None => lookup(self@.defs, name@).is_none(),
            },
    {
        map_get(&self.defs, name)
    }

    /// The name and the definition at position `i`, if the book has as many
    /// definitions.
    pub fn def_at(&self, i: usize) -> (r: Option<(&Name, &Definition)>)
        ensures
            match r {
                Some(e) => {
                    &&& i < self@.defs.len()
                    &&& e.0@ == self@.defs[i as int].0
                    &&& e.1@ == self@.defs[i as int].1
                },
                None => i >= self@.defs.len(),
            },
    {
        map_get_index(&self.defs, i)
    }

    /// Whether `name` is the entrypoint.
    pub fn is_entrypoint(&self, name: &Name) -> (r: bool)
        ensures
            r == (self@.entrypoint == Some(name@)),
    {
        match &self.entrypoint {
            Some(e) => *e == *name,
            None => false,
        }
    }
}

/// `indexmap::IndexMap`, a table that keeps its entries in the order in
/// which their keys were first put in. Nothing of its inside is known.
#[verifier::external_type_specification]
#[verifier::external_body]
#[verifier::reject_recursive_types(K)]
#[verifier::reject_recursive_types(V)]
#[verifier::reject_recursive_types(S)]
pub struct ExIndexMap<K, V, S>(IndexMap<K, V, S>);

} // verus!
