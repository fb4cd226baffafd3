//! A small text rewriting engine.
//!
//! The engine repeatedly transforms a document by locating the next
//! reducible region of text, replacing it with computed output, and
//! rescanning, until no rewrite applies (a fixpoint).  The rules that drive
//! it may grow while it runs: a rewrite can register new handlers or push
//! new pattern rules that later rewrites of the same run then use.
//!
//! Two matching modes are offered.  In group mode the [`Executor`] locates
//! the innermost delimited group `(name;param;...)`, resolves `name`
//! against a [`Registry`] of substitution handlers, and splices the
//! handler's replacement over the group.  In pattern mode a
//! [`rules::RuleStack`] of whole-text rules is tried most-recently-pushed
//! first, and the winning rule rewrites the span its pattern matches.  The
//! [`parser`] module additionally offers a one-shot structural view of a
//! whole program.

pub mod locate;
pub mod parser;
pub mod rules;
mod seqtool;
mod template;

pub use locate::LocatedGroup;
pub use template::Template;
pub use template::TemplatePart;

use vstd::prelude::*;
use vstd::string::StrSliceExecFns;
use vstd::string::StringExecFns;

use crate::template::push_char;

verus! {

/// The ordered parameter list handed to a substitution handler.
pub struct Parameters {
    values: Vec<String>,
}

impl View for Parameters {
    type V = Seq<Seq<char>>;

    closed spec fn view(&self) -> Seq<Seq<char>> {
        self.values.deep_view()
    }
}

impl Parameters {
    /// Wraps an ordered list of parameter values.
    pub fn new(values: Vec<String>) -> (r: Parameters)
        ensures
            r@ == values.deep_view(),
    {
        Parameters { values }
    }

    /// The parameter at `index`, or the empty string where there is none.
    pub fn get(&self, index: usize) -> (r: &str)
        ensures
            index < self@.len() ==> r@ == self@[index as int],
            index >= self@.len() ==> r@ == Seq::<char>::empty(),
    {
        if index < self.values.len() {
            let s: &String = &self.values[index];
            proof {
                assert(s@ == self@[index as int]);
            }
            s.as_str()
        } else {
            let r = "";
            proof {
                reveal_strlit("");
                assert(r@ =~= Seq::<char>::empty());
            }
            r
        }
    }
}

/// The computation bound to a name: a user-supplied collaborator that turns
/// an ordered parameter list into a replacement and registry mutations.
pub trait Substitution: Sized {
    /// Computes the substitution's result for the given parameters.
    fn execute(&self, parameters: &Parameters) -> SubstitutionResult<Self>;
}

/// A handler held by the registry: a static template with positional
/// placeholders, or a user-supplied function.
pub enum SubstitutionHandler<F> {
    Template(Template),
    Function(F),
}

/// A registry mutation requested by a handler.
pub enum SubstitutionAction<F> {
    NewSubstitution { name: String, substitution: SubstitutionHandler<F> },
}

/// What a handler hands back: the replacement text, and the registry
/// mutations to apply before the next scan.
pub struct SubstitutionResult<F> {
    pub replacement: String,
    pub actions: Vec<SubstitutionAction<F>>,
}

impl<F: Substitution> SubstitutionHandler<F> {
    /// Applies the handler to the given parameters.  A template handler
    /// renders itself and requests no mutation; what a function handler
    /// returns is its own business.
    pub fn apply(&self, parameters: &Parameters) -> (r: SubstitutionResult<F>)
        ensures
            self matches SubstitutionHandler::Template(t) ==> r.replacement@
                == template::render_parts(t@, parameters@) && r.actions@.len() == 0,
    {
        match self {
            SubstitutionHandler::Template(t) => SubstitutionResult {
                replacement: t.render(parameters),
                actions: Vec::new(),
            },
            SubstitutionHandler::Function(f) => f.execute(parameters),
        }
    }
}

/// The name a registry mutation registers.
pub open spec fn action_name<F>(action: SubstitutionAction<F>) -> Seq<char> {
    match action {
        SubstitutionAction::NewSubstitution { name, substitution } => name@,
    }
}

/// The handler a registry mutation registers.
pub open spec fn action_handler<F>(action: SubstitutionAction<F>) -> SubstitutionHandler<F> {
    match action {
        SubstitutionAction::NewSubstitution { name, substitution } => substitution,
    }
}

/// The registry after the given mutations, applied in order: each one binds
/// a name to a handler, overwriting any earlier binding of that name.
pub open spec fn apply_actions_map<F>(
    m: Map<Seq<char>, SubstitutionHandler<F>>,
    acts: Seq<SubstitutionAction<F>>,
) -> Map<Seq<char>, SubstitutionHandler<F>>
    decreases acts.len(),
{
    if acts.len() == 0 {
        m
    } else {
        apply_actions_map(m.insert(action_name(acts[0]), action_handler(acts[0])), acts.drop_first())
    }
}

/// Applying mutations never removes a name: the registry only grows.
pub proof fn lemma_apply_actions_monotone<F>(
    m: Map<Seq<char>, SubstitutionHandler<F>>,
    acts: Seq<SubstitutionAction<F>>,
)
    ensures
        m.dom() <= apply_actions_map(m, acts).dom(),
    decreases acts.len(),
{
    if acts.len() > 0 {
        lemma_apply_actions_monotone(m.insert(action_name(acts[0]), action_handler(acts[0])), acts.drop_first());
    }
}

/// Dynamic registration takes effect: every name that the mutations bind is
/// resolvable in the registry that comes out, so groups invoking it resolve
/// from the next scan on.
pub proof fn lemma_actions_register<F>(
    m: Map<Seq<char>, SubstitutionHandler<F>>,
    acts: Seq<SubstitutionAction<F>>,
    j: int,
)
    requires
        0 <= j < acts.len(),
    ensures
        apply_actions_map(m, acts).dom().contains(action_name(acts[j])),
    decreases acts.len(),
{
    let m1 = m.insert(action_name(acts[0]), action_handler(acts[0]));
    if j == 0 {
        lemma_apply_actions_monotone(m1, acts.drop_first());
    } else {
        lemma_actions_register(m1, acts.drop_first(), j - 1);
        assert(acts.drop_first()[j - 1] == acts[j]);
    }
}

/// One rewrite of the engine, from a registry and document to the registry
/// and document after it: the locator finds a group whose name the registry
/// resolves, some replacement is spliced over exactly that group's span,
/// and the registry evolves by some action list applied in order.  Where
/// the group's handler is a template, the replacement is exactly the
/// template's rendering against the group's parameters and the registry is
/// untouched.
pub open spec fn engine_step<F>(
    m1: Map<Seq<char>, SubstitutionHandler<F>>,
    t1: Seq<char>,
    m2: Map<Seq<char>, SubstitutionHandler<F>>,
    t2: Seq<char>,
) -> bool {
    locate::find(t1, m1.dom()) matches Some(g) && ({
        &&& (exists|rep: Seq<char>|
            t2 == t1.subrange(0, g.open) + rep + t1.subrange(g.close + 1, t1.len() as int))
        &&& (exists|acts: Seq<SubstitutionAction<F>>| m2 == apply_actions_map(m1, acts))
        &&& (m1[g.name] matches SubstitutionHandler::Template(t) ==> t2 == t1.subrange(0, g.open)
            + template::render_parts(t@, g.params) + t1.subrange(g.close + 1, t1.len() as int)
            && m2 == m1)
    })
}

/// The registry and document `(m2, t2)` are what `(m1, t1)` becomes after
/// exactly `n` rewrites of the engine.
pub open spec fn engine_reaches<F>(
    m1: Map<Seq<char>, SubstitutionHandler<F>>,
    t1: Seq<char>,
    m2: Map<Seq<char>, SubstitutionHandler<F>>,
    t2: Seq<char>,
    n: nat,
) -> bool
    decreases n,
{
    if n == 0 {
        m2 == m1 && t2 == t1
    } else {
        exists|m: Map<Seq<char>, SubstitutionHandler<F>>, t: Seq<char>|
            engine_step(m1, t1, m, t) && engine_reaches(m, t, m2, t2, (n - 1) as nat)
    }
}

/// One more rewrite at the end of a chain extends the chain by one.
pub proof fn lemma_engine_reaches_snoc<F>(
    m1: Map<Seq<char>, SubstitutionHandler<F>>,
    t1: Seq<char>,
    m2: Map<Seq<char>, SubstitutionHandler<F>>,
    t2: Seq<char>,
    m3: Map<Seq<char>, SubstitutionHandler<F>>,
    t3: Seq<char>,
    n: nat,
)
    requires
        engine_reaches(m1, t1, m2, t2, n),
        engine_step(m2, t2, m3, t3),
    ensures
        engine_reaches(m1, t1, m3, t3, n + 1),
    decreases n,
{
    if n == 0 {
        assert(engine_step(m1, t1, m3, t3) && engine_reaches(m3, t3, m3, t3, 0));
    } else {
        let (m, t) = choose|m: Map<Seq<char>, SubstitutionHandler<F>>, t: Seq<char>|
            engine_step(m1, t1, m, t) && engine_reaches(m, t, m2, t2, (n - 1) as nat);
        lemma_engine_reaches_snoc(m, t, m2, t2, m3, t3, (n - 1) as nat);
        assert(engine_step(m1, t1, m, t) && engine_reaches(m, t, m3, t3, n));
    }
}

/// The mutable mapping from name to handler.  Bindings are only ever added,
/// never removed; binding a bound name shadows the older handler.
pub struct Registry<F> {
    entries: Vec<(String, SubstitutionHandler<F>)>,
}

/// The mapping that a sequence of bindings, later ones shadowing earlier
/// ones, amounts to.
pub closed spec fn reg_map<F>(entries: Seq<(String, SubstitutionHandler<F>)>) -> Map<
    Seq<char>,
    SubstitutionHandler<F>,
>
    decreases entries.len(),
{
    if entries.len() == 0 {
        Map::empty()
    } else {
        reg_map(entries.drop_last()).insert(entries.last().0@, entries.last().1)
    }
}

impl<F> View for Registry<F> {
    type V = Map<Seq<char>, SubstitutionHandler<F>>;

    closed spec fn view(&self) -> Map<Seq<char>, SubstitutionHandler<F>> {
        reg_map(self.entries@)
    }
}

proof fn lemma_reg_map_get<F>(entries: Seq<(String, SubstitutionHandler<F>)>, n: Seq<char>, k: int)
    requires
        0 <= k < entries.len(),
        entries[k].0@ == n,
        forall|l: int| k < l < entries.len() ==> #[trigger] entries[l].0@ != n,
    ensures
        reg_map(entries).dom().contains(n),
        reg_map(entries)[n] == entries[k].1,
    decreases entries.len(),
{
    if k == entries.len() - 1 {
    } else {
        lemma_reg_map_get(entries.drop_last(), n, k);
    }
}

proof fn lemma_reg_map_absent<F>(entries: Seq<(String, SubstitutionHandler<F>)>, n: Seq<char>)
    requires
        forall|l: int| 0 <= l < entries.len() ==> #[trigger] entries[l].0@ != n,
    ensures
        !reg_map(entries).dom().contains(n),
    decreases entries.len(),
{
    if entries.len() > 0 {
        lemma_reg_map_absent(entries.drop_last(), n);
    }
}

impl<F> Registry<F> {
    /// The empty registry.
    pub fn new() -> (r: Registry<F>)
        ensures
            r@ == Map::<Seq<char>, SubstitutionHandler<F>>::empty(),
    {
        Registry { entries: Vec::new() }
    }

    /// Binds `name` to `substitution`, shadowing any earlier binding.
    pub fn insert(&mut self, name: String, substitution: SubstitutionHandler<F>)
        ensures
            final(self)@ == old(self)@.insert(name@, substitution),
    {
        let ghost before = self.entries@;
        self.entries.push((name, substitution));
        proof {
            assert(self.entries@.drop_last() =~= before);
        }
    }

    /// The handler bound to `name`, or nothing where the name is unbound.
    pub fn resolve(&self, name: &String) -> (r: Option<&SubstitutionHandler<F>>)
        ensures
            r is Some <==> self@.dom().contains(name@),
            r matches Some(h) ==> *h == self@[name@],
    {
        let mut k: usize = self.entries.len();
        while k > 0
            invariant
                k <= self.entries@.len(),
                forall|l: int| k <= l < self.entries@.len() ==> #[trigger] self.entries@[l].0@
                    != name@,
            decreases k,
        {
            k = k - 1;
            if self.entries[k].0 == *name {
                proof {
                    lemma_reg_map_get(self.entries@, name@, k as int);
                }
                return Some(&self.entries[k].1);
            }
        }
        proof {
            lemma_reg_map_absent(self.entries@, name@);
        }
        None
    }

    /// Applies registry mutations in order.
    pub fn apply_actions(&mut self, actions: Vec<SubstitutionAction<F>>)
        ensures
            final(self)@ == apply_actions_map(old(self)@, actions@),
    {
        let ghost m0 = self@;
        let ghost acts0 = actions@;
        let mut actions = actions;
        while actions.len() > 0
            invariant
                apply_actions_map(self@, actions@) == apply_actions_map(m0, acts0),
            decreases actions@.len(),
        {
            let ghost before = actions@;
            let action = actions.remove(0);
            proof {
                assert(actions@ =~= before.drop_first());
            }
            match action {
                SubstitutionAction::NewSubstitution { name, substitution } => {
                    self.insert(name, substitution);
                },
            }
        }
    }
}

/// Drives repeated single-step reduction of a document against a registry of
/// substitutions, until no group resolves any more.
pub struct Executor<F> {
    pub substitutions: Registry<F>,
}

impl<F: Substitution> Executor<F> {
    /// The set of names the executor's registry resolves.
    pub open spec fn names(&self) -> Set<Seq<char>> {
        self.substitutions@.dom()
    }

    /// Locates the first complete group of `program` whose name resolves,
    /// and applies its handler.  Returns the untouched text before the
    /// group, the handler's result, and the untouched text after the group;
    /// or nothing where no group resolves.
    pub fn find_group<'a>(&self, program: &'a str) -> (r: Option<
        (&'a str, SubstitutionResult<F>, &'a str),
    >)
        ensures
            r is None <==> locate::find(program@, self.names()) is None,
            r matches Some(found) ==> {
                let g = locate::find(program@, self.names())->Some_0;
                &&& found.0@ == program@.subrange(0, g.open)
                &&& found.2@ == program@.subrange(g.close + 1, program@.len() as int)
                &&& (self.substitutions@[g.name] matches SubstitutionHandler::Template(t)
                    ==> found.1.replacement@ == template::render_parts(t@, g.params)
                    && found.1.actions@.len() == 0)
            },
    {
        let ghost s = program@;
        let ghost names = self.names();
        let len = program.unicode_len();
        let mut i: usize = 0;
        let mut opening: Option<usize> = None;
        let mut items: Vec<String> = Vec::new();
        let mut cur: String = String::new();
        proof {
            assert(items.deep_view() =~= Seq::<Seq<char>>::empty());
        }
        while i < len
            invariant
                s == program@,
                len == s.len(),
                0 <= i <= len,
                opening matches Some(o) ==> 0 <= o < i,
                names == self.names(),
                locate::scan(s, i as int, om(opening), items.deep_view(), cur@, names)
                    == locate::find(s, names),
            decreases len - i,
        {
            let ghost items0 = items.deep_view();
            let ghost cur0 = cur@;
            let c = program.get_char(i);
            if c == '\\' {
                if i + 1 >= len {
                    return None;
                }
                let c2 = program.get_char(i + 1);
                push_char(&mut cur, c2);
                i = i + 2;
            } else if c == '(' {
                opening = Some(i);
                items = Vec::new();
                cur = String::new();
                proof {
                    assert(items.deep_view() =~= Seq::<Seq<char>>::empty());
                }
                i = i + 1;
            } else if opening.is_some() {
                if c == ';' {
                    items.push(cur);
                    cur = String::new();
                    proof {
                        assert(items.deep_view() =~= items0.push(cur0));
                    }
                    i = i + 1;
                } else if c == ')' {
                    items.push(cur);
                    cur = String::new();
                    proof {
                        assert(items.deep_view() =~= items0.push(cur0));
                    }
                    let ghost all = items0.push(cur0);
                    let first = &items[0];
                    proof {
                        assert(first@ == all[0]);
                    }
                    match self.substitutions.resolve(first) {
                        Some(handler) => {
                            let mut params: Vec<String> = Vec::new();
                            let mut k: usize = 1;
                            while k < items.len()
                                invariant
                                    1 <= k <= items@.len(),
                                    items.deep_view() == all,
                                    params.deep_view() =~= all.subrange(1, k as int),
                                decreases items@.len() - k,
                            {
                                let ghost params0 = params.deep_view();
                                params.push(items[k].clone());
                                proof {
                                    assert(params.deep_view() =~= params0.push(all[k as int]));
                                    assert(params0.push(all[k as int]) =~= all.subrange(
                                        1,
                                        k as int + 1,
                                    ));
                                }
                                k = k + 1;
                            }
                            proof {
                                assert(params.deep_view() =~= all.drop_first());
                            }
                            let parameters = Parameters::new(params);
                            let result = handler.apply(&parameters);
                            let o = opening.unwrap();
                            let before = program.substring_char(0, o);
                            let after = program.substring_char(i + 1, len);
                            return Some((before, result, after));
                        },
                        None => {
                            opening = None;
                            items = Vec::new();
                            cur = String::new();
                            proof {
                                assert(items.deep_view() =~= Seq::<Seq<char>>::empty());
                            }
                            i = i + 1;
                        },
                    }
                } else {
                    push_char(&mut cur, c);
                    i = i + 1;
                }
            } else {
                i = i + 1;
            }
        }
        None
    }

    /// Performs at most one rewrite: locates the first resolvable group,
    /// splices its handler's replacement over the group's span, leaving the
    /// text around it untouched, and applies the requested registry
    /// mutations.  Returns the new document, or nothing — with the registry
    /// untouched — where no group resolves.  A template handler's rewrite
    /// is exact and mutates nothing; whatever a function handler returns,
    /// the text outside the group's span is kept, the registry changes only
    /// by the requested bindings, and no binding is lost.
    pub fn step(&mut self, program: &str) -> (r: Option<String>)
        ensures
            r is None <==> locate::find(program@, old(self).names()) is None,
            r is None ==> *final(self) == *old(self),
            old(self).names() <= final(self).names(),
            r matches Some(next) ==> ({
                let g = locate::find(program@, old(self).names())->Some_0;
                &&& (exists|rep: Seq<char>|
                    next@ == program@.subrange(0, g.open) + rep + program@.subrange(
                        g.close + 1,
                        program@.len() as int,
                    ))
                &&& (exists|acts: Seq<SubstitutionAction<F>>|
                    final(self).substitutions@ == apply_actions_map(
                        old(self).substitutions@,
                        acts,
                    ))
                &&& (old(self).substitutions@[g.name] matches SubstitutionHandler::Template(t)
                    ==> next@ == program@.subrange(0, g.open) + template::render_parts(
                        t@,
                        g.params,
                    ) + program@.subrange(g.close + 1, program@.len() as int)
                    && final(self).substitutions@ == old(self).substitutions@)
            }),
    {
        match self.find_group(program) {
            None => None,
            Some((before, result, after)) => {
                let next = String::from_str(before).concat(result.replacement.as_str()).concat(
                    after,
                );
                let actions = result.actions;
                let ghost g = locate::find(program@, old(self).names())->Some_0;
                proof {
                    lemma_apply_actions_monotone(self.substitutions@, actions@);
                    assert(next@ == program@.subrange(0, g.open) + result.replacement@
                        + program@.subrange(g.close + 1, program@.len() as int));
                }
                self.substitutions.apply_actions(actions);
                Some(next)
            },
        }
    }

    /// Reduces `program` toward a fixpoint, spending at most `max_steps`
    /// rewrites: repeatedly locates the first resolvable group, splices the
    /// handler's replacement over it, applies the requested registry
    /// mutations, and rescans from the start.  A document without a
    /// resolvable group halts at once, unchanged and with the registry
    /// untouched.  A halted run's document and registry are what the input
    /// became under a chain of engine rewrites and have no resolvable group
    /// left, so running it again returns it identically.  The registry only
    /// ever grows.  A run that still has a resolvable group when the budget
    /// is spent surfaces that, with the document as it stood after exactly
    /// `max_steps` rewrites, distinctly from normal completion.
    pub fn execute_bounded(&mut self, program: String, max_steps: usize) -> (r: ExecutionOutcome)
        ensures
            locate::find(program@, old(self).names()) is None ==> (r
                matches ExecutionOutcome::Halted(t) && t@ == program@) && *final(self) == *old(
                self,
            ),
            r matches ExecutionOutcome::Halted(t) ==> locate::find(t@, final(self).names())
                is None && (exists|n: nat|
                n <= max_steps && engine_reaches(
                    old(self).substitutions@,
                    program@,
                    final(self).substitutions@,
                    t@,
                    n,
                )),
            r matches ExecutionOutcome::StepLimitExceeded(t) ==> locate::find(
                t@,
                final(self).names(),
            ) is Some && engine_reaches(
                old(self).substitutions@,
                program@,
                final(self).substitutions@,
                t@,
                max_steps as nat,
            ),
            old(self).names() <= final(self).names(),
    {
        let mut text = program;
        let mut steps = max_steps;
        loop
            invariant
                locate::find(program@, old(self).names()) is None ==> text@ == program@ && *self
                    == *old(self),
                old(self).names() <= self.names(),
                steps <= max_steps,
                engine_reaches(
                    old(self).substitutions@,
                    program@,
                    self.substitutions@,
                    text@,
                    (max_steps - steps) as nat,
                ),
            decreases steps,
        {
            let found = self.find_group(text.as_str());
            match found {
                None => {
                    proof {
                        assert(exists|n: nat|
                            n <= max_steps && engine_reaches(
                                old(self).substitutions@,
                                program@,
                                self.substitutions@,
                                text@,
                                n,
                            )) by {
                            assert(engine_reaches(
                                old(self).substitutions@,
                                program@,
                                self.substitutions@,
                                text@,
                                (max_steps - steps) as nat,
                            ));
                        }
                    }
                    return ExecutionOutcome::Halted(text);
                },
                Some((before, result, after)) => {
                    if steps == 0 {
                        return ExecutionOutcome::StepLimitExceeded(text);
                    }
                    steps = steps - 1;
                    let next = String::from_str(before).concat(result.replacement.as_str()).concat(
                        after,
                    );
                    let actions = result.actions;
                    let ghost m1 = self.substitutions@;
                    let ghost t1 = text@;
                    let ghost done = (max_steps - steps - 1) as nat;
                    text = next;
                    proof {
                        lemma_apply_actions_monotone(self.substitutions@, actions@);
                    }
                    self.substitutions.apply_actions(actions);
                    proof {
                        let g = locate::find(t1, m1.dom())->Some_0;
                        assert(text@ == t1.subrange(0, g.open) + result.replacement@
                            + t1.subrange(g.close + 1, t1.len() as int));
                        assert(self.substitutions@ == apply_actions_map(m1, actions@));
                        assert(engine_step(m1, t1, self.substitutions@, text@));
                        lemma_engine_reaches_snoc(
                            old(self).substitutions@,
                            program@,
                            m1,
                            t1,
                            self.substitutions@,
                            text@,
                            done,
                        );
                    }
                },
            }
        }
    }

    /// Reduces `program` to a fixpoint, as `execute_bounded` does with the
    /// largest budget there is: the result is what `program` became under a
    /// chain of engine rewrites, and either no group resolves in it any
    /// more or the whole budget was spent.  A rewriting system that would
    /// not halt within that many rewrites is a liveness hazard of the rule
    /// set, not of the engine; such a run hands back the document as it
    /// stood.
    pub fn execute(&mut self, program: String) -> (r: String)
        ensures
            locate::find(program@, old(self).names()) is None ==> r@ == program@ && *final(self)
                == *old(self),
            exists|n: nat|
                engine_reaches(
                    old(self).substitutions@,
                    program@,
                    final(self).substitutions@,
                    r@,
                    n,
                ) && (locate::find(r@, final(self).names()) is None || n == usize::MAX as nat),
            old(self).names() <= final(self).names(),
    {
        let r = match self.execute_bounded(program, usize::MAX) {
            ExecutionOutcome::Halted(t) => t,
            ExecutionOutcome::StepLimitExceeded(t) => t,
        };
        r
    }
}

/// How a bounded run ended: at the fixpoint, or out of budget with the
/// document as it stood.
pub enum ExecutionOutcome {
    Halted(String),
    StepLimitExceeded(String),
}

/// The locator's model of a partially scanned opening delimiter.
pub open spec fn om(opening: Option<usize>) -> Option<int> {
    match opening {
        Some(o) => Some(o as int),
        None => None,
    }
}

} // verus!
