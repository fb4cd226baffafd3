//! Whole-text pattern rules and the priority-ordered rule stack.
//!
//! A rule's pattern is written in a small wildcard language: `?` stands for
//! any one character, `*` for any sequence of characters, a backslash
//! escapes the character after it, and every other character stands for
//! itself.  A pattern may not begin with `*`, nor hold two adjacent `*`.
//! The pattern is compiled to a regular expression and run against the
//! whole current text; a rule rewrites the span of the pattern's first
//! match; each `*` takes the fewest characters that let the pattern
//! match.  Each `*` is a capture group, and the capture groups of a match,
//! the whole match first, are handed on as ordered parameters.
//!
//! Rules live on an append-only stack and are tried from the most recently
//! pushed down; the first whose pattern matches anywhere in the text wins.

use vstd::prelude::*;
use vstd::string::StringExecFns;

use crate::template::push_char;
use crate::template::render_parts;
use crate::template::Template;
use crate::ExecutionOutcome;
use crate::Parameters;

verus! {

/// The regex type of the regex crate, carried opaquely.
#[verifier::external_type_specification]
#[verifier::external_body]
pub struct ExRegex(regex::Regex);

/// Whether the regex crate compiles this pattern source: a function of the
/// source alone.
pub uninterp spec fn regex_compiles(pattern: Seq<char>) -> bool;

/// The outcome of running the compiled pattern against the text: the text
/// before the first match, the capture groups of that match with the whole
/// match first, and the text after it; or nothing where the pattern does
/// not match.  A function of the pattern source and the text alone.
pub uninterp spec fn regex_captures(pattern: Seq<char>, text: Seq<char>) -> Option<
    (Seq<char>, Seq<Seq<char>>, Seq<char>),
>;

/// Compiles a pattern source.
///
/// Relies on `regex::Regex::new`: it compiles the pattern source with the
/// crate's default configuration, and whether it succeeds depends on the
/// source alone.
#[verifier::external_body]
fn regex_compile(pattern: &str) -> (r: Option<regex::Regex>)
    ensures
        r is Some <==> regex_compiles(pattern@),
{
    regex::Regex::new(pattern).ok()
}

/// Runs a rule's compiled regex over the text and hands out the text
/// before the first match, the capture groups of that match as plain
/// strings with the whole match first, and the text after it.  A group
/// that took no part of the match comes out empty.
///
/// Relies on `regex::Regex::captures`: the first match and its capture
/// groups are a function of the pattern the regex was compiled from and
/// the text alone; group 0 is the whole match, and the text is the
/// concatenation of what stands before it, the match, and what stands
/// after it.  The `regex` field of a rule is always the compilation of its
/// `pattern` field: both are private, and only `PatternRule::new` builds a
/// rule.
#[verifier::external_body]
fn regex_find_captures<R>(rule: &PatternRule<R>, text: &str) -> (r: Option<
    (String, Vec<String>, String),
>)
    ensures
        r is Some <==> regex_captures(rule.source(), text@) is Some,
        r matches Some(out) ==> regex_captures(rule.source(), text@) == Some(
            (out.0@, out.1.deep_view(), out.2@),
        ),
        r matches Some(out) ==> out.1.deep_view().len() >= 1 && out.0@ + out.1.deep_view()[0]
            + out.2@ == text@,
{
    rule.regex.captures(text).map(|caps| {
        let m = caps.get(0).unwrap();
        let before = text[..m.start()].to_string();
        let after = text[m.end()..].to_string();
        let groups = (0..caps.len()).map(
            |k| caps.get(k).map_or(String::new(), |g| g.as_str().to_string()),
        ).collect();
        (before, groups, after)
    })
}

/// One token of the wildcard pattern language.
pub enum PatternPart {
    VerbatimChar(char),
    AnyCharacter,
    AnySequence,
}

/// Why a pattern was refused.
#[derive(PartialEq, Eq, Structural, Debug)]
pub enum PatternCreationError {
    AdjacentStars,
    StarAtBeginning,
    PatternRejected,
}

/// Why a match was refused.
#[derive(PartialEq, Eq, Structural, Debug)]
pub enum MatchingError {
    NotMatched,
}

/// Reads the wildcard language: `*` and `?` are wildcards, a backslash
/// escapes the character after it (a trailing backslash stands for itself),
/// and everything else is verbatim.  A leading `*` and adjacent `*` are
/// refused.
pub open spec fn glob_parse(s: Seq<char>, i: int, acc: Seq<PatternPart>) -> Result<
    Seq<PatternPart>,
    PatternCreationError,
>
    decreases s.len() - i,
{
    if i < 0 || i >= s.len() {
        Ok(acc)
    } else if s[i] == '\\' {
        if i + 1 >= s.len() {
            glob_parse(s, i + 1, acc.push(PatternPart::VerbatimChar('\\')))
        } else {
            glob_parse(s, i + 2, acc.push(PatternPart::VerbatimChar(s[i + 1])))
        }
    } else if s[i] == '*' {
        if acc.len() == 0 {
            Err(PatternCreationError::StarAtBeginning)
        } else if acc.last() is AnySequence {
            Err(PatternCreationError::AdjacentStars)
        } else {
            glob_parse(s, i + 1, acc.push(PatternPart::AnySequence))
        }
    } else if s[i] == '?' {
        glob_parse(s, i + 1, acc.push(PatternPart::AnyCharacter))
    } else {
        glob_parse(s, i + 1, acc.push(PatternPart::VerbatimChar(s[i])))
    }
}

/// Whether the regex crate gives `c` a meaning outside a character class.
pub open spec fn rx_meta(c: char) -> bool {
    c == '\\' || c == '.' || c == '+' || c == '*' || c == '?' || c == '(' || c == ')' || c == '|'
        || c == '[' || c == ']' || c == '{' || c == '}' || c == '^' || c == '$'
}

/// The regex source for one verbatim character.
pub open spec fn rx_escape(c: char) -> Seq<char> {
    if rx_meta(c) {
        seq!['\\', c]
    } else {
        seq![c]
    }
}

/// The regex source for one pattern token.
pub open spec fn rx_of_part(part: PatternPart) -> Seq<char> {
    match part {
        PatternPart::VerbatimChar(c) => rx_escape(c),
        PatternPart::AnyCharacter => seq!['.'],
        PatternPart::AnySequence => seq!['(', '.', '*', '?', ')'],
    }
}

/// The regex source for a token sequence.
pub open spec fn rx_of_parts(parts: Seq<PatternPart>) -> Seq<char>
    decreases parts.len(),
{
    if parts.len() == 0 {
        Seq::empty()
    } else {
        rx_of_part(parts[0]) + rx_of_parts(parts.drop_first())
    }
}

proof fn lemma_rx_of_parts_push(parts: Seq<PatternPart>, part: PatternPart)
    ensures
        rx_of_parts(parts.push(part)) == rx_of_parts(parts) + rx_of_part(part),
    decreases parts.len(),
{
    if parts.len() == 0 {
        assert(parts.push(part).drop_first() =~= Seq::<PatternPart>::empty());
        assert(rx_of_parts(Seq::<PatternPart>::empty()) == Seq::<char>::empty());
        assert(rx_of_part(part) + Seq::<char>::empty() =~= rx_of_part(part));
        assert(Seq::<char>::empty() + rx_of_part(part) =~= rx_of_part(part));
    } else {
        assert(parts.push(part).drop_first() =~= parts.drop_first().push(part));
        lemma_rx_of_parts_push(parts.drop_first(), part);
        crate::seqtool::lemma_add_assoc(
            rx_of_part(parts[0]),
            rx_of_parts(parts.drop_first()),
            rx_of_part(part),
        );
    }
}

/// The whole regex source for a pattern: the tokens' sources, with `.` set
/// to match every character.
pub open spec fn rx_source_of(pattern: Seq<char>) -> Seq<char> {
    seq!['(', '?', 's', ')'] + rx_of_parts(glob_parse(pattern, 0, Seq::empty())->Ok_0)
}

/// Whether the wildcard pattern is well formed: no leading `*`, no adjacent
/// `*`.
pub open spec fn glob_ok(pattern: Seq<char>) -> bool {
    glob_parse(pattern, 0, Seq::empty()) is Ok
}

/// The error a malformed wildcard pattern is refused with.
pub open spec fn glob_error(pattern: Seq<char>) -> PatternCreationError {
    glob_parse(pattern, 0, Seq::empty())->Err_0
}

/// What one rule does with the captures of a match.
pub enum RuleAction<R> {
    /// Render a replacement template, the capture groups as its parameters.
    Rewrite(Template),
    /// Hand the capture groups to a user-supplied replacer.
    Builtin(R),
}

/// The computation a builtin rule binds: a user-supplied collaborator that
/// turns the capture groups of a match into replacement text, and may hand
/// back one new rule to push.
pub trait Replacer: Sized {
    /// Computes the replacement for the given capture groups.
    fn replace(&self, captures: &Parameters) -> ReplacerResult<Self>;
}

/// What a replacer hands back.
pub struct ReplacerResult<R> {
    pub replacement: String,
    pub new_rule: Option<PatternRule<R>>,
}

/// A whole-text pattern rule: a compiled pattern, and what to do where it
/// matches.
pub struct PatternRule<R> {
    pattern: String,
    regex: regex::Regex,
    action: RuleAction<R>,
}

impl<R> PatternRule<R> {
    /// The compiled regex source of this rule's pattern.
    pub closed spec fn source(&self) -> Seq<char> {
        self.pattern@
    }

    /// What this rule does on a match.
    pub closed spec fn spec_action(&self) -> RuleAction<R> {
        self.action
    }

    /// Builds a rule from a wildcard pattern and an action.  A malformed
    /// pattern is refused with the reason; a well-formed one whose compiled
    /// regex source the regex crate will not take is refused as rejected.
    pub fn new(pattern: &str, action: RuleAction<R>) -> (r: Result<PatternRule<R>, PatternCreationError>)
        ensures
            !glob_ok(pattern@) ==> (r matches Err(e) && e == glob_error(pattern@)),
            glob_ok(pattern@) && !regex_compiles(rx_source_of(pattern@)) ==> (r matches Err(e)
                && e == PatternCreationError::PatternRejected),
            glob_ok(pattern@) && regex_compiles(rx_source_of(pattern@)) ==> (r matches Ok(rule)
                && rule.source() == rx_source_of(pattern@) && rule.spec_action() == action),
    {
        let ghost s = pattern@;
        let len = pattern.unicode_len();
        let mut parts: Vec<PatternPart> = Vec::new();
        let mut i: usize = 0;
        proof {
            assert(parts@ =~= Seq::<PatternPart>::empty());
        }
        while i < len
            invariant
                s == pattern@,
                len == s.len(),
                0 <= i <= len,
                glob_parse(s, i as int, parts@) == glob_parse(s, 0, Seq::<PatternPart>::empty()),
            decreases len - i,
        {
            let c = pattern.get_char(i);
            if c == '\\' {
                if i + 1 >= len {
                    parts.push(PatternPart::VerbatimChar('\\'));
                    i = i + 1;
                } else {
                    parts.push(PatternPart::VerbatimChar(pattern.get_char(i + 1)));
                    i = i + 2;
                }
            } else if c == '*' {
                if parts.len() == 0 {
                    return Err(PatternCreationError::StarAtBeginning);
                }
                let adjacent = match &parts[parts.len() - 1] {
                    PatternPart::AnySequence => true,
                    _ => false,
                };
                if adjacent {
                    return Err(PatternCreationError::AdjacentStars);
                }
                parts.push(PatternPart::AnySequence);
                i = i + 1;
            } else if c == '?' {
                parts.push(PatternPart::AnyCharacter);
                i = i + 1;
            } else {
                parts.push(PatternPart::VerbatimChar(c));
                i = i + 1;
            }
        }
        let source = Self::build_source(&parts);
        proof {
            assert(glob_parse(s, len as int, parts@) == Ok::<
                Seq<PatternPart>,
                PatternCreationError,
            >(parts@));
        }
        match regex_compile(source.as_str()) {
            Some(regex) => Ok(PatternRule { pattern: source, regex, action }),
            None => Err(PatternCreationError::PatternRejected),
        }
    }

    /// Writes the regex source for the given tokens.
    fn build_source(parts: &Vec<PatternPart>) -> (r: String)
        ensures
            r@ == seq!['(', '?', 's', ')'] + rx_of_parts(parts@),
    {
        let mut out = String::new();
        push_char(&mut out, '(');
        push_char(&mut out, '?');
        push_char(&mut out, 's');
        push_char(&mut out, ')');
        proof {
            assert(out@ =~= seq!['(', '?', 's', ')'] + rx_of_parts(parts@.take(0)));
        }
        let mut k: usize = 0;
        while k < parts.len()
            invariant
                0 <= k <= parts@.len(),
                out@ == seq!['(', '?', 's', ')'] + rx_of_parts(parts@.take(k as int)),
            decreases parts@.len() - k,
        {
            let ghost before = parts@.take(k as int);
            match &parts[k] {
                PatternPart::VerbatimChar(c) => {
                    let c = *c;
                    if c == '\\' || c == '.' || c == '+' || c == '*' || c == '?' || c == '('
                        || c == ')' || c == '|' || c == '[' || c == ']' || c == '{' || c == '}'
                        || c == '^' || c == '$' {
                        push_char(&mut out, '\\');
                        push_char(&mut out, c);
                    } else {
                        push_char(&mut out, c);
                    }
                },
                PatternPart::AnyCharacter => {
                    push_char(&mut out, '.');
                },
                PatternPart::AnySequence => {
                    push_char(&mut out, '(');
                    push_char(&mut out, '.');
                    push_char(&mut out, '*');
                    push_char(&mut out, '?');
                    push_char(&mut out, ')');
                },
            }
            proof {
                lemma_rx_of_parts_push(before, parts@[k as int]);
                assert(before.push(parts@[k as int]) =~= parts@.take(k as int + 1));
                assert(out@ =~= seq!['(', '?', 's', ')'] + rx_of_parts(parts@.take(k as int + 1)));
            }
            k = k + 1;
        }
        proof {
            assert(parts@.take(parts@.len() as int) =~= parts@);
        }
        out
    }

    /// The capture groups, whole match first, of this rule's first match in
    /// the text, or the reason there is none.
    pub fn matches(&self, text: &str) -> (r: Result<Vec<String>, MatchingError>)
        ensures
            r matches Ok(caps) ==> (regex_captures(self.source(), text@) matches Some(m)
                && caps.deep_view() == m.1),
            r is Err <==> regex_captures(self.source(), text@) is None,
    {
        match regex_find_captures(self, text) {
            Some((_before, caps, _after)) => Ok(caps),
            None => Err(MatchingError::NotMatched),
        }
    }
}

/// The index of the rule that wins on this text: the most recently pushed
/// rule whose pattern matches, trying the stack from the top down.
pub open spec fn first_match<R>(rules: Seq<PatternRule<R>>, text: Seq<char>) -> Option<int>
    decreases rules.len(),
{
    if rules.len() == 0 {
        None
    } else if regex_captures(rules.last().source(), text) is Some {
        Some(rules.len() - 1)
    } else {
        first_match(rules.drop_last(), text)
    }
}

/// The most recently pushed rule wins every tie: where its pattern matches
/// the text, it is the one applied, whatever stands below it.
pub proof fn lemma_pushed_rule_wins<R>(
    rules: Seq<PatternRule<R>>,
    rule: PatternRule<R>,
    text: Seq<char>,
)
    requires
        regex_captures(rule.source(), text) is Some,
    ensures
        first_match(rules.push(rule), text) == Some(rules.len() as int),
{
    assert(rules.push(rule).last() == rule);
}

/// A pushed rule whose pattern does not match changes nothing: the rules
/// below it decide as before.
pub proof fn lemma_pushed_rule_defers<R>(
    rules: Seq<PatternRule<R>>,
    rule: PatternRule<R>,
    text: Seq<char>,
)
    requires
        regex_captures(rule.source(), text) is None,
    ensures
        first_match(rules.push(rule), text) == first_match(rules, text),
{
    assert(rules.push(rule).last() == rule);
    assert(rules.push(rule).drop_last() =~= rules);
}

proof fn lemma_first_match_at<R>(rules: Seq<PatternRule<R>>, text: Seq<char>, k: int)
    requires
        0 <= k < rules.len(),
        regex_captures(rules[k].source(), text) is Some,
        forall|l: int| k < l < rules.len() ==> #[trigger] regex_captures(rules[l].source(), text)
            is None,
    ensures
        first_match(rules, text) == Some(k),
    decreases rules.len(),
{
    if k < rules.len() - 1 {
        lemma_first_match_at(rules.drop_last(), text, k);
    }
}

proof fn lemma_first_match_none<R>(rules: Seq<PatternRule<R>>, text: Seq<char>)
    requires
        forall|l: int| 0 <= l < rules.len() ==> #[trigger] regex_captures(rules[l].source(), text)
            is None,
    ensures
        first_match(rules, text) is None,
    decreases rules.len(),
{
    if rules.len() > 0 {
        lemma_first_match_none(rules.drop_last(), text);
    }
}

/// One rewrite of the rule stack, from a stack and document to the stack
/// and document after it: the most recently pushed rule whose pattern
/// matches is applied, some replacement is spliced over exactly the span
/// of its first match, and at most one new rule is pushed on top.  Where
/// the winning rule is a rewrite rule, the replacement is exactly its
/// template's rendering against the capture groups and nothing is pushed.
pub open spec fn stack_step<R>(
    rs1: Seq<PatternRule<R>>,
    t1: Seq<char>,
    rs2: Seq<PatternRule<R>>,
    t2: Seq<char>,
) -> bool {
    first_match(rs1, t1) matches Some(j) && ({
        let m = regex_captures(rs1[j].source(), t1)->Some_0;
        &&& (exists|rep: Seq<char>| t2 == m.0 + rep + m.2)
        &&& (rs2 == rs1 || exists|rule: PatternRule<R>| rs2 == rs1.push(rule))
        &&& (rs1[j].spec_action() matches RuleAction::Rewrite(t) ==> t2 == m.0 + render_parts(
            t@,
            m.1,
        ) + m.2 && rs2 == rs1)
    })
}

/// The stack and document `(rs2, t2)` are what `(rs1, t1)` becomes after
/// exactly `n` rewrites.
pub open spec fn stack_reaches<R>(
    rs1: Seq<PatternRule<R>>,
    t1: Seq<char>,
    rs2: Seq<PatternRule<R>>,
    t2: Seq<char>,
    n: nat,
) -> bool
    decreases n,
{
    if n == 0 {
        rs2 == rs1 && t2 == t1
    } else {
        exists|rs: Seq<PatternRule<R>>, t: Seq<char>|
            stack_step(rs1, t1, rs, t) && stack_reaches(rs, t, rs2, t2, (n - 1) as nat)
    }
}

/// One more rewrite at the end of a chain extends the chain by one.
pub proof fn lemma_stack_reaches_snoc<R>(
    rs1: Seq<PatternRule<R>>,
    t1: Seq<char>,
    rs2: Seq<PatternRule<R>>,
    t2: Seq<char>,
    rs3: Seq<PatternRule<R>>,
    t3: Seq<char>,
    n: nat,
)
    requires
        stack_reaches(rs1, t1, rs2, t2, n),
        stack_step(rs2, t2, rs3, t3),
    ensures
        stack_reaches(rs1, t1, rs3, t3, n + 1),
    decreases n,
{
    if n == 0 {
        assert(stack_step(rs1, t1, rs3, t3) && stack_reaches(rs3, t3, rs3, t3, 0));
    } else {
        let (rs, t) = choose|rs: Seq<PatternRule<R>>, t: Seq<char>|
            stack_step(rs1, t1, rs, t) && stack_reaches(rs, t, rs2, t2, (n - 1) as nat);
        lemma_stack_reaches_snoc(rs, t, rs2, t2, rs3, t3, (n - 1) as nat);
        assert(stack_step(rs1, t1, rs, t) && stack_reaches(rs, t, rs3, t3, n));
    }
}

/// The ordered, append-only stack of pattern rules; the most recently
/// pushed matching rule wins.
pub struct RuleStack<R> {
    rules: Vec<PatternRule<R>>,
}

impl<R> View for RuleStack<R> {
    type V = Seq<PatternRule<R>>;

    closed spec fn view(&self) -> Seq<PatternRule<R>> {
        self.rules@
    }
}

impl<R: Replacer> RuleStack<R> {
    /// The empty stack.
    pub fn new() -> (r: RuleStack<R>)
        ensures
            r@ == Seq::<PatternRule<R>>::empty(),
    {
        RuleStack { rules: Vec::new() }
    }

    /// Pushes a rule; it outranks everything already there.
    pub fn push(&mut self, rule: PatternRule<R>)
        ensures
            final(self)@ == old(self)@.push(rule),
    {
        self.rules.push(rule);
    }

    /// Tries the rules from the most recently pushed down and applies the
    /// first whose pattern matches: the span of the pattern's first match
    /// is rewritten and the text around it kept.  A rewrite rule renders
    /// its template against the capture groups and pushes nothing; what a
    /// builtin rule's replacer hands back is its own business.  Returns the
    /// new text and the rule to push, or nothing where no rule matches.
    pub fn try_apply(&self, text: &str) -> (r: Option<(String, Option<PatternRule<R>>)>)
        ensures
            r is None <==> first_match(self@, text@) is None,
            r matches Some(out) ==> {
                let j = first_match(self@, text@)->Some_0;
                let m = regex_captures(self@[j].source(), text@)->Some_0;
                &&& (exists|rep: Seq<char>| out.0@ == m.0 + rep + m.2)
                &&& (self@[j].spec_action() matches RuleAction::Rewrite(t) ==> out.0@ == m.0
                    + render_parts(t@, m.1) + m.2 && out.1 is None)
            },
    {
        let mut k: usize = self.rules.len();
        while k > 0
            invariant
                k <= self.rules@.len(),
                forall|l: int| k <= l < self.rules@.len() ==> #[trigger] regex_captures(
                    self.rules@[l].source(),
                    text@,
                ) is None,
            decreases k,
        {
            k = k - 1;
            let rule = &self.rules[k];
            match regex_find_captures(rule, text) {
                Some((before, caps, after)) => {
                    proof {
                        lemma_first_match_at(self.rules@, text@, k as int);
                    }
                    let parameters = Parameters::new(caps);
                    match &rule.action {
                        RuleAction::Rewrite(t) => {
                            let rendered = t.render(&parameters);
                            let next = before.concat(rendered.as_str()).concat(after.as_str());
                            return Some((next, None));
                        },
                        RuleAction::Builtin(rep) => {
                            let result = rep.replace(&parameters);
                            let ghost before0 = before@;
                            let ghost after0 = after@;
                            let next = before.concat(result.replacement.as_str()).concat(
                                after.as_str(),
                            );
                            proof {
                                let m = regex_captures(self.rules@[k as int].source(), text@)
                                    ->Some_0;
                                assert(next@ == m.0 + result.replacement@ + m.2);
                            }
                            return Some((next, result.new_rule));
                        },
                    }
                },
                None => {},
            }
        }
        proof {
            lemma_first_match_none(self.rules@, text@);
        }
        None
    }

    /// Reduces `program` toward a fixpoint against the rule stack, spending
    /// at most `max_steps` rewrites: repeatedly applies the winning rule,
    /// pushes the rule it handed back, if any, and rescans from the top of
    /// the stack.  A document no rule matches halts at once, unchanged and
    /// with the stack untouched.  A halted run's stack and document are
    /// what the input became under a chain of single-rule rewrites and no
    /// rule of the final stack matches the document, so running it again
    /// returns it identically.  The stack only ever grows, and what was
    /// pushed earlier keeps its place.  A run that still has a matching
    /// rule when the budget is spent surfaces that, with the document as
    /// it stood after exactly `max_steps` rewrites, distinctly from normal
    /// completion.
    pub fn execute_bounded(&mut self, program: String, max_steps: usize) -> (r: ExecutionOutcome)
        ensures
            first_match(old(self)@, program@) is None ==> (r
                matches ExecutionOutcome::Halted(t) && t@ == program@) && *final(self) == *old(
                self,
            ),
            r matches ExecutionOutcome::Halted(t) ==> first_match(final(self)@, t@) is None && (
            exists|n: nat|
                n <= max_steps && stack_reaches(old(self)@, program@, final(self)@, t@, n)),
            r matches ExecutionOutcome::StepLimitExceeded(t) ==> first_match(final(self)@, t@)
                is Some && stack_reaches(old(self)@, program@, final(self)@, t@, max_steps as nat),
            old(self)@.len() <= final(self)@.len() && final(self)@.take(old(self)@.len() as int)
                == old(self)@,
    {
        let mut text = program;
        let mut steps = max_steps;
        loop
            invariant
                first_match(old(self)@, program@) is None ==> text@ == program@ && *self == *old(
                    self,
                ),
                old(self)@.len() <= self@.len() && self@.take(old(self)@.len() as int) == old(
                    self,
                )@,
                steps <= max_steps,
                stack_reaches(old(self)@, program@, self@, text@, (max_steps - steps) as nat),
            decreases steps,
        {
            let found = self.try_apply(text.as_str());
            match found {
                None => {
                    proof {
                        assert(exists|n: nat|
                            n <= max_steps && stack_reaches(
                                old(self)@,
                                program@,
                                self@,
                                text@,
                                n,
                            )) by {
                            assert(stack_reaches(
                                old(self)@,
                                program@,
                                self@,
                                text@,
                                (max_steps - steps) as nat,
                            ));
                        }
                    }
                    return ExecutionOutcome::Halted(text);
                },
                Some((next, new_rule)) => {
                    if steps == 0 {
                        return ExecutionOutcome::StepLimitExceeded(text);
                    }
                    steps = steps - 1;
                    let ghost rs1 = self@;
                    let ghost t1 = text@;
                    let ghost done = (max_steps - steps - 1) as nat;
                    text = next;
                    match new_rule {
                        Some(rule) => {
                            let ghost before = self@;
                            self.push(rule);
                            proof {
                                assert(self@.take(old(self)@.len() as int) =~= before.take(
                                    old(self)@.len() as int,
                                ));
                            }
                        },
                        None => {},
                    }
                    proof {
                        assert(stack_step(rs1, t1, self@, text@));
                        lemma_stack_reaches_snoc(
                            old(self)@,
                            program@,
                            rs1,
                            t1,
                            self@,
                            text@,
                            done,
                        );
                    }
                },
            }
        }
    }

    /// Reduces `program` to a fixpoint, as `execute_bounded` does with the
    /// largest budget there is: the result is what `program` became under a
    /// chain of single-rule rewrites, and either no rule of the final stack
    /// matches it any more or the whole budget was spent.
    pub fn execute(&mut self, program: String) -> (r: String)
        ensures
            first_match(old(self)@, program@) is None ==> r@ == program@ && *final(self) == *old(
                self,
            ),
            exists|n: nat|
                stack_reaches(old(self)@, program@, final(self)@, r@, n) && (first_match(
                    final(self)@,
                    r@,
                ) is None || n == usize::MAX as nat),
            old(self)@.len() <= final(self)@.len() && final(self)@.take(old(self)@.len() as int)
                == old(self)@,
    {
        let r = match self.execute_bounded(program, usize::MAX) {
            ExecutionOutcome::Halted(t) => t,
            ExecutionOutcome::StepLimitExceeded(t) => t,
        };
        r
    }
}

} // verus!
