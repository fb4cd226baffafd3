//! A structural view of a whole program.
//!
//! Where the engine's locator walks the text one innermost group at a time,
//! `parse` reads the whole program at once into a tree: literal runs, with
//! their escapes resolved, and delimited groups holding their sub-parts.
//! Separators end a literal run and are dropped; a closing delimiter with
//! no open group is a literal character; a group left open at the end of
//! the input is closed by the end of the input.
//!
//! The contract pins the tree to the text position by position
//! (`root_rel`): every literal run is maximal, spanning exactly to the
//! next unescaped structural character (`raw_end`) and decoding that span
//! (`decode`), and every group spans exactly from its opening delimiter to
//! its own closing delimiter (`level_end`).  A round trip holds besides:
//! writing the tree back out — re-escaping the structural characters of
//! literal runs and wrapping each group in delimiters — reproduces the
//! input in a normal form (`norm`) that resolves escapes, drops separators
//! and closes open groups.

use vstd::prelude::*;

use crate::template::push_char;

verus! {

/// One part of a parsed program: a literal run with its escapes resolved,
/// or a delimited group of sub-parts.
#[derive(PartialEq, Eq, Debug)]
pub enum ProgramPart {
    RawString(String),
    SubstitutionInvocation(Vec<ProgramPart>),
}

/// Whether `c` needs an escape to stand for itself.
pub open spec fn structural(c: char) -> bool {
    c == '(' || c == ')' || c == ';' || c == '\\'
}

/// How `c` is written down literally: escaped where it is structural.
pub open spec fn esc1(c: char) -> Seq<char> {
    if structural(c) {
        seq!['\\', c]
    } else {
        seq![c]
    }
}

/// How a literal run is written down: each character escaped as needed.
pub open spec fn escape_text(t: Seq<char>) -> Seq<char>
    decreases t.len(),
{
    if t.len() == 0 {
        Seq::empty()
    } else {
        esc1(t[0]) + escape_text(t.drop_first())
    }
}

/// How one part is written down.
pub open spec fn unparse_part(p: ProgramPart) -> Seq<char>
    decreases p,
{
    match p {
        ProgramPart::RawString(t) => escape_text(t@),
        ProgramPart::SubstitutionInvocation(cs) => seq!['('] + unparse_parts(cs@) + seq![')'],
    }
}

/// How a sequence of parts is written down.
pub open spec fn unparse_parts(cs: Seq<ProgramPart>) -> Seq<char>
    decreases cs,
{
    if cs.len() == 0 {
        Seq::empty()
    } else {
        unparse_part(cs[0]) + unparse_parts(cs.drop_first())
    }
}

/// A parsed part carries no empty literal run at any depth: every
/// `RawString` read from text holds at least one character.
pub open spec fn part_wf(p: ProgramPart) -> bool
    decreases p,
{
    match p {
        ProgramPart::RawString(t) => t@.len() > 0,
        ProgramPart::SubstitutionInvocation(cs) => parts_wf(cs@),
    }
}

/// Every part of the sequence is well formed.
pub open spec fn parts_wf(cs: Seq<ProgramPart>) -> bool
    decreases cs,
{
    cs.len() == 0 || (part_wf(cs[0]) && parts_wf(cs.drop_first()))
}

proof fn lemma_parts_wf_push(cs: Seq<ProgramPart>, p: ProgramPart)
    requires
        parts_wf(cs),
        part_wf(p),
    ensures
        parts_wf(cs.push(p)),
    decreases cs.len(),
{
    if cs.len() == 0 {
        assert(cs.push(p)[0] == p);
        assert(cs.push(p).drop_first() =~= Seq::<ProgramPart>::empty());
        assert(parts_wf(Seq::<ProgramPart>::empty()));
    } else {
        assert(cs.push(p)[0] == cs[0]);
        assert(cs.push(p).drop_first() =~= cs.drop_first().push(p));
        lemma_parts_wf_push(cs.drop_first(), p);
    }
}

proof fn lemma_parts_wf_append(a: Seq<ProgramPart>, b: Seq<ProgramPart>)
    requires
        parts_wf(a),
        parts_wf(b),
    ensures
        parts_wf(a + b),
    decreases a.len(),
{
    if a.len() == 0 {
        assert(a + b =~= b);
    } else {
        assert((a + b).drop_first() =~= a.drop_first() + b);
        assert((a + b)[0] == a[0]);
        lemma_parts_wf_append(a.drop_first(), b);
    }
}

/// The closing delimiters owed to `d` open groups.
pub open spec fn close_all(d: nat) -> Seq<char> {
    Seq::new(d, |k: int| ')')
}

/// The normal form of the text from position `i`, with `d` groups open:
/// escapes are resolved and re-applied exactly where needed, separators are
/// dropped, a closing delimiter with no open group is escaped, and open
/// groups are closed at the end.
pub open spec fn norm(s: Seq<char>, i: int, d: nat) -> Seq<char>
    decreases s.len() - i,
{
    if i < 0 || i >= s.len() {
        close_all(d)
    } else if s[i] == '\\' {
        if i + 1 >= s.len() {
            seq!['\\', '\\'] + norm(s, i + 1, d)
        } else {
            esc1(s[i + 1]) + norm(s, i + 2, d)
        }
    } else if s[i] == '(' {
        seq!['('] + norm(s, i + 1, d + 1)
    } else if s[i] == ')' {
        if d > 0 {
            seq![')'] + norm(s, i + 1, (d - 1) as nat)
        } else {
            seq!['\\', ')'] + norm(s, i + 1, d)
        }
    } else if s[i] == ';' {
        norm(s, i + 1, d)
    } else {
        seq![s[i]] + norm(s, i + 1, d)
    }
}

proof fn lemma_escape_push(t: Seq<char>, c: char)
    ensures
        escape_text(t.push(c)) == escape_text(t) + esc1(c),
    decreases t.len(),
{
    if t.len() == 0 {
        assert(t.push(c).drop_first() =~= Seq::<char>::empty());
        assert(escape_text(Seq::<char>::empty()) == Seq::<char>::empty());
        assert(esc1(c) + Seq::<char>::empty() =~= esc1(c));
        assert(Seq::<char>::empty() + esc1(c) =~= esc1(c));
    } else {
        assert(t.push(c).drop_first() =~= t.drop_first().push(c));
        lemma_escape_push(t.drop_first(), c);
        crate::seqtool::lemma_add_assoc(esc1(t[0]), escape_text(t.drop_first()), esc1(c));
    }
}

proof fn lemma_unparse_parts_push(cs: Seq<ProgramPart>, p: ProgramPart)
    ensures
        unparse_parts(cs.push(p)) == unparse_parts(cs) + unparse_part(p),
    decreases cs.len(),
{
    if cs.len() == 0 {
        assert(cs.push(p).drop_first() =~= Seq::<ProgramPart>::empty());
        assert(unparse_parts(Seq::<ProgramPart>::empty()) == Seq::<char>::empty());
        assert(unparse_part(p) + Seq::<char>::empty() =~= unparse_part(p));
        assert(Seq::<char>::empty() + unparse_part(p) =~= unparse_part(p));
    } else {
        assert(cs.push(p).drop_first() =~= cs.drop_first().push(p));
        lemma_unparse_parts_push(cs.drop_first(), p);
        crate::seqtool::lemma_add_assoc(
            unparse_part(cs[0]),
            unparse_parts(cs.drop_first()),
            unparse_part(p),
        );
    }
}

proof fn lemma_unparse_parts_append(a: Seq<ProgramPart>, b: Seq<ProgramPart>)
    ensures
        unparse_parts(a + b) == unparse_parts(a) + unparse_parts(b),
    decreases a.len(),
{
    if a.len() == 0 {
        assert(a + b =~= b);
        assert(Seq::<char>::empty() + unparse_parts(b) =~= unparse_parts(b));
    } else {
        assert((a + b).drop_first() =~= a.drop_first() + b);
        assert((a + b)[0] == a[0]);
        lemma_unparse_parts_append(a.drop_first(), b);
        crate::seqtool::lemma_add_assoc(
            unparse_part(a[0]),
            unparse_parts(a.drop_first()),
            unparse_parts(b),
        );
    }
}

/// The position of the first unescaped structural character (`(`, `)` or
/// `;`) at or after `i`, or the end of the text where there is none: a
/// backslash and the character after it are stepped over together, and a
/// trailing backslash reaches the end.
pub open spec fn raw_end(s: Seq<char>, i: int) -> int
    decreases s.len() - i,
{
    if i < 0 || i >= s.len() {
        s.len() as int
    } else if s[i] == '(' || s[i] == ')' || s[i] == ';' {
        i
    } else if s[i] == '\\' {
        if i + 1 >= s.len() {
            s.len() as int
        } else {
            raw_end(s, i + 2)
        }
    } else {
        raw_end(s, i + 1)
    }
}

/// The decoded content of the literal run spanning `[i, k)`: each escape
/// pair contributes the escaped character, a trailing backslash at the end
/// of the text contributes itself, and every other character contributes
/// itself.
pub open spec fn decode(s: Seq<char>, i: int, k: int) -> Seq<char>
    decreases k - i,
{
    if i < 0 || i >= k {
        Seq::empty()
    } else if s[i] == '\\' {
        if i + 1 >= k {
            seq!['\\']
        } else {
            seq![s[i + 1]] + decode(s, i + 2, k)
        }
    } else {
        seq![s[i]] + decode(s, i + 1, k)
    }
}

/// A literal run ends within the text, no earlier than it starts.
pub proof fn lemma_raw_end_bounds(s: Seq<char>, i: int)
    requires
        0 <= i <= s.len(),
    ensures
        i <= raw_end(s, i) <= s.len(),
    decreases s.len() - i,
{
    if i < s.len() && s[i] == '\\' && i + 2 <= s.len() {
        lemma_raw_end_bounds(s, i + 2);
    } else if i < s.len() && s[i] != '(' && s[i] != ')' && s[i] != ';' && s[i] != '\\' {
        lemma_raw_end_bounds(s, i + 1);
    }
}

/// The position where the group level beginning at `i`, with `d` more
/// groups open around it, ends: the first unescaped closing delimiter not
/// owed to a group opened on the way, or the end of the text.
pub open spec fn level_end(s: Seq<char>, i: int, d: nat) -> int
    decreases s.len() - i,
{
    if i < 0 || i >= s.len() {
        s.len() as int
    } else if s[i] == '\\' {
        if i + 1 >= s.len() {
            s.len() as int
        } else {
            level_end(s, i + 2, d)
        }
    } else if s[i] == '(' {
        level_end(s, i + 1, d + 1)
    } else if s[i] == ')' {
        if d == 0 {
            i
        } else {
            level_end(s, i + 1, (d - 1) as nat)
        }
    } else {
        level_end(s, i + 1, d)
    }
}

/// A level ends within the text, no earlier than it starts.
pub proof fn lemma_level_end_bounds(s: Seq<char>, i: int, d: nat)
    requires
        0 <= i <= s.len(),
    ensures
        i <= level_end(s, i, d) <= s.len(),
    decreases s.len() - i,
{
    if i < s.len() {
        if s[i] == '\\' {
            if i + 1 < s.len() {
                lemma_level_end_bounds(s, i + 2, d);
            }
        } else if s[i] == '(' {
            lemma_level_end_bounds(s, i + 1, d + 1);
        } else if s[i] == ')' {
            if d > 0 {
                lemma_level_end_bounds(s, i + 1, (d - 1) as nat);
            }
        } else {
            lemma_level_end_bounds(s, i + 1, d);
        }
    }
}

/// A literal run does not move a level's end.
proof fn lemma_level_end_raw(s: Seq<char>, i: int, d: nat)
    requires
        0 <= i <= s.len(),
    ensures
        level_end(s, i, d) == level_end(s, raw_end(s, i), d),
    decreases s.len() - i,
{
    if i < s.len() {
        if s[i] == '(' || s[i] == ')' || s[i] == ';' {
        } else if s[i] == '\\' {
            if i + 1 < s.len() {
                lemma_level_end_raw(s, i + 2, d);
            }
        } else {
            lemma_level_end_raw(s, i + 1, d);
        }
    }
}

/// Closing one group hands the scan on to the enclosing level: the end at
/// depth `d + 1` is the end at depth `d` behind the end at depth zero.
proof fn lemma_level_end_pop(s: Seq<char>, i: int, d: nat)
    requires
        0 <= i <= s.len(),
    ensures
        level_end(s, i, d + 1) == ({
            let m = level_end(s, i, 0);
            if m < s.len() {
                level_end(s, m + 1, d)
            } else {
                s.len() as int
            }
        }),
    decreases s.len() - i,
{
    if i >= s.len() {
    } else if s[i] == '\\' {
        if i + 1 < s.len() {
            lemma_level_end_pop(s, i + 2, d);
        }
    } else if s[i] == '(' {
        lemma_level_end_pop(s, i + 1, d + 1);
        lemma_level_end_pop(s, i + 1, 0);
        let m1 = level_end(s, i + 1, 0);
        lemma_level_end_bounds(s, i + 1, 0);
        if m1 < s.len() {
            lemma_level_end_pop(s, m1 + 1, d);
        }
    } else if s[i] == ')' {
        if d + 1 > 0 {
        }
    } else {
        lemma_level_end_pop(s, i + 1, d);
    }
}

/// The parts `cs` are exactly what one group level reads from position `i`
/// to position `j`: a literal run is maximal (it spans to the next
/// unescaped structural character, `raw_end`), a separator ends a run and
/// is dropped, a group's interior is the level behind its opening
/// delimiter up to its own closing delimiter or the end of the input, and
/// the level itself ends exactly at `j`.  For a given text and start, the
/// end `j` at which the level may stop before a closing delimiter and the
/// parts are unique.
pub open spec fn level_rel(s: Seq<char>, i: int, j: int, cs: Seq<ProgramPart>) -> bool
    decreases j - i,
{
    if i < 0 || i > j || j > s.len() {
        false
    } else if i == j {
        cs.len() == 0
    } else if s[i] == ')' {
        false
    } else if s[i] == ';' {
        level_rel(s, i + 1, j, cs)
    } else if s[i] == '(' {
        let m = level_end(s, i + 1, 0);
        cs.len() > 0 && cs[0] is SubstitutionInvocation && i + 1 <= m <= j && (m < s.len()
            ==> s[m] == ')' && m < j) && level_rel(s, i + 1, m, (cs[0]->SubstitutionInvocation_0)@)
            && level_rel(
            s,
            if m < s.len() {
                m + 1
            } else {
                m
            },
            j,
            cs.drop_first(),
        )
    } else {
        let k = raw_end(s, i);
        cs.len() > 0 && cs[0] is RawString && i < k <= j && (cs[0]->RawString_0)@ == decode(
            s,
            i,
            k,
        ) && level_rel(s, k, j, cs.drop_first())
    }
}

/// The parts `cs` are exactly what the whole program reads from position
/// `i` to its end: as `level_rel`, except that a closing delimiter with no
/// open group stands as a one-character literal part.
pub open spec fn root_rel(s: Seq<char>, i: int, cs: Seq<ProgramPart>) -> bool
    decreases s.len() - i,
{
    if i < 0 || i > s.len() {
        false
    } else if i == s.len() {
        cs.len() == 0
    } else if s[i] == ')' {
        cs.len() > 0 && cs[0] is RawString && (cs[0]->RawString_0)@ == seq![')'] && root_rel(
            s,
            i + 1,
            cs.drop_first(),
        )
    } else if s[i] == ';' {
        root_rel(s, i + 1, cs)
    } else if s[i] == '(' {
        let m = level_end(s, i + 1, 0);
        cs.len() > 0 && cs[0] is SubstitutionInvocation && i + 1 <= m <= s.len() && (m < s.len()
            ==> s[m] == ')') && level_rel(s, i + 1, m, (cs[0]->SubstitutionInvocation_0)@)
            && root_rel(
            s,
            if m < s.len() {
                m + 1
            } else {
                m
            },
            cs.drop_first(),
        )
    } else {
        let k = raw_end(s, i);
        cs.len() > 0 && cs[0] is RawString && i < k <= s.len() && (cs[0]->RawString_0)@ == decode(
            s,
            i,
            k,
        ) && root_rel(s, k, cs.drop_first())
    }
}

/// Two adjacent spans of one level read their parts in sequence.
proof fn lemma_level_compose(
    s: Seq<char>,
    a: int,
    b: int,
    c: int,
    p: Seq<ProgramPart>,
    q: Seq<ProgramPart>,
)
    requires
        level_rel(s, a, b, p),
        level_rel(s, b, c, q),
    ensures
        level_rel(s, a, c, p + q),
    decreases b - a, p.len(),
{
    if a == b {
        assert(p + q =~= q);
    } else if s[a] == ';' {
        lemma_level_compose(s, a + 1, b, c, p, q);
    } else if s[a] == '(' {
        let m = level_end(s, a + 1, 0);
        let next = if m < s.len() {
            m + 1
        } else {
            m
        };
        lemma_level_compose(s, next, b, c, p.drop_first(), q);
        assert((p + q)[0] == p[0]);
        assert((p + q).drop_first() =~= p.drop_first() + q);
    } else {
        let k = raw_end(s, a);
        lemma_level_compose(s, k, b, c, p.drop_first(), q);
        assert((p + q)[0] == p[0]);
        assert((p + q).drop_first() =~= p.drop_first() + q);
    }
}

/// A span of the top level followed by the rest of the program reads its
/// parts in sequence.
proof fn lemma_level_root_compose(
    s: Seq<char>,
    a: int,
    b: int,
    p: Seq<ProgramPart>,
    q: Seq<ProgramPart>,
)
    requires
        level_rel(s, a, b, p),
        root_rel(s, b, q),
    ensures
        root_rel(s, a, p + q),
    decreases b - a, p.len(),
{
    if a == b {
        assert(p + q =~= q);
    } else if s[a] == ';' {
        lemma_level_root_compose(s, a + 1, b, p, q);
    } else if s[a] == '(' {
        let m = level_end(s, a + 1, 0);
        let next = if m < s.len() {
            m + 1
        } else {
            m
        };
        lemma_level_root_compose(s, next, b, p.drop_first(), q);
        assert((p + q)[0] == p[0]);
        assert((p + q).drop_first() =~= p.drop_first() + q);
    } else {
        let k = raw_end(s, a);
        lemma_level_root_compose(s, k, b, p.drop_first(), q);
        assert((p + q)[0] == p[0]);
        assert((p + q).drop_first() =~= p.drop_first() + q);
    }
}

/// The first character of `s` and the rest, or nothing where `s` is empty.
pub fn split(s: &str) -> (r: Option<(char, &str)>)
    ensures
        r is None <==> s@.len() == 0,
        r matches Some((c, rest)) ==> c == s@[0] && rest@ == s@.drop_first(),
{
    let len = s.unicode_len();
    if len == 0 {
        None
    } else {
        let c = s.get_char(0);
        let rest = s.substring_char(1, len);
        proof {
            assert(rest@ =~= s@.drop_first());
        }
        Some((c, rest))
    }
}

/// Reads a literal run from `start`: characters up to the next structural
/// character, with escapes resolved (a trailing backslash stands for
/// itself).  Returns the run and the position it stopped at: exactly the
/// first unescaped structural character at or after `start`, or the end.
pub fn parse_raw_string(program: &str, start: usize) -> (r: (String, usize))
    requires
        start <= program@.len(),
    ensures
        r.1 == raw_end(program@, start as int),
        r.0@ == decode(program@, start as int, r.1 as int),
        start <= r.1 <= program@.len(),
        r.1 < program@.len() ==> (program@[r.1 as int] == '(' || program@[r.1 as int] == ')'
            || program@[r.1 as int] == ';'),
        start < program@.len() && !(program@[start as int] == '(' || program@[start as int] == ')'
            || program@[start as int] == ';') ==> r.1 > start && r.0@.len() > 0,
        forall|d: nat| #[trigger] norm(program@, start as int, d) == escape_text(r.0@) + norm(
            program@,
            r.1 as int,
            d,
        ),
{
    let ghost s = program@;
    let len = program.unicode_len();
    let mut cur = String::new();
    let mut i = start;
    proof {
        assert(cur@ =~= Seq::<char>::empty());
        assert forall|d: nat| #[trigger] norm(s, start as int, d) == escape_text(cur@) + norm(
            s,
            i as int,
            d,
        ) by {
            assert(escape_text(cur@) + norm(s, i as int, d) =~= norm(s, i as int, d));
        }
    }
    while i < len
        invariant
            s == program@,
            len == s.len(),
            start <= i <= len,
            i > start ==> cur@.len() > 0,
            raw_end(s, i as int) == raw_end(s, start as int),
            decode(s, start as int, raw_end(s, start as int)) == cur@ + decode(
                s,
                i as int,
                raw_end(s, start as int),
            ),
            forall|d: nat| #[trigger] norm(s, start as int, d) == escape_text(cur@) + norm(
                s,
                i as int,
                d,
            ),
        decreases len - i,
    {
        let c = program.get_char(i);
        if c == '(' || c == ')' || c == ';' {
            proof {
                assert(cur@ + decode(s, i as int, raw_end(s, start as int)) =~= cur@);
            }
            return (cur, i);
        }
        let ghost cur0 = cur@;
        let ghost i0 = i as int;
        let ghost e = raw_end(s, start as int);
        if c == '\\' {
            if i + 1 >= len {
                push_char(&mut cur, '\\');
                proof {
                    lemma_raw_chain(s, start as int, i0, i0 + 1, cur0, '\\');
                    assert(decode(s, i0, e) == seq!['\\']);
                    assert(cur@ + decode(s, i0 + 1, e) =~= cur0 + decode(s, i0, e));
                }
                i = i + 1;
            } else {
                let c2 = program.get_char(i + 1);
                push_char(&mut cur, c2);
                proof {
                    lemma_raw_chain(s, start as int, i0, i0 + 2, cur0, c2);
                    lemma_raw_end_bounds(s, i0 + 2);
                    assert(decode(s, i0, e) == seq![c2] + decode(s, i0 + 2, e));
                    assert(cur@ + decode(s, i0 + 2, e) =~= cur0 + decode(s, i0, e));
                }
                i = i + 2;
            }
        } else {
            push_char(&mut cur, c);
            proof {
                assert(esc1(c) =~= seq![c]);
                lemma_raw_chain(s, start as int, i0, i0 + 1, cur0, c);
                lemma_raw_end_bounds(s, i0 + 1);
                assert(decode(s, i0, e) == seq![c] + decode(s, i0 + 1, e));
                assert(cur@ + decode(s, i0 + 1, e) =~= cur0 + decode(s, i0, e));
            }
            i = i + 1;
        }
    }
    proof {
        assert(cur@ + decode(s, i as int, raw_end(s, start as int)) =~= cur@);
    }
    (cur, i)
}

/// One step of a literal run: consuming text that normalizes to `esc1(c)`
/// and accumulating `c` keeps the run's invariant.
proof fn lemma_raw_chain(s: Seq<char>, start: int, i: int, next: int, cur: Seq<char>, c: char)
    requires
        forall|d: nat| #[trigger] norm(s, start, d) == escape_text(cur) + norm(s, i, d),
        forall|d: nat| #[trigger] norm(s, i, d) == esc1(c) + norm(s, next, d),
    ensures
        forall|d: nat| #[trigger] norm(s, start, d) == escape_text(cur.push(c)) + norm(
            s,
            next,
            d,
        ),
{
    lemma_escape_push(cur, c);
    assert forall|d: nat| #[trigger] norm(s, start, d) == escape_text(cur.push(c)) + norm(
        s,
        next,
        d,
    ) by {
        assert(norm(s, start, d) == escape_text(cur) + norm(s, i, d));
        assert(norm(s, i, d) == esc1(c) + norm(s, next, d));
        crate::seqtool::lemma_add_assoc(escape_text(cur), esc1(c), norm(s, next, d));
    }
}

/// Reads the parts of one group level from `start`, stopping at the closing
/// delimiter of this level or at the end of the input.
fn parse_parts(program: &str, start: usize) -> (r: (Vec<ProgramPart>, usize))
    requires
        start <= program@.len(),
    ensures
        start <= r.1 <= program@.len(),
        r.1 < program@.len() ==> program@[r.1 as int] == ')',
        r.1 == level_end(program@, start as int, 0),
        level_rel(program@, start as int, r.1 as int, r.0@),
        parts_wf(r.0@),
        forall|d: nat| #[trigger] norm(program@, start as int, d) == unparse_parts(r.0@) + norm(
            program@,
            r.1 as int,
            d,
        ),
    decreases program@.len() - start,
{
    let ghost s = program@;
    let len = program.unicode_len();
    let mut parts: Vec<ProgramPart> = Vec::new();
    let mut i = start;
    proof {
        assert(parts@ =~= Seq::<ProgramPart>::empty());
        assert forall|d: nat| #[trigger] norm(s, start as int, d) == unparse_parts(parts@) + norm(
            s,
            i as int,
            d,
        ) by {
            assert(unparse_parts(parts@) + norm(s, i as int, d) =~= norm(s, i as int, d));
        }
    }
    while i < len
        invariant
            s == program@,
            len == s.len(),
            start <= i <= len,
            parts_wf(parts@),
            level_end(s, i as int, 0) == level_end(s, start as int, 0),
            level_rel(s, start as int, i as int, parts@),
            forall|d: nat| #[trigger] norm(s, start as int, d) == unparse_parts(parts@) + norm(
                s,
                i as int,
                d,
            ),
        decreases len - i,
    {
        let c = program.get_char(i);
        let ghost parts0 = parts@;
        let ghost i0 = i as int;
        if c == ')' {
            return (parts, i);
        } else if c == ';' {
            proof {
                assert forall|d: nat| #[trigger] norm(s, start as int, d) == unparse_parts(parts@)
                    + norm(s, i0 + 1, d) by {
                    assert(norm(s, start as int, d) == unparse_parts(parts@) + norm(s, i0, d));
                }
                assert(level_rel(s, i0 + 1, i0 + 1, Seq::<ProgramPart>::empty()));
                assert(level_rel(s, i0, i0 + 1, Seq::<ProgramPart>::empty()));
                lemma_level_compose(
                    s,
                    start as int,
                    i0,
                    i0 + 1,
                    parts0,
                    Seq::<ProgramPart>::empty(),
                );
                assert(parts0 + Seq::<ProgramPart>::empty() =~= parts0);
            }
            i = i + 1;
        } else if c == '(' {
            let (children, j) = parse_parts(program, i + 1);
            let part = ProgramPart::SubstitutionInvocation(children);
            let ghost piece = unparse_part(part);
            let next = if j < len {
                j + 1
            } else {
                j
            };
            proof {
                assert forall|d: nat| #[trigger] norm(s, i0, d) == piece + norm(
                    s,
                    next as int,
                    d,
                ) by {
                    assert(norm(s, i0, d) == seq!['('] + norm(s, i0 + 1, d + 1));
                    assert(norm(s, i0 + 1, d + 1) == unparse_parts(part->SubstitutionInvocation_0@)
                        + norm(s, j as int, d + 1));
                    if j < len {
                        assert(norm(s, j as int, d + 1) == seq![')'] + norm(s, j as int + 1, d));
                    } else {
                        assert(norm(s, j as int, d + 1) == close_all(d + 1));
                        assert(close_all(d + 1) =~= seq![')'] + close_all(d));
                        assert(norm(s, j as int, d) == close_all(d));
                    }
                    let inner = unparse_parts(part->SubstitutionInvocation_0@);
                    crate::seqtool::lemma_add_assoc(inner, seq![')'], norm(s, next as int, d));
                    crate::seqtool::lemma_add_assoc(
                        seq!['('],
                        inner,
                        seq![')'] + norm(s, next as int, d),
                    );
                    crate::seqtool::lemma_add_assoc(seq!['('] + inner, seq![')'], norm(
                        s,
                        next as int,
                        d,
                    ));
                }
            }
            parts.push(part);
            proof {
                lemma_parts_chain(s, start as int, i0, next as int, parts0, part);
                lemma_parts_wf_push(parts0, part);
                lemma_level_end_pop(s, i0 + 1, 0);
                assert(level_end(s, next as int, 0) == level_end(s, i0, 0));
                assert(seq![part][0] == part);
                assert(seq![part].drop_first() =~= Seq::<ProgramPart>::empty());
                assert(level_rel(s, next as int, next as int, Seq::<ProgramPart>::empty()));
                assert(level_rel(s, i0, next as int, seq![part]));
                lemma_level_compose(s, start as int, i0, next as int, parts0, seq![part]);
                assert(parts0 + seq![part] =~= parts0.push(part));
            }
            i = next;
        } else {
            let (text, j) = parse_raw_string(program, i);
            let part = ProgramPart::RawString(text);
            parts.push(part);
            proof {
                assert(unparse_part(part) == escape_text(part->RawString_0@));
                lemma_parts_chain(s, start as int, i0, j as int, parts0, part);
                lemma_parts_wf_push(parts0, part);
                lemma_level_end_raw(s, i0, 0);
                assert(seq![part][0] == part);
                assert(seq![part].drop_first() =~= Seq::<ProgramPart>::empty());
                assert(level_rel(s, j as int, j as int, Seq::<ProgramPart>::empty()));
                assert(level_rel(s, i0, j as int, seq![part]));
                lemma_level_compose(s, start as int, i0, j as int, parts0, seq![part]);
                assert(parts0 + seq![part] =~= parts0.push(part));
            }
            i = j;
        }
    }
    (parts, i)
}

/// One step of a level: consuming text that normalizes to what the new part
/// writes back keeps the level's invariant.
proof fn lemma_parts_chain(
    s: Seq<char>,
    start: int,
    i: int,
    next: int,
    parts: Seq<ProgramPart>,
    part: ProgramPart,
)
    requires
        forall|d: nat| #[trigger] norm(s, start, d) == unparse_parts(parts) + norm(s, i, d),
        forall|d: nat| #[trigger] norm(s, i, d) == unparse_part(part) + norm(s, next, d),
    ensures
        forall|d: nat| #[trigger] norm(s, start, d) == unparse_parts(parts.push(part)) + norm(
            s,
            next,
            d,
        ),
{
    lemma_unparse_parts_push(parts, part);
    assert forall|d: nat| #[trigger] norm(s, start, d) == unparse_parts(parts.push(part)) + norm(
        s,
        next,
        d,
    ) by {
        assert(norm(s, start, d) == unparse_parts(parts) + norm(s, i, d));
        assert(norm(s, i, d) == unparse_part(part) + norm(s, next, d));
        crate::seqtool::lemma_add_assoc(unparse_parts(parts), unparse_part(part), norm(
            s,
            next,
            d,
        ));
    }
}

/// Reads a whole program into a tree.  The root holds the program's
/// top-level parts, pinned to the text position by position (`root_rel`):
/// each literal run is maximal and decodes the span up to the next
/// unescaped structural character, each group spans its delimiters, and a
/// closing delimiter with no open group is a one-character literal part.
/// Writing the tree back out reproduces the program's normal form.
pub fn parse(string: &str) -> (r: ProgramPart)
    ensures
        r matches ProgramPart::SubstitutionInvocation(cs) && root_rel(string@, 0, cs@)
            && unparse_parts(cs@) == norm(string@, 0, 0) && parts_wf(cs@),
{
    let ghost s = string@;
    let len = string.unicode_len();
    let mut acc: Vec<ProgramPart> = Vec::new();
    let mut i: usize = 0;
    proof {
        assert(acc@ =~= Seq::<ProgramPart>::empty());
        assert(unparse_parts(acc@) + norm(s, 0, 0) =~= norm(s, 0, 0));
        assert forall|q: Seq<ProgramPart>| root_rel(s, i as int, q) implies root_rel(
            s,
            0,
            acc@ + q,
        ) by {
            assert(acc@ + q =~= q);
        }
    }
    while i < len
        invariant
            s == string@,
            len == s.len(),
            0 <= i <= len,
            parts_wf(acc@),
            forall|q: Seq<ProgramPart>| root_rel(s, i as int, q) ==> root_rel(s, 0, acc@ + q),
            norm(s, 0, 0) == unparse_parts(acc@) + norm(s, i as int, 0),
        decreases len - i,
    {
        let ghost acc0 = acc@;
        let ghost i0 = i as int;
        let (mut chunk, j) = parse_parts(string, i);
        let ghost chunk0 = chunk@;
        acc.append(&mut chunk);
        proof {
            lemma_unparse_parts_append(acc0, chunk0);
            lemma_parts_wf_append(acc0, chunk0);
            assert(acc@ == acc0 + chunk0);
            assert(norm(s, i0, 0nat) == unparse_parts(chunk0) + norm(s, j as int, 0nat));
            crate::seqtool::lemma_add_assoc(unparse_parts(acc0), unparse_parts(chunk0), norm(
                s,
                j as int,
                0,
            ));
            assert forall|q: Seq<ProgramPart>| root_rel(s, j as int, q) implies root_rel(
                s,
                0,
                acc@ + q,
            ) by {
                lemma_level_root_compose(s, i0, j as int, chunk0, q);
                assert(root_rel(s, 0, acc0 + (chunk0 + q)));
                crate::seqtool::lemma_add_assoc(acc0, chunk0, q);
            }
        }
        if j < len {
            // A closing delimiter with no open group: a literal character.
            let mut t = String::new();
            push_char(&mut t, ')');
            let part = ProgramPart::RawString(t);
            let ghost accj = acc@;
            acc.push(part);
            proof {
                assert(t@ =~= seq![')']);
                assert(seq![')'].drop_first() =~= Seq::<char>::empty());
                assert(escape_text(Seq::<char>::empty()) == Seq::<char>::empty());
                assert(escape_text(seq![')']) == esc1(')') + Seq::<char>::empty());
                assert(esc1(')') + Seq::<char>::empty() =~= seq!['\\', ')']);
                assert(norm(s, j as int, 0nat) == seq!['\\', ')'] + norm(s, j as int + 1, 0nat));
                lemma_unparse_parts_push(accj, part);
                lemma_parts_wf_push(accj, part);
                crate::seqtool::lemma_add_assoc(unparse_parts(accj), seq!['\\', ')'], norm(
                    s,
                    j as int + 1,
                    0,
                ));
                assert forall|q: Seq<ProgramPart>| root_rel(s, j as int + 1, q) implies root_rel(
                    s,
                    0,
                    acc@ + q,
                ) by {
                    assert((seq![part] + q)[0] == part);
                    assert((seq![part] + q).drop_first() =~= q);
                    assert((part->RawString_0)@ == seq![')']);
                    assert(root_rel(s, j as int, seq![part] + q));
                    assert(root_rel(s, 0, accj + (seq![part] + q)));
                    crate::seqtool::lemma_add_assoc(accj, seq![part], q);
                    assert(accj + seq![part] =~= accj.push(part));
                }
            }
            i = j + 1;
        } else {
            i = j;
        }
    }
    proof {
        assert(norm(s, len as int, 0nat) =~= Seq::<char>::empty());
        assert(unparse_parts(acc@) + Seq::<char>::empty() =~= unparse_parts(acc@));
        assert(root_rel(s, len as int, Seq::<ProgramPart>::empty()));
        assert(root_rel(s, 0, acc@ + Seq::<ProgramPart>::empty()));
        assert(acc@ + Seq::<ProgramPart>::empty() =~= acc@);
    }
    ProgramPart::SubstitutionInvocation(acc)
}

} // verus!
