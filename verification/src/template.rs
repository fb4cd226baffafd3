//! Static substitution templates.
//!
//! A template is an ordered sequence of parts, each a literal chunk or a
//! positional parameter marker.  Rendering substitutes each marker with the
//! parameter of that index, or the empty string where there is none.
//!
//! A template is written down as text in which the marker character `$`
//! followed by a decimal digit sequence selects a parameter by 0-based
//! index; doubling the marker (`$$`) or escaping it (`\$`) yields a literal
//! marker character, and a marker followed by anything else is itself
//! literal.

use vstd::prelude::*;

use crate::Parameters;

verus! {

/// Appends one character.
///
/// Relies on `String::push`: pushes exactly the given character onto the end
/// of the string.
#[verifier::external_body]
pub(crate) fn push_char(s: &mut String, c: char)
    ensures
        final(s)@ == old(s)@.push(c),
{
    s.push(c);
}

/// One part of a template: a literal chunk, or a marker selecting the
/// parameter of the given index.
pub enum TemplatePart {
    Literal(String),
    Parameter(usize),
}

/// What one part renders to against the given parameters: a literal renders
/// to itself, a marker to the selected parameter, or to the empty string
/// where the index is out of range.
pub open spec fn part_render(part: TemplatePart, params: Seq<Seq<char>>) -> Seq<char> {
    match part {
        TemplatePart::Literal(l) => l@,
        TemplatePart::Parameter(n) => if n < params.len() {
            params[n as int]
        } else {
            Seq::empty()
        },
    }
}

/// What a sequence of parts renders to: the concatenation of what each part
/// renders to, in order.
pub open spec fn render_parts(parts: Seq<TemplatePart>, params: Seq<Seq<char>>) -> Seq<char>
    decreases parts.len(),
{
    if parts.len() == 0 {
        Seq::empty()
    } else {
        part_render(parts[0], params) + render_parts(parts.drop_first(), params)
    }
}

/// Rendering one more part at the end appends what that part renders to.
pub proof fn lemma_render_parts_push(
    parts: Seq<TemplatePart>,
    part: TemplatePart,
    params: Seq<Seq<char>>,
)
    ensures
        render_parts(parts.push(part), params) == render_parts(parts, params) + part_render(
            part,
            params,
        ),
    decreases parts.len(),
{
    if parts.len() == 0 {
        assert(parts.push(part)[0] == part);
        assert(parts.push(part).drop_first() =~= Seq::<TemplatePart>::empty());
        assert(render_parts(Seq::<TemplatePart>::empty(), params) == Seq::<char>::empty());
        assert(render_parts(parts.push(part), params) == part_render(part, params)
            + Seq::<char>::empty());
        assert(part_render(part, params) + Seq::<char>::empty() =~= part_render(part, params));
        assert(render_parts(parts, params) + part_render(part, params) =~= part_render(
            part,
            params,
        ));
    } else {
        assert(parts.push(part).drop_first() =~= parts.drop_first().push(part));
        lemma_render_parts_push(parts.drop_first(), part, params);
        assert(render_parts(parts, params) + part_render(part, params) =~= part_render(
            parts[0],
            params,
        ) + (render_parts(parts.drop_first(), params) + part_render(part, params)));
    }
}

/// Whether `c` is a decimal digit.
pub open spec fn is_digit(c: char) -> bool {
    '0' <= c <= '9'
}

/// The value of the decimal digit `c`.
pub open spec fn digit_val(c: char) -> nat {
    (c as nat - '0' as nat) as nat
}

/// Accumulates one more decimal digit, capped so that the index stays a
/// machine integer; every capped value is out of range for any parameter
/// list that fits in memory, so the cap never changes what renders.
pub open spec fn acc_digit(acc: nat, d: nat) -> nat {
    if acc * 10 + d > usize::MAX as nat {
        usize::MAX as nat
    } else {
        acc * 10 + d
    }
}

/// What the template text `s`, read from position `i`, renders to against
/// `params`: the direct statement of the marker rule.
pub open spec fn expand(s: Seq<char>, i: int, params: Seq<Seq<char>>) -> Seq<char>
    decreases s.len() - i, 0int,
{
    if i < 0 || i >= s.len() {
        Seq::empty()
    } else if s[i] == '\\' {
        if i + 1 < s.len() && s[i + 1] == '$' {
            seq!['$'] + expand(s, i + 2, params)
        } else {
            seq!['\\'] + expand(s, i + 1, params)
        }
    } else if s[i] == '$' {
        if i + 1 < s.len() && s[i + 1] == '$' {
            seq!['$'] + expand(s, i + 2, params)
        } else if i + 1 < s.len() && is_digit(s[i + 1]) {
            expand_num(s, i + 2, digit_val(s[i + 1]), params)
        } else {
            seq!['$'] + expand(s, i + 1, params)
        }
    } else {
        seq![s[i]] + expand(s, i + 1, params)
    }
}

/// Reads the rest of a digit sequence whose value so far is `acc`, then
/// renders the selected parameter followed by the rest of the template.
pub open spec fn expand_num(s: Seq<char>, i: int, acc: nat, params: Seq<Seq<char>>) -> Seq<char>
    decreases s.len() - i, 1int,
{
    if 0 <= i < s.len() && is_digit(s[i]) {
        expand_num(s, i + 1, acc_digit(acc, digit_val(s[i])), params)
    } else {
        (if acc < params.len() {
            params[acc as int]
        } else {
            Seq::empty()
        }) + expand(s, i, params)
    }
}

/// A static substitution template: an ordered sequence of parts.
pub struct Template {
    parts: Vec<TemplatePart>,
}

impl View for Template {
    type V = Seq<TemplatePart>;

    closed spec fn view(&self) -> Seq<TemplatePart> {
        self.parts@
    }
}

impl Template {
    /// Wraps an ordered sequence of parts.
    pub fn new(parts: Vec<TemplatePart>) -> (r: Template)
        ensures
            r@ == parts@,
    {
        Template { parts }
    }

    /// Reads template text into parts, by the marker rule: `$` followed by a
    /// decimal digit sequence is a parameter marker, `$$` and `\$` are a
    /// literal marker character, and any other character stands for itself.
    pub fn parse(text: &str) -> (r: Template)
        ensures
            forall|params: Seq<Seq<char>>|
                #[trigger] render_parts(r@, params) == expand(text@, 0, params),
    {
        let ghost s = text@;
        let len = text.unicode_len();
        let mut parts: Vec<TemplatePart> = Vec::new();
        let mut i: usize = 0;
        while i < len
            invariant
                len == s.len(),
                s == text@,
                0 <= i <= len,
                forall|params: Seq<Seq<char>>|
                    #[trigger] render_parts(parts@, params) + expand(s, i as int, params) == expand(
                        s,
                        0,
                        params,
                    ),
            decreases len - i,
        {
            let c = text.get_char(i);
            if c == '\\' {
                if i + 1 < len && text.get_char(i + 1) == '$' {
                    Self::push_literal(&mut parts, '$');
                    proof {
                        Self::lemma_step(parts@, s, i as int, i + 2, seq!['$']);
                    }
                    i = i + 2;
                } else {
                    Self::push_literal(&mut parts, '\\');
                    proof {
                        Self::lemma_step(parts@, s, i as int, i + 1, seq!['\\']);
                    }
                    i = i + 1;
                }
            } else if c == '$' {
                if i + 1 < len && text.get_char(i + 1) == '$' {
                    Self::push_literal(&mut parts, '$');
                    proof {
                        Self::lemma_step(parts@, s, i as int, i + 2, seq!['$']);
                    }
                    i = i + 2;
                } else if i + 1 < len && Self::digit_of(text.get_char(i + 1)).is_some() {
                    let d = Self::digit_of(text.get_char(i + 1)).unwrap();
                    let mut acc: usize = d as usize;
                    let mut j: usize = i + 2;
                    proof {
                        assert forall|params: Seq<Seq<char>>|
                            #[trigger] expand_num(s, j as int, acc as nat, params) == expand(
                                s,
                                i as int,
                                params,
                            ) by {}
                    }
                    while j < len && Self::digit_of(text.get_char(j)).is_some()
                        invariant
                            len == s.len(),
                            s == text@,
                            i + 2 <= j <= len,
                            forall|params: Seq<Seq<char>>|
                                #[trigger] expand_num(s, j as int, acc as nat, params) == expand(
                                    s,
                                    i as int,
                                    params,
                                ),
                        decreases len - j,
                    {
                        let d2 = Self::digit_of(text.get_char(j)).unwrap();
                        let ghost acc0 = acc as nat;
                        acc = Self::acc_step(acc, d2);
                        proof {
                            assert forall|params: Seq<Seq<char>>|
                                #[trigger] expand_num(s, j as int + 1, acc as nat, params) == expand(
                                    s,
                                    i as int,
                                    params,
                                ) by {
                                assert(expand_num(s, j as int, acc0, params) == expand(
                                    s,
                                    i as int,
                                    params,
                                ));
                                assert(expand_num(s, j as int, acc0, params) == expand_num(
                                    s,
                                    j as int + 1,
                                    acc_digit(acc0, digit_val(s[j as int])),
                                    params,
                                ));
                            }
                        }
                        j = j + 1;
                    }
                    let ghost before = parts@;
                    parts.push(TemplatePart::Parameter(acc));
                    proof {
                        let part = TemplatePart::Parameter(acc);
                        assert forall|params: Seq<Seq<char>>|
                            #[trigger] render_parts(parts@, params) + expand(s, j as int, params)
                                == expand(s, 0, params) by {
                            lemma_render_parts_push(before, part, params);
                            assert(expand_num(s, j as int, acc as nat, params) == part_render(
                                part,
                                params,
                            ) + expand(s, j as int, params));
                            crate::seqtool::lemma_add_assoc(
                                render_parts(before, params),
                                part_render(part, params),
                                expand(s, j as int, params),
                            );
                        }
                    }
                    i = j;
                } else {
                    Self::push_literal(&mut parts, '$');
                    proof {
                        Self::lemma_step(parts@, s, i as int, i + 1, seq!['$']);
                    }
                    i = i + 1;
                }
            } else {
                Self::push_literal(&mut parts, c);
                proof {
                    assert(seq![s[i as int]] =~= seq![c]);
                    Self::lemma_step(parts@, s, i as int, i + 1, seq![c]);
                }
                i = i + 1;
            }
        }
        proof {
            assert forall|params: Seq<Seq<char>>|
                #[trigger] render_parts(parts@, params) == expand(s, 0, params) by {
                assert(render_parts(parts@, params) + expand(s, i as int, params) == expand(
                    s,
                    0,
                    params,
                ));
                assert(render_parts(parts@, params) + Seq::<char>::empty() =~= render_parts(
                    parts@,
                    params,
                ));
            }
        }
        Template { parts }
    }

    /// Renders the template against the given parameters.
    pub fn render(&self, parameters: &Parameters) -> (r: String)
        ensures
            r@ == render_parts(self@, parameters@),
    {
        let mut out = String::new();
        let mut k: usize = 0;
        while k < self.parts.len()
            invariant
                0 <= k <= self@.len(),
                out@ == render_parts(self@.take(k as int), parameters@),
            decreases self@.len() - k,
        {
            let ghost before = self@.take(k as int);
            match &self.parts[k] {
                TemplatePart::Literal(l) => {
                    out.append(l.as_str());
                },
                TemplatePart::Parameter(n) => {
                    out.append(parameters.get(*n));
                },
            }
            proof {
                lemma_render_parts_push(before, self@[k as int], parameters@);
                assert(before.push(self@[k as int]) =~= self@.take(k as int + 1));
            }
            k = k + 1;
        }
        proof {
            assert(self@.take(k as int) =~= self@);
        }
        out
    }

    /// The digit's value, or nothing where `c` is no decimal digit.
    fn digit_of(c: char) -> (r: Option<u8>)
        ensures
            r is Some <==> is_digit(c),
            r matches Some(d) ==> d as nat == digit_val(c),
    {
        if '0' <= c && c <= '9' {
            Some((c as u8) - ('0' as u8))
        } else {
            None
        }
    }

    /// Accumulates one more decimal digit, saturating at the largest index.
    fn acc_step(acc: usize, d: u8) -> (r: usize)
        requires
            d < 10,
        ensures
            r as nat == acc_digit(acc as nat, d as nat),
    {
        if acc > (usize::MAX - d as usize) / 10 {
            proof {
                assert(acc as nat * 10 + d as nat > usize::MAX as nat) by (nonlinear_arith)
                    requires
                        acc as nat > (usize::MAX as nat - d as nat) / 10,
                        d < 10,
                ;
            }
            usize::MAX
        } else {
            proof {
                assert(acc as nat * 10 + d as nat <= usize::MAX as nat) by (nonlinear_arith)
                    requires
                        acc as nat <= (usize::MAX as nat - d as nat) / 10,
                        d < 10,
                ;
            }
            acc * 10 + d as usize
        }
    }

    /// Appends a one-character literal part.
    fn push_literal(parts: &mut Vec<TemplatePart>, c: char)
        ensures
            final(parts)@.len() == old(parts)@.len() + 1,
            final(parts)@.take(old(parts)@.len() as int) == old(parts)@,
            forall|params: Seq<Seq<char>>| part_render(#[trigger] final(parts)@.last(), params)
                == seq![c],
    {
        let mut l = String::new();
        push_char(&mut l, c);
        proof {
            assert(l@ =~= seq![c]);
        }
        parts.push(TemplatePart::Literal(l));
        proof {
            assert(final(parts)@.take(old(parts)@.len() as int) =~= old(parts)@);
        }
    }

    /// One scanning step of `parse`: the parts so far keep rendering to the
    /// consumed prefix when the step consumed text that renders to `piece`
    /// and appended a part rendering to `piece`.
    proof fn lemma_step(parts: Seq<TemplatePart>, s: Seq<char>, i: int, next: int, piece: Seq<char>)
        requires
            parts.len() > 0,
            forall|params: Seq<Seq<char>>| part_render(#[trigger] parts.last(), params) == piece,
            forall|params: Seq<Seq<char>>|
                #[trigger] render_parts(parts.drop_last(), params) + expand(s, i, params) == expand(
                    s,
                    0,
                    params,
                ),
            forall|params: Seq<Seq<char>>|
                #[trigger] expand(s, i, params) == piece + expand(s, next, params),
        ensures
            forall|params: Seq<Seq<char>>|
                #[trigger] render_parts(parts, params) + expand(s, next, params) == expand(
                    s,
                    0,
                    params,
                ),
    {
        assert forall|params: Seq<Seq<char>>|
            #[trigger] render_parts(parts, params) + expand(s, next, params) == expand(
                s,
                0,
                params,
            ) by {
            lemma_render_parts_push(parts.drop_last(), parts.last(), params);
            assert(parts.drop_last().push(parts.last()) =~= parts);
            crate::seqtool::lemma_add_assoc(
                render_parts(parts.drop_last(), params),
                piece,
                expand(s, next, params),
            );
        }
    }
}

} // verus!
