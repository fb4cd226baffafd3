//! The mathematical model of the group locator.
//!
//! A document is scanned left to right.  A backslash escapes the character
//! after it: the escaped character is taken literally and never opens,
//! separates or closes a group.  An opening delimiter `(` starts a fresh
//! group, discarding any partially accumulated state of an outer group; the
//! locator therefore only ever remembers the innermost open group.  Inside an
//! open group, `;` ends the current item and `)` completes the group.  A
//! completed group is reported only where its first item (the name) is one
//! that the registry resolves; otherwise the scan forgets the group and goes
//! on behind its closing delimiter.  A `)` with no open group is a literal
//! character, and so is everything outside a group.  A document that ends
//! with an open group, or in the middle of an escape, has no group.

use vstd::prelude::*;

verus! {

/// A located invocation group: the character positions of its delimiters,
/// its name, and its ordered parameters.
pub ghost struct LocatedGroup {
    /// Position of the opening delimiter.
    pub open: int,
    /// Position of the closing delimiter.
    pub close: int,
    /// The group's first item.
    pub name: Seq<char>,
    /// The items after the name, in order.
    pub params: Seq<Seq<char>>,
}

/// One step of the locator's scan, from position `i` with the state the scan
/// has built so far: the position of the innermost unmatched opening
/// delimiter, the finished items of that group, and the item being
/// accumulated.
pub open spec fn scan(
    s: Seq<char>,
    i: int,
    opening: Option<int>,
    items: Seq<Seq<char>>,
    cur: Seq<char>,
    names: Set<Seq<char>>,
) -> Option<LocatedGroup>
    decreases s.len() - i,
{
    if i < 0 || i >= s.len() {
        None
    } else if s[i] == '\\' {
        if i + 1 >= s.len() {
            None
        } else {
            scan(s, i + 2, opening, items, cur.push(s[i + 1]), names)
        }
    } else if s[i] == '(' {
        scan(s, i + 1, Some(i), Seq::empty(), Seq::empty(), names)
    } else if opening is Some {
        if s[i] == ';' {
            scan(s, i + 1, opening, items.push(cur), Seq::empty(), names)
        } else if s[i] == ')' {
            let all = items.push(cur);
            if names.contains(all[0]) {
                Some(
                    LocatedGroup {
                        open: opening->0,
                        close: i,
                        name: all[0],
                        params: all.drop_first(),
                    },
                )
            } else {
                scan(s, i + 1, None, Seq::empty(), Seq::empty(), names)
            }
        } else {
            scan(s, i + 1, opening, items, cur.push(s[i]), names)
        }
    } else {
        scan(s, i + 1, opening, items, cur, names)
    }
}

/// The first group of `s` whose name is in `names`: the complete group that
/// closes earliest, which by construction is an innermost one.
pub open spec fn find(s: Seq<char>, names: Set<Seq<char>>) -> Option<LocatedGroup> {
    scan(s, 0, None, Seq::empty(), Seq::empty(), names)
}

/// Whatever the scan state, a located group lies inside the document, closes
/// with `)` at or after the scanned position, opens before it closes, and
/// bears a resolvable name.
pub proof fn lemma_scan_bounds(
    s: Seq<char>,
    i: int,
    opening: Option<int>,
    items: Seq<Seq<char>>,
    cur: Seq<char>,
    names: Set<Seq<char>>,
    g: LocatedGroup,
)
    requires
        0 <= i,
        opening matches Some(o) ==> 0 <= o < i,
        scan(s, i, opening, items, cur, names) == Some(g),
    ensures
        0 <= g.open < g.close < s.len(),
        i <= g.close,
        s[g.close] == ')',
        names.contains(g.name),
    decreases s.len() - i,
{
    if i >= s.len() {
    } else if s[i] == '\\' {
        if i + 1 < s.len() {
            lemma_scan_bounds(s, i + 2, opening, items, cur.push(s[i + 1]), names, g);
        }
    } else if s[i] == '(' {
        lemma_scan_bounds(s, i + 1, Some(i), Seq::empty(), Seq::empty(), names, g);
    } else if opening is Some {
        if s[i] == ';' {
            lemma_scan_bounds(s, i + 1, opening, items.push(cur), Seq::empty(), names, g);
        } else if s[i] == ')' {
            if !names.contains(items.push(cur)[0]) {
                lemma_scan_bounds(s, i + 1, None, Seq::empty(), Seq::empty(), names, g);
            }
        } else {
            lemma_scan_bounds(s, i + 1, opening, items, cur.push(s[i]), names, g);
        }
    } else {
        lemma_scan_bounds(s, i + 1, opening, items, cur, names, g);
    }
}

/// A located group never opens before the opening delimiter the scan has
/// seen, nor before the scanned position where no group is open.
proof fn lemma_scan_open_monotone(
    s: Seq<char>,
    i: int,
    opening: Option<int>,
    items: Seq<Seq<char>>,
    cur: Seq<char>,
    names: Set<Seq<char>>,
    g: LocatedGroup,
)
    requires
        0 <= i,
        opening matches Some(o) ==> 0 <= o < i,
        scan(s, i, opening, items, cur, names) == Some(g),
    ensures
        g.open >= (match opening {
            Some(o) => o,
            None => i,
        }),
    decreases s.len() - i,
{
    if i >= s.len() {
    } else if s[i] == '\\' {
        if i + 1 < s.len() {
            lemma_scan_open_monotone(s, i + 2, opening, items, cur.push(s[i + 1]), names, g);
        }
    } else if s[i] == '(' {
        lemma_scan_open_monotone(s, i + 1, Some(i), Seq::empty(), Seq::empty(), names, g);
    } else if opening is Some {
        if s[i] == ';' {
            lemma_scan_open_monotone(s, i + 1, opening, items.push(cur), Seq::empty(), names, g);
        } else if s[i] == ')' {
            if !names.contains(items.push(cur)[0]) {
                lemma_scan_open_monotone(s, i + 1, None, Seq::empty(), Seq::empty(), names, g);
            }
        } else {
            lemma_scan_open_monotone(s, i + 1, opening, items, cur.push(s[i]), names, g);
        }
    } else {
        lemma_scan_open_monotone(s, i + 1, opening, items, cur, names, g);
    }
}

/// While the group that is eventually returned stays open, the scan passes
/// no unescaped opening delimiter: the rest of its interior is inert.
proof fn lemma_scan_interior(
    s: Seq<char>,
    i: int,
    o: int,
    items: Seq<Seq<char>>,
    cur: Seq<char>,
    names: Set<Seq<char>>,
    g: LocatedGroup,
)
    requires
        0 <= o < i,
        scan(s, i, Some(o), items, cur, names) == Some(g),
        g.open == o,
    ensures
        no_opener(s.subrange(i, g.close)),
    decreases s.len() - i,
{
    lemma_scan_bounds(s, i, Some(o), items, cur, names, g);
    let interior = s.subrange(i, g.close);
    if i >= s.len() {
    } else if s[i] == '\\' {
        if i + 1 < s.len() {
            lemma_scan_open_monotone(s, i + 2, Some(o), items, cur.push(s[i + 1]), names, g);
            lemma_scan_bounds(s, i + 2, Some(o), items, cur.push(s[i + 1]), names, g);
            lemma_scan_interior(s, i + 2, o, items, cur.push(s[i + 1]), names, g);
            assert(interior[0] == '\\');
            assert(interior.len() >= 2);
            assert(interior.skip(2) =~= s.subrange(i + 2, g.close));
        }
    } else if s[i] == '(' {
        lemma_scan_open_monotone(s, i + 1, Some(i), Seq::empty(), Seq::empty(), names, g);
    } else if s[i] == ';' {
        lemma_scan_interior(s, i + 1, o, items.push(cur), Seq::empty(), names, g);
        assert(interior.skip(1) =~= s.subrange(i + 1, g.close));
    } else if s[i] == ')' {
        if names.contains(items.push(cur)[0]) {
            assert(interior.len() == 0);
        } else {
            lemma_scan_open_monotone(s, i + 1, None, Seq::empty(), Seq::empty(), names, g);
        }
    } else {
        lemma_scan_interior(s, i + 1, o, items, cur.push(s[i]), names, g);
        assert(interior.skip(1) =~= s.subrange(i + 1, g.close));
    }
}

/// From a state with no open group, the returned group's interior is inert.
proof fn lemma_scan_innermost_from_none(
    s: Seq<char>,
    i: int,
    items: Seq<Seq<char>>,
    cur: Seq<char>,
    names: Set<Seq<char>>,
    g: LocatedGroup,
)
    requires
        0 <= i,
        scan(s, i, None, items, cur, names) == Some(g),
    ensures
        no_opener(s.subrange(g.open + 1, g.close)),
    decreases s.len() - i,
{
    if i >= s.len() {
    } else if s[i] == '\\' {
        if i + 1 < s.len() {
            lemma_scan_innermost_from_none(s, i + 2, items, cur.push(s[i + 1]), names, g);
        }
    } else if s[i] == '(' {
        lemma_scan_open_monotone(s, i + 1, Some(i), Seq::empty(), Seq::empty(), names, g);
        if g.open == i {
            lemma_scan_interior(s, i + 1, i, Seq::empty(), Seq::empty(), names, g);
        } else {
            lemma_scan_innermost_from_other(s, i + 1, i, Seq::empty(), Seq::empty(), names, g);
        }
    } else {
        lemma_scan_innermost_from_none(s, i + 1, items, cur, names, g);
    }
}

/// From a state whose open group is not the one that is returned, the
/// returned group's interior is inert.
proof fn lemma_scan_innermost_from_other(
    s: Seq<char>,
    i: int,
    o: int,
    items: Seq<Seq<char>>,
    cur: Seq<char>,
    names: Set<Seq<char>>,
    g: LocatedGroup,
)
    requires
        0 <= o < i,
        scan(s, i, Some(o), items, cur, names) == Some(g),
        g.open != o,
    ensures
        no_opener(s.subrange(g.open + 1, g.close)),
    decreases s.len() - i,
{
    if i >= s.len() {
    } else if s[i] == '\\' {
        if i + 1 < s.len() {
            lemma_scan_innermost_from_other(s, i + 2, o, items, cur.push(s[i + 1]), names, g);
        }
    } else if s[i] == '(' {
        lemma_scan_open_monotone(s, i + 1, Some(i), Seq::empty(), Seq::empty(), names, g);
        if g.open == i {
            lemma_scan_interior(s, i + 1, i, Seq::empty(), Seq::empty(), names, g);
        } else {
            lemma_scan_innermost_from_other(s, i + 1, i, Seq::empty(), Seq::empty(), names, g);
        }
    } else if s[i] == ';' {
        lemma_scan_innermost_from_other(s, i + 1, o, items.push(cur), Seq::empty(), names, g);
    } else if s[i] == ')' {
        if !names.contains(items.push(cur)[0]) {
            lemma_scan_innermost_from_none(s, i + 1, Seq::empty(), Seq::empty(), names, g);
        }
    } else {
        lemma_scan_innermost_from_other(s, i + 1, o, items, cur.push(s[i]), names, g);
    }
}

/// Innermost-first resolution: the group the locator returns holds no
/// unescaped opening delimiter between its delimiters, so no group nested
/// inside it could have been taken instead.
pub proof fn lemma_found_group_is_innermost(s: Seq<char>, names: Set<Seq<char>>, g: LocatedGroup)
    requires
        find(s, names) == Some(g),
    ensures
        no_opener(s.subrange(g.open + 1, g.close)),
{
    lemma_scan_innermost_from_none(s, 0, Seq::empty(), Seq::empty(), names, g);
}

/// A backslash escapes exactly the next character: whatever that character
/// is — an opening or closing delimiter, a separator, or another backslash —
/// the scan takes it literally into the item being accumulated and treats
/// nothing about it as structure, whatever the scan's state.
pub proof fn lemma_escape_pair_joins_item(
    s: Seq<char>,
    i: int,
    opening: Option<int>,
    items: Seq<Seq<char>>,
    cur: Seq<char>,
    names: Set<Seq<char>>,
)
    requires
        0 <= i,
        i + 1 < s.len(),
        s[i] == '\\',
    ensures
        scan(s, i, opening, items, cur, names) == scan(
            s,
            i + 2,
            opening,
            items,
            cur.push(s[i + 1]),
            names,
        ),
{
}

/// Holds of a document in which every occurrence of the opening delimiter is
/// escaped; in particular of one with no opening delimiter at all.
pub open spec fn no_opener(s: Seq<char>) -> bool
    decreases s.len(),
{
    if s.len() == 0 {
        true
    } else if s[0] == '\\' {
        s.len() == 1 || no_opener(s.skip(2))
    } else {
        s[0] != '(' && no_opener(s.skip(1))
    }
}

proof fn lemma_scan_no_opener(
    s: Seq<char>,
    i: int,
    items: Seq<Seq<char>>,
    cur: Seq<char>,
    names: Set<Seq<char>>,
)
    requires
        0 <= i <= s.len(),
        no_opener(s.skip(i)),
    ensures
        scan(s, i, None, items, cur, names) is None,
    decreases s.len() - i,
{
    if i < s.len() {
        assert(s.skip(i)[0] == s[i]);
        if s[i] == '\\' {
            if i + 1 < s.len() {
                assert(s.skip(i).skip(2) =~= s.skip(i + 2));
                lemma_scan_no_opener(s, i + 2, items, cur.push(s[i + 1]), names);
            }
        } else {
            assert(s.skip(i).skip(1) =~= s.skip(i + 1));
            lemma_scan_no_opener(s, i + 1, items, cur, names);
        }
    }
}

/// A document in which every opening delimiter is escaped has no group, no
/// matter which names resolve.  Escaped structural characters are inert, and
/// text with no opening delimiter at all is never rewritten.
pub proof fn lemma_no_opener_no_group(s: Seq<char>, names: Set<Seq<char>>)
    requires
        no_opener(s),
    ensures
        find(s, names) is None,
{
    assert(s.skip(0) =~= s);
    lemma_scan_no_opener(s, 0, Seq::empty(), Seq::empty(), names);
}

} // verus!
