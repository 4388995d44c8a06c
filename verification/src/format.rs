use vstd::prelude::*;
use std::collections::HashMap;

use crate::text::{
    chars_of, ident_continue_char, is_whitespace, is_xid_continue, string_of, whitespace_char,
};

verus! {

/// Whether `c` is an ASCII decimal digit.
pub open spec fn spec_is_numeric(c: char) -> bool {
    '0' <= c && c <= '9'
}

/// Whether `c` is an ASCII decimal digit (`'0'` through `'9'`).
pub fn is_numeric(c: char) -> (r: bool)
    ensures
        r == spec_is_numeric(c),
{
    '0' <= c && c <= '9'
}

/// The character after position `i`, or a space past the end.
pub open spec fn next_or_space(s: Seq<char>, i: int) -> char {
    if i + 1 < s.len() {
        s[i + 1]
    } else {
        ' '
    }
}

/// Whether a run of whitespace between `last` (the last character written) and `next`
/// must leave one space behind: between two identifier characters, or between a hyphen
/// and a number.
pub open spec fn space_needed(last: char, next: char) -> bool {
    ||| (ident_continue_char(last) && ident_continue_char(next))
    ||| (last == '-' && (spec_is_numeric(next) || next == '.'))
}

/// What the whitespace pass writes for `s[i..]`, given that `last` was written last.
/// A whitespace character is dropped, or written as a single space where
/// `space_needed` asks for one; every other character is copied.
pub open spec fn strip_whitespace_from(s: Seq<char>, i: int, last: char) -> Seq<char>
    decreases s.len() - i,
{
    if i < 0 || i >= s.len() {
        Seq::empty()
    } else if whitespace_char(s[i]) {
        if space_needed(last, next_or_space(s, i)) {
            seq![' '] + strip_whitespace_from(s, i + 1, ' ')
        } else {
            strip_whitespace_from(s, i + 1, last)
        }
    } else {
        seq![s[i]] + strip_whitespace_from(s, i + 1, s[i])
    }
}

/// The whitespace pass over all of `s`.
pub open spec fn strip_whitespace(s: Seq<char>) -> Seq<char> {
    strip_whitespace_from(s, 0, ' ')
}

/// Whether `c` closes a bracketed list.
pub open spec fn is_closer(c: char) -> bool {
    c == '}' || c == ')' || c == ']'
}

/// Whether the character at `i` is a comma right before a closing bracket.
pub open spec fn trailing_comma(s: Seq<char>, i: int) -> bool {
    s[i] == ',' && is_closer(next_or_space(s, i))
}

/// `s[i..]` without its trailing commas.
pub open spec fn drop_trailing_commas_from(s: Seq<char>, i: int) -> Seq<char>
    decreases s.len() - i,
{
    if i < 0 || i >= s.len() {
        Seq::empty()
    } else if trailing_comma(s, i) {
        drop_trailing_commas_from(s, i + 1)
    } else {
        seq![s[i]] + drop_trailing_commas_from(s, i + 1)
    }
}

/// `s` without the commas that stand right before `}`, `)` or `]`.
pub open spec fn drop_trailing_commas(s: Seq<char>) -> Seq<char> {
    drop_trailing_commas_from(s, 0)
}


/// How a character moves the parenthesis depth.
pub open spec fn paren_delta(c: char) -> int {
    if c == '(' {
        1
    } else if c == ')' {
        -1
    } else {
        0
    }
}

/// The parenthesis depth before position `i` of `s`: opened minus closed in `s[..i]`.
pub open spec fn depth(s: Seq<char>, i: int) -> int
    decreases i,
{
    if i <= 0 {
        0
    } else {
        depth(s, i - 1) + paren_delta(s[i - 1])
    }
}

/// Every `)` closes an earlier `(`, and every `(` is closed.
pub open spec fn parens_balanced(s: Seq<char>) -> bool {
    &&& forall|i: int| 0 <= i <= s.len() ==> #[trigger] depth(s, i) >= 0
    &&& depth(s, s.len() as int) == 0
}

/// The `)` at `j` closes the `(` at `a`.
pub open spec fn matching(s: Seq<char>, a: int, j: int) -> bool {
    &&& 0 <= a < j < s.len()
    &&& s[a] == '('
    &&& s[j] == ')'
    &&& depth(s, j + 1) == depth(s, a)
    &&& forall|k: int| a < k <= j ==> #[trigger] depth(s, k) > depth(s, a)
}

/// The position of the `)` that closes the `(` at `a`.
pub open spec fn close_of(s: Seq<char>, a: int) -> int {
    choose|j: int| matching(s, a, j)
}

/// The `(` at `a` is directly followed by another `(` whose `)` directly precedes the
/// `)` of the first: `((...))`.
pub open spec fn double_open(s: Seq<char>, a: int) -> bool {
    &&& exists|j: int| #[trigger] matching(s, a, j)
    &&& exists|j: int| #[trigger] matching(s, a + 1, j)
    &&& close_of(s, a) == close_of(s, a + 1) + 1
}

/// The parenthesis at `i` is the outer pair of a `((...))`.
pub open spec fn redundant_paren(s: Seq<char>, i: int) -> bool {
    ||| double_open(s, i)
    ||| exists|a: int| double_open(s, a) && close_of(s, a) == i
}

/// `s[i..]` without the redundant outer parentheses of `s`.
pub open spec fn drop_double_parens_from(s: Seq<char>, i: int) -> Seq<char>
    decreases s.len() - i,
{
    if i < 0 || i >= s.len() {
        Seq::empty()
    } else if redundant_paren(s, i) {
        drop_double_parens_from(s, i + 1)
    } else {
        seq![s[i]] + drop_double_parens_from(s, i + 1)
    }
}

/// `s` with `((x))` turned into `(x)`, wherever it occurs.
pub open spec fn drop_double_parens(s: Seq<char>) -> Seq<char> {
    drop_double_parens_from(s, 0)
}

/// The three passes of the source minifier, one after the other.
pub open spec fn minified_source(s: Seq<char>) -> Seq<char> {
    drop_double_parens(drop_trailing_commas(strip_whitespace(s)))
}

/// Depth before a position does not see what comes after it.
proof fn lemma_depth_prefix(s: Seq<char>, c: char, k: int)
    requires
        0 <= k <= s.len(),
    ensures
        depth(s.push(c), k) == depth(s, k),
    decreases k,
{
    if k > 0 {
        lemma_depth_prefix(s, c, k - 1);
        assert(s.push(c)[k - 1] == s[k - 1]);
    }
}

/// Appending a character moves the final depth by that character's delta only.
proof fn lemma_depth_push(s: Seq<char>, c: char)
    ensures
        forall|k: int| 0 <= k <= s.len() ==> #[trigger] depth(s.push(c), k) == depth(s, k),
        depth(s.push(c), s.len() + 1int) == depth(s, s.len() as int) + paren_delta(c),
{
    assert forall|k: int| 0 <= k <= s.len() implies #[trigger] depth(s.push(c), k) == depth(s, k) by {
        lemma_depth_prefix(s, c, k);
    }
    assert(s.push(c)[s.len() as int] == c);
    lemma_depth_prefix(s, c, s.len() as int);
    assert(depth(s.push(c), s.len() + 1int) == depth(s.push(c), s.len() as int) + paren_delta(
        s.push(c)[s.len() as int],
    ));
}

/// A `(` has at most one closing `)`.
proof fn lemma_matching_unique_close(s: Seq<char>, a: int, j1: int, j2: int)
    requires
        matching(s, a, j1),
        matching(s, a, j2),
    ensures
        j1 == j2,
{
    if j1 < j2 {
        assert(depth(s, j1 + 1) > depth(s, a));
    } else if j2 < j1 {
        assert(depth(s, j2 + 1) > depth(s, a));
    }
}

/// A `)` closes at most one `(`.
proof fn lemma_matching_unique_open(s: Seq<char>, a1: int, a2: int, j: int)
    requires
        matching(s, a1, j),
        matching(s, a2, j),
    ensures
        a1 == a2,
{
    if a1 < a2 {
        assert(depth(s, a2) > depth(s, a1));
    } else if a2 < a1 {
        assert(depth(s, a1) > depth(s, a2));
    }
}

/// Pairs nest: a pair opened inside another pair closes inside it too.
proof fn lemma_matching_nested(s: Seq<char>, a: int, ja: int, b: int, jb: int)
    requires
        matching(s, a, ja),
        matching(s, b, jb),
        a < b < ja,
    ensures
        jb < ja,
{
    assert(depth(s, b) > depth(s, a));
    if jb == ja {
    } else if jb > ja {
        assert(depth(s, ja + 1) > depth(s, b));
    }
}

/// `close_of` names the one closing parenthesis.
proof fn lemma_close_of(s: Seq<char>, a: int, j: int)
    requires
        matching(s, a, j),
    ensures
        close_of(s, a) == j,
{
    lemma_matching_unique_close(s, a, j, close_of(s, a));
}

/// The whitespace of `t` is settled: each whitespace character is a single space with a
/// character after it, and `space_needed` asks for it between the character before it
/// (`last`, for the first character) and the one after it.
pub open spec fn whitespace_settled(t: Seq<char>, last: char) -> bool {
    forall|i: int|
        0 <= i < t.len() && #[trigger] whitespace_char(t[i]) ==> {
            &&& t[i] == ' '
            &&& i + 1 < t.len()
            &&& space_needed(if i == 0 { last } else { t[i - 1] }, t[i + 1])
        }
}

/// A settled sequence with one more character in front.
proof fn lemma_settled_cons(x: char, r: Seq<char>, last: char)
    requires
        whitespace_settled(r, x),
        whitespace_char(x) ==> x == ' ' && r.len() > 0 && space_needed(last, r[0]),
    ensures
        whitespace_settled(seq![x] + r, last),
{
    let t = seq![x] + r;
    assert forall|i: int| 0 <= i < t.len() && #[trigger] whitespace_char(t[i]) implies {
        &&& t[i] == ' '
        &&& i + 1 < t.len()
        &&& space_needed(if i == 0 { last } else { t[i - 1] }, t[i + 1])
    } by {
        if i > 0 {
            assert(t[i] == r[i - 1]);
            assert(whitespace_char(r[i - 1]));
            if i > 1 {
                assert(t[i - 1] == r[i - 2]);
            }
            if i < r.len() {
                assert(t[i + 1] == r[i]);
            }
        } else {
            assert(t[1] == r[0]);
        }
    }
}

/// Where a settled sequence does not start with whitespace, what stands before it does
/// not matter.
proof fn lemma_settled_any_last(r: Seq<char>, a: char, b: char)
    requires
        whitespace_settled(r, a),
        r.len() > 0 ==> !whitespace_char(r[0]),
    ensures
        whitespace_settled(r, b),
{
}

/// The whitespace pass leaves its output settled.
proof fn lemma_strip_settled(s: Seq<char>, i: int, last: char)
    requires
        0 <= i <= s.len(),
    ensures
        whitespace_settled(strip_whitespace_from(s, i, last), last),
    decreases s.len() - i,
{
    if i < s.len() {
        if whitespace_char(s[i]) {
            if space_needed(last, next_or_space(s, i)) {
                lemma_strip_settled(s, i + 1, ' ');
                assert(i + 1 < s.len());
                assert(!whitespace_char(s[i + 1]));
                let r = strip_whitespace_from(s, i + 1, ' ');
                assert(r == seq![s[i + 1]] + strip_whitespace_from(s, i + 2, s[i + 1]));
                lemma_settled_cons(' ', r, last);
            } else {
                lemma_strip_settled(s, i + 1, last);
            }
        } else {
            lemma_strip_settled(s, i + 1, s[i]);
            lemma_settled_cons(s[i], strip_whitespace_from(s, i + 1, s[i]), last);
        }
    } else {
        assert(whitespace_settled(Seq::<char>::empty(), last));
    }
}

/// The whitespace pass leaves a settled sequence as it is.
proof fn lemma_strip_settled_fixed(t: Seq<char>, i: int, last: char)
    requires
        0 <= i <= t.len(),
        whitespace_settled(t, last),
    ensures
        strip_whitespace_from(t, i, if i == 0 { last } else { t[i - 1] }) == t.subrange(
            i,
            t.len() as int,
        ),
    decreases t.len() - i,
{
    if i < t.len() {
        let ctx = if i == 0 { last } else { t[i - 1] };
        lemma_strip_settled_fixed(t, i + 1, last);
        if whitespace_char(t[i]) {
            assert(t[i] == ' ' && i + 1 < t.len() && space_needed(ctx, t[i + 1]));
            assert(next_or_space(t, i) == t[i + 1]);
        }
        assert(t.subrange(i, t.len() as int) == seq![t[i]] + t.subrange(i + 1, t.len() as int));
    } else {
        assert(t.subrange(i, t.len() as int) =~= Seq::<char>::empty());
    }
}

/// The output of the whitespace pass is settled, and a settled sequence is what the
/// whitespace pass makes of it.
pub proof fn lemma_strip_whitespace_settles(s: Seq<char>, t: Seq<char>)
    ensures
        whitespace_settled(strip_whitespace(s), ' '),
        whitespace_settled(t, ' ') ==> strip_whitespace(t) == t,
{
    lemma_strip_settled(s, 0, ' ');
    if whitespace_settled(t, ' ') {
        lemma_strip_settled_fixed(t, 0, ' ');
        assert(t.subrange(0, t.len() as int) == t);
    }
}

/// No comma of `t` stands right before a closing bracket.
pub open spec fn commas_settled(t: Seq<char>) -> bool {
    forall|i: int| 0 <= i < t.len() ==> !#[trigger] trailing_comma(t, i)
}

/// No comma of `t` is directly followed by another comma.
pub open spec fn no_double_comma(t: Seq<char>) -> bool {
    forall|i: int| 0 <= i < t.len() - 1 && #[trigger] t[i] == ',' ==> t[i + 1] != ','
}

/// No comma of `s` is followed by another with only whitespace between them.
pub open spec fn commas_apart(s: Seq<char>) -> bool {
    forall|i: int, j: int|
        0 <= i < j < s.len() && #[trigger] s[i] == ',' && #[trigger] s[j] == ',' ==> exists|k: int|
            i < k < j && !#[trigger] whitespace_char(s[k])
}

/// A character that `space_needed` asks a space after is no comma and no parenthesis.
proof fn lemma_space_neighbours(a: char, b: char)
    requires
        space_needed(a, b),
    ensures
        a != ',' && a != '(' && a != ')',
        b != ',' && b != '(' && b != ')',
        !whitespace_char(a) && !whitespace_char(b),
{
}

/// A sequence without trailing commas, with one more character in front.
proof fn lemma_commas_settled_cons(x: char, r: Seq<char>)
    requires
        commas_settled(r),
        x == ',' && r.len() > 0 ==> !is_closer(r[0]),
    ensures
        commas_settled(seq![x] + r),
{
    let t = seq![x] + r;
    assert forall|i: int| 0 <= i < t.len() implies !#[trigger] trailing_comma(t, i) by {
        if i > 0 {
            assert(t[i] == r[i - 1]);
            assert(!trailing_comma(r, i - 1));
            if i < r.len() {
                assert(t[i + 1] == r[i]);
            }
        } else if r.len() > 0 {
            assert(t[1] == r[0]);
        }
    }
}

/// Without doubled commas, the comma pass leaves no trailing comma.
proof fn lemma_drop_commas_settled(t: Seq<char>, i: int)
    requires
        0 <= i <= t.len(),
        no_double_comma(t),
    ensures
        commas_settled(drop_trailing_commas_from(t, i)),
    decreases t.len() - i,
{
    if i < t.len() {
        lemma_drop_commas_settled(t, i + 1);
        if !trailing_comma(t, i) {
            let rest = drop_trailing_commas_from(t, i + 1);
            if t[i] == ',' && i + 1 < t.len() {
                assert(t[i + 1] != ',');
                assert(rest == seq![t[i + 1]] + drop_trailing_commas_from(t, i + 2));
            }
            lemma_commas_settled_cons(t[i], rest);
        }
    } else {
        assert(commas_settled(Seq::<char>::empty()));
    }
}

/// The comma pass leaves a sequence without trailing commas as it is.
proof fn lemma_drop_commas_fixed(t: Seq<char>, i: int)
    requires
        0 <= i <= t.len(),
        commas_settled(t),
    ensures
        drop_trailing_commas_from(t, i) == t.subrange(i, t.len() as int),
    decreases t.len() - i,
{
    if i < t.len() {
        lemma_drop_commas_fixed(t, i + 1);
        assert(!trailing_comma(t, i));
        assert(t.subrange(i, t.len() as int) == seq![t[i]] + t.subrange(i + 1, t.len() as int));
    } else {
        assert(t.subrange(i, t.len() as int) =~= Seq::<char>::empty());
    }
}

/// The comma pass keeps settled whitespace settled.
proof fn lemma_drop_commas_keeps_settled(t: Seq<char>, i: int, last: char)
    requires
        0 <= i <= t.len(),
        whitespace_settled(t, last),
    ensures
        whitespace_settled(
            drop_trailing_commas_from(t, i),
            if i == 0 { last } else { t[i - 1] },
        ),
    decreases t.len() - i,
{
    if i < t.len() {
        let ctx = if i == 0 { last } else { t[i - 1] };
        lemma_drop_commas_keeps_settled(t, i + 1, last);
        let rest = drop_trailing_commas_from(t, i + 1);
        if trailing_comma(t, i) {
            assert(i + 1 < t.len());
            assert(rest == seq![t[i + 1]] + drop_trailing_commas_from(t, i + 2));
            lemma_settled_any_last(rest, t[i], ctx);
        } else {
            if whitespace_char(t[i]) {
                assert(space_needed(ctx, t[i + 1]));
                lemma_space_neighbours(ctx, t[i + 1]);
                assert(rest == seq![t[i + 1]] + drop_trailing_commas_from(t, i + 2));
            }
            lemma_settled_cons(t[i], rest, ctx);
        }
    } else {
        assert(whitespace_settled(Seq::<char>::empty(), last));
    }
}

/// A redundant parenthesis is a parenthesis; an opening one is followed by another `(`.
proof fn lemma_redundant_is_paren(u: Seq<char>, k: int)
    requires
        0 <= k < u.len(),
        redundant_paren(u, k),
    ensures
        u[k] == '(' || u[k] == ')',
        u[k] == '(' ==> double_open(u, k) && k + 1 < u.len() && u[k + 1] == '(',
{
    if double_open(u, k) {
        let j = choose|j: int| #[trigger] matching(u, k + 1, j);
        assert(matching(u, k + 1, j));
    } else {
        let a = choose|a: int| double_open(u, a) && close_of(u, a) == k;
        assert(exists|j: int| #[trigger] matching(u, a, j));
        assert(matching(u, a, close_of(u, a)));
    }
}

/// After the first of a run of redundant `(`, the pass writes a `(` next.
proof fn lemma_chain_head(u: Seq<char>, m: int)
    requires
        1 <= m <= u.len(),
        double_open(u, m - 1),
    ensures
        drop_double_parens_from(u, m).len() > 0,
        drop_double_parens_from(u, m)[0] == '(',
    decreases u.len() - m,
{
    let j = choose|j: int| #[trigger] matching(u, m, j);
    assert(matching(u, m, j));
    assert(m < u.len() && u[m] == '(');
    if redundant_paren(u, m) {
        lemma_redundant_is_paren(u, m);
        lemma_chain_head(u, m + 1);
    }
}

/// After a parenthesis, the parenthesis pass does not write whitespace first.
proof fn lemma_parens_head_not_white(u: Seq<char>, m: int, last: char)
    requires
        1 <= m <= u.len(),
        whitespace_settled(u, last),
        u[m - 1] == '(' || u[m - 1] == ')',
    ensures
        drop_double_parens_from(u, m).len() > 0 ==> !whitespace_char(
            drop_double_parens_from(u, m)[0],
        ),
    decreases u.len() - m,
{
    if m < u.len() {
        if redundant_paren(u, m) {
            lemma_redundant_is_paren(u, m);
            lemma_parens_head_not_white(u, m + 1, last);
        } else if whitespace_char(u[m]) {
            let ctx = if m == 0 { last } else { u[m - 1] };
            assert(space_needed(ctx, u[m + 1]));
            lemma_space_neighbours(ctx, u[m + 1]);
        }
    }
}

/// The parenthesis pass keeps settled whitespace settled.
proof fn lemma_drop_parens_keeps_settled(u: Seq<char>, i: int, last: char)
    requires
        0 <= i <= u.len(),
        whitespace_settled(u, last),
    ensures
        whitespace_settled(
            drop_double_parens_from(u, i),
            if i == 0 { last } else { u[i - 1] },
        ),
    decreases u.len() - i,
{
    if i < u.len() {
        let ctx = if i == 0 { last } else { u[i - 1] };
        lemma_drop_parens_keeps_settled(u, i + 1, last);
        let rest = drop_double_parens_from(u, i + 1);
        if redundant_paren(u, i) {
            lemma_redundant_is_paren(u, i);
            lemma_parens_head_not_white(u, i + 1, last);
            lemma_settled_any_last(rest, u[i], ctx);
        } else {
            if whitespace_char(u[i]) {
                assert(space_needed(ctx, u[i + 1]));
                lemma_space_neighbours(ctx, u[i + 1]);
                if redundant_paren(u, i + 1) {
                    lemma_redundant_is_paren(u, i + 1);
                }
                assert(rest == seq![u[i + 1]] + drop_double_parens_from(u, i + 2));
            }
            lemma_settled_cons(u[i], rest, ctx);
        }
    } else {
        assert(whitespace_settled(Seq::<char>::empty(), last));
    }
}

/// The parenthesis pass leaves no trailing comma where there was none.
proof fn lemma_drop_parens_keeps_commas(u: Seq<char>, i: int)
    requires
        0 <= i <= u.len(),
        commas_settled(u),
    ensures
        commas_settled(drop_double_parens_from(u, i)),
    decreases u.len() - i,
{
    if i < u.len() {
        lemma_drop_parens_keeps_commas(u, i + 1);
        if !redundant_paren(u, i) {
            let rest = drop_double_parens_from(u, i + 1);
            if u[i] == ',' && i + 1 < u.len() {
                assert(!trailing_comma(u, i));
                if redundant_paren(u, i + 1) {
                    lemma_redundant_is_paren(u, i + 1);
                    lemma_chain_head(u, i + 2);
                    assert(rest == drop_double_parens_from(u, i + 2));
                } else {
                    assert(rest == seq![u[i + 1]] + drop_double_parens_from(u, i + 2));
                }
            }
            lemma_commas_settled_cons(u[i], rest);
        }
    } else {
        assert(commas_settled(Seq::<char>::empty()));
    }
}

/// A sequence without doubled commas, with one more character in front.
proof fn lemma_no_double_comma_cons(x: char, r: Seq<char>)
    requires
        no_double_comma(r),
        !(x == ',' && r.len() > 0 && r[0] == ','),
    ensures
        no_double_comma(seq![x] + r),
{
    let t = seq![x] + r;
    assert forall|i: int| 0 <= i < t.len() - 1 && #[trigger] t[i] == ',' implies t[i + 1] != ',' by {
        assert(t[i + 1] == r[i]);
        if i > 0 {
            assert(t[i] == r[i - 1]);
        }
    }
}

/// Where commas of the source are kept apart, the whitespace pass writes no doubled
/// comma; a comma it writes first comes after whitespace only.
proof fn lemma_strip_no_double_comma(s: Seq<char>, i: int, last: char)
    requires
        0 <= i <= s.len(),
        commas_apart(s),
    ensures
        no_double_comma(strip_whitespace_from(s, i, last)),
        strip_whitespace_from(s, i, last).len() > 0 && strip_whitespace_from(s, i, last)[0] == ','
            ==> exists|j: int|
            i <= j < s.len() && s[j] == ',' && forall|k: int|
                i <= k < j ==> #[trigger] whitespace_char(s[k]),
    decreases s.len() - i,
{
    if i < s.len() {
        if whitespace_char(s[i]) {
            if space_needed(last, next_or_space(s, i)) {
                lemma_strip_no_double_comma(s, i + 1, ' ');
                lemma_no_double_comma_cons(' ', strip_whitespace_from(s, i + 1, ' '));
            } else {
                lemma_strip_no_double_comma(s, i + 1, last);
                let o = strip_whitespace_from(s, i, last);
                if o.len() > 0 && o[0] == ',' {
                    let j = choose|j: int|
                        i + 1 <= j < s.len() && s[j] == ',' && forall|k: int|
                            i + 1 <= k < j ==> #[trigger] whitespace_char(s[k]);
                    assert(forall|k: int| i <= k < j ==> #[trigger] whitespace_char(s[k]));
                }
            }
        } else {
            lemma_strip_no_double_comma(s, i + 1, s[i]);
            let r = strip_whitespace_from(s, i + 1, s[i]);
            if s[i] == ',' && r.len() > 0 && r[0] == ',' {
                let j = choose|j: int|
                    i + 1 <= j < s.len() && s[j] == ',' && forall|k: int|
                        i + 1 <= k < j ==> #[trigger] whitespace_char(s[k]);
                let k = choose|k: int| i < k < j && !#[trigger] whitespace_char(s[k]);
                assert(whitespace_char(s[k]));
            }
            lemma_no_double_comma_cons(s[i], r);
        }
    } else {
        assert(no_double_comma(Seq::<char>::empty()));
    }
}

/// Minified source is settled: its whitespace is what the whitespace pass writes, and,
/// where the commas of the source are kept apart, no comma stands before a closing
/// bracket.
pub proof fn lemma_minified_settled(s: Seq<char>)
    ensures
        whitespace_settled(minified_source(s), ' '),
        commas_apart(s) ==> commas_settled(minified_source(s)),
{
    let w = strip_whitespace(s);
    let u = drop_trailing_commas(w);
    lemma_strip_settled(s, 0, ' ');
    lemma_drop_commas_keeps_settled(w, 0, ' ');
    lemma_drop_parens_keeps_settled(u, 0, ' ');
    if commas_apart(s) {
        lemma_strip_no_double_comma(s, 0, ' ');
        lemma_drop_commas_settled(w, 0);
        lemma_drop_parens_keeps_commas(u, 0);
    }
}

/// A sequence without trailing commas is what the comma pass makes of it.
pub proof fn lemma_commas_settled_fixed(t: Seq<char>)
    requires
        commas_settled(t),
    ensures
        drop_trailing_commas(t) == t,
{
    lemma_drop_commas_fixed(t, 0);
    assert(t.subrange(0, t.len() as int) == t);
}

proof fn lemma_strip_step(s: Seq<char>, i: int, last: char)
    requires
        0 <= i < s.len(),
    ensures
        strip_whitespace_from(s, i, last) == (if whitespace_char(s[i]) {
            if space_needed(last, next_or_space(s, i)) {
                seq![' '] + strip_whitespace_from(s, i + 1, ' ')
            } else {
                strip_whitespace_from(s, i + 1, last)
            }
        } else {
            seq![s[i]] + strip_whitespace_from(s, i + 1, s[i])
        }),
{
}

/// The characters of `u[..i]` that the parenthesis pass keeps.
pub open spec fn kept_prefix(u: Seq<char>, i: int) -> Seq<char>
    decreases i,
{
    if i <= 0 {
        Seq::empty()
    } else if redundant_paren(u, i - 1) {
        kept_prefix(u, i - 1)
    } else {
        kept_prefix(u, i - 1).push(u[i - 1])
    }
}

/// Where `u[i]` lands in the output of the parenthesis pass: how many characters before
/// it are kept.
pub open spec fn kept_pos(u: Seq<char>, i: int) -> int {
    kept_prefix(u, i).len() as int
}

/// How much the parentheses the pass drops from `u[..i]` add to the depth.
pub open spec fn dropped_depth(u: Seq<char>, i: int) -> int
    decreases i,
{
    if i <= 0 {
        0
    } else if redundant_paren(u, i - 1) {
        dropped_depth(u, i - 1) + paren_delta(u[i - 1])
    } else {
        dropped_depth(u, i - 1)
    }
}

/// The output of the parenthesis pass is the kept prefix followed by what the pass makes
/// of the rest.
proof fn lemma_kept_prefix_split(u: Seq<char>, i: int)
    requires
        0 <= i <= u.len(),
    ensures
        kept_prefix(u, i) + drop_double_parens_from(u, i) == drop_double_parens(u),
    decreases i,
{
    if i > 0 {
        lemma_kept_prefix_split(u, i - 1);
        if !redundant_paren(u, i - 1) {
            assert(kept_prefix(u, i - 1) + (seq![u[i - 1]] + drop_double_parens_from(u, i))
                == kept_prefix(u, i - 1).push(u[i - 1]) + drop_double_parens_from(u, i));
        }
    } else {
        assert(kept_prefix(u, 0) + drop_double_parens_from(u, 0) == drop_double_parens_from(u, 0));
    }
}

/// Depth before a position does not see what is appended after it.
proof fn lemma_depth_concat(a: Seq<char>, b: Seq<char>, k: int)
    requires
        0 <= k <= a.len(),
    ensures
        depth(a + b, k) == depth(a, k),
    decreases k,
{
    if k > 0 {
        lemma_depth_concat(a, b, k - 1);
        assert((a + b)[k - 1] == a[k - 1]);
    }
}

/// The depth of the kept prefix is the depth of `u[..i]` less what the dropped
/// parentheses added.
proof fn lemma_kept_prefix_depth(u: Seq<char>, i: int)
    requires
        0 <= i <= u.len(),
    ensures
        depth(kept_prefix(u, i), kept_pos(u, i)) == depth(u, i) - dropped_depth(u, i),
        kept_pos(u, i) <= i,
    decreases i,
{
    if i > 0 {
        lemma_kept_prefix_depth(u, i - 1);
        if !redundant_paren(u, i - 1) {
            lemma_depth_push(kept_prefix(u, i - 1), u[i - 1]);
        }
    }
}

/// Where the kept characters land in the output, and the output's depth there.
proof fn lemma_kept_output(u: Seq<char>, i: int)
    requires
        0 <= i <= u.len(),
    ensures
        depth(drop_double_parens(u), kept_pos(u, i)) == depth(u, i) - dropped_depth(u, i),
        kept_pos(u, i) <= drop_double_parens(u).len(),
        i < u.len() && !redundant_paren(u, i) ==> kept_pos(u, i) < drop_double_parens(u).len()
            && drop_double_parens(u)[kept_pos(u, i)] == u[i],
{
    lemma_kept_prefix_split(u, i);
    lemma_kept_prefix_depth(u, i);
    lemma_depth_concat(kept_prefix(u, i), drop_double_parens_from(u, i), kept_pos(u, i));
    if i < u.len() && !redundant_paren(u, i) {
        assert(drop_double_parens_from(u, i) == seq![u[i]] + drop_double_parens_from(u, i + 1));
        assert(drop_double_parens(u)[kept_pos(u, i)] == drop_double_parens_from(u, i)[0]);
    }
}

/// Kept positions only grow, by one past each kept character.
proof fn lemma_kept_pos_mono(u: Seq<char>, i: int, j: int)
    requires
        0 <= i <= j <= u.len(),
    ensures
        kept_pos(u, i) <= kept_pos(u, j),
        i < j && !redundant_paren(u, i) ==> kept_pos(u, i) < kept_pos(u, j),
    decreases j - i,
{
    if i < j {
        lemma_kept_pos_mono(u, i, j - 1);
        if i < j - 1 {
            lemma_kept_pos_mono(u, i, j - 1);
        }
    }
}

/// Every output position between two kept positions is the kept position of some
/// character between them.
proof fn lemma_kept_pos_hits(u: Seq<char>, i: int, j: int, m: int)
    requires
        0 <= i <= j <= u.len(),
        kept_pos(u, i) <= m <= kept_pos(u, j),
    ensures
        exists|k: int| i <= k <= j && #[trigger] kept_pos(u, k) == m,
    decreases j - i,
{
    if kept_pos(u, j) == m {
        assert(kept_pos(u, j) == m);
    } else {
        assert(i < j);
        lemma_kept_pos_hits(u, i, j - 1, m);
    }
}

/// Every output position is where a kept character lands.
proof fn lemma_kept_pos_find(u: Seq<char>, j: int, x: int)
    requires
        0 <= j <= u.len(),
        0 <= x < kept_pos(u, j),
    ensures
        exists|p: int| 0 <= p < j && !redundant_paren(u, p) && #[trigger] kept_pos(u, p) == x,
    decreases j,
{
    if !redundant_paren(u, j - 1) && kept_pos(u, j - 1) == x {
    } else {
        lemma_kept_pos_find(u, j - 1, x);
    }
}

/// Scanning on from `j`, a `(` at `k` finds its `)` by `c` once the depth has come back
/// down to its own by then.
proof fn lemma_close_scan(u: Seq<char>, k: int, j: int, c: int)
    requires
        0 <= k < j <= c < u.len(),
        u[k] == '(',
        forall|i: int| k < i <= j ==> #[trigger] depth(u, i) > depth(u, k),
        depth(u, c + 1) <= depth(u, k),
    ensures
        exists|e: int| k < e <= c && #[trigger] matching(u, k, e),
    decreases c - j,
{
    assert(depth(u, j + 1) == depth(u, j) + paren_delta(u[j]));
    if depth(u, j + 1) == depth(u, k) {
        assert(matching(u, k, j));
    } else {
        assert(j < c);
        assert forall|i: int| k < i <= j + 1 implies #[trigger] depth(u, i) > depth(u, k) by {}
        lemma_close_scan(u, k, j + 1, c);
    }
}

/// A `(` at `k` has its `)` by `c` where the depth after `c` is no more than before `k`.
proof fn lemma_close_exists(u: Seq<char>, k: int, c: int)
    requires
        0 <= k < c < u.len(),
        u[k] == '(',
        depth(u, c + 1) <= depth(u, k),
    ensures
        exists|e: int| k < e <= c && #[trigger] matching(u, k, e),
{
    assert(depth(u, k + 1) == depth(u, k) + 1);
    lemma_close_scan(u, k, k + 1, c);
}

/// A doubled pair has its pair and the one inside it.
proof fn lemma_double_open_pairs(u: Seq<char>, a: int)
    requires
        double_open(u, a),
    ensures
        matching(u, a, close_of(u, a)),
        matching(u, a + 1, close_of(u, a + 1)),
        close_of(u, a) == close_of(u, a + 1) + 1,
        redundant_paren(u, close_of(u, a)),
{
    let j = choose|j: int| #[trigger] matching(u, a, j);
    assert(matching(u, a, j));
    lemma_close_of(u, a, j);
    let j1 = choose|j: int| #[trigger] matching(u, a + 1, j);
    assert(matching(u, a + 1, j1));
    lemma_close_of(u, a + 1, j1);
}

/// A dropped `)` closes a doubled pair.
proof fn lemma_redundant_close(u: Seq<char>, r: int)
    requires
        0 <= r < u.len(),
        redundant_paren(u, r),
        u[r] == ')',
    ensures
        exists|a: int| double_open(u, a) && close_of(u, a) == r && #[trigger] matching(u, a, r),
{
    if double_open(u, r) {
        lemma_double_open_pairs(u, r);
    } else {
        let a = choose|a: int| double_open(u, a) && close_of(u, a) == r;
        lemma_double_open_pairs(u, a);
        assert(matching(u, a, r));
    }
}

/// Inside a doubled pair the pass keeps something: the innermost `(` of the run.
proof fn lemma_chain_kept(u: Seq<char>, r: int)
    requires
        double_open(u, r),
    ensures
        exists|k: int| r < k < close_of(u, r) && !#[trigger] redundant_paren(u, k),
    decreases close_of(u, r) - r,
{
    lemma_double_open_pairs(u, r);
    let e = close_of(u, r);
    let e1 = close_of(u, r + 1);
    if !redundant_paren(u, r + 1) {
        assert(!redundant_paren(u, r + 1));
    } else {
        lemma_redundant_is_paren(u, r + 1);
        lemma_chain_kept(u, r + 1);
        let k = choose|k: int| r + 1 < k < e1 && !#[trigger] redundant_paren(u, k);
        assert(r < k < e);
    }
}

/// Inside a pair, what the dropped parentheses add comes back to nothing by its `)`,
/// and never exceeds the depth within the pair.
proof fn lemma_pair_interior(u: Seq<char>, p: int, c: int)
    requires
        matching(u, p, c),
    ensures
        dropped_depth(u, c) == dropped_depth(u, p + 1),
        forall|k: int|
            p < k <= c ==> 0 <= #[trigger] dropped_depth(u, k) - dropped_depth(u, p + 1) <= depth(
                u,
                k,
            ) - depth(u, p) - 1,
    decreases c - p, c - p + 1,
{
    assert(depth(u, p + 1) == depth(u, p) + 1);
    lemma_pair_walk(u, p, c, p + 1);
}

/// The walk of `lemma_pair_interior` from a place `k` at the pair's own inner depth.
proof fn lemma_pair_walk(u: Seq<char>, p: int, c: int, k: int)
    requires
        matching(u, p, c),
        p < k <= c,
        depth(u, k) == depth(u, p) + 1,
        dropped_depth(u, k) == dropped_depth(u, p + 1),
    ensures
        dropped_depth(u, c) == dropped_depth(u, p + 1),
        forall|k2: int|
            k <= k2 <= c ==> 0 <= #[trigger] dropped_depth(u, k2) - dropped_depth(u, p + 1)
                <= depth(u, k2) - depth(u, p) - 1,
    decreases c - p, c - k,
{
    let d0 = dropped_depth(u, p + 1);
    if k < c {
        assert(depth(u, k + 1) > depth(u, p));
        assert(depth(u, k + 1) == depth(u, k) + paren_delta(u[k]));
        if u[k] == '(' {
            lemma_close_exists(u, k, c);
            let e = choose|e: int| k < e <= c && #[trigger] matching(u, k, e);
            if e == c {
                lemma_matching_unique_open(u, p, k, c);
            }
            lemma_pair_interior(u, k, e);
            if redundant_paren(u, k) {
                lemma_redundant_is_paren(u, k);
                lemma_double_open_pairs(u, k);
                lemma_close_of(u, k, e);
            } else if redundant_paren(u, e) {
                lemma_redundant_close(u, e);
                let a = choose|a: int| double_open(u, a) && close_of(u, a) == e && #[trigger] matching(u, a, e);
                lemma_matching_unique_open(u, a, k, e);
            }
            assert(dropped_depth(u, e + 1) == d0);
            assert(depth(u, e + 1) == depth(u, k));
            lemma_pair_walk(u, p, c, e + 1);
            assert forall|k2: int| k <= k2 <= c implies 0 <= #[trigger] dropped_depth(u, k2) - d0
                <= depth(u, k2) - depth(u, p) - 1 by {
                if k < k2 <= e {
                    assert(0 <= dropped_depth(u, k2) - dropped_depth(u, k + 1) <= depth(u, k2)
                        - depth(u, k) - 1);
                }
            }
        } else {
            if redundant_paren(u, k) {
                lemma_redundant_is_paren(u, k);
            }
            lemma_pair_walk(u, p, c, k + 1);
        }
    }
}

/// A pair whose `(` the parenthesis pass keeps is kept whole, and stays a pair in the
/// output.
proof fn lemma_kept_match(u: Seq<char>, p: int, c: int)
    requires
        matching(u, p, c),
        !redundant_paren(u, p),
    ensures
        !redundant_paren(u, c),
        matching(drop_double_parens(u), kept_pos(u, p), kept_pos(u, c)),
{
    let t = drop_double_parens(u);
    if redundant_paren(u, c) {
        lemma_redundant_close(u, c);
        let a = choose|a: int| double_open(u, a) && close_of(u, a) == c && #[trigger] matching(u, a, c);
        lemma_matching_unique_open(u, a, p, c);
    }
    let x = kept_pos(u, p);
    let y = kept_pos(u, c);
    lemma_kept_output(u, p);
    lemma_kept_output(u, c);
    lemma_kept_output(u, c + 1);
    lemma_kept_pos_mono(u, p, c);
    lemma_pair_interior(u, p, c);
    assert(kept_pos(u, p + 1) == x + 1);
    assert(kept_pos(u, c + 1) == y + 1);
    assert(dropped_depth(u, p + 1) == dropped_depth(u, p));
    assert(dropped_depth(u, c + 1) == dropped_depth(u, c));
    assert forall|m: int| x < m <= y implies #[trigger] depth(t, m) > depth(t, x) by {
        lemma_kept_pos_hits(u, p + 1, c, m);
        let k = choose|k: int| p + 1 <= k <= c && #[trigger] kept_pos(u, k) == m;
        lemma_kept_output(u, k);
        assert(dropped_depth(u, k) - dropped_depth(u, p + 1) <= depth(u, k) - depth(u, p) - 1);
    }
}

/// The output of the parenthesis pass, for balanced input, holds no doubled pair.
proof fn lemma_no_double_open_after(u: Seq<char>, x: int)
    requires
        parens_balanced(u),
    ensures
        !double_open(drop_double_parens(u), x),
{
    let t = drop_double_parens(u);
    if double_open(t, x) {
        let n = u.len() as int;
        lemma_double_open_pairs(t, x);
        lemma_kept_prefix_split(u, n);
        assert(t == kept_prefix(u, n));
        lemma_kept_pos_find(u, n, x);
        let p = choose|p: int| 0 <= p < n && !redundant_paren(u, p) && #[trigger] kept_pos(u, p) == x;
        lemma_kept_pos_find(u, n, x + 1);
        let q = choose|q: int| 0 <= q < n && !redundant_paren(u, q) && #[trigger] kept_pos(u, q) == x + 1;
        lemma_kept_output(u, p);
        lemma_kept_output(u, q);
        assert(u[p] == '(' && u[q] == '(');
        if q <= p {
            lemma_kept_pos_mono(u, q, p);
        }
        assert forall|r: int| p < r < q implies #[trigger] redundant_paren(u, r) by {
            if !redundant_paren(u, r) {
                lemma_kept_pos_mono(u, p, r);
                lemma_kept_pos_mono(u, r, q);
            }
        }
        // both `(` have their `)`: the input is balanced
        assert(depth(u, p + 1) == depth(u, p) + 1);
        assert(depth(u, q + 1) == depth(u, q) + 1);
        assert(depth(u, p) >= 0 && depth(u, q) >= 0);
        if p == n - 1 || q == n - 1 {
            assert(false);
        }
        lemma_close_exists(u, p, n - 1);
        lemma_close_exists(u, q, n - 1);
        let cp = choose|e: int| p < e <= n - 1 && #[trigger] matching(u, p, e);
        let cq = choose|e: int| q < e <= n - 1 && #[trigger] matching(u, q, e);
        lemma_kept_match(u, p, cp);
        lemma_kept_match(u, q, cq);
        lemma_close_of(t, x, kept_pos(u, cp));
        lemma_close_of(t, x + 1, kept_pos(u, cq));
        assert(kept_pos(u, cp) == kept_pos(u, cq) + 1);
        lemma_kept_pos_mono(u, q, cq);
        if cp <= q {
            lemma_kept_pos_mono(u, cp, q);
        }
        lemma_matching_nested(u, p, cp, q, cq);
        assert forall|r: int| cq < r < cp implies #[trigger] redundant_paren(u, r) by {
            if !redundant_paren(u, r) {
                lemma_kept_pos_mono(u, cq, r);
                lemma_kept_pos_mono(u, r, cp);
            }
        }
        // the `(` right after `p` and its `)`
        if p + 1 < q {
            assert(redundant_paren(u, p + 1));
            lemma_redundant_is_paren(u, p + 1);
            if u[p + 1] == ')' {
                lemma_redundant_close(u, p + 1);
                let a = choose|a: int| double_open(u, a) && close_of(u, a) == p + 1 && #[trigger] matching(u, a, p + 1);
                if a < p {
                    lemma_matching_nested(u, a, p + 1, p, cp);
                }
            }
            lemma_double_open_pairs(u, p + 1);
        } else {
            lemma_close_of(u, q, cq);
        }
        let c0 = close_of(u, p + 1);
        assert(matching(u, p + 1, c0));
        if p + 1 < q {
            lemma_chain_kept(u, p + 1);
            let k = choose|k: int| p + 1 < k < c0 && !#[trigger] redundant_paren(u, k);
            if c0 < q {
                assert(redundant_paren(u, k));
            }
            lemma_matching_nested(u, p + 1, c0, q, cq);
        }
        assert(c0 >= cq);
        lemma_matching_nested(u, p, cp, p + 1, c0);
        // nothing stands between the two `)`
        if c0 + 1 < cp {
            let r = c0 + 1;
            assert(redundant_paren(u, r));
            lemma_redundant_is_paren(u, r);
            if u[r] == '(' {
                lemma_double_open_pairs(u, r);
                lemma_matching_nested(u, p, cp, r, close_of(u, r));
                lemma_chain_kept(u, r);
                let k = choose|k: int| r < k < close_of(u, r) && !#[trigger] redundant_paren(u, k);
                assert(redundant_paren(u, k));
            } else {
                lemma_redundant_close(u, r);
                let a = choose|a: int| double_open(u, a) && close_of(u, a) == r && #[trigger] matching(u, a, r);
                if a < p {
                    lemma_matching_nested(u, a, r, p, cp);
                } else if a == p + 1 {
                    lemma_matching_unique_close(u, p + 1, c0, r);
                } else if p + 1 < a < c0 {
                    lemma_matching_nested(u, p + 1, c0, a, r);
                }
            }
        }
        assert(cp == c0 + 1);
        lemma_close_of(u, p, cp);
        assert(double_open(u, p));
    }
}

/// The output of the parenthesis pass, for balanced input, is left as it is by the pass.
proof fn lemma_drop_parens_settled(t: Seq<char>, i: int)
    requires
        0 <= i <= t.len(),
        forall|m: int| 0 <= m < t.len() ==> !#[trigger] redundant_paren(t, m),
    ensures
        drop_double_parens_from(t, i) == t.subrange(i, t.len() as int),
    decreases t.len() - i,
{
    if i < t.len() {
        lemma_drop_parens_settled(t, i + 1);
        assert(!redundant_paren(t, i));
        assert(t.subrange(i, t.len() as int) == seq![t[i]] + t.subrange(i + 1, t.len() as int));
    } else {
        assert(t.subrange(i, t.len() as int) =~= Seq::<char>::empty());
    }
}

/// Running the parenthesis pass on its own output changes nothing, for balanced input.
pub proof fn lemma_drop_parens_idempotent(u: Seq<char>)
    requires
        parens_balanced(u),
    ensures
        drop_double_parens(drop_double_parens(u)) == drop_double_parens(u),
{
    let t = drop_double_parens(u);
    assert forall|m: int| 0 <= m < t.len() implies !#[trigger] redundant_paren(t, m) by {
        lemma_no_double_open_after(u, m);
        if !double_open(t, m) && redundant_paren(t, m) {
            let a = choose|a: int| double_open(t, a) && close_of(t, a) == m;
            lemma_no_double_open_after(u, a);
        }
    }
    lemma_drop_parens_settled(t, 0);
    assert(t.subrange(0, t.len() as int) == t);
}

/// Read from the front with depth `d` so far: the depth never goes below zero and ends at
/// zero.
pub open spec fn balanced_from_depth(x: Seq<char>, d: int) -> bool
    decreases x.len(),
{
    if x.len() == 0 {
        d == 0
    } else {
        d + paren_delta(x[0]) >= 0 && balanced_from_depth(x.drop_first(), d + paren_delta(x[0]))
    }
}

/// Balance read from the front is balance as `parens_balanced` states it.
proof fn lemma_balanced_from_front(x: Seq<char>, i: int)
    requires
        0 <= i <= x.len(),
    ensures
        balanced_from_depth(x.subrange(i, x.len() as int), depth(x, i)) <==> (forall|k: int|
            i < k <= x.len() ==> #[trigger] depth(x, k) >= 0) && depth(x, x.len() as int) == 0,
    decreases x.len() - i,
{
    if i < x.len() {
        lemma_balanced_from_front(x, i + 1);
        assert(x.subrange(i, x.len() as int).drop_first() == x.subrange(i + 1, x.len() as int));
        assert(x.subrange(i, x.len() as int)[0] == x[i]);
        assert(depth(x, i + 1) == depth(x, i) + paren_delta(x[i]));
    } else {
        assert(x.subrange(i, x.len() as int).len() == 0);
    }
}

proof fn lemma_parens_balanced_front(x: Seq<char>)
    ensures
        parens_balanced(x) <==> balanced_from_depth(x, 0),
{
    lemma_balanced_from_front(x, 0);
    assert(x.subrange(0, x.len() as int) == x);
    assert(depth(x, 0) == 0);
}

proof fn lemma_balanced_cons(c: char, r: Seq<char>, d: int)
    ensures
        balanced_from_depth(seq![c] + r, d) == (d + paren_delta(c) >= 0 && balanced_from_depth(
            r,
            d + paren_delta(c),
        )),
{
    assert((seq![c] + r).drop_first() == r);
    assert((seq![c] + r)[0] == c);
}

/// The whitespace pass keeps every parenthesis, so it keeps balance.
proof fn lemma_strip_balanced(s: Seq<char>, i: int, last: char, d: int)
    requires
        0 <= i <= s.len(),
        d >= 0,
    ensures
        balanced_from_depth(strip_whitespace_from(s, i, last), d) == balanced_from_depth(
            s.subrange(i, s.len() as int),
            d,
        ),
    decreases s.len() - i,
{
    if i < s.len() {
        let x = s.subrange(i, s.len() as int);
        assert(x.drop_first() == s.subrange(i + 1, s.len() as int));
        assert(x[0] == s[i]);
        if whitespace_char(s[i]) {
            if space_needed(last, next_or_space(s, i)) {
                lemma_strip_balanced(s, i + 1, ' ', d);
                lemma_balanced_cons(' ', strip_whitespace_from(s, i + 1, ' '), d);
            } else {
                lemma_strip_balanced(s, i + 1, last, d);
            }
        } else {
            lemma_balanced_cons(s[i], strip_whitespace_from(s, i + 1, s[i]), d);
            if d + paren_delta(s[i]) >= 0 {
                lemma_strip_balanced(s, i + 1, s[i], d + paren_delta(s[i]));
            }
        }
    }
}

/// The comma pass keeps every parenthesis, so it keeps balance.
proof fn lemma_drop_commas_balanced(s: Seq<char>, i: int, d: int)
    requires
        0 <= i <= s.len(),
        d >= 0,
    ensures
        balanced_from_depth(drop_trailing_commas_from(s, i), d) == balanced_from_depth(
            s.subrange(i, s.len() as int),
            d,
        ),
    decreases s.len() - i,
{
    if i < s.len() {
        let x = s.subrange(i, s.len() as int);
        assert(x.drop_first() == s.subrange(i + 1, s.len() as int));
        assert(x[0] == s[i]);
        if trailing_comma(s, i) {
            lemma_drop_commas_balanced(s, i + 1, d);
        } else {
            lemma_balanced_cons(s[i], drop_trailing_commas_from(s, i + 1), d);
            if d + paren_delta(s[i]) >= 0 {
                lemma_drop_commas_balanced(s, i + 1, d + paren_delta(s[i]));
            }
        }
    }
}

/// Across a balanced sequence, what the dropped parentheses add comes back to nothing,
/// and never exceeds the depth.
proof fn lemma_top_walk(u: Seq<char>, k: int)
    requires
        parens_balanced(u),
        0 <= k <= u.len(),
        depth(u, k) == 0,
        dropped_depth(u, k) == 0,
    ensures
        dropped_depth(u, u.len() as int) == 0,
        forall|k2: int| k <= k2 <= u.len() ==> 0 <= #[trigger] dropped_depth(u, k2) <= depth(u, k2),
    decreases u.len() - k,
{
    let n = u.len() as int;
    if k < n {
        assert(depth(u, k + 1) >= 0);
        assert(depth(u, k + 1) == depth(u, k) + paren_delta(u[k]));
        if u[k] == '(' {
            if k == n - 1 {
                assert(depth(u, n) == 1);
            }
            lemma_close_exists(u, k, n - 1);
            let e = choose|e: int| k < e <= n - 1 && #[trigger] matching(u, k, e);
            lemma_pair_interior(u, k, e);
            if redundant_paren(u, k) {
                lemma_redundant_is_paren(u, k);
                lemma_double_open_pairs(u, k);
                lemma_close_of(u, k, e);
            } else if redundant_paren(u, e) {
                lemma_redundant_close(u, e);
                let a = choose|a: int| double_open(u, a) && close_of(u, a) == e && #[trigger] matching(u, a, e);
                lemma_matching_unique_open(u, a, k, e);
            }
            assert(dropped_depth(u, e + 1) == 0);
            lemma_top_walk(u, e + 1);
            assert forall|k2: int| k <= k2 <= n implies 0 <= #[trigger] dropped_depth(u, k2) <= depth(
                u,
                k2,
            ) by {
                if k < k2 <= e {
                    assert(0 <= dropped_depth(u, k2) - dropped_depth(u, k + 1) <= depth(u, k2)
                        - depth(u, k) - 1);
                }
            }
        } else {
            if redundant_paren(u, k) {
                lemma_redundant_is_paren(u, k);
            }
            lemma_top_walk(u, k + 1);
        }
    }
}

/// The parenthesis pass keeps balanced input balanced.
proof fn lemma_drop_parens_balanced(u: Seq<char>)
    requires
        parens_balanced(u),
    ensures
        parens_balanced(drop_double_parens(u)),
{
    let t = drop_double_parens(u);
    let n = u.len() as int;
    lemma_top_walk(u, 0);
    lemma_kept_prefix_split(u, n);
    assert(t == kept_prefix(u, n));
    assert forall|m: int| 0 <= m <= t.len() implies #[trigger] depth(t, m) >= 0 by {
        lemma_kept_pos_hits(u, 0, n, m);
        let k = choose|k: int| 0 <= k <= n && #[trigger] kept_pos(u, k) == m;
        lemma_kept_output(u, k);
    }
    lemma_kept_output(u, n);
}

/// The whitespace pass over the back part of a sequence does not see the front part.
proof fn lemma_strip_shift(p: Seq<char>, q: Seq<char>, j: int, last: char)
    requires
        0 <= j <= q.len(),
    ensures
        strip_whitespace_from(p + q, p.len() + j, last) == strip_whitespace_from(q, j, last),
    decreases q.len() - j,
{
    if j < q.len() {
        let s = p + q;
        let i = p.len() + j;
        assert(s[i] == q[j]);
        assert(next_or_space(s, i) == next_or_space(q, j)) by {
            if j + 1 < q.len() {
                assert(s[i + 1] == q[j + 1]);
            }
        }
        lemma_strip_shift(p, q, j + 1, ' ');
        lemma_strip_shift(p, q, j + 1, last);
        lemma_strip_shift(p, q, j + 1, q[j]);
        assert(p.len() + (j + 1) == i + 1);
    }
}

/// Where the front part ends in a character that is no whitespace, the whitespace pass
/// writes for it just what it writes for the front part alone, and goes on from its last
/// character.
proof fn lemma_strip_prefix(x: Seq<char>, z: Seq<char>, i: int, last: char)
    requires
        0 <= i < x.len(),
        !whitespace_char(x.last()),
    ensures
        strip_whitespace_from(x + z, i, last) == strip_whitespace_from(x, i, last)
            + strip_whitespace_from(x + z, x.len() as int, x.last()),
    decreases x.len() - i,
{
    let s = x + z;
    assert(s[i] == x[i]);
    let rest = strip_whitespace_from(s, x.len() as int, x.last());
    if i == x.len() - 1 {
        assert(strip_whitespace_from(x, i + 1, x[i]) =~= Seq::<char>::empty());
        assert(seq![x[i]] + Seq::<char>::empty() == seq![x[i]]);
    } else {
        assert(s[i + 1] == x[i + 1]);
        assert(next_or_space(s, i) == next_or_space(x, i));
        if whitespace_char(x[i]) {
            if space_needed(last, next_or_space(x, i)) {
                lemma_strip_prefix(x, z, i + 1, ' ');
                assert(seq![' '] + (strip_whitespace_from(x, i + 1, ' ') + rest) == (seq![' ']
                    + strip_whitespace_from(x, i + 1, ' ')) + rest);
            } else {
                lemma_strip_prefix(x, z, i + 1, last);
            }
        } else {
            lemma_strip_prefix(x, z, i + 1, x[i]);
            assert(seq![x[i]] + (strip_whitespace_from(x, i + 1, x[i]) + rest) == (seq![x[i]]
                + strip_whitespace_from(x, i + 1, x[i])) + rest);
        }
    }
}

/// A run of whitespace between an identifier character written last and another one
/// after it leaves exactly one space.
proof fn lemma_strip_run(s: Seq<char>, i: int, j: int, last: char)
    requires
        0 <= i < j < s.len(),
        forall|k: int| i <= k < j ==> #[trigger] whitespace_char(s[k]),
        ident_continue_char(last),
        ident_continue_char(s[j]),
    ensures
        strip_whitespace_from(s, i, last) == seq![' '] + strip_whitespace_from(s, j, ' '),
    decreases j - i,
{
    assert(whitespace_char(s[i]));
    assert(next_or_space(s, i) == s[i + 1]);
    if i + 1 < j {
        assert(whitespace_char(s[i + 1]));
        assert(!space_needed(last, s[i + 1]));
        lemma_strip_run(s, i + 1, j, last);
    } else {
        assert(space_needed(last, s[j]));
    }
}

/// Whitespace between two characters that can continue an identifier (letters, digits,
/// `_`) always leaves one space: the whitespace pass over `x`, a run of whitespace `w`
/// and `y` writes its output for `x`, one space, and its output for `y`. So it never
/// joins the word before the whitespace to the word or number after it.
pub proof fn law_space_between_words(x: Seq<char>, w: Seq<char>, y: Seq<char>)
    requires
        x.len() > 0,
        w.len() > 0,
        y.len() > 0,
        forall|k: int| 0 <= k < w.len() ==> #[trigger] whitespace_char(w[k]),
        ident_continue_char(x.last()),
        ident_continue_char(y[0]),
    ensures
        strip_whitespace(x + w + y) == strip_whitespace(x) + seq![' '] + strip_whitespace(y),
{
    let s = x + w + y;
    assert(s == x + (w + y));
    lemma_strip_prefix(x, w + y, 0, ' ');
    let i = x.len() as int;
    let j = (x.len() + w.len()) as int;
    assert forall|k: int| i <= k < j implies #[trigger] whitespace_char(s[k]) by {
        assert(s[k] == w[k - i]);
    }
    assert(s[j] == y[0]);
    lemma_strip_run(s, i, j, x.last());
    lemma_strip_shift(x + w, y, 0, ' ');
    assert((x + w).len() + 0 == j);
}

/// Minifying balanced source twice is minifying it once, where no comma of the source is
/// followed, with only whitespace between, by another comma.
pub proof fn lemma_minified_idempotent(s: Seq<char>)
    requires
        parens_balanced(s),
        commas_apart(s),
    ensures
        minified_source(minified_source(s)) == minified_source(s),
        drop_double_parens(minified_source(s)) == minified_source(s),
        parens_balanced(minified_source(s)),
{
    let w = strip_whitespace(s);
    let u = drop_trailing_commas(w);
    lemma_parens_balanced_front(s);
    lemma_strip_balanced(s, 0, ' ', 0);
    assert(s.subrange(0, s.len() as int) == s);
    lemma_parens_balanced_front(w);
    lemma_drop_commas_balanced(w, 0, 0);
    assert(w.subrange(0, w.len() as int) == w);
    lemma_parens_balanced_front(u);
    lemma_drop_parens_idempotent(u);
    lemma_drop_parens_balanced(u);
    let f = minified_source(s);
    lemma_minified_settled(s);
    lemma_strip_whitespace_settles(s, f);
    lemma_commas_settled_fixed(f);
}

/// The whitespace pass: drops whitespace, keeping a single space only where two
/// identifier characters, or a hyphen and a number, would otherwise touch.
fn strip_whitespace_chars(s: &Vec<char>) -> (out: Vec<char>)
    requires
        parens_balanced(s@),
    ensures
        out@ == strip_whitespace(s@),
        parens_balanced(out@),
{
    let mut out: Vec<char> = Vec::new();
    let mut last: char = ' ';
    let n = s.len();
    let mut i: usize = 0;
    while i < n
        invariant
            n == s@.len(),
            i <= n,
            out@ + strip_whitespace_from(s@, i as int, last) == strip_whitespace(s@),
            parens_balanced(s@),
            depth(out@, out@.len() as int) == depth(s@, i as int),
            forall|k: int| 0 <= k <= out@.len() ==> #[trigger] depth(out@, k) >= 0,
        decreases n - i,
    {
        let current = s[i];
        assert(depth(s@, i + 1) == depth(s@, i as int) + paren_delta(s@[i as int]));
        assert(depth(s@, i + 1) >= 0);
        let next = if i + 1 < n {
            s[i + 1]
        } else {
            ' '
        };
        proof {
            lemma_strip_step(s@, i as int, last);
        }
        if is_whitespace(current) {
            assert(paren_delta(current) == 0);
            if (is_xid_continue(last) && is_xid_continue(next)) || (last == '-' && (is_numeric(
                next,
            ) || next == '.')) {
                proof {
                    lemma_depth_push(out@, ' ');
                }
                out.push(' ');
                last = ' ';
                assert(out@ + strip_whitespace_from(s@, i + 1, last) == strip_whitespace(s@)) by {
                    assert(out@ == out@.drop_last().push(' '));
                    assert(out@.drop_last() + (seq![' '] + strip_whitespace_from(s@, i + 1, ' '))
                        == out@ + strip_whitespace_from(s@, i + 1, ' '));
                }
            }
        } else {
            let ghost before = out@;
            proof {
                lemma_depth_push(out@, current);
            }
            out.push(current);
            last = current;
            assert(before + (seq![current] + strip_whitespace_from(s@, i + 1, current))
                == out@ + strip_whitespace_from(s@, i + 1, current));
        }
        i = i + 1;
    }
    assert(out@ + strip_whitespace_from(s@, i as int, last) == out@);
    out
}

/// The comma pass: drops each comma that stands right before `}`, `)` or `]`.
fn drop_trailing_comma_chars(s: &Vec<char>) -> (out: Vec<char>)
    requires
        parens_balanced(s@),
    ensures
        out@ == drop_trailing_commas(s@),
        parens_balanced(out@),
{
    let mut out: Vec<char> = Vec::new();
    let n = s.len();
    let mut i: usize = 0;
    while i < n
        invariant
            n == s@.len(),
            i <= n,
            out@ + drop_trailing_commas_from(s@, i as int) == drop_trailing_commas(s@),
            parens_balanced(s@),
            depth(out@, out@.len() as int) == depth(s@, i as int),
            forall|k: int| 0 <= k <= out@.len() ==> #[trigger] depth(out@, k) >= 0,
        decreases n - i,
    {
        let current = s[i];
        assert(depth(s@, i + 1) == depth(s@, i as int) + paren_delta(s@[i as int]));
        assert(depth(s@, i + 1) >= 0);
        let next = if i + 1 < n {
            s[i + 1]
        } else {
            ' '
        };
        if current == ',' && (next == '}' || next == ')' || next == ']') {
        } else {
            let ghost before = out@;
            proof {
                lemma_depth_push(out@, current);
            }
            out.push(current);
            assert(before + (seq![current] + drop_trailing_commas_from(s@, i + 1))
                == out@ + drop_trailing_commas_from(s@, i + 1));
        }
        i = i + 1;
    }
    assert(out@ + drop_trailing_commas_from(s@, i as int) == out@);
    out
}


/// Pairs every `(` of `s` with the `)` that closes it, keyed by the position of the `(`.
fn match_parens(s: &Vec<char>) -> (m: HashMap<usize, usize>)
    requires
        parens_balanced(s@),
    ensures
        forall|a: usize| #[trigger] m@.contains_key(a) <==> (a < s@.len() && s@[a as int] == '('),
        forall|a: usize| #[trigger] m@.contains_key(a) ==> matching(s@, a as int, m@[a] as int),
{
    broadcast use vstd::std_specs::hash::group_hash_axioms;

    let mut m: HashMap<usize, usize> = HashMap::new();
    let mut open: Vec<usize> = Vec::new();
    let n = s.len();
    let mut i: usize = 0;
    while i < n
        invariant
            n == s@.len(),
            i <= n,
            parens_balanced(s@),
            open@.len() == depth(s@, i as int),
            forall|p: int|
                0 <= p < open@.len() ==> {
                    &&& #[trigger] open@[p] < i
                    &&& s@[open@[p] as int] == '('
                    &&& depth(s@, open@[p] as int) == p
                    &&& forall|k: int| open@[p] < k <= i ==> #[trigger] depth(s@, k) > p
                },
            forall|a: usize| #[trigger]
                m@.contains_key(a) ==> a < i && matching(s@, a as int, m@[a] as int) && m@[a]
                    < i,
            forall|a: usize|
                a < i && s@[a as int] == '(' ==> #[trigger] m@.contains_key(a) || open@.contains(
                    a,
                ),
            forall|a: usize, j: int| #[trigger]
                matching(s@, a as int, j) && j < i ==> m@.contains_key(a),
        decreases n - i,
    {
        let c = s[i];
        assert(depth(s@, i + 1) == depth(s@, i as int) + paren_delta(s@[i as int]));
        assert(depth(s@, i + 1) >= 0);
        if c == '(' {
            let ghost old_open = open@;
            open.push(i);
            assert forall|p: int| 0 <= p < open@.len() implies {
                &&& #[trigger] open@[p] < i + 1
                &&& s@[open@[p] as int] == '('
                &&& depth(s@, open@[p] as int) == p
                &&& forall|k: int| open@[p] < k <= i + 1 ==> #[trigger] depth(s@, k) > p
            } by {
                if p < old_open.len() {
                    assert(open@[p] == old_open[p]);
                }
            }
            assert forall|a: usize| a < i + 1 && s@[a as int] == '(' implies #[trigger]
                m@.contains_key(a) || open@.contains(a) by {
                if a == i {
                    assert(open@[open@.len() - 1] == i);
                } else {
                    if !m@.contains_key(a) {
                        let p = choose|p: int| 0 <= p < old_open.len() && old_open[p] == a;
                        assert(open@[p] == a);
                    }
                }
            }
        } else if c == ')' {
            let ghost old_open = open@;
            let start = open.pop().unwrap();
            let ghost p = old_open.len() - 1;
            assert(old_open[p] == start);
            assert(matching(s@, start as int, i as int));
            assert forall|a: usize| #[trigger] matching(s@, a as int, i as int) implies a
                == start by {
                lemma_matching_unique_open(s@, a as int, start as int, i as int);
            }
            m.insert(start, i);
            assert forall|p: int| 0 <= p < open@.len() implies {
                &&& #[trigger] open@[p] < i + 1
                &&& s@[open@[p] as int] == '('
                &&& depth(s@, open@[p] as int) == p
                &&& forall|k: int| open@[p] < k <= i + 1 ==> #[trigger] depth(s@, k) > p
            } by {
                assert(open@[p] == old_open[p]);
            }
            assert forall|a: usize| a < i + 1 && s@[a as int] == '(' implies #[trigger]
                m@.contains_key(a) || open@.contains(a) by {
                if a != start && !m@.contains_key(a) {
                    let q = choose|q: int| 0 <= q < old_open.len() && old_open[q] == a;
                    if q == p {
                    } else {
                        assert(open@[q] == a);
                    }
                }
            }
        } else {
            assert forall|a: usize| a < i + 1 && s@[a as int] == '(' implies #[trigger]
                m@.contains_key(a) || open@.contains(a) by {
            }
        }
        i = i + 1;
    }
    assert(open@.len() == 0);
    m
}

/// Where the outer pair closes, when the `(` at `i` opens a `((...))`, looked up in the pairing of the parentheses.
fn double_open_close(s: &Vec<char>, parentheses: &HashMap<usize, usize>, i: usize) -> (r: Option<
    usize,
>)
    requires
        i < s@.len(),
        forall|a: usize| #[trigger]
            parentheses@.contains_key(a) <==> (a < s@.len() && s@[a as int] == '('),
        forall|a: usize| #[trigger]
            parentheses@.contains_key(a) ==> matching(s@, a as int, parentheses@[a] as int),
    ensures
        r is Some <==> double_open(s@, i as int),
        r matches Some(c) ==> c == close_of(s@, i as int),
{
    broadcast use vstd::std_specs::hash::group_hash_axioms;

    match parentheses.get(&i) {
        Some(outer_end) => {
            proof {
                lemma_close_of(s@, i as int, *outer_end as int);
            }
            match parentheses.get(&(i + 1)) {
                Some(inner_end) => {
                    proof {
                        lemma_close_of(s@, i + 1, *inner_end as int);
                    }
                    if *outer_end == *inner_end + 1 {
                        Some(*outer_end)
                    } else {
                        None
                    }
                },
                None => {
                    assert forall|j: int| !#[trigger] matching(s@, i + 1, j) by {
                        if matching(s@, i + 1, j) {
                            assert(parentheses@.contains_key((i + 1) as usize));
                        }
                    }
                    None
                },
            }
        },
        None => {
            assert forall|j: int| !#[trigger] matching(s@, i as int, j) by {
                if matching(s@, i as int, j) {
                    assert(parentheses@.contains_key(i));
                }
            }
            None
        },
    }
}

/// The parenthesis pass: `((x))` becomes `(x)`, wherever it occurs.
#[verifier::spinoff_prover]
#[verifier::rlimit(30)]
fn drop_double_paren_chars(s: &Vec<char>) -> (out: Vec<char>)
    requires
        parens_balanced(s@),
    ensures
        out@ == drop_double_parens(s@),
{
    let parentheses = match_parens(s);
    let mut out: Vec<char> = Vec::new();
    let mut to_drop: Vec<usize> = Vec::new();
    let n = s.len();
    let mut i: usize = 0;
    while i < n
        invariant
            n == s@.len(),
            i <= n,
            forall|a: usize| #[trigger]
                parentheses@.contains_key(a) <==> (a < s@.len() && s@[a as int] == '('),
            forall|a: usize| #[trigger]
                parentheses@.contains_key(a) ==> matching(s@, a as int, parentheses@[a] as int),
            out@ + drop_double_parens_from(s@, i as int) == drop_double_parens(s@),
            forall|p: int|
                0 <= p < to_drop@.len() ==> #[trigger] to_drop@[p] >= i && exists|a: int|
                    0 <= a < i && double_open(s@, a) && close_of(s@, a) == to_drop@[p],
            forall|p: int, q: int|
                0 <= p < q < to_drop@.len() ==> #[trigger] to_drop@[p] > #[trigger] to_drop@[q],
            forall|a: int|
                0 <= a < i && #[trigger] double_open(s@, a) && close_of(s@, a) >= i
                    ==> to_drop@.contains(close_of(s@, a) as usize),
        decreases n - i,
    {
        let c = s[i];
        let ghost old_drop = to_drop@;
        let ghost before = out@;
        // every pending close is a `)` after `i` or at it
        assert forall|p: int| 0 <= p < old_drop.len() implies s@[#[trigger] old_drop[p] as int]
            == ')' && old_drop[p] < n by {
            let a = choose|a: int|
                0 <= a < i && double_open(s@, a) && close_of(s@, a) == old_drop[p];
        }
        let double_close = double_open_close(s, &parentheses, i);
        if let Some(ci) = double_close {
            assert(matching(s@, i as int, ci as int));
            assert forall|p: int| 0 <= p < old_drop.len() implies ci < #[trigger] old_drop[p] by {
                let a = choose|a: int|
                    0 <= a < i && double_open(s@, a) && close_of(s@, a) == old_drop[p];
                assert(matching(s@, a, close_of(s@, a)));
                lemma_matching_nested(s@, a, close_of(s@, a), i as int, ci as int);
            }
            to_drop.push(ci);
            assert(to_drop@[to_drop@.len() - 1] == ci);
            assert forall|p: int| 0 <= p < to_drop@.len() implies #[trigger] to_drop@[p] >= i + 1
                && exists|a: int|
                0 <= a < i + 1 && double_open(s@, a) && close_of(s@, a) == to_drop@[p] by {
                if p < old_drop.len() {
                    assert(to_drop@[p] == old_drop[p]);
                }
            }
            assert forall|a: int|
                0 <= a < i + 1 && #[trigger] double_open(s@, a) && close_of(s@, a) >= i + 1
                    implies to_drop@.contains(close_of(s@, a) as usize) by {
                if a < i {
                    let q = choose|q: int|
                        0 <= q < old_drop.len() && old_drop[q] == close_of(s@, a) as usize;
                    assert(to_drop@[q] == old_drop[q]);
                }
            }
            assert(redundant_paren(s@, i as int));
            assert(out@ + drop_double_parens_from(s@, i + 1) == drop_double_parens(s@));
        } else if to_drop.len() > 0 && to_drop[to_drop.len() - 1] == i {
            to_drop.pop();
            assert(redundant_paren(s@, i as int)) by {
                let a = choose|a: int|
                    0 <= a < i && double_open(s@, a) && close_of(s@, a) == old_drop[old_drop.len()
                        - 1];
            }
            assert forall|p: int| 0 <= p < to_drop@.len() implies #[trigger] to_drop@[p] >= i + 1
                && exists|a: int|
                0 <= a < i + 1 && double_open(s@, a) && close_of(s@, a) == to_drop@[p] by {
                assert(to_drop@[p] == old_drop[p]);
                assert(old_drop[p] > old_drop[old_drop.len() - 1]);
            }
            assert forall|a: int|
                0 <= a < i + 1 && #[trigger] double_open(s@, a) && close_of(s@, a) >= i + 1
                    implies to_drop@.contains(close_of(s@, a) as usize) by {
                let q = choose|q: int|
                    0 <= q < old_drop.len() && old_drop[q] == close_of(s@, a) as usize;
                assert(q != old_drop.len() - 1);
                assert(to_drop@[q] == old_drop[q]);
            }
            assert(out@ + drop_double_parens_from(s@, i + 1) == drop_double_parens(s@));
        } else {
            assert(!redundant_paren(s@, i as int)) by {
                if exists|a: int| double_open(s@, a) && close_of(s@, a) == i {
                    let a = choose|a: int| double_open(s@, a) && close_of(s@, a) == i;
                    assert(matching(s@, a, close_of(s@, a)));
                    let q = choose|q: int|
                        0 <= q < old_drop.len() && old_drop[q] == close_of(s@, a) as usize;
                    if q < old_drop.len() - 1 {
                        assert(old_drop[q] > old_drop[old_drop.len() - 1]);
                    }
                }
            }
            assert forall|p: int| 0 <= p < to_drop@.len() implies #[trigger] to_drop@[p] >= i + 1
                && exists|a: int|
                0 <= a < i + 1 && double_open(s@, a) && close_of(s@, a) == to_drop@[p] by {
                if to_drop@[p] == i {
                    if p < to_drop@.len() - 1 {
                        assert(to_drop@[p] > to_drop@[to_drop@.len() - 1]);
                    }
                }
            }
            out.push(c);
            assert(before + (seq![c] + drop_double_parens_from(s@, i + 1)) == out@
                + drop_double_parens_from(s@, i + 1));
        }
        i = i + 1;
    }
    assert(out@ + drop_double_parens_from(s@, i as int) == out@);
    out
}

/// Whether every `)` of `src` closes an earlier `(` and every `(` is closed.
pub fn parens_are_balanced(src: &str) -> (r: bool)
    ensures
        r == parens_balanced(src@),
{
    let s = chars_of(src);
    let n = s.len();
    let mut d: usize = 0;
    let mut i: usize = 0;
    while i < n
        invariant
            n == s@.len(),
            s@ == src@,
            i <= n,
            d == depth(s@, i as int),
            d <= i,
            forall|k: int| 0 <= k <= i ==> #[trigger] depth(s@, k) >= 0,
        decreases n - i,
    {
        assert(depth(s@, i + 1) == depth(s@, i as int) + paren_delta(s@[i as int]));
        if s[i] == '(' {
            d = d + 1;
        } else if s[i] == ')' {
            if d == 0 {
                assert(depth(s@, i + 1) < 0);
                return false;
            }
            d = d - 1;
        }
        i = i + 1;
    }
    d == 0
}

/// Removes all the characters it can in some WGSL source code without joining any
/// keywords or identifiers together: whitespace that separates nothing, commas before a
/// closing bracket, and the outer pair of doubled parentheses.
pub fn minify_wgsl_source(src: &str) -> (out: String)
    requires
        parens_balanced(src@),
    ensures
        out@ == minified_source(src@),
{
    let chars = chars_of(src);
    let without_space = strip_whitespace_chars(&chars);
    let without_commas = drop_trailing_comma_chars(&without_space);
    let without_parens = drop_double_paren_chars(&without_commas);
    string_of(&without_parens)
}

} // verus!
