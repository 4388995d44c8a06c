use vstd::prelude::*;

use itertools::Itertools;
use wgsl_parse::syntax::Ident;
use wgsl_types::idents::{iter_builtin_idents, RESERVED_WORDS};

use crate::text::{chars_of, push_char};

verus! {

/// The identifier node of `wgsl_parse`'s syntax tree, carried as an opaque value.
#[verifier::external_type_specification]
#[verifier::external_body]
pub struct ExIdent(Ident);

/// The letters that WGSL uses for vector components (swizzles).
pub const SWIZZLES: [char; 8] = ['r', 'g', 'b', 'a', 'x', 'y', 'z', 'w'];

/// Whether `c` is a swizzle letter.
pub open spec fn is_swizzle(c: char) -> bool {
    c == 'r' || c == 'g' || c == 'b' || c == 'a' || c == 'x' || c == 'y' || c == 'z' || c == 'w'
}

/// Whether `id` is in `wgsl_types::idents::RESERVED_WORDS`.
pub uninterp spec fn reserved_word(id: Seq<char>) -> bool;

/// Whether `id` is among the identifiers that `wgsl_types::idents::iter_builtin_idents` yields.
pub uninterp spec fn builtin_ident(id: Seq<char>) -> bool;

/// A name that must not be given to anything: made of swizzle letters only (which could
/// read as a vector component), a reserved word, or a predeclared WGSL identifier.
pub open spec fn reserved(id: Seq<char>) -> bool {
    ||| (forall|i: int| 0 <= i < id.len() ==> #[trigger] is_swizzle(id[i]))
    ||| reserved_word(id)
    ||| builtin_ident(id)
}

/// A name that is kept as written: one that starts with `_`.
pub open spec fn preserved(id: Seq<char>) -> bool {
    id.len() > 0 && id[0] == '_'
}

/// The letter of the name alphabet with index `r`: `a`..`z`, then `A`..`Z`.
pub open spec fn name_letter(r: nat) -> char {
    if r < 26 {
        (r + 97) as char
    } else {
        (r - 26 + 65) as char
    }
}

/// The `n`-th name of the sequence `a`, ..., `Z`, `aa`, `ab`, ..., `ZZ`, `aaa`, ...:
/// every nonempty word over the 52 letters, shorter words first, each length in
/// alphabetical order.
pub open spec fn ident_name(n: nat) -> Seq<char>
    decreases n,
{
    if n < 52 {
        seq![name_letter(n)]
    } else {
        ident_name((n / 52 - 1) as nat).push(name_letter(n % 52))
    }
}

/// Calls `RESERVED_WORDS.contains(..)` on `wgsl_types::idents::RESERVED_WORDS`.
/// Claimed: the result is `reserved_word(id@)`, a function of the text of `id` alone
/// (the list is a constant).
#[verifier::external_body]
fn is_reserved_word(id: &str) -> (r: bool)
    ensures
        r == reserved_word(id@),
{
    RESERVED_WORDS.contains(&id)
}

/// Calls `wgsl_types::idents::iter_builtin_idents()` and searches it with
/// `Itertools::contains`.
/// Claimed: the result is `builtin_ident(id@)`, a function of the text of `id` alone
/// (the identifiers come from constant lists).
#[verifier::external_body]
fn is_builtin_ident(id: &str) -> (r: bool)
    ensures
        r == builtin_ident(id@),
{
    iter_builtin_idents().contains(id)
}

/// The text of a `wgsl_parse` identifier node.
pub uninterp spec fn ident_text(id: Ident) -> Seq<char>;

/// Calls `wgsl_parse::syntax::Ident::new`, which wraps `name` in a fresh identifier node.
/// Claimed: the node's text is `name`.
#[verifier::external_body]
pub(crate) fn new_ident(name: String) -> (id: Ident)
    ensures
        ident_text(id) == name@,
{
    Ident::new(name)
}

/// Whether every character of `id` is a swizzle letter (true of the empty name).
fn all_swizzles(id: &Vec<char>) -> (r: bool)
    ensures
        r == (forall|i: int| 0 <= i < id@.len() ==> #[trigger] is_swizzle(id@[i])),
{
    for i in 0..id.len()
        invariant
            forall|j: int| 0 <= j < i ==> #[trigger] is_swizzle(id@[j]),
    {
        let c = id[i];
        let mut found = false;
        for k in 0..8
            invariant
                found == (exists|j: int| 0 <= j < k && SWIZZLES@[j] == c),
        {
            if SWIZZLES[k] == c {
                found = true;
            }
        }
        assert(found == is_swizzle(c)) by {
            if is_swizzle(c) {
                assert(SWIZZLES@[0] == 'r' && SWIZZLES@[1] == 'g' && SWIZZLES@[2] == 'b'
                    && SWIZZLES@[3] == 'a' && SWIZZLES@[4] == 'x' && SWIZZLES@[5] == 'y'
                    && SWIZZLES@[6] == 'z' && SWIZZLES@[7] == 'w');
            }
        }
        if !found {
            return false;
        }
    }
    true
}

/// Whether `name` starts with `_`; such identifiers are never renamed.
pub fn is_preserved_ident(name: &str) -> (r: bool)
    ensures
        r == preserved(name@),
{
    let v = chars_of(name);
    v.len() > 0 && v[0] == '_'
}

/// The letter of the name alphabet with index `r`.
fn letter(r: usize) -> (c: char)
    requires
        r < 52,
    ensures
        c == name_letter(r as nat),
{
    if r < 26 {
        ((r as u8) + 97) as char
    } else {
        ((r as u8) - 26 + 65) as char
    }
}

/// The `n`-th name of the sequence, as a string.
pub fn candidate_name(n: usize) -> (id: String)
    ensures
        id@ == ident_name(n as nat),
{
    // letters from the last to the first
    let mut letters: Vec<char> = Vec::new();
    let mut m: usize = n;
    loop
        invariant_except_break
            ident_name(n as nat) == ident_name(m as nat) + letters@.reverse(),
        ensures
            ident_name(n as nat) == letters@.reverse(),
        decreases m,
    {
        let remainder = m % 52;
        let ghost before = letters@;
        letters.push(letter(remainder));
        assert(letters@.reverse() == seq![name_letter(remainder as nat)] + before.reverse()) by {
            assert(letters@.drop_last() == before);
        }
        if m / 52 == 0 {
            assert(ident_name(m as nat) == seq![name_letter(m as nat)]);
            break;
        }
        assert(ident_name(m as nat) == ident_name((m / 52 - 1) as nat).push(
            name_letter(remainder as nat),
        ));
        assert(ident_name((m / 52 - 1) as nat).push(name_letter(remainder as nat))
            + before.reverse() =~= ident_name((m / 52 - 1) as nat) + (seq![
            name_letter(remainder as nat),
        ] + before.reverse()));
        m = m / 52 - 1;
    }
    let mut id = String::new();
    let mut i = letters.len();
    while i > 0
        invariant
            i <= letters@.len(),
            id@ == letters@.subrange(i as int, letters@.len() as int).reverse(),
        decreases i,
    {
        i = i - 1;
        assert(letters@.subrange(i as int, letters@.len() as int).reverse() == letters@.subrange(
            i + 1,
            letters@.len() as int,
        ).reverse().push(letters@[i as int]));
        push_char(&mut id, letters[i]);
    }
    assert(letters@.subrange(0, letters@.len() as int) == letters@);
    id
}

/// Generator of short names: `a`, `b`, ..., `Z`, `aa`, `ab`, ..., skipping the names that
/// are `reserved`.
pub struct Identifier(usize);

impl View for Identifier {
    type V = nat;

    /// The index, in the name sequence, of the next name to try.
    closed spec fn view(&self) -> nat {
        self.0 as nat
    }
}

impl Default for Identifier {
    fn default() -> (r: Self)
        ensures
            r@ == 0,
    {
        Identifier(0)
    }
}

impl Identifier {
    /// A generator at the same index.
    pub(crate) fn copy(&self) -> (r: Self)
        ensures
            r@ == self@,
    {
        Identifier(self.0)
    }

    /// The index never exceeds the index range.
    pub proof fn lemma_bounded(&self)
        ensures
            self@ <= usize::MAX,
    {
    }

    /// Whether `id` must not be given to anything: swizzle letters only, a reserved word,
    /// or a predeclared identifier.
    pub fn is_reserved(id: &str) -> (r: bool)
        ensures
            r == reserved(id@),
    {
        let v = chars_of(id);
        all_swizzles(&v) || is_reserved_word(id) || is_builtin_ident(id)
    }

    /// The first unreserved name at or after the current index; the index moves past it.
    pub fn next(&mut self) -> (id: String)
        requires
            exists|k: nat| old(self)@ <= k < usize::MAX && !reserved(ident_name(k)),
        ensures
            old(self)@ < final(self)@ <= usize::MAX,
            id@ == ident_name((final(self)@ - 1) as nat),
            !reserved(id@),
            forall|k: nat| old(self)@ <= k < final(self)@ - 1 ==> reserved(#[trigger] ident_name(k)),
    {
        loop
            invariant
                old(self)@ <= self@,
                exists|k: nat| self@ <= k < usize::MAX && !reserved(ident_name(k)),
                forall|k: nat| old(self)@ <= k < self@ ==> reserved(#[trigger] ident_name(k)),
            decreases usize::MAX - self@,
        {
            let n = self.0;
            self.0 = n + 1;
            let id = candidate_name(n);
            if !Identifier::is_reserved(id.as_str()) {
                return id;
            }
        }
    }

    /// `next`, where the index may run out first: `None` when no name from the current
    /// index up to the end of the index range is unreserved (the index is then unchanged).
    pub fn try_next(&mut self) -> (r: Option<String>)
        ensures
            r matches Some(id) ==> {
                &&& old(self)@ < final(self)@ <= usize::MAX
                &&& id@ == ident_name((final(self)@ - 1) as nat)
                &&& !reserved(id@)
                &&& forall|k: nat|
                    old(self)@ <= k < final(self)@ - 1 ==> reserved(#[trigger] ident_name(k))
            },
            r is None ==> final(self)@ == old(self)@ && forall|k: nat|
                old(self)@ <= k < usize::MAX ==> reserved(#[trigger] ident_name(k)),
    {
        let mut k = self.0;
        while k < usize::MAX
            invariant
                self@ == old(self)@,
                self@ <= k <= usize::MAX,
                forall|j: nat| self@ <= j < k ==> reserved(#[trigger] ident_name(j)),
            decreases usize::MAX - k,
        {
            let candidate = candidate_name(k);
            if !Identifier::is_reserved(candidate.as_str()) {
                assert(!reserved(ident_name(k as nat)));
                return Some(self.next());
            }
            k = k + 1;
        }
        None
    }

    /// `next`, as a syntax-tree identifier node.
    pub fn next_ident(&mut self) -> (id: Ident)
        requires
            exists|k: nat| old(self)@ <= k < usize::MAX && !reserved(ident_name(k)),
        ensures
            old(self)@ < final(self)@ <= usize::MAX,
            ident_text(id) == ident_name((final(self)@ - 1) as nat),
            !reserved(ident_text(id)),
            forall|k: nat| old(self)@ <= k < final(self)@ - 1 ==> reserved(#[trigger] ident_name(k)),
    {
        new_ident(self.next())
    }

    /// `next_ident`, where the index may run out first: `None` when no name from the
    /// current index up to the end of the index range is unreserved (the index is then
    /// unchanged).
    pub fn try_next_ident(&mut self) -> (r: Option<Ident>)
        ensures
            r matches Some(id) ==> {
                &&& old(self)@ < final(self)@ <= usize::MAX
                &&& ident_text(id) == ident_name((final(self)@ - 1) as nat)
                &&& !reserved(ident_text(id))
                &&& forall|k: nat|
                    old(self)@ <= k < final(self)@ - 1 ==> reserved(#[trigger] ident_name(k))
            },
            r is None ==> final(self)@ == old(self)@ && forall|k: nat|
                old(self)@ <= k < usize::MAX ==> reserved(#[trigger] ident_name(k)),
    {
        match self.try_next() {
            Some(name) => Some(new_ident(name)),
            None => None,
        }
    }
}

/// Every name of the sequence is a nonempty word of ASCII letters.
pub proof fn lemma_ident_name_letters(n: nat)
    ensures
        ident_name(n).len() >= 1,
        n >= 52 ==> ident_name(n).len() >= 2,
        forall|i: int|
            0 <= i < ident_name(n).len() ==> ('a' <= #[trigger] ident_name(n)[i] && ident_name(
                n,
            )[i] <= 'z') || ('A' <= ident_name(n)[i] && ident_name(n)[i] <= 'Z'),
    decreases n,
{
    if n >= 52 {
        lemma_ident_name_letters((n / 52 - 1) as nat);
        let prefix = ident_name((n / 52 - 1) as nat);
        assert forall|i: int| 0 <= i < ident_name(n).len() implies ('a' <= #[trigger] ident_name(
            n,
        )[i] && ident_name(n)[i] <= 'z') || ('A' <= ident_name(n)[i] && ident_name(n)[i]
            <= 'Z') by {
            if i < prefix.len() {
                assert(ident_name(n)[i] == prefix[i]);
            }
        }
    }
}

/// Distinct indices give distinct names: the generator never hands out a name twice.
pub proof fn lemma_ident_name_injective(a: nat, b: nat)
    requires
        a != b,
    ensures
        ident_name(a) != ident_name(b),
    decreases a + b,
{
    lemma_ident_name_letters(a);
    lemma_ident_name_letters(b);
    if a < 52 && b < 52 {
        assert(ident_name(a)[0] != ident_name(b)[0]);
    } else if a < 52 || b < 52 {
        assert(ident_name(a).len() != ident_name(b).len());
    } else {
        let pa = ident_name((a / 52 - 1) as nat);
        let pb = ident_name((b / 52 - 1) as nat);
        if a % 52 != b % 52 {
            assert(ident_name(a)[ident_name(a).len() - 1] != ident_name(b)[ident_name(b).len()
                - 1]);
        } else {
            assert(a / 52 != b / 52);
            lemma_ident_name_injective((a / 52 - 1) as nat, (b / 52 - 1) as nat);
            if ident_name(a) == ident_name(b) {
                assert(ident_name(a).drop_last() == pa);
                assert(ident_name(b).drop_last() == pb);
            }
        }
    }
}

/// The place of a letter in the name alphabet `a`..`z`, `A`..`Z`.
pub open spec fn letter_rank(c: char) -> int {
    if 'a' <= c && c <= 'z' {
        c as int - 97
    } else {
        c as int - 65 + 26
    }
}

/// `x` comes before `y` in shortlex order over the name alphabet: it is shorter, or as
/// long and before it at the first place where they differ.
pub open spec fn shortlex_before(x: Seq<char>, y: Seq<char>) -> bool {
    ||| x.len() < y.len()
    ||| (x.len() == y.len() && exists|i: int|
        0 <= i < x.len() && x.subrange(0, i) == y.subrange(0, i) && letter_rank(x[i])
            < letter_rank(#[trigger] y[i]))
}

proof fn lemma_letter_rank(r: nat)
    requires
        r < 52,
    ensures
        letter_rank(name_letter(r)) == r,
{
}

/// The generator hands out names in shortlex order: a name of a later index comes after
/// every name of an earlier one (so one `Identifier` never repeats a name).
pub proof fn lemma_ident_name_shortlex(a: nat, b: nat)
    requires
        a < b,
    ensures
        shortlex_before(ident_name(a), ident_name(b)),
    decreases b,
{
    let x = ident_name(a);
    let y = ident_name(b);
    lemma_ident_name_letters(a);
    lemma_ident_name_letters(b);
    if b < 52 {
        lemma_letter_rank(a);
        lemma_letter_rank(b);
        assert(x.subrange(0, 0) == y.subrange(0, 0));
        assert(letter_rank(x[0]) < letter_rank(y[0]));
    } else if a < 52 {
    } else {
        let pa = (a / 52 - 1) as nat;
        let pb = (b / 52 - 1) as nat;
        let p = ident_name(pa);
        let q = ident_name(pb);
        assert(x == p.push(name_letter(a % 52)));
        assert(y == q.push(name_letter(b % 52)));
        if pa == pb {
            lemma_letter_rank(a % 52);
            lemma_letter_rank(b % 52);
            let i = p.len() as int;
            assert(x.subrange(0, i) == p);
            assert(y.subrange(0, i) == q);
            assert(letter_rank(x[i]) < letter_rank(y[i]));
        } else {
            lemma_ident_name_shortlex(pa, pb);
            if p.len() == q.len() {
                let i = choose|i: int|
                    0 <= i < p.len() && p.subrange(0, i) == q.subrange(0, i) && letter_rank(p[i])
                        < letter_rank(#[trigger] q[i]);
                assert(x.subrange(0, i) == p.subrange(0, i));
                assert(y.subrange(0, i) == q.subrange(0, i));
                assert(x[i] == p[i] && y[i] == q[i]);
            }
        }
    }
}

/// No generated name is kept as preserved: names of the sequence never start with `_`.
pub proof fn lemma_ident_name_not_preserved(n: nat)
    ensures
        !preserved(ident_name(n)),
{
    lemma_ident_name_letters(n);
    assert(ident_name(n)[0] != '_');
}

/// Where a call of `next`, `next_ident`, `try_next` or `try_next_ident` ends is fixed by
/// where it starts: the index ends just past the first unreserved name at or after the
/// start. So `next_ident` on a generator gives the name that `next` gives on an equal
/// one, and leaves the two equal again.
pub proof fn law_next_is_determined(start: nat, end1: nat, end2: nat)
    requires
        start < end1,
        start < end2,
        !reserved(ident_name((end1 - 1) as nat)),
        !reserved(ident_name((end2 - 1) as nat)),
        forall|k: nat| start <= k < end1 - 1 ==> reserved(#[trigger] ident_name(k)),
        forall|k: nat| start <= k < end2 - 1 ==> reserved(#[trigger] ident_name(k)),
    ensures
        end1 == end2,
{
    if end1 < end2 {
        assert(reserved(ident_name((end1 - 1) as nat)));
    } else if end2 < end1 {
        assert(reserved(ident_name((end2 - 1) as nat)));
    }
}

/// Two successive calls on one generator hand out names in shortlex order: the second
/// call starts where the first ended, so its name comes later, and is never the same.
pub proof fn law_successive_names_increase(start: nat, end1: nat, end2: nat)
    requires
        start < end1,
        end1 < end2,
    ensures
        shortlex_before(ident_name((end1 - 1) as nat), ident_name((end2 - 1) as nat)),
        ident_name((end1 - 1) as nat) != ident_name((end2 - 1) as nat),
{
    lemma_ident_name_shortlex((end1 - 1) as nat, (end2 - 1) as nat);
    lemma_ident_name_injective((end1 - 1) as nat, (end2 - 1) as nat);
}

/// Every word of `wgsl_types::idents::RESERVED_WORDS` and every predeclared identifier
/// is reserved, whatever its length, and so is every nonempty name of swizzle letters
/// only: `Identifier::is_reserved` answers true for each of them.
pub proof fn law_reserved_words_are_reserved(id: Seq<char>)
    ensures
        reserved_word(id) ==> reserved(id),
        builtin_ident(id) ==> reserved(id),
        (forall|i: int| 0 <= i < id.len() ==> #[trigger] is_swizzle(id[i])) ==> reserved(id),
{
}

/// No name the generator hands out is a reserved word or a predeclared identifier, nor
/// made of swizzle letters only: a call of `next` that starts at `start` and ends at
/// `end` hands out the name of index `end - 1`, which is not reserved.
pub proof fn law_handed_out_names_avoid_reserved_words(start: nat, end: nat)
    requires
        start < end,
        !reserved(ident_name((end - 1) as nat)),
    ensures
        !reserved_word(ident_name((end - 1) as nat)),
        !builtin_ident(ident_name((end - 1) as nat)),
        exists|i: int|
            0 <= i < ident_name((end - 1) as nat).len() && !is_swizzle(
                #[trigger] ident_name((end - 1) as nat)[i],
            ),
{
}

} // verus!
