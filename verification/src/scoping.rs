use vstd::prelude::*;

use crate::ident::{ident_name, lemma_ident_name_injective, lemma_ident_name_not_preserved};
use crate::laws::{
    generated_below, kept_map_to_themselves, lemma_run_at, lemma_run_ok_at, lemma_run_stays_outside,
    law_module_ends_outside_functions, outside_function,
};
use crate::syntax::Module;
use crate::walk::{
    decl_bodies_events, decl_names_events, entry_events, lemma_bodies_no_module_only,
    lemma_names_no_local, lemma_no_fn_or_local_add, module_events, module_only, no_fn_or_local,
};
use crate::renaming::{
    bind_innermost, first_free, in_use, kept, lemma_first_free_is_free, lemma_run_append,
    lemma_run_len, lookup_local, relabel, rename_global, rename_local_decl, rename_value,
    renamed, run, step, Event, RenameState, Role,
};

verus! {

// Which declaration each use of a name denotes, read off an event list the way WGSL
// scoping reads a module: a local binds its name in the innermost open scope of the
// current function; a use resolves to the innermost binding of its name, or to module
// scope when no open scope binds it.

/// The open scopes of a point of an event list: whether it is inside a function, and for
/// each open scope, innermost last, the position of the declaration each name is bound to.
pub struct Scoping {
    pub inside: bool,
    pub scopes: Seq<Map<Seq<char>, int>>,
}

/// The open scopes after the event `ev` at position `pos`.
pub open spec fn scope_step(b: Scoping, ev: Event, pos: int) -> Scoping {
    match ev {
        Event::BeginFunction => Scoping { inside: true, scopes: seq![Map::empty()] },
        Event::EndFunction => Scoping { inside: false, scopes: Seq::empty() },
        Event::PushScope => if b.inside {
            Scoping { scopes: b.scopes.push(Map::empty()), ..b }
        } else {
            b
        },
        Event::PopScope => if b.inside && b.scopes.len() > 0 {
            Scoping { scopes: b.scopes.drop_last(), ..b }
        } else {
            b
        },
        Event::Ident(role, x) => if b.inside && role is LocalDecl && b.scopes.len() > 0 {
            Scoping {
                scopes: b.scopes.update(b.scopes.len() - 1, b.scopes.last().insert(x, pos)),
                ..b
            }
        } else {
            b
        },
    }
}

/// The open scopes at the end of `evs`, starting outside any function.
pub open spec fn scoping(evs: Seq<Event>) -> Scoping
    decreases evs.len(),
{
    if evs.len() == 0 {
        Scoping { inside: false, scopes: Seq::empty() }
    } else {
        scope_step(scoping(evs.drop_last()), evs.last(), evs.len() - 1)
    }
}

/// The position of the innermost binding of `x` among `scopes`.
pub open spec fn lookup_pos(scopes: Seq<Map<Seq<char>, int>>, x: Seq<char>) -> Option<int>
    decreases scopes.len(),
{
    if scopes.len() == 0 {
        None
    } else if scopes.last().contains_key(x) {
        Some(scopes.last()[x])
    } else {
        lookup_pos(scopes.drop_last(), x)
    }
}

/// The declaration that the identifier at `j` denotes: the position of the local it
/// resolves to, or none when it resolves at module scope.
pub open spec fn declaration_of(evs: Seq<Event>, j: int) -> Option<int> {
    match evs[j] {
        Event::Ident(_, x) => lookup_pos(scoping(evs.take(j)).scopes, x),
        _ => None,
    }
}

/// The renaming state's scopes mirror the open scopes of the events read so far (`b1`)
/// and of the renamed events (`b2`).
pub open spec fn mirrors(s: RenameState, b1: Scoping, b2: Scoping) -> bool {
    &&& b1.inside == (s.local_next is Some)
    &&& b2.inside == b1.inside
    &&& (s.local_next is None ==> s.scopes.len() == 0)
    &&& b1.scopes.len() == s.scopes.len()
    &&& b2.scopes.len() == s.scopes.len()
    &&& forall|l: int, x: Seq<char>|
        #![trigger s.scopes[l].contains_key(x)]
        #![trigger b1.scopes[l].contains_key(x)]
        0 <= l < s.scopes.len() ==> (s.scopes[l].contains_key(x) <==> b1.scopes[l].contains_key(
            x,
        ))
    &&& forall|l: int, x: Seq<char>|
        0 <= l < s.scopes.len() && #[trigger] s.scopes[l].contains_key(x) ==> b2.scopes[l].contains_key(
            s.scopes[l][x],
        ) && b2.scopes[l][s.scopes[l][x]] == b1.scopes[l][x]
    &&& forall|l: int, n: Seq<char>|
        0 <= l < s.scopes.len() && #[trigger] b2.scopes[l].contains_key(n) ==> exists|x: Seq<char>|
            #[trigger] s.scopes[l].contains_key(x) && s.scopes[l][x] == n
}

/// The names given to locals: a kept local keeps its name; any other gets a generated
/// name, not kept and not in use at module scope; no two locals share a new name unless
/// they had the same name.
pub open spec fn locals_ok(s: RenameState) -> bool {
    &&& forall|l: int, x: Seq<char>|
        0 <= l < s.scopes.len() && #[trigger] s.scopes[l].contains_key(x) ==> (kept(x)
            ==> s.scopes[l][x] == x) && (!kept(x) ==> !kept(s.scopes[l][x]) && !s.taken.contains(
            s.scopes[l][x],
        ) && generated_below(s.scopes[l][x], s.local_next->0))
    &&& forall|l: int, l2: int, x: Seq<char>, x2: Seq<char>|
        0 <= l < s.scopes.len() && 0 <= l2 < s.scopes.len() && #[trigger] s.scopes[l].contains_key(
            x,
        ) && #[trigger] s.scopes[l2].contains_key(x2) && s.scopes[l][x] == s.scopes[l2][x2] ==> x
            == x2
}

/// The module-scope map: kept names map to themselves, every new name is taken, and a name
/// that may be renamed never maps to a kept one.
pub open spec fn globals_ok(s: RenameState) -> bool {
    &&& kept_map_to_themselves(s)
    &&& forall|k: Seq<char>| #[trigger]
        s.global_map.contains_key(k) ==> s.taken.contains(s.global_map[k]) && (!kept(k) ==> !kept(
            s.global_map[k],
        ))
}

/// The event as renaming writes it back.
pub open spec fn renamed_event(s: RenameState, ev: Event) -> Event {
    match ev {
        Event::Ident(role, _) => Event::Ident(role, step(s, ev).1),
        other => other,
    }
}

/// Where `b2` binds `n` exactly where `b1` binds `x`, to the same declarations, lookups of
/// `n` and `x` find the same declaration.
proof fn lemma_lookup_same(
    b1: Seq<Map<Seq<char>, int>>,
    b2: Seq<Map<Seq<char>, int>>,
    x: Seq<char>,
    n: Seq<char>,
)
    requires
        b1.len() == b2.len(),
        forall|l: int|
            0 <= l < b1.len() ==> (#[trigger] b2[l].contains_key(n) <==> b1[l].contains_key(x)),
        forall|l: int| 0 <= l < b1.len() && #[trigger] b1[l].contains_key(x) ==> b2[l][n] == b1[l][x],
    ensures
        lookup_pos(b2, n) == lookup_pos(b1, x),
    decreases b1.len(),
{
    if b1.len() > 0 {
        let l = b1.len() - 1;
        assert(b2[l].contains_key(n) <==> b1[l].contains_key(x));
        if !b1[l].contains_key(x) {
            assert forall|k: int| 0 <= k < b1.drop_last().len() implies (
            #[trigger] b2.drop_last()[k].contains_key(n) <==> b1.drop_last()[k].contains_key(x)) by {
                assert(b2[k].contains_key(n) <==> b1[k].contains_key(x));
            }
            assert forall|k: int| 0 <= k < b1.drop_last().len() && #[trigger] b1.drop_last()[k].contains_key(
                x,
            ) implies b2.drop_last()[k][n] == b1.drop_last()[k][x] by {
                assert(b1[k].contains_key(x));
            }
            lemma_lookup_same(b1.drop_last(), b2.drop_last(), x, n);
        }
    }
}

/// Renaming one event keeps the scopes mirrored and the names of locals and globals in
/// order, provided entry points are marked outside functions and no local is declared
/// twice in one scope.
proof fn lemma_scoping_step(s: RenameState, b1: Scoping, b2: Scoping, ev: Event, pos: int)
    requires
        mirrors(s, b1, b2),
        locals_ok(s),
        globals_ok(s),
        step(s, ev).2,
        (ev is Ident && (ev->Ident_0 is KeepGlobal || ev->Ident_0 is Reserve)) ==> s.local_next is None,
        (ev is Ident && ev->Ident_0 is LocalDecl && s.local_next is Some && s.scopes.len() > 0)
            ==> !s.scopes.last().contains_key(ev->Ident_1),
    ensures
        mirrors(step(s, ev).0, scope_step(b1, ev, pos), scope_step(b2, renamed_event(s, ev), pos)),
        locals_ok(step(s, ev).0),
        globals_ok(step(s, ev).0),
{
    let s2 = step(s, ev).0;
    let c1 = scope_step(b1, ev, pos);
    let c2 = scope_step(b2, renamed_event(s, ev), pos);
    match ev {
        Event::Ident(role, x) => {
            let n = step(s, ev).1;
            match role {
                Role::LocalDecl => {
                    if s.local_next is Some {
                        lemma_local_decl_step(s, b1, b2, x, pos);
                    } else {
                        lemma_global_step(s, b1, b2, x, Role::LocalDecl, pos);
                    }
                },
                _ => {
                    lemma_global_step(s, b1, b2, x, role, pos);
                },
            }
        },
        Event::PushScope => {
            if s.local_next is Some {
                assert forall|l: int, n: Seq<char>|
                    0 <= l < s2.scopes.len() && #[trigger] c2.scopes[l].contains_key(n) implies exists|
                    x: Seq<char>,
                | #[trigger] s2.scopes[l].contains_key(x) && s2.scopes[l][x] == n by {
                    assert(l < s.scopes.len());
                    assert(c2.scopes[l] == b2.scopes[l]);
                    let x = choose|x: Seq<char>| #[trigger] s.scopes[l].contains_key(x) && s.scopes[l][x] == n;
                    assert(s2.scopes[l] == s.scopes[l]);
                }
            }
        },
        Event::PopScope => {
            if s.local_next is Some && s.scopes.len() > 0 {
                assert forall|l: int, n: Seq<char>|
                    0 <= l < s2.scopes.len() && #[trigger] c2.scopes[l].contains_key(n) implies exists|
                    x: Seq<char>,
                | #[trigger] s2.scopes[l].contains_key(x) && s2.scopes[l][x] == n by {
                    assert(c2.scopes[l] == b2.scopes[l]);
                    let x = choose|x: Seq<char>| #[trigger] s.scopes[l].contains_key(x) && s.scopes[l][x] == n;
                    assert(s2.scopes[l] == s.scopes[l]);
                }
            }
        },
        Event::BeginFunction => {
            assert forall|l: int, n: Seq<char>|
                0 <= l < s2.scopes.len() && #[trigger] c2.scopes[l].contains_key(n) implies exists|
                x: Seq<char>,
            | #[trigger] s2.scopes[l].contains_key(x) && s2.scopes[l][x] == n by {
                assert(c2.scopes[l] == Map::<Seq<char>, int>::empty());
            }
        },
        Event::EndFunction => {},
    }
}

/// A step at module scope (or of a value) leaves the scopes alone and keeps every local
/// name out of the taken names.
proof fn lemma_global_step(s: RenameState, b1: Scoping, b2: Scoping, x: Seq<char>, role: Role, pos: int)
    requires
        mirrors(s, b1, b2),
        locals_ok(s),
        globals_ok(s),
        step(s, Event::Ident(role, x)).2,
        role is KeepGlobal || role is Reserve ==> s.local_next is None,
        role is LocalDecl ==> s.local_next is None,
    ensures
        ({
            let ev = Event::Ident(role, x);
            &&& mirrors(step(s, ev).0, scope_step(b1, ev, pos), scope_step(b2, renamed_event(s, ev), pos))
            &&& locals_ok(step(s, ev).0)
            &&& globals_ok(step(s, ev).0)
        }),
{
    let ev = Event::Ident(role, x);
    let s2 = step(s, ev).0;
    lemma_first_free_is_free(s, s.global_next, true);
    assert(s2.scopes == s.scopes);
    assert(s2.local_next == s.local_next);
    assert(scope_step(b1, ev, pos) == b1);
    assert(scope_step(b2, renamed_event(s, ev), pos) == b2);
    if rename_global(s, x).2 && !kept(x) && !s.global_map.contains_key(x) {
        let k = first_free(s, s.global_next, true)->0;
        lemma_ident_name_not_preserved(k);
    }
    assert forall|l: int, y: Seq<char>|
        0 <= l < s2.scopes.len() && #[trigger] s2.scopes[l].contains_key(y) implies (kept(y)
            ==> s2.scopes[l][y] == y) && (!kept(y) ==> !kept(s2.scopes[l][y]) && !s2.taken.contains(
            s2.scopes[l][y],
        ) && generated_below(s2.scopes[l][y], s2.local_next->0)) by {
        assert(s.scopes[l].contains_key(y));
        if !kept(y) {
            let v = s.scopes[l][y];
            if s2.taken.contains(v) {
                // every name newly taken is kept, already taken, or not in use by a local
                assert(in_use(s.scopes, v));
            }
        }
    }
}

/// Declaring a local inside a function binds it, under its new name, in the innermost
/// scope of both event lists.
proof fn lemma_local_decl_step(s: RenameState, b1: Scoping, b2: Scoping, x: Seq<char>, pos: int)
    requires
        mirrors(s, b1, b2),
        locals_ok(s),
        globals_ok(s),
        s.local_next is Some,
        step(s, Event::Ident(Role::LocalDecl, x)).2,
        s.scopes.len() > 0 ==> !s.scopes.last().contains_key(x),
    ensures
        ({
            let ev = Event::Ident(Role::LocalDecl, x);
            &&& mirrors(step(s, ev).0, scope_step(b1, ev, pos), scope_step(b2, renamed_event(s, ev), pos))
            &&& locals_ok(step(s, ev).0)
            &&& globals_ok(step(s, ev).0)
        }),
{
    let ev = Event::Ident(Role::LocalDecl, x);
    let s2 = step(s, ev).0;
    let n = step(s, ev).1;
    let c1 = scope_step(b1, ev, pos);
    let c2 = scope_step(b2, renamed_event(s, ev), pos);
    let next = s.local_next->0;
    assert(step(s, ev) == rename_local_decl(s, x));
    lemma_first_free_is_free(s, next, false);
    let k = first_free(s, next, false)->0;
    if !kept(x) {
        lemma_ident_name_not_preserved(k);
        assert(n == ident_name(k));
        assert(s2.local_next == Some(k + 1));
    } else {
        assert(n == x);
    }
    assert(s2.taken == s.taken);
    assert(s2.global_map == s.global_map);
    if s.scopes.len() > 0 {
        let top = s.scopes.len() - 1;
        assert(s2.scopes == s.scopes.update(top, s.scopes[top].insert(x, n)));
        // the new name differs from every name a local already has, unless both are `x`
        assert forall|l: int, y: Seq<char>|
            0 <= l < s.scopes.len() && #[trigger] s.scopes[l].contains_key(y) && s.scopes[l][y] == n
                implies y == x by {
            if !kept(x) {
                if kept(y) {
                    assert(s.scopes[l][y] == y);
                } else {
                    assert(generated_below(s.scopes[l][y], next));
                    let q = choose|q: nat| q < next && #[trigger] ident_name(q) == s.scopes[l][y];
                    lemma_ident_name_injective(q, k);
                }
            } else if !kept(y) {
                assert(!kept(s.scopes[l][y]));
            }
        }
        assert forall|l: int, y: Seq<char>|
            0 <= l < s2.scopes.len() && #[trigger] s2.scopes[l].contains_key(y) implies (kept(y)
                ==> s2.scopes[l][y] == y) && (!kept(y) ==> !kept(s2.scopes[l][y]) && !s2.taken.contains(
                s2.scopes[l][y],
            ) && generated_below(s2.scopes[l][y], s2.local_next->0)) by {
            if l == top && y == x {
                if !kept(x) {
                    assert(ident_name(k) == s2.scopes[l][y]);
                }
            } else {
                assert(s.scopes[l].contains_key(y));
                assert(s2.scopes[l][y] == s.scopes[l][y]);
                if !kept(y) {
                    let q = choose|q: nat| q < next && #[trigger] ident_name(q) == s.scopes[l][y];
                    assert(ident_name(q) == s2.scopes[l][y]);
                }
            }
        }
        assert forall|l: int, l2: int, y: Seq<char>, y2: Seq<char>|
            0 <= l < s2.scopes.len() && 0 <= l2 < s2.scopes.len() && #[trigger] s2.scopes[l].contains_key(
                y,
            ) && #[trigger] s2.scopes[l2].contains_key(y2) && s2.scopes[l][y] == s2.scopes[l2][y2]
                implies y == y2 by {
            let new_a = l == top && y == x;
            let new_b = l2 == top && y2 == x;
            if !new_a {
                assert(s.scopes[l].contains_key(y));
                assert(s2.scopes[l][y] == s.scopes[l][y]);
            }
            if !new_b {
                assert(s.scopes[l2].contains_key(y2));
                assert(s2.scopes[l2][y2] == s.scopes[l2][y2]);
            }
        }
        assert(c1.scopes == b1.scopes.update(top, b1.scopes[top].insert(x, pos)));
        assert(c2.scopes == b2.scopes.update(top, b2.scopes[top].insert(n, pos)));
        assert(!b2.scopes[top].contains_key(n)) by {
            if b2.scopes[top].contains_key(n) {
                let y = choose|y: Seq<char>| #[trigger] s.scopes[top].contains_key(y) && s.scopes[top][y] == n;
            }
        }
        assert forall|l: int, y: Seq<char>|
            #![trigger s2.scopes[l].contains_key(y)]
            #![trigger c1.scopes[l].contains_key(y)]
            0 <= l < s2.scopes.len() implies (s2.scopes[l].contains_key(y) <==> c1.scopes[l].contains_key(
                y,
            )) by {
            assert(s.scopes[l].contains_key(y) <==> b1.scopes[l].contains_key(y));
        }
        assert forall|l: int, y: Seq<char>|
            0 <= l < s2.scopes.len() && #[trigger] s2.scopes[l].contains_key(y) implies c2.scopes[l].contains_key(
                s2.scopes[l][y],
            ) && c2.scopes[l][s2.scopes[l][y]] == c1.scopes[l][y] by {
            if !(l == top && y == x) {
                assert(s.scopes[l].contains_key(y));
                assert(b1.scopes[l].contains_key(y));
                if l == top {
                    assert(s.scopes[l][y] != n);
                } else {
                    assert(c2.scopes[l] == b2.scopes[l]);
                    assert(c1.scopes[l] == b1.scopes[l]);
                }
            }
        }
        assert forall|l: int, m: Seq<char>|
            0 <= l < s2.scopes.len() && #[trigger] c2.scopes[l].contains_key(m) implies exists|
            y: Seq<char>,
        | #[trigger] s2.scopes[l].contains_key(y) && s2.scopes[l][y] == m by {
            if l == top && m == n {
                assert(s2.scopes[l].contains_key(x) && s2.scopes[l][x] == m);
            } else {
                assert(b2.scopes[l].contains_key(m));
                let y = choose|y: Seq<char>| #[trigger] s.scopes[l].contains_key(y) && s.scopes[l][y] == m;
                if l == top {
                    assert(y != x);
                }
                assert(s2.scopes[l].contains_key(y) && s2.scopes[l][y] == m);
            }
        }
    } else {
        assert(s2.scopes == s.scopes);
        assert(c1 == b1);
        assert(c2 == b2);
        assert forall|l: int, y: Seq<char>|
            0 <= l < s2.scopes.len() && #[trigger] s2.scopes[l].contains_key(y) implies (kept(y)
                ==> s2.scopes[l][y] == y) && (!kept(y) ==> !kept(s2.scopes[l][y]) && !s2.taken.contains(
                s2.scopes[l][y],
            ) && generated_below(s2.scopes[l][y], s2.local_next->0)) by {
        }
    }
}

/// A name found by `lookup_local` is bound in some scope.
proof fn lemma_lookup_local_found(scopes: Seq<Map<Seq<char>, Seq<char>>>, x: Seq<char>)
    ensures
        lookup_local(scopes, x) matches Some(v) ==> exists|l: int|
            0 <= l < scopes.len() && #[trigger] scopes[l].contains_key(x) && scopes[l][x] == v,
    decreases scopes.len(),
{
    if scopes.len() > 0 && !scopes.last().contains_key(x) {
        lemma_lookup_local_found(scopes.drop_last(), x);
        if let Some(v) = lookup_local(scopes, x) {
            let l = choose|l: int|
                0 <= l < scopes.drop_last().len() && #[trigger] scopes.drop_last()[l].contains_key(x)
                    && scopes.drop_last()[l][x] == v;
            assert(scopes[l] == scopes.drop_last()[l]);
        }
    }
}

/// Where the renamed scopes bind `n` only where the renaming's scopes bind `x` to `n`,
/// the innermost binding of `n` in the renamed events is that of `x` in the events.
proof fn lemma_lookup_innermost(
    ss: Seq<Map<Seq<char>, Seq<char>>>,
    b1: Seq<Map<Seq<char>, int>>,
    b2: Seq<Map<Seq<char>, int>>,
    x: Seq<char>,
    n: Seq<char>,
)
    requires
        b1.len() == ss.len(),
        b2.len() == ss.len(),
        forall|l: int| 0 <= l < ss.len() ==> (#[trigger] ss[l].contains_key(x) <==> b1[l].contains_key(x)),
        forall|l: int|
            0 <= l < ss.len() && #[trigger] ss[l].contains_key(x) ==> b2[l].contains_key(ss[l][x])
                && b2[l][ss[l][x]] == b1[l][x],
        forall|l: int|
            0 <= l < ss.len() && #[trigger] b2[l].contains_key(n) ==> ss[l].contains_key(x)
                && ss[l][x] == n,
        lookup_local(ss, x) matches Some(v) ==> v == n,
    ensures
        lookup_pos(b2, n) == lookup_pos(b1, x),
    decreases ss.len(),
{
    if ss.len() > 0 {
        let top = ss.len() - 1;
        assert(ss[top].contains_key(x) <==> b1[top].contains_key(x));
        if !ss[top].contains_key(x) {
            assert(!b2[top].contains_key(n));
            assert forall|l: int| 0 <= l < ss.drop_last().len() implies (
            #[trigger] ss.drop_last()[l].contains_key(x) <==> b1.drop_last()[l].contains_key(x)) by {
                assert(ss[l].contains_key(x) <==> b1[l].contains_key(x));
            }
            assert forall|l: int|
                0 <= l < ss.drop_last().len() && #[trigger] ss.drop_last()[l].contains_key(x) implies b2.drop_last()[l].contains_key(
                ss.drop_last()[l][x],
            ) && b2.drop_last()[l][ss.drop_last()[l][x]] == b1.drop_last()[l][x] by {
                assert(ss[l].contains_key(x));
            }
            assert forall|l: int|
                0 <= l < ss.drop_last().len() && #[trigger] b2.drop_last()[l].contains_key(n) implies ss.drop_last()[l].contains_key(
                x,
            ) && ss.drop_last()[l][x] == n by {
                assert(b2[l].contains_key(n));
            }
            lemma_lookup_innermost(ss.drop_last(), b1.drop_last(), b2.drop_last(), x, n);
        }
    }
}

/// Renaming a run of events keeps the scopes mirrored, under the conditions of
/// `lemma_scoping_step` at each event.
proof fn lemma_scoping_run(st: RenameState, evs: Seq<Event>)
    requires
        outside_function(st),
        globals_ok(st),
        run(st, evs).2,
        forall|i: int|
            0 <= i < evs.len() && #[trigger] evs[i] is Ident && (evs[i]->Ident_0 is KeepGlobal
                || evs[i]->Ident_0 is Reserve) ==> run(st, evs.take(i)).0.local_next is None,
        forall|i: int|
            0 <= i < evs.len() && #[trigger] evs[i] is Ident && evs[i]->Ident_0 is LocalDecl && run(
                st,
                evs.take(i),
            ).0.local_next is Some && run(st, evs.take(i)).0.scopes.len() > 0 ==> !run(
                st,
                evs.take(i),
            ).0.scopes.last().contains_key(evs[i]->Ident_1),
    ensures
        mirrors(run(st, evs).0, scoping(evs), scoping(relabel(evs, run(st, evs).1))),
        locals_ok(run(st, evs).0),
        globals_ok(run(st, evs).0),
    decreases evs.len(),
{
    lemma_run_len(st, evs);
    if evs.len() == 0 {
        assert(relabel(evs, run(st, evs).1) =~= Seq::<Event>::empty());
    } else {
        let p = evs.drop_last();
        let e = evs.last();
        let i = evs.len() - 1;
        assert(evs.take(i) == p);
        assert forall|k: int| 0 <= k < p.len() implies p[k] == evs[k] && p.take(k) == evs.take(k) by {}
        lemma_scoping_run(st, p);
        lemma_run_len(st, p);
        let sp = run(st, p).0;
        let np = run(st, p).1;
        assert(evs[i] == e);
        lemma_scoping_step(sp, scoping(p), scoping(relabel(p, np)), e, i);
        let names = run(st, evs).1;
        assert(names == np.push(step(sp, e).1));
        let r = relabel(evs, names);
        assert(r.drop_last() =~= relabel(p, np));
        assert(r.last() == renamed_event(sp, e));
    }
}

/// Renaming keeps every use pointing at the declaration it denoted. A use of a value at
/// `j` resolves, in the renamed events, to the same local declaration as before, or to
/// module scope in both. This holds where renaming starts outside a function with its
/// module-scope map in order (as a fresh minifier is), entry points are marked outside
/// functions, and no local is declared twice in one scope (WGSL refuses that).
pub proof fn law_uses_keep_their_declarations(
    st: RenameState,
    evs: Seq<Event>,
    st2: RenameState,
    evs2: Seq<Event>,
    j: int,
)
    requires
        outside_function(st),
        globals_ok(st),
        renamed(st, evs, st2, evs2),
        forall|i: int|
            0 <= i < evs.len() && #[trigger] evs[i] is Ident && (evs[i]->Ident_0 is KeepGlobal
                || evs[i]->Ident_0 is Reserve) ==> run(st, evs.take(i)).0.local_next is None,
        forall|i: int|
            0 <= i < evs.len() && #[trigger] evs[i] is Ident && evs[i]->Ident_0 is LocalDecl && run(
                st,
                evs.take(i),
            ).0.local_next is Some && run(st, evs.take(i)).0.scopes.len() > 0 ==> !run(
                st,
                evs.take(i),
            ).0.scopes.last().contains_key(evs[i]->Ident_1),
        0 <= j < evs.len(),
        evs[j] is Ident && evs[j]->Ident_0 is Value,
    ensures
        declaration_of(evs2, j) == declaration_of(evs, j),
{
    let p = evs.take(j);
    lemma_run_append(st, p, evs.skip(j));
    assert(evs == p + evs.skip(j));
    lemma_run_len(st, p);
    lemma_run_len(st, evs);
    let s = run(st, p).0;
    let np = run(st, p).1;
    assert forall|k: int| 0 <= k < p.len() implies p[k] == evs[k] && p.take(k) == evs.take(k) by {}
    lemma_scoping_run(st, p);
    let names = run(st, evs).1;
    assert(names.take(j) == np);
    assert(evs2.take(j) =~= relabel(p, np));
    lemma_run_at(st, evs, j);
    lemma_run_ok_at(st, evs, j);
    let x = evs[j]->Ident_1;
    let n = names[j];
    assert(evs2[j] == Event::Ident(Role::Value, n));
    let b1 = scoping(p).scopes;
    let b2 = scoping(relabel(p, np)).scopes;
    assert(n == rename_value(s, x).1);
    lemma_lookup_local_found(s.scopes, x);
    lemma_first_free_is_free(s, s.global_next, true);
    assert forall|l: int|
        0 <= l < s.scopes.len() && #[trigger] b2[l].contains_key(n) implies s.scopes[l].contains_key(
        x,
    ) && s.scopes[l][x] == n by {
        let y = choose|y: Seq<char>| #[trigger] s.scopes[l].contains_key(y) && s.scopes[l][y] == n;
        if kept(x) {
            if !kept(y) {
                assert(!kept(s.scopes[l][y]));
            }
        } else if lookup_local(s.scopes, x) is Some {
            let l0 = choose|l0: int|
                0 <= l0 < s.scopes.len() && #[trigger] s.scopes[l0].contains_key(x) && s.scopes[l0][x]
                    == n;
        } else {
            assert(in_use(s.scopes, n));
            if !s.global_map.contains_key(x) {
                let k = first_free(s, s.global_next, true)->0;
                lemma_ident_name_not_preserved(k);
            }
            if kept(y) {
                assert(s.scopes[l][y] == y);
            }
        }
    }
    if kept(x) {
        if let Some(v) = lookup_local(s.scopes, x) {
            let l0 = choose|l0: int|
                0 <= l0 < s.scopes.len() && #[trigger] s.scopes[l0].contains_key(x) && s.scopes[l0][x]
                    == v;
        }
    }
    lemma_lookup_innermost(s.scopes, b1, b2, x, n);
}

/// No local of `evs`, renamed from `st`, is declared twice in one scope: where a local is
/// declared inside a function, the innermost open scope does not yet bind its name.
pub open spec fn locals_declared_once(st: RenameState, evs: Seq<Event>) -> bool {
    forall|i: int|
        0 <= i < evs.len() && #[trigger] evs[i] is Ident && evs[i]->Ident_0 is LocalDecl && run(
            st,
            evs.take(i),
        ).0.local_next is Some && run(st, evs.take(i)).0.scopes.len() > 0 ==> !run(
            st,
            evs.take(i),
        ).0.scopes.last().contains_key(evs[i]->Ident_1)
}

/// Minifying a module keeps every use pointing at the declaration it denoted: a use of a
/// value resolves, in the minified module, to the same local declaration as it did in the
/// module as given, or to module scope in both. This holds for a minifier outside any function
/// whose module-scope map is in order (a fresh one, and one that has minified earlier
/// modules), on a module that declares no local twice in one scope (WGSL refuses that).
pub proof fn law_module_uses_keep_their_declarations(
    st: RenameState,
    m: Module,
    st2: RenameState,
    m2: Module,
    j: int,
)
    requires
        outside_function(st),
        globals_ok(st),
        renamed(st, module_events(m), st2, module_events(m2)),
        locals_declared_once(st, module_events(m)),
        0 <= j < module_events(m).len(),
        module_events(m)[j] is Ident && module_events(m)[j]->Ident_0 is Value,
    ensures
        declaration_of(module_events(m2), j) == declaration_of(module_events(m), j),
        outside_function(st2),
        globals_ok(st2),
{
    let ds = m.global_declarations@;
    let evs = module_events(m);
    let n = entry_events(ds) + decl_names_events(ds);
    let b = decl_bodies_events(ds);
    assert(evs == n + b);
    lemma_names_no_local(ds);
    lemma_no_fn_or_local_add(entry_events(ds), decl_names_events(ds));
    lemma_bodies_no_module_only(ds);
    assert forall|i: int|
        0 <= i < evs.len() && #[trigger] evs[i] is Ident && (evs[i]->Ident_0 is KeepGlobal
            || evs[i]->Ident_0 is Reserve) implies run(st, evs.take(i)).0.local_next is None by {
        if i < n.len() {
            let p = n.take(i);
            assert(evs.take(i) == p);
            assert forall|k: int| 0 <= k < p.len() implies !crate::walk::fn_boundary(
                #[trigger] p[k],
            ) && !crate::walk::local_decl(p[k]) by {
                assert(p[k] == n[k]);
            }
            assert(no_fn_or_local(p));
            lemma_run_stays_outside(st, p);
        } else {
            assert(evs[i] == b[i - n.len()]);
            assert(module_only(b[i - n.len()]));
        }
    }
    law_uses_keep_their_declarations(st, evs, st2, module_events(m2), j);
    lemma_scoping_run(st, evs);
    law_module_ends_outside_functions(st, m);
}

/// A fresh renaming state (that of `Minifier::default()`) has its module-scope map in
/// order: the module law above applies to the first module a minifier sees.
pub proof fn law_fresh_globals_ok(st: RenameState)
    requires
        st.global_map == Map::<Seq<char>, Seq<char>>::empty(),
    ensures
        globals_ok(st),
{
}

} // verus!
