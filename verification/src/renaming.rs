use vstd::prelude::*;

use crate::ident::{ident_name, preserved, reserved};

verus! {

/// The state of identifier renaming, as a mathematical value.
pub struct RenameState {
    /// Index of the next name to try for a module-scope identifier.
    pub global_next: nat,
    /// Module-scope identifiers and what they were renamed to.
    pub global_map: Map<Seq<char>, Seq<char>>,
    /// Every name in use at module scope; locals never take one of these.
    pub taken: Set<Seq<char>>,
    /// Index of the next name to try for a local, while inside a function.
    pub local_next: Option<nat>,
    /// The lexical scopes of the current function, innermost last.
    pub scopes: Seq<Map<Seq<char>, Seq<char>>>,
    /// Each module-scope renaming, in the order it was made.
    pub entries: Seq<(Seq<char>, Seq<char>)>,
}

/// How an identifier occurrence is treated.
pub enum Role {
    /// A module-scope name or a name that resolves at module scope (struct members,
    /// component accesses, type names).
    Global,
    /// A module-scope name that must keep its spelling (an attributed function).
    KeepGlobal,
    /// The name of an entry point, marked as in use at module scope before anything is
    /// renamed, so that no renamed name takes it; nothing is mapped.
    Reserve,
    /// A name declared inside a function (parameter, `let`, `var`, `const`).
    LocalDecl,
    /// A name used as a value: resolved in the local scopes first.
    Value,
}

/// One step of renaming: an identifier occurrence, or a change of scope.
pub enum Event {
    Ident(Role, Seq<char>),
    PushScope,
    PopScope,
    BeginFunction,
    EndFunction,
}

/// A name that is never renamed.
pub open spec fn kept(name: Seq<char>) -> bool {
    reserved(name) || preserved(name)
}

/// Whether some scope of the current function has given out `name`.
pub open spec fn in_use(scopes: Seq<Map<Seq<char>, Seq<char>>>, name: Seq<char>) -> bool {
    exists|i: int, k: Seq<char>|
        0 <= i < scopes.len() && #[trigger] scopes[i].contains_key(k) && scopes[i][k] == name
}

/// Whether the name of index `k` may be handed out: unreserved, not a name in use at
/// module scope, and, for a module-scope name (`global`), not given to a local of the
/// current function.
pub open spec fn free_index(st: RenameState, k: nat, global: bool) -> bool {
    &&& !reserved(ident_name(k))
    &&& !st.taken.contains(ident_name(k))
    &&& global ==> !in_use(st.scopes, ident_name(k))
}

/// The least free index `k` with `start <= k < usize::MAX`, if there is one.
pub open spec fn first_free(st: RenameState, start: nat, global: bool) -> Option<nat> {
    if exists|k: nat| start <= k < usize::MAX && #[trigger] free_index(st, k, global) {
        Some(
            choose|k: nat|
                start <= k < usize::MAX && #[trigger] free_index(st, k, global) && forall|j: nat|
                    start <= j < k ==> !#[trigger] free_index(st, j, global),
        )
    } else {
        None
    }
}

/// A free index with no free index before it is the first one.
pub proof fn lemma_first_free_found(st: RenameState, start: nat, global: bool, k: nat)
    requires
        start <= k < usize::MAX,
        free_index(st, k, global),
        forall|j: nat| start <= j < k ==> !#[trigger] free_index(st, j, global),
    ensures
        first_free(st, start, global) == Some(k),
{
    let c = choose|c: nat|
        start <= c < usize::MAX && #[trigger] free_index(st, c, global) && forall|j: nat|
            start <= j < c ==> !#[trigger] free_index(st, j, global);
    assert(start <= c < usize::MAX && free_index(st, c, global));
    if c < k {
        assert(!free_index(st, c, global));
    } else if k < c {
        assert(!free_index(st, k, global));
    }
}

/// Below a free index `k` there is a least free index.
proof fn lemma_least_free_exists(st: RenameState, start: nat, global: bool, k: nat)
    requires
        start <= k < usize::MAX,
        free_index(st, k, global),
    ensures
        exists|m: nat|
            start <= m < usize::MAX && #[trigger] free_index(st, m, global) && forall|j: nat|
                start <= j < m ==> !#[trigger] free_index(st, j, global),
    decreases k - start,
{
    if exists|j: nat| start <= j < k && #[trigger] free_index(st, j, global) {
        let j = choose|j: nat| start <= j < k && #[trigger] free_index(st, j, global);
        lemma_least_free_exists(st, start, global, j);
    } else {
        assert(forall|j: nat| start <= j < k ==> !#[trigger] free_index(st, j, global));
    }
}

/// The first free index is free.
pub proof fn lemma_first_free_is_free(st: RenameState, start: nat, global: bool)
    ensures
        first_free(st, start, global) matches Some(k) ==> start <= k < usize::MAX && free_index(
            st,
            k,
            global,
        ),
{
    if exists|k: nat| start <= k < usize::MAX && #[trigger] free_index(st, k, global) {
        let k = choose|k: nat| start <= k < usize::MAX && #[trigger] free_index(st, k, global);
        lemma_least_free_exists(st, start, global, k);
    }
}

/// No index between `start` and the first free index is free.
pub proof fn lemma_first_free_least(st: RenameState, start: nat, global: bool, j: nat)
    requires
        first_free(st, start, global) is Some,
        start <= j < first_free(st, start, global)->0,
    ensures
        !free_index(st, j, global),
{
    let k = choose|k: nat| start <= k < usize::MAX && #[trigger] free_index(st, k, global);
    lemma_least_free_exists(st, start, global, k);
}

/// With no free index left, there is no first one.
pub proof fn lemma_first_free_none(st: RenameState, start: nat, global: bool)
    requires
        forall|k: nat| start <= k < usize::MAX ==> !#[trigger] free_index(st, k, global),
    ensures
        first_free(st, start, global) is None,
{
}

/// A module-scope name that keeps its spelling: recorded as mapping to itself unless it
/// is already mapped, and marked as taken.
pub open spec fn keep_global(st: RenameState, name: Seq<char>) -> RenameState {
    let mapped = if st.global_map.contains_key(name) {
        st.global_map[name]
    } else {
        name
    };
    RenameState {
        global_map: if st.global_map.contains_key(name) {
            st.global_map
        } else {
            st.global_map.insert(name, name)
        },
        taken: st.taken.insert(mapped),
        ..st
    }
}

/// Renaming a module-scope occurrence: kept names stay, a mapped name takes its
/// mapping, and a new name gets the first free index. The flag is false when the index
/// range has no free name left.
pub open spec fn rename_global(st: RenameState, name: Seq<char>) -> (RenameState, Seq<char>, bool) {
    if kept(name) {
        (keep_global(st, name), name, true)
    } else if st.global_map.contains_key(name) {
        let new = st.global_map[name];
        (RenameState { taken: st.taken.insert(new), ..st }, new, true)
    } else {
        match first_free(st, st.global_next, true) {
            Some(k) => {
                let new = ident_name(k);
                (
                    RenameState {
                        global_next: k + 1,
                        global_map: st.global_map.insert(name, new),
                        taken: st.taken.insert(new),
                        entries: st.entries.push((name, new)),
                        ..st
                    },
                    new,
                    true,
                )
            },
            None => (st, name, false),
        }
    }
}

/// `scopes` with `name` bound to `new` in the innermost scope (unchanged with no scope).
pub open spec fn bind_innermost(
    scopes: Seq<Map<Seq<char>, Seq<char>>>,
    name: Seq<char>,
    new: Seq<char>,
) -> Seq<Map<Seq<char>, Seq<char>>> {
    if scopes.len() > 0 {
        scopes.update(scopes.len() - 1, scopes.last().insert(name, new))
    } else {
        scopes
    }
}

/// Renaming a local declaration: outside a function it is a module-scope name; inside,
/// kept names bind to themselves and others get the first free local index.
pub open spec fn rename_local_decl(st: RenameState, name: Seq<char>) -> (RenameState, Seq<char>, bool) {
    match st.local_next {
        None => rename_global(st, name),
        Some(next) => if kept(name) {
            (RenameState { scopes: bind_innermost(st.scopes, name, name), ..st }, name, true)
        } else {
            match first_free(st, next, false) {
                Some(k) => {
                    let new = ident_name(k);
                    (
                        RenameState {
                            local_next: Some(k + 1),
                            scopes: bind_innermost(st.scopes, name, new),
                            ..st
                        },
                        new,
                        true,
                    )
                },
                None => (st, name, false),
            }
        },
    }
}

/// What `name` is bound to in the innermost scope that binds it.
pub open spec fn lookup_local(scopes: Seq<Map<Seq<char>, Seq<char>>>, name: Seq<char>) -> Option<
    Seq<char>,
>
    decreases scopes.len(),
{
    if scopes.len() == 0 {
        None
    } else if scopes.last().contains_key(name) {
        Some(scopes.last()[name])
    } else {
        lookup_local(scopes.drop_last(), name)
    }
}

/// Renaming a use of a value: kept names stay, a local binding wins, and anything else
/// is a module-scope name.
pub open spec fn rename_value(st: RenameState, name: Seq<char>) -> (RenameState, Seq<char>, bool) {
    if kept(name) {
        (keep_global(st, name), name, true)
    } else {
        match lookup_local(st.scopes, name) {
            Some(new) => (st, new, true),
            None => rename_global(st, name),
        }
    }
}

/// One step of renaming; the name is what the occurrence becomes (the empty name for a
/// change of scope).
pub open spec fn step(st: RenameState, ev: Event) -> (RenameState, Seq<char>, bool) {
    match ev {
        Event::Ident(role, name) => match role {
            Role::Global => rename_global(st, name),
            Role::KeepGlobal => (keep_global(st, name), name, true),
            Role::Reserve => (RenameState { taken: st.taken.insert(name), ..st }, name, true),
            Role::LocalDecl => rename_local_decl(st, name),
            Role::Value => rename_value(st, name),
        },
        Event::PushScope => (
            if st.local_next is Some {
                RenameState { scopes: st.scopes.push(Map::empty()), ..st }
            } else {
                st
            },
            Seq::empty(),
            true,
        ),
        Event::PopScope => (
            if st.local_next is Some && st.scopes.len() > 0 {
                RenameState { scopes: st.scopes.drop_last(), ..st }
            } else {
                st
            },
            Seq::empty(),
            true,
        ),
        Event::BeginFunction => (
            RenameState { local_next: Some(0), scopes: seq![Map::empty()], ..st },
            Seq::empty(),
            true,
        ),
        Event::EndFunction => (
            RenameState { local_next: None, scopes: Seq::empty(), ..st },
            Seq::empty(),
            true,
        ),
    }
}

/// Renaming a sequence of events: the final state, what each event's occurrence became,
/// and whether every step found the names it needed.
pub open spec fn run(st: RenameState, evs: Seq<Event>) -> (RenameState, Seq<Seq<char>>, bool)
    decreases evs.len(),
{
    if evs.len() == 0 {
        (st, Seq::empty(), true)
    } else {
        let (s1, names, ok1) = run(st, evs.drop_last());
        let (s2, name, ok2) = step(s1, evs.last());
        (s2, names.push(name), ok1 && ok2)
    }
}

/// `evs` with each identifier spelled as in `names` (same positions).
pub open spec fn relabel(evs: Seq<Event>, names: Seq<Seq<char>>) -> Seq<Event> {
    Seq::new(
        evs.len(),
        |i: int|
            match evs[i] {
                Event::Ident(role, _) => Event::Ident(role, names[i]),
                other => other,
            },
    )
}

/// Running `a` then `b` is running `a + b`.
pub proof fn lemma_run_append(st: RenameState, a: Seq<Event>, b: Seq<Event>)
    ensures
        ({
            let (s1, n1, ok1) = run(st, a);
            let (s2, n2, ok2) = run(s1, b);
            run(st, a + b) == (s2, n1 + n2, ok1 && ok2)
        }),
        run(st, a).1.len() == a.len(),
        run(st, a + b).1.len() == a.len() + b.len(),
    decreases b.len(),
{
    lemma_run_len(st, a);
    lemma_run_len(st, a + b);
    if b.len() == 0 {
        assert(a + b == a);
        assert(run(st, a).1 + Seq::<Seq<char>>::empty() == run(st, a).1);
    } else {
        lemma_run_append(st, a, b.drop_last());
        assert((a + b).drop_last() == a + b.drop_last());
        assert((a + b).last() == b.last());
        let (s1, n1, ok1) = run(st, a);
        let (s2, n2, ok2) = run(s1, b.drop_last());
        let (s3, n3, ok3) = step(s2, b.last());
        assert(n1 + n2.push(n3) == (n1 + n2).push(n3));
    }
}

/// One name per event.
pub proof fn lemma_run_len(st: RenameState, a: Seq<Event>)
    ensures
        run(st, a).1.len() == a.len(),
    decreases a.len(),
{
    if a.len() > 0 {
        lemma_run_len(st, a.drop_last());
    }
}

/// Relabelling distributes over concatenation.
pub proof fn lemma_relabel_append(a: Seq<Event>, b: Seq<Event>, na: Seq<Seq<char>>, nb: Seq<Seq<char>>)
    requires
        na.len() == a.len(),
        nb.len() == b.len(),
    ensures
        relabel(a + b, na + nb) == relabel(a, na) + relabel(b, nb),
{
    assert forall|i: int| 0 <= i < a.len() + b.len() implies #[trigger] relabel(a + b, na + nb)[i]
        == (relabel(a, na) + relabel(b, nb))[i] by {
        if i < a.len() {
            assert((a + b)[i] == a[i]);
            assert((na + nb)[i] == na[i]);
        } else {
            assert((a + b)[i] == b[i - a.len()]);
            assert((na + nb)[i] == nb[i - a.len()]);
        }
    }
    assert(relabel(a + b, na + nb) =~= relabel(a, na) + relabel(b, nb));
}

/// Renaming `evs` from `st` succeeds, ends in `st2`, and turns `evs` into `evs2`.
pub open spec fn renamed(st: RenameState, evs: Seq<Event>, st2: RenameState, evs2: Seq<Event>) -> bool {
    let (s, names, ok) = run(st, evs);
    &&& ok
    &&& st2 == s
    &&& evs2 == relabel(evs, names)
}

/// Renaming `evs` from `st` runs out of names somewhere.
pub open spec fn fails(st: RenameState, evs: Seq<Event>) -> bool {
    !run(st, evs).2
}

/// Nothing to rename.
pub proof fn lemma_renamed_empty(st: RenameState)
    ensures
        renamed(st, Seq::empty(), st, Seq::empty()),
{
    assert(relabel(Seq::empty(), Seq::empty()) =~= Seq::<Event>::empty());
}

/// A single event is a single step.
pub proof fn lemma_run_one(st: RenameState, ev: Event)
    ensures
        run(st, seq![ev]) == (step(st, ev).0, seq![step(st, ev).1], step(st, ev).2),
{
    assert(seq![ev].drop_last() =~= Seq::<Event>::empty());
    assert(seq![ev].last() == ev);
    assert(run(st, seq![ev].drop_last()) == (st, Seq::<Seq<char>>::empty(), true));
    assert(Seq::<Seq<char>>::empty().push(step(st, ev).1) =~= seq![step(st, ev).1]);
}

/// A step on an identifier that succeeds.
pub proof fn lemma_renamed_ident(st: RenameState, role: Role, name: Seq<char>)
    ensures
        step(st, Event::Ident(role, name)).2 ==> renamed(
            st,
            seq![Event::Ident(role, name)],
            step(st, Event::Ident(role, name)).0,
            seq![Event::Ident(role, step(st, Event::Ident(role, name)).1)],
        ),
        !step(st, Event::Ident(role, name)).2 ==> fails(st, seq![Event::Ident(role, name)]),
{
    lemma_run_one(st, Event::Ident(role, name));
    assert(relabel(seq![Event::Ident(role, name)], seq![step(st, Event::Ident(role, name)).1])
        =~= seq![Event::Ident(role, step(st, Event::Ident(role, name)).1)]);
}

/// A step on a scope change, which always succeeds and keeps the event.
pub proof fn lemma_renamed_scope(st: RenameState, ev: Event)
    requires
        !(ev is Ident),
    ensures
        renamed(st, seq![ev], step(st, ev).0, seq![ev]),
{
    lemma_run_one(st, ev);
    assert(relabel(seq![ev], seq![step(st, ev).1]) =~= seq![ev]);
}

/// Renaming `a` then `b` is renaming `a + b`.
pub proof fn lemma_renamed_append(
    st: RenameState,
    a: Seq<Event>,
    st1: RenameState,
    a2: Seq<Event>,
    b: Seq<Event>,
    st2: RenameState,
    b2: Seq<Event>,
)
    requires
        renamed(st, a, st1, a2),
        renamed(st1, b, st2, b2),
    ensures
        renamed(st, a + b, st2, a2 + b2),
{
    lemma_run_append(st, a, b);
    lemma_run_len(st1, b);
    lemma_relabel_append(a, b, run(st, a).1, run(st1, b).1);
}

/// A failure in `a` is a failure of `a + b`.
pub proof fn lemma_fails_prefix(st: RenameState, a: Seq<Event>, b: Seq<Event>)
    requires
        fails(st, a),
    ensures
        fails(st, a + b),
{
    lemma_run_append(st, a, b);
}

/// After a successful `a`, a failure in `b` is a failure of `a + b`.
pub proof fn lemma_fails_suffix(
    st: RenameState,
    a: Seq<Event>,
    st1: RenameState,
    a2: Seq<Event>,
    b: Seq<Event>,
)
    requires
        renamed(st, a, st1, a2),
        fails(st1, b),
    ensures
        fails(st, a + b),
{
    lemma_run_append(st, a, b);
}

/// A failure in a prefix is a failure of the whole.
pub proof fn lemma_fails_extends(st: RenameState, a: Seq<Event>, full: Seq<Event>)
    requires
        fails(st, a),
        exists|t: Seq<Event>| full == a + t,
    ensures
        fails(st, full),
{
    let t = choose|t: Seq<Event>| full == a + t;
    lemma_fails_prefix(st, a, t);
}

} // verus!
