use vstd::prelude::*;

use crate::format::{
    commas_apart, drop_double_parens_from, drop_trailing_commas_from, lemma_minified_idempotent,
    lemma_strip_whitespace_settles, minified_source, parens_balanced, strip_whitespace,
    strip_whitespace_from,
};
use crate::ident::{ident_name, lemma_ident_name_injective, preserved, reserved};
use crate::renaming::{
    bind_innermost, first_free, kept, lemma_first_free_is_free, lemma_first_free_least,
    lemma_run_append, lemma_run_len, lemma_run_one, lookup_local, relabel, rename_local_decl,
    rename_global, renamed, run, step, Event, RenameState, Role,
};
use crate::syntax::{Expr, Item, Module};
use crate::walk::{
    expr_events, expr_shape,
    compound_events, decl_bodies_events, decl_body_events, decl_names_events, entry_events,
    fn_boundary,
    lemma_compound_no_boundary, lemma_expr_no_local, lemma_params_no_boundary,
    lemma_names_no_local, lemma_no_local_add, lemma_opt_expr_no_local, lemma_opt_type_no_local,
    lemma_type_no_local, local_decl, module_events, module_only, no_boundary, no_boundary_or_local, no_fn_or_local, lemma_no_fn_or_local_add,
    opt_expr_events,
    opt_type_events, params_events,
};

verus! {

// ---------------------------------------------------------------------------------------
// Kept names
// ---------------------------------------------------------------------------------------

/// A step on a kept name, or on an entry point's name, gives the name back.
proof fn lemma_step_keeps(st: RenameState, role: Role, name: Seq<char>)
    requires
        kept(name) || role is KeepGlobal || role is Reserve,
    ensures
        step(st, Event::Ident(role, name)).1 == name,
{
}

/// What run gives the event at `i` is what its step gives from the state before it.
pub proof fn lemma_run_at(st: RenameState, evs: Seq<Event>, i: int)
    requires
        0 <= i < evs.len(),
    ensures
        run(st, evs).1.len() == evs.len(),
        run(st, evs).1[i] == step(run(st, evs.take(i)).0, evs[i]).1,
    decreases evs.len(),
{
    lemma_run_len(st, evs);
    lemma_run_len(st, evs.drop_last());
    if i == evs.len() - 1 {
        assert(evs.take(i) == evs.drop_last());
    } else {
        lemma_run_at(st, evs.drop_last(), i);
        assert(evs.drop_last().take(i) == evs.take(i));
        assert(evs.drop_last()[i] == evs[i]);
    }
}

/// Names that are never renamed keep their spelling: an identifier that is reserved or
/// starts with `_`, and the name of an entry point, is written back as it was.
pub proof fn law_kept_names_unchanged(
    st: RenameState,
    evs: Seq<Event>,
    st2: RenameState,
    evs2: Seq<Event>,
    i: int,
)
    requires
        renamed(st, evs, st2, evs2),
        0 <= i < evs.len(),
        evs[i] matches Event::Ident(role, name) && (kept(name) || role is KeepGlobal
            || role is Reserve),
    ensures
        evs2[i] == evs[i],
{
    lemma_run_at(st, evs, i);
    if let Event::Ident(role, name) = evs[i] {
        lemma_step_keeps(run(st, evs.take(i)).0, role, name);
    }
}

// ---------------------------------------------------------------------------------------
// The module-scope map and the map file
// ---------------------------------------------------------------------------------------

/// `st2` keeps every module-scope renaming of `st`, every name `st` had taken, and the
/// renamings `st` had listed, as the start of its own list.
pub open spec fn extends(st: RenameState, st2: RenameState) -> bool {
    &&& forall|k: Seq<char>| #[trigger]
        st.global_map.contains_key(k) ==> st2.global_map.contains_key(k) && st2.global_map[k]
            == st.global_map[k]
    &&& st.taken.subset_of(st2.taken)
    &&& st.entries.len() <= st2.entries.len()
    &&& st2.entries.take(st.entries.len() as int) == st.entries
}

proof fn lemma_extends_trans(a: RenameState, b: RenameState, c: RenameState)
    requires
        extends(a, b),
        extends(b, c),
    ensures
        extends(a, c),
{
    assert(c.entries.take(a.entries.len() as int) == c.entries.take(b.entries.len() as int).take(
        a.entries.len() as int,
    ));
}

proof fn lemma_step_extends(st: RenameState, ev: Event)
    ensures
        extends(st, step(st, ev).0),
{
    let s2 = step(st, ev).0;
    assert(s2.entries.take(st.entries.len() as int) == st.entries);
}

/// Renaming never forgets: every module-scope renaming made so far keeps its new name,
/// every taken name stays taken, and the list of renamings only grows at its end. This is
/// what makes several modules, minified one after the other, agree on their names.
pub proof fn law_renaming_only_grows(st: RenameState, evs: Seq<Event>)
    ensures
        extends(st, run(st, evs).0),
    decreases evs.len(),
{
    if evs.len() == 0 {
        assert(st.entries.take(st.entries.len() as int) == st.entries);
    } else {
        law_renaming_only_grows(st, evs.drop_last());
        lemma_step_extends(run(st, evs.drop_last()).0, evs.last());
        lemma_extends_trans(st, run(st, evs.drop_last()).0, run(st, evs).0);
    }
}

/// A module-scope occurrence of a name that already has a module-scope renaming is
/// renamed to it, whatever came in between: the same global is renamed the same way in
/// every module.
pub proof fn law_global_renaming_consistent(
    st: RenameState,
    evs: Seq<Event>,
    i: int,
    name: Seq<char>,
)
    requires
        0 <= i < evs.len(),
        evs[i] == Event::Ident(Role::Global, name),
        !kept(name),
        st.global_map.contains_key(name),
    ensures
        run(st, evs).1[i] == st.global_map[name],
{
    lemma_run_at(st, evs, i);
    law_renaming_only_grows(st, evs.take(i));
}

/// A use of a value that no local binds, of a name that already has a module-scope
/// renaming, is renamed to it too: a global variable or function used in a later module
/// gets the name it was given in an earlier one.
pub proof fn law_value_renaming_consistent(
    st: RenameState,
    evs: Seq<Event>,
    i: int,
    name: Seq<char>,
)
    requires
        0 <= i < evs.len(),
        evs[i] == Event::Ident(Role::Value, name),
        !kept(name),
        st.global_map.contains_key(name),
        lookup_local(run(st, evs.take(i)).0.scopes, name) is None,
    ensures
        run(st, evs).1[i] == st.global_map[name],
{
    lemma_run_at(st, evs, i);
    law_renaming_only_grows(st, evs.take(i));
}

/// A step lists no renaming of a name the module-scope map already holds.
proof fn lemma_step_no_entry_for_mapped(st: RenameState, ev: Event, g: Seq<char>)
    requires
        st.global_map.contains_key(g),
    ensures
        forall|k: int|
            st.entries.len() <= k < step(st, ev).0.entries.len() ==> (#[trigger] step(
                st,
                ev,
            ).0.entries[k]).0 != g,
{
    lemma_step_extends(st, ev);
}

/// Once a name has a module-scope renaming, no later renaming of it is listed.
proof fn lemma_no_entry_for_mapped(st: RenameState, evs: Seq<Event>, g: Seq<char>)
    requires
        st.global_map.contains_key(g),
    ensures
        forall|k: int|
            st.entries.len() <= k < run(st, evs).0.entries.len() ==> (#[trigger] run(
                st,
                evs,
            ).0.entries[k]).0 != g,
    decreases evs.len(),
{
    if evs.len() > 0 {
        let s1 = run(st, evs.drop_last()).0;
        lemma_no_entry_for_mapped(st, evs.drop_last(), g);
        law_renaming_only_grows(st, evs.drop_last());
        lemma_step_no_entry_for_mapped(s1, evs.last(), g);
        lemma_step_extends(s1, evs.last());
        let s2 = run(st, evs).0;
        assert forall|k: int| st.entries.len() <= k < s2.entries.len() implies (
            #[trigger] s2.entries[k]).0 != g by {
            if k < s1.entries.len() {
                assert(s2.entries[k] == s2.entries.take(s1.entries.len() as int)[k]);
            }
        }
    }
}

/// Two modules minified one after the other with one minifier share its renamings: a
/// module-scope name `g` that the first call renamed to `n` is renamed to `n` wherever
/// the second module declares or names it at module scope (at `j`, a declaration or a use
/// that no local of the second module binds), keeps that renaming, and gets no second
/// line in the map file.
pub proof fn law_second_module_keeps_renamings(
    st0: RenameState,
    m1: Module,
    st1: RenameState,
    m1r: Module,
    m2: Module,
    st2: RenameState,
    m2r: Module,
    g: Seq<char>,
    j: int,
)
    requires
        renamed(st0, module_events(m1), st1, module_events(m1r)),
        renamed(st1, module_events(m2), st2, module_events(m2r)),
        st1.global_map.contains_key(g),
        !kept(g),
        0 <= j < module_events(m2).len(),
    ensures
        module_events(m2)[j] == Event::Ident(Role::Global, g) ==> module_events(m2r)[j]
            == Event::Ident(Role::Global, st1.global_map[g]),
        (module_events(m2)[j] == Event::Ident(Role::Value, g) && lookup_local(
            run(st1, module_events(m2).take(j)).0.scopes,
            g,
        ) is None) ==> module_events(m2r)[j] == Event::Ident(Role::Value, st1.global_map[g]),
        st2.global_map.contains_key(g) && st2.global_map[g] == st1.global_map[g],
        forall|k: int|
            st1.entries.len() <= k < st2.entries.len() ==> (#[trigger] st2.entries[k]).0 != g,
{
    let evs = module_events(m2);
    lemma_run_len(st1, evs);
    law_renaming_only_grows(st1, evs);
    lemma_no_entry_for_mapped(st1, evs, g);
    if evs[j] == Event::Ident(Role::Global, g) {
        law_global_renaming_consistent(st1, evs, j, g);
    }
    if evs[j] == Event::Ident(Role::Value, g) && lookup_local(run(st1, evs.take(j)).0.scopes, g)
        is None {
        law_value_renaming_consistent(st1, evs, j, g);
    }
}

/// Every listed renaming is of a name that may be renamed (so never of one that starts
/// with `_`), and agrees with the module-scope map.
pub open spec fn entries_agree(st: RenameState) -> bool {
    forall|j: int|
        0 <= j < st.entries.len() ==> {
            let (old, new) = #[trigger] st.entries[j];
            &&& !kept(old)
            &&& st.global_map.contains_key(old)
            &&& st.global_map[old] == new
        }
}

proof fn lemma_step_entries_agree(st: RenameState, ev: Event)
    requires
        entries_agree(st),
    ensures
        entries_agree(step(st, ev).0),
{
    let s2 = step(st, ev).0;
    assert forall|j: int| 0 <= j < s2.entries.len() implies {
        let (old, new) = #[trigger] s2.entries[j];
        &&& !kept(old)
        &&& s2.global_map.contains_key(old)
        &&& s2.global_map[old] == new
    } by {
        lemma_step_extends(st, ev);
        if j < st.entries.len() {
            assert(s2.entries[j] == s2.entries.take(st.entries.len() as int)[j]);
        }
    }
}

/// The map file lists module-scope renamings only: each listed renaming is of a name
/// that does not start with `_` and is not reserved, and is what the module-scope map
/// holds for that name. Renaming keeps this true.
pub proof fn law_entries_agree(st: RenameState, evs: Seq<Event>)
    requires
        entries_agree(st),
    ensures
        entries_agree(run(st, evs).0),
        forall|j: int|
            0 <= j < run(st, evs).0.entries.len() ==> !preserved(
                #[trigger] run(st, evs).0.entries[j].0,
            ),
    decreases evs.len(),
{
    if evs.len() > 0 {
        law_entries_agree(st, evs.drop_last());
        lemma_step_entries_agree(run(st, evs.drop_last()).0, evs.last());
    }
    let s2 = run(st, evs).0;
    assert forall|j: int| 0 <= j < s2.entries.len() implies !preserved(
        #[trigger] s2.entries[j].0,
    ) by {
        let (old, new) = s2.entries[j];
        assert(!kept(old));
    }
}


/// The listed renamings are one to one: no two list the same old name or the same new
/// name, and every new name is a generated name of an index below `global_next`.
pub open spec fn entries_one_to_one(st: RenameState) -> bool {
    &&& forall|a: int, b: int|
        0 <= a < b < st.entries.len() ==> #[trigger] st.entries[a].0 != #[trigger] st.entries[b].0
            && st.entries[a].1 != st.entries[b].1
    &&& forall|j: int|
        0 <= j < st.entries.len() ==> generated_below(#[trigger] st.entries[j].1, st.global_next)
}

/// `name` is the generated name of an index below `bound`.
pub open spec fn generated_below(name: Seq<char>, bound: nat) -> bool {
    exists|k: nat| k < bound && #[trigger] ident_name(k) == name
}

proof fn lemma_step_one_to_one(st: RenameState, ev: Event)
    requires
        entries_agree(st),
        entries_one_to_one(st),
    ensures
        entries_one_to_one(step(st, ev).0),
{
    let s2 = step(st, ev).0;
    lemma_step_extends(st, ev);
    assert(st.global_next <= s2.global_next) by {
        lemma_first_free_is_free(st, st.global_next, true);
    }
    if s2.entries.len() > st.entries.len() {
        // a new module-scope renaming was listed
        let name = s2.entries.last().0;
        let k = first_free(st, st.global_next, true)->0;
        lemma_first_free_is_free(st, st.global_next, true);
        assert(s2.entries == st.entries.push((name, ident_name(k))));
        assert(!st.global_map.contains_key(name));
        assert(s2.global_next == k + 1);
        assert forall|a: int, b: int|
            0 <= a < b < s2.entries.len() implies #[trigger] s2.entries[a].0
            != #[trigger] s2.entries[b].0 && s2.entries[a].1 != s2.entries[b].1 by {
            if b == st.entries.len() {
                assert(s2.entries[a] == st.entries[a]);
                let (old, new) = st.entries[a];
                assert(st.global_map.contains_key(old));
                assert(generated_below(st.entries[a].1, st.global_next));
                let ka = choose|ka: nat| ka < st.global_next && #[trigger] ident_name(ka) == st.entries[a].1;
                lemma_ident_name_injective(ka, k);
            } else {
                assert(s2.entries[a] == st.entries[a]);
                assert(s2.entries[b] == st.entries[b]);
            }
        }
        assert forall|j: int| 0 <= j < s2.entries.len() implies generated_below(
            #[trigger] s2.entries[j].1,
            s2.global_next,
        ) by {
            if j < st.entries.len() {
                assert(s2.entries[j] == st.entries[j]);
                assert(generated_below(st.entries[j].1, st.global_next));
                let q = choose|q: nat| q < st.global_next && #[trigger] ident_name(q) == st.entries[j].1;
                assert(ident_name(q) == s2.entries[j].1);
            } else {
                assert(ident_name(k) == s2.entries[j].1);
            }
        }
        assert(entries_one_to_one(s2));
    } else {
        assert(s2.entries.take(st.entries.len() as int) == st.entries);
        assert(s2.entries == st.entries);
        lemma_one_to_one_same_entries(st, s2);
    }
}

proof fn lemma_one_to_one_same_entries(st: RenameState, s2: RenameState)
    requires
        entries_one_to_one(st),
        s2.entries == st.entries,
        st.global_next <= s2.global_next,
    ensures
        entries_one_to_one(s2),
{
    assert forall|a: int, b: int|
        0 <= a < b < s2.entries.len() implies #[trigger] s2.entries[a].0
        != #[trigger] s2.entries[b].0 && s2.entries[a].1 != s2.entries[b].1 by {
        assert(s2.entries[a] == st.entries[a]);
        assert(s2.entries[b] == st.entries[b]);
        assert(st.entries[a].0 != st.entries[b].0);
    }
    assert forall|j: int| 0 <= j < s2.entries.len() implies generated_below(
        #[trigger] s2.entries[j].1,
        s2.global_next,
    ) by {
        assert(s2.entries[j] == st.entries[j]);
        assert(generated_below(st.entries[j].1, st.global_next));
        let q = choose|q: nat| q < st.global_next && #[trigger] ident_name(q) == st.entries[j].1;
        assert(ident_name(q) == s2.entries[j].1);
    }
}

/// The map file is one to one: renaming never lists two renamings of the same name, nor
/// two renamings to the same new name.
pub proof fn law_map_one_to_one(st: RenameState, evs: Seq<Event>)
    requires
        entries_agree(st),
        entries_one_to_one(st),
    ensures
        entries_one_to_one(run(st, evs).0),
    decreases evs.len(),
{
    if evs.len() > 0 {
        law_map_one_to_one(st, evs.drop_last());
        law_entries_agree(st, evs.drop_last());
        lemma_step_one_to_one(run(st, evs.drop_last()).0, evs.last());
    }
}

// ---------------------------------------------------------------------------------------
// Locals
// ---------------------------------------------------------------------------------------

/// Inside a function, a declared local that may be renamed gets a name that no
/// module-scope identifier has taken.
proof fn lemma_local_not_taken(st: RenameState, name: Seq<char>)
    requires
        st.local_next is Some,
        !kept(name),
        step(st, Event::Ident(Role::LocalDecl, name)).2,
    ensures
        !st.taken.contains(step(st, Event::Ident(Role::LocalDecl, name)).1),
{
    let next = st.local_next->0;
    lemma_first_free_is_free(st, next, false);
    let r = rename_local_decl(st, name);
    assert(r == step(st, Event::Ident(Role::LocalDecl, name)));
}

/// What a module-scope occurrence is renamed to is taken, where every kept name that the
/// module-scope map holds is mapped to itself.
pub open spec fn kept_map_to_themselves(st: RenameState) -> bool {
    forall|k: Seq<char>| #[trigger]
        st.global_map.contains_key(k) && kept(k) ==> st.global_map[k] == k
}

proof fn lemma_step_kept_map(st: RenameState, ev: Event)
    requires
        kept_map_to_themselves(st),
    ensures
        kept_map_to_themselves(step(st, ev).0),
{
}

/// Renaming keeps every kept name that the module-scope map holds mapped to itself.
pub proof fn law_kept_map_to_themselves(st: RenameState, evs: Seq<Event>)
    requires
        kept_map_to_themselves(st),
    ensures
        kept_map_to_themselves(run(st, evs).0),
    decreases evs.len(),
{
    if evs.len() > 0 {
        law_kept_map_to_themselves(st, evs.drop_last());
        lemma_step_kept_map(run(st, evs.drop_last()).0, evs.last());
    }
}

proof fn lemma_global_taken(st: RenameState, name: Seq<char>)
    requires
        kept_map_to_themselves(st),
        step(st, Event::Ident(Role::Global, name)).2,
    ensures
        step(st, Event::Ident(Role::Global, name)).0.taken.contains(
            step(st, Event::Ident(Role::Global, name)).1,
        ),
{
}

/// A local never takes the name of a module-scope identifier renamed before it: where
/// an identifier at `i` is renamed at module scope and a local that may be renamed is
/// declared at `j`, later and inside a function, the two get different names. Every
/// name given out at module scope is taken; a local only gets a name that is not.
pub proof fn law_locals_avoid_module_names(st: RenameState, evs: Seq<Event>, i: int, j: int)
    requires
        kept_map_to_themselves(st),
        run(st, evs).2,
        0 <= i < j < evs.len(),
        evs[i] is Ident && evs[i]->Ident_0 is Global,
        evs[j] is Ident && evs[j]->Ident_0 is LocalDecl && !kept(evs[j]->Ident_1),
        run(st, evs.take(j)).0.local_next is Some,
    ensures
        run(st, evs).1[i] != run(st, evs).1[j],
{
    let names = run(st, evs).1;
    lemma_run_at(st, evs, i);
    lemma_run_at(st, evs, j);
    let si = run(st, evs.take(i)).0;
    let sj = run(st, evs.take(j)).0;
    law_kept_map_to_themselves(st, evs.take(i));
    // the whole run succeeded, so did each step
    lemma_run_ok_at(st, evs, i);
    lemma_run_ok_at(st, evs, j);
    lemma_global_taken(si, evs[i]->Ident_1);
    assert(evs.take(i + 1) == evs.take(i).push(evs[i]));
    assert(evs.take(i + 1).drop_last() == evs.take(i));
    let si1 = run(st, evs.take(i + 1)).0;
    assert(si1 == step(si, evs[i]).0);
    assert(evs.take(j) == evs.take(i + 1) + evs.take(j).skip(i + 1));
    lemma_run_append(st, evs.take(i + 1), evs.take(j).skip(i + 1));
    law_renaming_only_grows(si1, evs.take(j).skip(i + 1));
    assert(sj.taken.contains(names[i]));
    lemma_local_not_taken(sj, evs[j]->Ident_1);
}

/// A module-scope name renamed for the first time never takes a name already in use at
/// module scope; in particular it never takes the name of an entry point marked before
/// it. Where an entry point `x` is marked at `i`, and a name with no renaming yet is
/// renamed at module scope at `j` after it, the two get different names.
pub proof fn law_renamed_globals_avoid_entry_points(
    st: RenameState,
    evs: Seq<Event>,
    i: int,
    j: int,
    x: Seq<char>,
    y: Seq<char>,
)
    requires
        run(st, evs).2,
        0 <= i < j < evs.len(),
        evs[i] == Event::Ident(Role::Reserve, x),
        evs[j] == Event::Ident(Role::Global, y),
        !kept(y),
        !run(st, evs.take(j)).0.global_map.contains_key(y),
    ensures
        run(st, evs).1[i] != run(st, evs).1[j],
{
    let names = run(st, evs).1;
    lemma_run_at(st, evs, i);
    lemma_run_at(st, evs, j);
    let si = run(st, evs.take(i)).0;
    let sj = run(st, evs.take(j)).0;
    lemma_run_ok_at(st, evs, j);
    assert(evs.take(i + 1) == evs.take(i).push(evs[i]));
    assert(evs.take(i + 1).drop_last() == evs.take(i));
    let si1 = run(st, evs.take(i + 1)).0;
    assert(si1 == step(si, evs[i]).0);
    assert(si1.taken.contains(x));
    assert(evs.take(j) == evs.take(i + 1) + evs.take(j).skip(i + 1));
    lemma_run_append(st, evs.take(i + 1), evs.take(j).skip(i + 1));
    law_renaming_only_grows(si1, evs.take(j).skip(i + 1));
    assert(sj.taken.contains(x));
    lemma_first_free_is_free(sj, sj.global_next, true);
}

/// Where the whole run succeeds, the step at each position succeeds.
pub proof fn lemma_run_ok_at(st: RenameState, evs: Seq<Event>, i: int)
    requires
        0 <= i < evs.len(),
        run(st, evs).2,
    ensures
        step(run(st, evs.take(i)).0, evs[i]).2,
    decreases evs.len(),
{
    if i == evs.len() - 1 {
        assert(evs.take(i) == evs.drop_last());
    } else {
        lemma_run_ok_at(st, evs.drop_last(), i);
        assert(evs.drop_last().take(i) == evs.take(i));
        assert(evs.drop_last()[i] == evs[i]);
    }
}

/// Local names start over in every function: the first local of a function that may be
/// renamed gets the first generated name that is not reserved and that no module-scope
/// identifier has taken, whatever the locals of earlier functions were named.
pub proof fn law_locals_restart_in_each_function(st: RenameState, name: Seq<char>)
    requires
        !kept(name),
        step(step(st, Event::BeginFunction).0, Event::Ident(Role::LocalDecl, name)).2,
    ensures
        ({
            let inside = step(st, Event::BeginFunction).0;
            let k = first_free(inside, 0, false)->0;
            &&& step(inside, Event::Ident(Role::LocalDecl, name)).1 == ident_name(k)
            &&& !reserved(ident_name(k))
            &&& !st.taken.contains(ident_name(k))
            &&& forall|j: nat|
                j < k ==> reserved(#[trigger] ident_name(j)) || st.taken.contains(
                    ident_name(j),
                )
        }),
{
    let inside = step(st, Event::BeginFunction).0;
    lemma_first_free_is_free(inside, 0, false);
    let k = first_free(inside, 0, false)->0;
    assert(step(inside, Event::Ident(Role::LocalDecl, name)) == rename_local_decl(inside, name));
    assert forall|j: nat| j < k implies reserved(#[trigger] ident_name(j))
        || st.taken.contains(ident_name(j)) by {
        lemma_first_free_least(inside, 0, false, j);
    }
}

/// Opening a scope and closing it again leaves the scopes as they were, inside a function
/// or not.
pub proof fn law_push_pop_restores(st: RenameState)
    ensures
        step(step(st, Event::PushScope).0, Event::PopScope).0 == st,
{
    if st.local_next is Some {
        assert(st.scopes.push(Map::empty()).drop_last() == st.scopes);
    }
}

/// A local just declared in a function holds its new name in use, so no module-scope name
/// renamed while that scope is open takes it.
pub proof fn law_declared_local_in_use(st: RenameState, name: Seq<char>)
    requires
        st.local_next is Some,
        st.scopes.len() > 0,
        step(st, Event::Ident(Role::LocalDecl, name)).2,
    ensures
        ({
            let (s1, declared, _) = step(st, Event::Ident(Role::LocalDecl, name));
            crate::renaming::in_use(s1.scopes, declared)
        }),
{
    let (s1, declared, _) = step(st, Event::Ident(Role::LocalDecl, name));
    assert(s1.scopes == bind_innermost(st.scopes, name, declared));
    let last = s1.scopes.len() - 1;
    assert(s1.scopes[last] == st.scopes.last().insert(name, declared));
    assert(s1.scopes[last].contains_key(name) && s1.scopes[last][name] == declared);
}

/// A local is found before anything at module scope: right after a local `name` is
/// declared in a function, a use of `name` as a value resolves to what the declaration
/// was renamed to, even where a module-scope identifier has the same name.
pub proof fn law_local_before_global(st: RenameState, name: Seq<char>)
    requires
        st.local_next is Some,
        st.scopes.len() > 0,
        step(st, Event::Ident(Role::LocalDecl, name)).2,
    ensures
        ({
            let (s1, declared, _) = step(st, Event::Ident(Role::LocalDecl, name));
            step(s1, Event::Ident(Role::Value, name)).1 == declared
        }),
{
    let (s1, declared, _) = step(st, Event::Ident(Role::LocalDecl, name));
    if !kept(name) {
        assert(s1.scopes == bind_innermost(st.scopes, name, declared));
        assert(s1.scopes.last() == st.scopes.last().insert(name, declared));
        assert(lookup_local(s1.scopes, name) == Some(declared));
    }
}


/// Steps that open or close no function leave the renaming inside the function.
proof fn lemma_run_stays_inside(st: RenameState, evs: Seq<Event>)
    requires
        st.local_next is Some,
        no_boundary(evs),
    ensures
        run(st, evs).0.local_next is Some,
    decreases evs.len(),
{
    if evs.len() > 0 {
        assert(no_boundary(evs.drop_last())) by {
            assert forall|i: int| 0 <= i < evs.drop_last().len() implies !fn_boundary(
                #[trigger] evs.drop_last()[i],
            ) && !module_only(evs.drop_last()[i]) by {
                assert(evs.drop_last()[i] == evs[i]);
            }
        }
        lemma_run_stays_inside(st, evs.drop_last());
        assert(!fn_boundary(evs[evs.len() - 1]));
    }
}

/// Every local declared in the inside of a declaration is declared within a function:
/// the renaming state before it is inside one.
proof fn lemma_body_local_inside(g: Item, s: RenameState, j: int)
    requires
        0 <= j < decl_body_events(g).len(),
        local_decl(decl_body_events(g)[j]),
    ensures
        run(s, decl_body_events(g).take(j)).0.local_next is Some,
{
    let b = decl_body_events(g);
    match g {
        Item::FnDecl(f) => {
            let p = params_events(f.parameters@);
            let c = compound_events(f.body);
            let t = opt_type_events(f.return_type, false);
            let rest = p + c + t;
            lemma_params_no_boundary(f.parameters@);
            lemma_compound_no_boundary(f.body);
            if let Some(rt) = f.return_type {
                lemma_type_no_local(rt, false);
            }
            assert(no_boundary(rest)) by {
                assert forall|i: int| 0 <= i < rest.len() implies !fn_boundary(
                    #[trigger] rest[i],
                ) && !module_only(rest[i]) by {
                    if i < p.len() {
                        assert(rest[i] == p[i]);
                    } else if i < p.len() + c.len() {
                        assert(rest[i] == c[i - p.len()]);
                    } else {
                        assert(rest[i] == t[i - p.len() - c.len()]);
                    }
                }
            }
            assert(b == seq![Event::BeginFunction] + rest + seq![Event::EndFunction]);
            assert(j != 0);
            assert(j != b.len() - 1);
            let r = rest.take(j - 1);
            assert(b.take(j) == seq![Event::BeginFunction] + r);
            assert(no_boundary(r)) by {
                assert forall|i: int| 0 <= i < r.len() implies !fn_boundary(
                    #[trigger] r[i],
                ) && !module_only(r[i]) by {
                    assert(r[i] == rest[i]);
                }
            }
            lemma_run_append(s, seq![Event::BeginFunction], r);
            lemma_run_one(s, Event::BeginFunction);
            lemma_run_stays_inside(step(s, Event::BeginFunction).0, r);
        },
        Item::VarDecl(d) => {
            if let Some(x) = d.ty {
                lemma_type_no_local(x, false);
            }
            if let Some(x) = d.initializer {
                lemma_expr_no_local(x);
            }
            let a = opt_type_events(d.ty, false);
            let e = opt_expr_events(d.initializer);
            if j < a.len() {
                assert(b[j] == a[j]);
            } else {
                assert(b[j] == e[j - a.len()]);
            }
        },
        Item::TypeAlias(a) => {
            lemma_type_no_local(a.ty, false);
        },
        _ => {},
    }
}

/// Every local declared in the second pass over a module is declared within a function.
proof fn lemma_bodies_local_inside(ds: Seq<Item>, s: RenameState, j: int)
    requires
        0 <= j < decl_bodies_events(ds).len(),
        local_decl(decl_bodies_events(ds)[j]),
    ensures
        run(s, decl_bodies_events(ds).take(j)).0.local_next is Some,
    decreases ds.len(),
{
    let p = decl_bodies_events(ds.drop_last());
    let b = decl_body_events(ds.last());
    assert(decl_bodies_events(ds) == p + b);
    if j < p.len() {
        assert(decl_bodies_events(ds)[j] == p[j]);
        assert(decl_bodies_events(ds).take(j) == p.take(j));
        lemma_bodies_local_inside(ds.drop_last(), s, j);
    } else {
        let j2 = j - p.len();
        assert(decl_bodies_events(ds)[j] == b[j2]);
        assert(decl_bodies_events(ds).take(j) == p + b.take(j2));
        lemma_run_append(s, p, b.take(j2));
        lemma_body_local_inside(ds.last(), run(s, p).0, j2);
    }
}

/// A local of a module never takes the name of one of the module's own declarations:
/// where the pass over declared names renames a name at `i` at module scope, and the pass
/// over insides declares a local that may be renamed at `j`, the two get different names.
/// (Every declared name is taken before any local is named.)
pub proof fn law_module_locals_avoid_declared_names(
    st: RenameState,
    m: Module,
    st2: RenameState,
    m2: Module,
    i: int,
    j: int,
)
    requires
        kept_map_to_themselves(st),
        renamed(st, module_events(m), st2, module_events(m2)),
        0 <= i < entry_events(m.global_declarations@).len() + decl_names_events(
            m.global_declarations@,
        ).len() <= j < module_events(m).len(),
        module_events(m)[i] is Ident && module_events(m)[i]->Ident_0 is Global,
        module_events(m)[j] is Ident && module_events(m)[j]->Ident_0 is LocalDecl && !kept(
            module_events(m)[j]->Ident_1,
        ),
    ensures
        module_events(m2)[i]->Ident_1 != module_events(m2)[j]->Ident_1,
{
    let ds = m.global_declarations@;
    let n = entry_events(ds) + decl_names_events(ds);
    let bs = decl_bodies_events(ds);
    let evs = module_events(m);
    let j2 = j - n.len();
    assert(evs == n + bs);
    assert(evs[j] == bs[j2]);
    assert(evs.take(j) == n + bs.take(j2));
    lemma_run_append(st, n, bs.take(j2));
    lemma_bodies_local_inside(ds, run(st, n).0, j2);
    law_locals_avoid_module_names(st, evs, i, j);
    lemma_run_len(st, evs);
    assert(module_events(m2) == relabel(evs, run(st, evs).1));
}


/// Renaming is outside any function: no local index and no scope.
pub open spec fn outside_function(st: RenameState) -> bool {
    st.local_next is None && st.scopes.len() == 0
}

/// Outside a function, events that open no function and declare no local leave renaming
/// outside any function.
pub proof fn lemma_run_stays_outside(st: RenameState, evs: Seq<Event>)
    requires
        outside_function(st),
        no_fn_or_local(evs),
    ensures
        outside_function(run(st, evs).0),
    decreases evs.len(),
{
    if evs.len() > 0 {
        assert(no_fn_or_local(evs.drop_last())) by {
            assert forall|i: int| 0 <= i < evs.drop_last().len() implies !fn_boundary(
                #[trigger] evs.drop_last()[i],
            ) && !local_decl(evs.drop_last()[i]) by {
                assert(evs.drop_last()[i] == evs[i]);
            }
        }
        lemma_run_stays_outside(st, evs.drop_last());
        let e = evs[evs.len() - 1];
        assert(!fn_boundary(e) && !local_decl(e));
    }
}

/// Each declaration's inside, renamed from outside any function, ends outside any
/// function: a function's events end by closing it.
proof fn lemma_bodies_end_outside(ds: Seq<Item>, st: RenameState)
    requires
        outside_function(st),
    ensures
        outside_function(run(st, decl_bodies_events(ds)).0),
    decreases ds.len(),
{
    if ds.len() > 0 {
        let p = decl_bodies_events(ds.drop_last());
        let b = decl_body_events(ds.last());
        lemma_bodies_end_outside(ds.drop_last(), st);
        let s1 = run(st, p).0;
        lemma_run_append(st, p, b);
        assert(decl_bodies_events(ds) == p + b);
        match ds.last() {
            Item::FnDecl(f) => {
                assert(b.last() == Event::EndFunction);
                assert(b.len() > 0);
            },
            Item::VarDecl(d) => {
                lemma_opt_type_no_local(d.ty, false);
                lemma_opt_expr_no_local(d.initializer);
                lemma_no_local_add(opt_type_events(d.ty, false), opt_expr_events(d.initializer));
                lemma_run_stays_outside(s1, b);
            },
            Item::TypeAlias(a) => {
                lemma_type_no_local(a.ty, false);
                lemma_run_stays_outside(s1, b);
            },
            _ => {
                lemma_run_stays_outside(s1, b);
            },
        }
    }
}

/// Minifying a module started outside any function ends outside any function: every
/// function it enters, it leaves, and no local scope outlives the module.
pub proof fn law_module_ends_outside_functions(st: RenameState, m: Module)
    requires
        outside_function(st),
    ensures
        outside_function(run(st, module_events(m)).0),
{
    let ds = m.global_declarations@;
    let e = entry_events(ds);
    let n = decl_names_events(ds);
    let b = decl_bodies_events(ds);
    lemma_names_no_local(ds);
    lemma_no_fn_or_local_add(e, n);
    lemma_run_stays_outside(st, e + n);
    lemma_run_append(st, e + n, b);
    lemma_bodies_end_outside(ds, run(st, e + n).0);
}

/// A fresh renaming state, with nothing renamed or listed yet (that of
/// `Minifier::default()`), meets every invariant the laws above ask for.
pub proof fn law_fresh_state(st: RenameState)
    requires
        st.global_map == Map::<Seq<char>, Seq<char>>::empty(),
        st.entries == Seq::<(Seq<char>, Seq<char>)>::empty(),
        st.local_next is None,
        st.scopes == Seq::<Map<Seq<char>, Seq<char>>>::empty(),
    ensures
        entries_agree(st),
        entries_one_to_one(st),
        kept_map_to_themselves(st),
        outside_function(st),
{
}

// ---------------------------------------------------------------------------------------
// Source text
// ---------------------------------------------------------------------------------------

proof fn lemma_strip_whitespace_len(s: Seq<char>, i: int, last: char)
    requires
        0 <= i <= s.len(),
    ensures
        strip_whitespace_from(s, i, last).len() <= s.len() - i,
    decreases s.len() - i,
{
    if i < s.len() {
        lemma_strip_whitespace_len(s, i + 1, ' ');
        lemma_strip_whitespace_len(s, i + 1, last);
        lemma_strip_whitespace_len(s, i + 1, s[i]);
    }
}

proof fn lemma_drop_trailing_commas_len(s: Seq<char>, i: int)
    requires
        0 <= i <= s.len(),
    ensures
        drop_trailing_commas_from(s, i).len() <= s.len() - i,
    decreases s.len() - i,
{
    if i < s.len() {
        lemma_drop_trailing_commas_len(s, i + 1);
    }
}

proof fn lemma_drop_double_parens_len(s: Seq<char>, i: int)
    requires
        0 <= i <= s.len(),
    ensures
        drop_double_parens_from(s, i).len() <= s.len() - i,
    decreases s.len() - i,
{
    if i < s.len() {
        lemma_drop_double_parens_len(s, i + 1);
    }
}

/// Minifying source text never makes it longer: each pass drops characters or writes
/// one space for a run of whitespace.
pub proof fn law_minified_not_longer(s: Seq<char>)
    ensures
        minified_source(s).len() <= s.len(),
{
    let a = strip_whitespace_from(s, 0, ' ');
    lemma_strip_whitespace_len(s, 0, ' ');
    let b = drop_trailing_commas_from(a, 0);
    lemma_drop_trailing_commas_len(a, 0);
    lemma_drop_double_parens_len(b, 0);
}

/// Running the whitespace pass on its own output changes nothing.
pub proof fn law_whitespace_pass_idempotent(s: Seq<char>)
    ensures
        strip_whitespace(strip_whitespace(s)) == strip_whitespace(s),
{
    lemma_strip_whitespace_settles(s, strip_whitespace(s));
}

/// Minifying source text is idempotent: minifying the output of `minify_wgsl_source` again
/// gives it back unchanged, and that output meets the function's own requirement of
/// balanced parentheses. This holds of every source the function accepts in which no comma
/// is followed, with only whitespace between, by another comma (there the comma pass can
/// uncover a new trailing comma: `f(a,,)` becomes `f(a,)`, and only the second run makes
/// it `f(a)`).
pub proof fn law_minify_source_idempotent(s: Seq<char>)
    requires
        parens_balanced(s),
        commas_apart(s),
    ensures
        parens_balanced(minified_source(s)),
        minified_source(minified_source(s)) == minified_source(s),
{
    lemma_minified_idempotent(s);
}

/// A member access `base.member` names the member as a module-scope name: the member
/// comes out spelled exactly as the module-scope map spells that name (the struct
/// member's new name), whatever local of the same name is in scope. (This is what
/// `Minifier::minify_expr` does to an access, by its contract.)
pub proof fn law_member_access_uses_module_name(
    st: RenameState,
    e: Expr,
    st2: RenameState,
    e2: Expr,
)
    requires
        kept_map_to_themselves(st),
        e is NamedComponent,
        expr_shape(e, e2),
        renamed(st, expr_events(e), st2, expr_events(e2)),
    ensures
        e2 is NamedComponent,
        st2.global_map.contains_key(e->component@),
        st2.global_map[e->component@] == e2->component@,
{
    match e {
        Expr::NamedComponent { base, component } => {
            match e2 {
                Expr::NamedComponent { base: b2, component: c2 } => {
                    let a = expr_events(*base);
                    let ev = Event::Ident(Role::Global, component@);
                    assert(expr_events(e) == a + seq![ev]);
                    lemma_run_append(st, a, seq![ev]);
                    let s1 = run(st, a).0;
                    lemma_run_one(s1, ev);
                    let names = run(st, expr_events(e)).1;
                    let nm = step(s1, ev).1;
                    assert(names == run(st, a).1 + seq![nm]);
                    assert(names[a.len() as int] == nm);
                    let r = relabel(expr_events(e), names);
                    assert(r[a.len() as int] == Event::Ident(Role::Global, nm));
                    let ev2 = Event::Ident(Role::Global, c2@);
                    assert(expr_events(e2) == expr_events(*b2) + seq![ev2]);
                    assert(expr_events(e2).len() == a.len() + 1);
                    assert(expr_events(e2)[a.len() as int] == ev2);
                    assert(c2@ == nm);
                    law_kept_map_to_themselves(st, a);
                    assert(step(s1, ev) == rename_global(s1, component@));
                    assert(st2 == rename_global(s1, component@).0);
                    if !kept(component@) && !s1.global_map.contains_key(component@) {
                        assert(first_free(s1, s1.global_next, true) is Some);
                    }
                },
                _ => {},
            }
        },
        _ => {},
    }
}

} // verus!
