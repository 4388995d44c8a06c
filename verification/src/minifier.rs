use vstd::prelude::*;

use crate::ident::{ident_name, is_preserved_ident, reserved, Identifier};
use crate::text::push_char;
use crate::names::{NameMap, NameSet};
use crate::renaming::{
    bind_innermost, fails, free_index, in_use, keep_global, kept, lemma_fails_extends,
    lemma_fails_prefix, lemma_fails_suffix, lemma_first_free_found, lemma_first_free_none,
    lemma_renamed_append, lemma_renamed_empty, lemma_renamed_ident, lemma_renamed_scope,
    lookup_local, rename_global,
    rename_local_decl, rename_value, renamed, step, Event, RenameState, Role,
};
use crate::syntax::{
    CaseSelector, Block, VarDecl, Expr, FormalParameter, FnDecl,
    Call, Item, IfClause, Stmt, Struct, SwitchArm, Module,
    TypeAlias, TypeName,
};
use crate::walk::{
    decl_body_events, decl_bodies_events, decl_name_events, decl_names_events, decl_shape,
    entry_event, entry_events, lemma_entries_same, lemma_entry_event_of_names,
    decls_shape, lemma_bodies_same_inside, lemma_decl_bodies_events_prefix,
    lemma_decl_names_events_prefix, lemma_members_events_prefix, lemma_names_same,
    lemma_params_events_prefix, lemma_shape_same_inside, members_events, module_events,
    module_shape, params_events, params_shape, same_inside, compound_events, compound_shape, expr_events, expr_shape, exprs_events, exprs_shape,
    if_clauses_events, if_clauses_shape, lemma_exprs_events_prefix, lemma_exprs_take_succ,
    lemma_if_clauses_events_prefix, lemma_selectors_events_prefix, lemma_stmts_events_prefix,
    lemma_switch_clauses_events_prefix, opt_compound_events, opt_compound_shape, opt_expr_events, opt_expr_shape, opt_stmt_events,
    opt_stmt_shape, opt_type_events, opt_type_shape, selector_events, selector_shape,
    selectors_events, selectors_shape, stmt_events, stmt_shape, stmts_events, stmts_shape,
    switch_clauses_events, switch_clauses_shape, type_events, type_shape,
};

verus! {


/// Whether the last renaming of `entries` goes into the map file: it changed the name,
/// and the same renaming was not listed before.
pub open spec fn listed_last(entries: Seq<(Seq<char>, Seq<char>)>) -> bool {
    &&& entries.last().0 != entries.last().1
    &&& !entries.drop_last().contains(entries.last())
}

/// The map file for `entries`: one `old,new` line (ending in CR LF) per renaming that
/// changed a name, each distinct renaming once, in order.
pub open spec fn map_text(entries: Seq<(Seq<char>, Seq<char>)>) -> Seq<char>
    decreases entries.len(),
{
    if entries.len() == 0 {
        Seq::empty()
    } else if listed_last(entries) {
        map_text(entries.drop_last()) + entries.last().0 + seq![','] + entries.last().1 + seq![
            '\r',
            '\n',
        ]
    } else {
        map_text(entries.drop_last())
    }
}

/// Why renaming gave up.
#[derive(Debug, Clone, Copy, PartialEq, Eq)]
pub enum MinifyError {
    /// No unused short name was left in the index range.
    NamesExhausted,
}

/// Renames the identifiers of WGSL modules to short names, consistently across every
/// module it is given.
pub struct Minifier {
    /// Generator for module-scope names.
    global_id: Identifier,
    /// Module-scope identifier and what it was renamed to.
    global_ident_map: NameMap,
    /// Every module-scope name in use; locals never reuse one.
    global_taken_names: NameSet,
    /// Generator for local names, while inside a function.
    local_id: Option<Identifier>,
    /// The lexical scopes of the current function, innermost last.
    local_scopes: Vec<NameMap>,
    /// Each module-scope renaming, in order (the map file).
    map_entries: Vec<(String, String)>,
}

impl View for Minifier {
    type V = RenameState;

    closed spec fn view(&self) -> RenameState {
        RenameState {
            global_next: self.global_id@,
            global_map: self.global_ident_map@,
            taken: self.global_taken_names@,
            local_next: match self.local_id {
                Some(id) => Some(id@),
                None => None,
            },
            scopes: self.local_scopes@.map_values(|m: NameMap| m@),
            entries: self.map_entries@.map_values(|e: (String, String)| (e.0@, e.1@)),
        }
    }
}

impl Default for Minifier {
    fn default() -> (m: Self)
        ensures
            m.wf(),
            m@ == (RenameState {
                global_next: 0,
                global_map: Map::empty(),
                taken: Set::empty(),
                local_next: None,
                scopes: Seq::empty(),
                entries: Seq::empty(),
            }),
    {
        let m = Minifier {
            global_id: Identifier::default(),
            global_ident_map: NameMap::new(),
            global_taken_names: NameSet::new(),
            local_id: None,
            local_scopes: Vec::new(),
            map_entries: Vec::new(),
        };
        assert(m@.scopes =~= Seq::<Map<Seq<char>, Seq<char>>>::empty());
        assert(m@.entries =~= Seq::<(Seq<char>, Seq<char>)>::empty());
        m
    }
}

impl Minifier {
    /// The internal maps are well formed.
    pub closed spec fn wf(&self) -> bool {
        &&& self.global_ident_map.wf()
        &&& forall|i: int| 0 <= i < self.local_scopes@.len() ==> #[trigger] self.local_scopes@[i].wf()
    }

    /// The renamings made so far, in order.
    pub fn map_entries(&self) -> (entries: Vec<(String, String)>)
        ensures
            entries@.map_values(|e: (String, String)| (e.0@, e.1@)) == self@.entries,
    {
        let mut out: Vec<(String, String)> = Vec::new();
        for i in 0..self.map_entries.len()
            invariant
                out@.map_values(|e: (String, String)| (e.0@, e.1@)) == self@.entries.take(
                    i as int,
                ),
        {
            let a = self.map_entries[i].0.clone();
            let b = self.map_entries[i].1.clone();
            let ghost before = out@;
            out.push((a, b));
            assert(out@.map_values(|e: (String, String)| (e.0@, e.1@)) =~= before.map_values(
                |e: (String, String)| (e.0@, e.1@),
            ).push((a@, b@)));
            assert(out@.map_values(|e: (String, String)| (e.0@, e.1@)) =~= self@.entries.take(
                i + 1,
            ));
        }
        assert(self@.entries.take(self.map_entries@.len() as int) =~= self@.entries);
        out
    }

    /// A copy of the minifier.
    fn copy(&self) -> (m: Self)
        requires
            self.wf(),
        ensures
            m.wf(),
            m@ == self@,
    {
        let mut scopes: Vec<NameMap> = Vec::new();
        for i in 0..self.local_scopes.len()
            invariant
                self.wf(),
                scopes@.len() == i,
                forall|j: int| 0 <= j < i ==> (#[trigger] scopes@[j])@ == self.local_scopes@[j]@
                    && scopes@[j].wf(),
        {
            assert(self.local_scopes@[i as int].wf());
            let c = self.local_scopes[i].copy();
            let ghost before = scopes@;
            scopes.push(c);
            assert(forall|j: int| 0 <= j < i ==> scopes@[j] == before[j]);
            assert(scopes@[i as int] == c);
        }
        let mut entries: Vec<(String, String)> = Vec::new();
        for i in 0..self.map_entries.len()
            invariant
                entries@ == self.map_entries@.take(i as int),
        {
            let (a, b) = &self.map_entries[i];
            entries.push((a.clone(), b.clone()));
            assert(entries@ == self.map_entries@.take(i + 1));
        }
        assert(self.map_entries@.take(self.map_entries@.len() as int) == self.map_entries@);
        let local_id = match &self.local_id {
            Some(id) => Some(id.copy()),
            None => None,
        };
        let m = Minifier {
            global_id: self.global_id.copy(),
            global_ident_map: self.global_ident_map.copy(),
            global_taken_names: self.global_taken_names.copy(),
            local_id,
            local_scopes: scopes,
            map_entries: entries,
        };
        assert(m@.scopes =~= self@.scopes);
        assert(m@.entries =~= self@.entries);
        m
    }

    /// Marks a module-scope name as kept: it maps to itself unless already mapped, and
    /// what it maps to is taken.
    fn no_map_global(&mut self, name: &String)
        requires
            old(self).wf(),
        ensures
            final(self).wf(),
            final(self)@ == keep_global(old(self)@, name@),
    {
        let mapped = match self.global_ident_map.get(name) {
            Some(v) => v,
            None => {
                self.global_ident_map.insert(name.clone(), name.clone());
                name.clone()
            },
        };
        self.global_taken_names.insert(mapped);
    }

    /// Marks the name of an entry point as in use at module scope, without mapping it.
    fn reserve_global(&mut self, name: &String)
        requires
            old(self).wf(),
        ensures
            final(self).wf(),
            final(self)@ == (RenameState { taken: old(self)@.taken.insert(name@), ..old(self)@ }),
    {
        self.global_taken_names.insert(name.clone());
    }

    /// Whether some scope of the current function has given out `name`.
    fn local_name_in_use(&self, name: &String) -> (r: bool)
        requires
            self.wf(),
        ensures
            r == in_use(self@.scopes, name@),
    {
        let mut i: usize = 0;
        while i < self.local_scopes.len()
            invariant
                self.wf(),
                i <= self.local_scopes@.len(),
                forall|j: int, k: Seq<char>|
                    0 <= j < i && #[trigger] self@.scopes[j].contains_key(k) ==> self@.scopes[j][k]
                        != name@,
            decreases self.local_scopes.len() - i,
        {
            assert(self@.scopes[i as int] == self.local_scopes@[i as int]@);
            if self.local_scopes[i].has_value(name) {
                return true;
            }
            i = i + 1;
        }
        false
    }

    /// Renames a module-scope occurrence of `name`.
    fn map_global_ident(&mut self, name: String) -> (r: Result<String, MinifyError>)
        requires
            old(self).wf(),
        ensures
            final(self).wf(),
            ({
                let (st, new, ok) = rename_global(old(self)@, name@);
                &&& r is Ok <==> ok
                &&& r matches Ok(renamed) ==> renamed@ == new && final(self)@ == st
            }),
    {
        if Identifier::is_reserved(name.as_str()) || is_preserved_ident(name.as_str()) {
            self.no_map_global(&name);
            return Ok(name);
        }
        match self.global_ident_map.get(&name) {
            Some(new) => {
                self.global_taken_names.insert(new.clone());
                return Ok(new);
            },
            None => {},
        }
        let ghost st0 = self@;
        assert(st0 == old(self)@);
        assert(!kept(name@));
        assert(!st0.global_map.contains_key(name@));
        proof {
            self.global_id.lemma_bounded();
        }
        let new_ident: String;
        loop
            invariant_except_break
                self.wf(),
                !kept(name@),
                !st0.global_map.contains_key(name@),
                st0 == old(self)@,
                self@ == (RenameState { global_next: self@.global_next, ..st0 }),
                st0.global_next <= self@.global_next <= usize::MAX,
                forall|j: nat|
                    st0.global_next <= j < self@.global_next ==> !#[trigger] free_index(
                        st0,
                        j,
                        true,
                    ),
            ensures
                self.wf(),
                self@ == (RenameState { global_next: self@.global_next, ..st0 }),
                st0.global_next < self@.global_next <= usize::MAX,
                new_ident@ == ident_name((self@.global_next - 1) as nat),
                free_index(st0, (self@.global_next - 1) as nat, true),
                forall|j: nat|
                    st0.global_next <= j < self@.global_next - 1 ==> !#[trigger] free_index(
                        st0,
                        j,
                        true,
                    ),
            decreases usize::MAX - self@.global_next,
        {
            match self.global_id.try_next() {
                Some(candidate) => {
                    if !self.local_name_in_use(&candidate) && !self.global_taken_names.contains(
                        &candidate,
                    ) {
                        new_ident = candidate;
                        break;
                    }
                },
                None => {
                    proof {
                        assert forall|k: nat| st0.global_next <= k < usize::MAX implies !#[trigger] free_index(
                            st0,
                            k,
                            true,
                        ) by {
                            if k >= self@.global_next {
                                assert(reserved(ident_name(k)));
                            }
                        }
                        lemma_first_free_none(st0, st0.global_next, true);
                        assert(!rename_global(st0, name@).2);
                    }
                    return Err(MinifyError::NamesExhausted);
                },
            }
        }
        proof {
            lemma_first_free_found(st0, st0.global_next, true, (self@.global_next - 1) as nat);
        }
        self.global_ident_map.insert(name.clone(), new_ident.clone());
        self.global_taken_names.insert(new_ident.clone());
        let ghost before = self.map_entries@;
        self.map_entries.push((name, new_ident.clone()));
        assert(self.map_entries@.map_values(|e: (String, String)| (e.0@, e.1@)) =~= before.map_values(
            |e: (String, String)| (e.0@, e.1@),
        ).push((name@, new_ident@)));
        Ok(new_ident)
    }

    /// Binds `name` to `new` in the innermost scope, if there is one.
    fn bind_innermost(&mut self, name: String, new: String)
        requires
            old(self).wf(),
        ensures
            final(self).wf(),
            final(self)@ == (RenameState {
                scopes: bind_innermost(old(self)@.scopes, name@, new@),
                ..old(self)@
            }),
    {
        let ghost before = self.local_scopes@;
        match self.local_scopes.pop() {
            Some(mut scope) => {
                assert(before.last() == scope);
                assert(self.local_scopes@ == before.drop_last());
                scope.insert(name, new);
                self.local_scopes.push(scope);
                assert(self.local_scopes@.map_values(|m: NameMap| m@) =~= bind_innermost(
                    before.map_values(|m: NameMap| m@),
                    name@,
                    new@,
                ));
            },
            None => {},
        }
    }

    /// Renames the declaration of a local; outside a function, a module-scope name.
    fn map_local_decl(&mut self, name: String) -> (r: Result<String, MinifyError>)
        requires
            old(self).wf(),
        ensures
            final(self).wf(),
            ({
                let (st, new, ok) = rename_local_decl(old(self)@, name@);
                &&& r is Ok <==> ok
                &&& r matches Ok(renamed) ==> renamed@ == new && final(self)@ == st
            }),
    {
        if self.local_id.is_none() {
            return self.map_global_ident(name);
        }
        if Identifier::is_reserved(name.as_str()) || is_preserved_ident(name.as_str()) {
            self.bind_innermost(name.clone(), name.clone());
            return Ok(name);
        }
        let ghost st0 = self@;
        let mut local_id = self.local_id.take().unwrap();
        let ghost start = local_id@;
        proof {
            local_id.lemma_bounded();
        }
        let new_ident: String;
        loop
            invariant_except_break
                self.wf(),
                self.local_id is None,
                self@ == (RenameState { local_next: None, ..st0 }),
                !kept(name@),
                st0 == old(self)@,
                st0.local_next == Some(start),
                start <= local_id@ <= usize::MAX,
                forall|j: nat| start <= j < local_id@ ==> !#[trigger] free_index(st0, j, false),
                self.global_taken_names@ == st0.taken,
            ensures
                self.wf(),
                self.local_id is None,
                self@ == (RenameState { local_next: None, ..st0 }),
                start < local_id@ <= usize::MAX,
                new_ident@ == ident_name((local_id@ - 1) as nat),
                free_index(st0, (local_id@ - 1) as nat, false),
                forall|j: nat| start <= j < local_id@ - 1 ==> !#[trigger] free_index(st0, j, false),
            decreases usize::MAX - local_id@,
        {
            match local_id.try_next() {
                Some(candidate) => {
                    if !self.global_taken_names.contains(&candidate) {
                        new_ident = candidate;
                        break;
                    }
                },
                None => {
                    proof {
                        assert forall|k: nat| start <= k < usize::MAX implies !#[trigger] free_index(
                            st0,
                            k,
                            false,
                        ) by {
                            if k >= local_id@ {
                                assert(reserved(ident_name(k)));
                            }
                        }
                        lemma_first_free_none(st0, start, false);
                        assert(!rename_local_decl(st0, name@).2);
                    }
                    self.local_id = Some(local_id);
                    return Err(MinifyError::NamesExhausted);
                },
            }
        }
        proof {
            lemma_first_free_found(st0, start, false, (local_id@ - 1) as nat);
        }
        self.local_id = Some(local_id);
        self.bind_innermost(name, new_ident.clone());
        Ok(new_ident)
    }

    /// Renames a use of a value: kept names stay, a local binding wins, anything else is a
    /// module-scope name.
    fn map_value_ident(&mut self, name: String) -> (r: Result<String, MinifyError>)
        requires
            old(self).wf(),
        ensures
            final(self).wf(),
            ({
                let (st, new, ok) = rename_value(old(self)@, name@);
                &&& r is Ok <==> ok
                &&& r matches Ok(renamed) ==> renamed@ == new && final(self)@ == st
            }),
    {
        if Identifier::is_reserved(name.as_str()) || is_preserved_ident(name.as_str()) {
            self.no_map_global(&name);
            return Ok(name);
        }
        let mut i = self.local_scopes.len();
        assert(self@.scopes.take(i as int) =~= self@.scopes);
        while i > 0
            invariant
                self.wf(),
                self@ == old(self)@,
                !kept(name@),
                i <= self.local_scopes@.len(),
                lookup_local(self@.scopes, name@) == lookup_local(self@.scopes.take(i as int), name@),
            decreases i,
        {
            i = i - 1;
            assert(self@.scopes.take(i + 1).drop_last() == self@.scopes.take(i as int));
            assert(self@.scopes.take(i + 1).last() == self.local_scopes@[i as int]@);
            match self.local_scopes[i].get(&name) {
                Some(mapped) => {
                    return Ok(mapped);
                },
                None => {},
            }
        }
        assert(self@.scopes.take(0) =~= Seq::<Map<Seq<char>, Seq<char>>>::empty());
        self.map_global_ident(name)
    }

    /// Opens a lexical scope, inside a function.
    fn push_local_scope(&mut self)
        requires
            old(self).wf(),
        ensures
            final(self).wf(),
            final(self)@ == (if old(self)@.local_next is Some {
                RenameState { scopes: old(self)@.scopes.push(Map::empty()), ..old(self)@ }
            } else {
                old(self)@
            }),
    {
        if self.local_id.is_some() {
            let ghost before = self.local_scopes@;
            self.local_scopes.push(NameMap::new());
            assert(self.local_scopes@.map_values(|m: NameMap| m@) =~= before.map_values(
                |m: NameMap| m@,
            ).push(Map::empty()));
        }
    }

    /// Closes the innermost lexical scope, inside a function.
    fn pop_local_scope(&mut self)
        requires
            old(self).wf(),
        ensures
            final(self).wf(),
            final(self)@ == (if old(self)@.local_next is Some && old(self)@.scopes.len() > 0 {
                RenameState { scopes: old(self)@.scopes.drop_last(), ..old(self)@ }
            } else {
                old(self)@
            }),
    {
        if self.local_id.is_some() {
            let ghost before = self.local_scopes@;
            self.local_scopes.pop();
            proof {
                if before.len() > 0 {
                    assert(self.local_scopes@.map_values(|m: NameMap| m@) =~= before.map_values(
                    |m: NameMap| m@,
                ).drop_last());
                }
            }
        }
    }

    /// Enters a function: a fresh local name generator and one scope.
    fn begin_function_scope(&mut self)
        requires
            old(self).wf(),
        ensures
            final(self).wf(),
            final(self)@ == (RenameState {
                local_next: Some(0),
                scopes: seq![Map::empty()],
                ..old(self)@
            }),
    {
        self.local_id = Some(Identifier::default());
        self.local_scopes.clear();
        self.push_local_scope();
        assert(self.local_scopes@.map_values(|m: NameMap| m@) =~= seq![
            Map::<Seq<char>, Seq<char>>::empty(),
        ]);
    }

    /// Leaves a function.
    fn end_function_scope(&mut self)
        requires
            old(self).wf(),
        ensures
            final(self).wf(),
            final(self)@ == (RenameState { local_next: None, scopes: Seq::empty(), ..old(self)@ }),
    {
        self.local_scopes.clear();
        self.local_id = None;
        assert(self.local_scopes@.map_values(|m: NameMap| m@) =~= Seq::<
            Map<Seq<char>, Seq<char>>,
        >::empty());
    }

    /// Renames a module-scope occurrence, as a step of a walk.
    fn global_step(&mut self, name: String) -> (r: Result<String, MinifyError>)
        requires
            old(self).wf(),
        ensures
            final(self).wf(),
            r is Err ==> fails(old(self)@, seq![Event::Ident(Role::Global, name@)]),
            r matches Ok(new) ==> renamed(
                old(self)@,
                seq![Event::Ident(Role::Global, name@)],
                final(self)@,
                seq![Event::Ident(Role::Global, new@)],
            ),
    {
        proof {
            lemma_renamed_ident(self@, Role::Global, name@);
        }
        self.map_global_ident(name)
    }

    /// Renames a use of a value, as a step of a walk.
    fn value_step(&mut self, name: String) -> (r: Result<String, MinifyError>)
        requires
            old(self).wf(),
        ensures
            final(self).wf(),
            r is Err ==> fails(old(self)@, seq![Event::Ident(Role::Value, name@)]),
            r matches Ok(new) ==> renamed(
                old(self)@,
                seq![Event::Ident(Role::Value, name@)],
                final(self)@,
                seq![Event::Ident(Role::Value, new@)],
            ),
    {
        proof {
            lemma_renamed_ident(self@, Role::Value, name@);
        }
        self.map_value_ident(name)
    }

    /// Renames a local declaration, as a step of a walk.
    fn local_decl_step(&mut self, name: String) -> (r: Result<String, MinifyError>)
        requires
            old(self).wf(),
        ensures
            final(self).wf(),
            r is Err ==> fails(old(self)@, seq![Event::Ident(Role::LocalDecl, name@)]),
            r matches Ok(new) ==> renamed(
                old(self)@,
                seq![Event::Ident(Role::LocalDecl, name@)],
                final(self)@,
                seq![Event::Ident(Role::LocalDecl, new@)],
            ),
    {
        proof {
            lemma_renamed_ident(self@, Role::LocalDecl, name@);
        }
        self.map_local_decl(name)
    }

    /// Renames the identifiers of a list of expressions, in order.
    #[verifier::loop_isolation(false)]
    fn minify_exprs(&mut self, es: Vec<Expr>) -> (r: Result<Vec<Expr>, MinifyError>)
        requires
            old(self).wf(),
        ensures
            final(self).wf(),
            r is Err ==> fails(old(self)@, exprs_events(es@)),
            r matches Ok(es2) ==> exprs_shape(es@, es2@) && renamed(
                old(self)@,
                exprs_events(es@),
                final(self)@,
                exprs_events(es2@),
            ),
        decreases es,
    {
        let ghost es0 = es;
        let mut out: Vec<Expr> = Vec::new();
        proof {
            lemma_renamed_empty(self@);
            assert(es0@.take(0) =~= Seq::<Expr>::empty());
        }
        for e in it: es.into_iter()
            invariant
                it.seq() == es0@,
                self.wf(),
                out@.len() == it.index(),
                exprs_shape(es0@.take(it.index()), out@),
                renamed(old(self)@, exprs_events(es0@.take(it.index())), self@, exprs_events(out@)),
        {
            let ghost i = it.index();
            let ghost s1 = self@;
            assert(e == es0@[i]);
            assert(decreases_to!(es0 => es0@));
            assert(decreases_to!(es0@ => es0@[i]));
            match self.minify_expr(e) {
                Ok(e2) => {
                    proof {
                        lemma_exprs_take_succ(es0@, out@, e2, i);
                        lemma_renamed_append(
                            old(self)@,
                            exprs_events(es0@.take(i)),
                            s1,
                            exprs_events(out@),
                            expr_events(es0@[i]),
                            self@,
                            expr_events(e2),
                        );
                    }
                    out.push(e2);
                },
                Err(err) => {
                    proof {
                        assert(es0@.take(i + 1).drop_last() == es0@.take(i));
                        assert(es0@.take(i + 1).last() == es0@[i]);
                        lemma_fails_suffix(
                            old(self)@,
                            exprs_events(es0@.take(i)),
                            s1,
                            exprs_events(out@),
                            expr_events(es0@[i]),
                        );
                        lemma_exprs_events_prefix(es0@, i + 1);
                        lemma_fails_extends(old(self)@, exprs_events(es0@.take(i + 1)), exprs_events(es0@));
                    }
                    return Err(err);
                },
            }
        }
        assert(es0@.take(es0@.len() as int) == es0@);
        Ok(out)
    }

    /// Renames the identifiers of a type or value name: its template arguments if it has
    /// some, otherwise the name itself (a value name when `value`).
    fn minify_type_or_value(&mut self, t: TypeName, value: bool) -> (r: Result<
        TypeName,
        MinifyError,
    >)
        requires
            old(self).wf(),
        ensures
            final(self).wf(),
            r is Err ==> fails(old(self)@, type_events(t, value)),
            r matches Ok(t2) ==> type_shape(t, t2) && renamed(
                old(self)@,
                type_events(t, value),
                final(self)@,
                type_events(t2, value),
            ),
        decreases t,
    {
        let TypeName { ident, template_args } = t;
        match template_args {
            Some(args) => {
                match self.minify_exprs(args) {
                    Ok(args2) => Ok(TypeName { ident, template_args: Some(args2) }),
                    Err(err) => Err(err),
                }
            },
            None => {
                let renamed = if value {
                    self.value_step(ident)
                } else {
                    self.global_step(ident)
                };
                match renamed {
                    Ok(new) => Ok(TypeName { ident: new, template_args: None }),
                    Err(err) => Err(err),
                }
            },
        }
    }

    /// Renames the identifiers of an expression.
    fn minify_expr(&mut self, e: Expr) -> (r: Result<Expr, MinifyError>)
        requires
            old(self).wf(),
        ensures
            final(self).wf(),
            r is Err ==> fails(old(self)@, expr_events(e)),
            r matches Ok(e2) ==> expr_shape(e, e2) && renamed(
                old(self)@,
                expr_events(e),
                final(self)@,
                expr_events(e2),
            ),
        decreases e,
    {
        let ghost s0 = self@;
        match e {
            Expr::Literal => {
                proof {
                    lemma_renamed_empty(s0);
                }
                Ok(Expr::Literal)
            },
            Expr::Parenthesized(inner) => {
                match self.minify_expr(*inner) {
                    Ok(x) => Ok(Expr::Parenthesized(Box::new(x))),
                    Err(err) => Err(err),
                }
            },
            Expr::NamedComponent { base, component } => {
                let ghost c = component@;
                match self.minify_expr(*base) {
                    Ok(b2) => {
                        let ghost s1 = self@;
                        match self.global_step(component) {
                            Ok(c2) => {
                                proof {
                                    lemma_renamed_append(
                                        s0,
                                        expr_events(*base),
                                        s1,
                                        expr_events(b2),
                                        seq![Event::Ident(Role::Global, c)],
                                        self@,
                                        seq![Event::Ident(Role::Global, c2@)],
                                    );
                                }
                                Ok(Expr::NamedComponent { base: Box::new(b2), component: c2 })
                            },
                            Err(err) => {
                                proof {
                                    lemma_fails_suffix(
                                        s0,
                                        expr_events(*base),
                                        s1,
                                        expr_events(b2),
                                        seq![Event::Ident(Role::Global, c)],
                                    );
                                }
                                Err(err)
                            },
                        }
                    },
                    Err(err) => {
                        proof {
                            lemma_fails_prefix(s0, expr_events(*base), seq![Event::Ident(Role::Global, c)]);
                        }
                        Err(err)
                    },
                }
            },
            Expr::Indexing { base, index } => {
                let ghost gi = *index;
                match self.minify_expr(*base) {
                    Ok(b2) => {
                        let ghost s1 = self@;
                        match self.minify_expr(*index) {
                            Ok(i2) => {
                                proof {
                                    lemma_renamed_append(
                                        s0,
                                        expr_events(*base),
                                        s1,
                                        expr_events(b2),
                                        expr_events(gi),
                                        self@,
                                        expr_events(i2),
                                    );
                                }
                                Ok(Expr::Indexing { base: Box::new(b2), index: Box::new(i2) })
                            },
                            Err(err) => {
                                proof {
                                    lemma_fails_suffix(s0, expr_events(*base), s1, expr_events(b2), expr_events(gi));
                                }
                                Err(err)
                            },
                        }
                    },
                    Err(err) => {
                        proof {
                            lemma_fails_prefix(s0, expr_events(*base), expr_events(gi));
                        }
                        Err(err)
                    },
                }
            },
            Expr::Unary(operand) => {
                match self.minify_expr(*operand) {
                    Ok(x) => Ok(Expr::Unary(Box::new(x))),
                    Err(err) => Err(err),
                }
            },
            Expr::Binary { left, right } => {
                let ghost gr = *right;
                match self.minify_expr(*left) {
                    Ok(l2) => {
                        let ghost s1 = self@;
                        match self.minify_expr(*right) {
                            Ok(r2) => {
                                proof {
                                    lemma_renamed_append(
                                        s0,
                                        expr_events(*left),
                                        s1,
                                        expr_events(l2),
                                        expr_events(gr),
                                        self@,
                                        expr_events(r2),
                                    );
                                }
                                Ok(Expr::Binary { left: Box::new(l2), right: Box::new(r2) })
                            },
                            Err(err) => {
                                proof {
                                    lemma_fails_suffix(s0, expr_events(*left), s1, expr_events(l2), expr_events(gr));
                                }
                                Err(err)
                            },
                        }
                    },
                    Err(err) => {
                        proof {
                            lemma_fails_prefix(s0, expr_events(*left), expr_events(gr));
                        }
                        Err(err)
                    },
                }
            },
            Expr::Call(call) => {
                let Call { ty, arguments } = call;
                let ghost gty = ty;
                let ghost gargs = arguments;
                match self.minify_exprs(arguments) {
                    Ok(args2) => {
                        let ghost s1 = self@;
                        match self.minify_type_or_value(ty, true) {
                            Ok(ty2) => {
                                proof {
                                    lemma_renamed_append(
                                        s0,
                                        exprs_events(gargs@),
                                        s1,
                                        exprs_events(args2@),
                                        type_events(gty, true),
                                        self@,
                                        type_events(ty2, true),
                                    );
                                }
                                Ok(Expr::Call(Call { ty: ty2, arguments: args2 }))
                            },
                            Err(err) => {
                                proof {
                                    lemma_fails_suffix(s0, exprs_events(gargs@), s1, exprs_events(args2@), type_events(gty, true));
                                }
                                Err(err)
                            },
                        }
                    },
                    Err(err) => {
                        proof {
                            lemma_fails_prefix(s0, exprs_events(gargs@), type_events(gty, true));
                        }
                        Err(err)
                    },
                }
            },
            Expr::TypeOrIdentifier(t) => {
                match self.minify_type_or_value(t, true) {
                    Ok(t2) => Ok(Expr::TypeOrIdentifier(t2)),
                    Err(err) => Err(err),
                }
            },
        }
    }

    /// Opens a scope, as a step of a walk.
    fn push_step(&mut self)
        requires
            old(self).wf(),
        ensures
            final(self).wf(),
            renamed(old(self)@, seq![Event::PushScope], final(self)@, seq![Event::PushScope]),
    {
        proof {
            lemma_renamed_scope(self@, Event::PushScope);
        }
        self.push_local_scope();
    }

    /// Closes a scope, as a step of a walk.
    fn pop_step(&mut self)
        requires
            old(self).wf(),
        ensures
            final(self).wf(),
            renamed(old(self)@, seq![Event::PopScope], final(self)@, seq![Event::PopScope]),
    {
        proof {
            lemma_renamed_scope(self@, Event::PopScope);
        }
        self.pop_local_scope();
    }

    /// Renames the identifiers of an optional expression.
    fn minify_opt_expr(&mut self, e: Option<Expr>) -> (r: Result<
        Option<Expr>,
        MinifyError,
    >)
        requires
            old(self).wf(),
        ensures
            final(self).wf(),
            r is Err ==> fails(old(self)@, opt_expr_events(e)),
            r matches Ok(e2) ==> opt_expr_shape(e, e2) && renamed(
                old(self)@,
                opt_expr_events(e),
                final(self)@,
                opt_expr_events(e2),
            ),
    {
        match e {
            Some(x) => match self.minify_expr(x) {
                Ok(x2) => Ok(Some(x2)),
                Err(err) => Err(err),
            },
            None => {
                proof {
                    lemma_renamed_empty(self@);
                }
                Ok(None)
            },
        }
    }

    /// Renames the identifiers of an optional type.
    fn minify_opt_type(&mut self, t: Option<TypeName>, value: bool) -> (r: Result<
        Option<TypeName>,
        MinifyError,
    >)
        requires
            old(self).wf(),
        ensures
            final(self).wf(),
            r is Err ==> fails(old(self)@, opt_type_events(t, value)),
            r matches Ok(t2) ==> opt_type_shape(t, t2) && renamed(
                old(self)@,
                opt_type_events(t, value),
                final(self)@,
                opt_type_events(t2, value),
            ),
    {
        match t {
            Some(x) => match self.minify_type_or_value(x, value) {
                Ok(x2) => Ok(Some(x2)),
                Err(err) => Err(err),
            },
            None => {
                proof {
                    lemma_renamed_empty(self@);
                }
                Ok(None)
            },
        }
    }

    /// Renames the identifiers of a case selector.
    fn minify_selector(&mut self, c: CaseSelector) -> (r: Result<CaseSelector, MinifyError>)
        requires
            old(self).wf(),
        ensures
            final(self).wf(),
            r is Err ==> fails(old(self)@, selector_events(c)),
            r matches Ok(c2) ==> selector_shape(c, c2) && renamed(
                old(self)@,
                selector_events(c),
                final(self)@,
                selector_events(c2),
            ),
    {
        match c {
            CaseSelector::Default => {
                proof {
                    lemma_renamed_empty(self@);
                }
                Ok(CaseSelector::Default)
            },
            CaseSelector::Expr(e) => match self.minify_expr(e) {
                Ok(e2) => Ok(CaseSelector::Expr(e2)),
                Err(err) => Err(err),
            },
        }
    }

    /// Renames the identifiers of a list of case selectors, in order.
    #[verifier::loop_isolation(false)]
    fn minify_selectors(&mut self, cs: Vec<CaseSelector>) -> (r: Result<
        Vec<CaseSelector>,
        MinifyError,
    >)
        requires
            old(self).wf(),
        ensures
            final(self).wf(),
            r is Err ==> fails(old(self)@, selectors_events(cs@)),
            r matches Ok(cs2) ==> selectors_shape(cs@, cs2@) && renamed(
                old(self)@,
                selectors_events(cs@),
                final(self)@,
                selectors_events(cs2@),
            ),
    {
        let ghost cs0 = cs;
        let mut out: Vec<CaseSelector> = Vec::new();
        proof {
            lemma_renamed_empty(self@);
            assert(cs0@.take(0) =~= Seq::<CaseSelector>::empty());
        }
        for c in it: cs.into_iter()
            invariant
                it.seq() == cs0@,
                self.wf(),
                out@.len() == it.index(),
                selectors_shape(cs0@.take(it.index()), out@),
                renamed(
                    old(self)@,
                    selectors_events(cs0@.take(it.index())),
                    self@,
                    selectors_events(out@),
                ),
        {
            let ghost i = it.index();
            let ghost s1 = self@;
            assert(c == cs0@[i]);
            assert(cs0@.take(i + 1).drop_last() == cs0@.take(i));
            assert(cs0@.take(i + 1).last() == cs0@[i]);
            match self.minify_selector(c) {
                Ok(c2) => {
                    proof {
                        lemma_renamed_append(
                            old(self)@,
                            selectors_events(cs0@.take(i)),
                            s1,
                            selectors_events(out@),
                            selector_events(cs0@[i]),
                            self@,
                            selector_events(c2),
                        );
                    }
                    let ghost before = out@;
                    out.push(c2);
                    assert(out@.drop_last() == before);
                    assert(out@.last() == c2);
                },
                Err(err) => {
                    proof {
                        lemma_fails_suffix(
                            old(self)@,
                            selectors_events(cs0@.take(i)),
                            s1,
                            selectors_events(out@),
                            selector_events(cs0@[i]),
                        );
                        lemma_selectors_events_prefix(cs0@, i + 1);
                        lemma_fails_extends(
                            old(self)@,
                            selectors_events(cs0@.take(i + 1)),
                            selectors_events(cs0@),
                        );
                    }
                    return Err(err);
                },
            }
        }
        assert(cs0@.take(cs0@.len() as int) == cs0@);
        Ok(out)
    }

    /// Renames the identifiers of a block, within a scope of its own.
    fn minify_compound_statement(&mut self, c: Block) -> (r: Result<
        Block,
        MinifyError,
    >)
        requires
            old(self).wf(),
        ensures
            final(self).wf(),
            r is Err ==> fails(old(self)@, compound_events(c)),
            r matches Ok(c2) ==> compound_shape(c, c2) && renamed(
                old(self)@,
                compound_events(c),
                final(self)@,
                compound_events(c2),
            ),
        decreases c,
    {
        let ghost s0 = self@;
        let Block { statements } = c;
        let ghost gs = statements;
        self.push_step();
        let ghost s1 = self@;
        match self.minify_stmts(statements) {
            Ok(ss2) => {
                let ghost s2 = self@;
                self.pop_step();
                proof {
                    lemma_renamed_append(
                        s0,
                        seq![Event::PushScope],
                        s1,
                        seq![Event::PushScope],
                        stmts_events(gs@),
                        s2,
                        stmts_events(ss2@),
                    );
                    lemma_renamed_append(
                        s0,
                        seq![Event::PushScope] + stmts_events(gs@),
                        s2,
                        seq![Event::PushScope] + stmts_events(ss2@),
                        seq![Event::PopScope],
                        self@,
                        seq![Event::PopScope],
                    );
                }
                Ok(Block { statements: ss2 })
            },
            Err(err) => {
                proof {
                    lemma_fails_suffix(
                        s0,
                        seq![Event::PushScope],
                        s1,
                        seq![Event::PushScope],
                        stmts_events(gs@),
                    );
                    lemma_fails_prefix(
                        s0,
                        seq![Event::PushScope] + stmts_events(gs@),
                        seq![Event::PopScope],
                    );
                }
                Err(err)
            },
        }
    }

    /// Renames the identifiers of a list of statements, in order.
    #[verifier::loop_isolation(false)]
    fn minify_stmts(&mut self, ss: Vec<Stmt>) -> (r: Result<Vec<Stmt>, MinifyError>)
        requires
            old(self).wf(),
        ensures
            final(self).wf(),
            r is Err ==> fails(old(self)@, stmts_events(ss@)),
            r matches Ok(ss2) ==> stmts_shape(ss@, ss2@) && renamed(
                old(self)@,
                stmts_events(ss@),
                final(self)@,
                stmts_events(ss2@),
            ),
        decreases ss,
    {
        let ghost ss0 = ss;
        let mut out: Vec<Stmt> = Vec::new();
        proof {
            lemma_renamed_empty(self@);
            assert(ss0@.take(0) =~= Seq::<Stmt>::empty());
        }
        for st in it: ss.into_iter()
            invariant
                it.seq() == ss0@,
                self.wf(),
                out@.len() == it.index(),
                stmts_shape(ss0@.take(it.index()), out@),
                renamed(old(self)@, stmts_events(ss0@.take(it.index())), self@, stmts_events(out@)),
        {
            let ghost i = it.index();
            let ghost s1 = self@;
            assert(st == ss0@[i]);
            assert(decreases_to!(ss0 => ss0@));
            assert(decreases_to!(ss0@ => ss0@[i]));
            assert(ss0@.take(i + 1).drop_last() == ss0@.take(i));
            assert(ss0@.take(i + 1).last() == ss0@[i]);
            match self.minify_stmt(st) {
                Ok(st2) => {
                    proof {
                        lemma_renamed_append(
                            old(self)@,
                            stmts_events(ss0@.take(i)),
                            s1,
                            stmts_events(out@),
                            stmt_events(ss0@[i]),
                            self@,
                            stmt_events(st2),
                        );
                    }
                    let ghost before = out@;
                    out.push(st2);
                    assert(out@.drop_last() == before);
                    assert(out@.last() == st2);
                },
                Err(err) => {
                    proof {
                        lemma_fails_suffix(
                            old(self)@,
                            stmts_events(ss0@.take(i)),
                            s1,
                            stmts_events(out@),
                            stmt_events(ss0@[i]),
                        );
                        lemma_stmts_events_prefix(ss0@, i + 1);
                        lemma_fails_extends(old(self)@, stmts_events(ss0@.take(i + 1)), stmts_events(ss0@));
                    }
                    return Err(err);
                },
            }
        }
        assert(ss0@.take(ss0@.len() as int) == ss0@);
        Ok(out)
    }

    /// Renames the identifiers of the `else if` clauses: each body, then its condition.
    #[verifier::loop_isolation(false)]
    fn minify_if_clauses(&mut self, cs: Vec<IfClause>) -> (r: Result<Vec<IfClause>, MinifyError>)
        requires
            old(self).wf(),
        ensures
            final(self).wf(),
            r is Err ==> fails(old(self)@, if_clauses_events(cs@)),
            r matches Ok(cs2) ==> if_clauses_shape(cs@, cs2@) && renamed(
                old(self)@,
                if_clauses_events(cs@),
                final(self)@,
                if_clauses_events(cs2@),
            ),
        decreases cs,
    {
        let ghost cs0 = cs;
        let mut out: Vec<IfClause> = Vec::new();
        proof {
            lemma_renamed_empty(self@);
            assert(cs0@.take(0) =~= Seq::<IfClause>::empty());
        }
        for cl in it: cs.into_iter()
            invariant
                it.seq() == cs0@,
                self.wf(),
                out@.len() == it.index(),
                if_clauses_shape(cs0@.take(it.index()), out@),
                renamed(
                    old(self)@,
                    if_clauses_events(cs0@.take(it.index())),
                    self@,
                    if_clauses_events(out@),
                ),
        {
            let ghost i = it.index();
            let ghost s1 = self@;
            assert(cl == cs0@[i]);
            assert(decreases_to!(cs0 => cs0@));
            assert(decreases_to!(cs0@ => cs0@[i]));
            assert(decreases_to!(cs0@[i] => cs0@[i].body));
            assert(cs0@.take(i + 1).drop_last() == cs0@.take(i));
            assert(cs0@.take(i + 1).last() == cs0@[i]);
            let IfClause { expression, body } = cl;
            let ghost ge = expression;
            let ghost gb = body;
            match self.minify_compound_statement(body) {
                Ok(b2) => {
                    let ghost s2 = self@;
                    match self.minify_expr(expression) {
                        Ok(e2) => {
                            proof {
                                lemma_renamed_append(
                                    old(self)@,
                                    if_clauses_events(cs0@.take(i)),
                                    s1,
                                    if_clauses_events(out@),
                                    compound_events(gb),
                                    s2,
                                    compound_events(b2),
                                );
                                lemma_renamed_append(
                                    old(self)@,
                                    if_clauses_events(cs0@.take(i)) + compound_events(gb),
                                    s2,
                                    if_clauses_events(out@) + compound_events(b2),
                                    expr_events(ge),
                                    self@,
                                    expr_events(e2),
                                );
                            }
                            let ghost before = out@;
                            out.push(IfClause { expression: e2, body: b2 });
                            assert(out@.drop_last() == before);
                        },
                        Err(err) => {
                            proof {
                                lemma_renamed_append(
                                    old(self)@,
                                    if_clauses_events(cs0@.take(i)),
                                    s1,
                                    if_clauses_events(out@),
                                    compound_events(gb),
                                    s2,
                                    compound_events(b2),
                                );
                                lemma_fails_suffix(
                                    old(self)@,
                                    if_clauses_events(cs0@.take(i)) + compound_events(gb),
                                    s2,
                                    if_clauses_events(out@) + compound_events(b2),
                                    expr_events(ge),
                                );
                                lemma_if_clauses_events_prefix(cs0@, i + 1);
                                lemma_fails_extends(
                                    old(self)@,
                                    if_clauses_events(cs0@.take(i + 1)),
                                    if_clauses_events(cs0@),
                                );
                            }
                            return Err(err);
                        },
                    }
                },
                Err(err) => {
                    proof {
                        lemma_fails_suffix(
                            old(self)@,
                            if_clauses_events(cs0@.take(i)),
                            s1,
                            if_clauses_events(out@),
                            compound_events(gb),
                        );
                        lemma_fails_prefix(
                            old(self)@,
                            if_clauses_events(cs0@.take(i)) + compound_events(gb),
                            expr_events(ge),
                        );
                        lemma_if_clauses_events_prefix(cs0@, i + 1);
                        lemma_fails_extends(
                            old(self)@,
                            if_clauses_events(cs0@.take(i + 1)),
                            if_clauses_events(cs0@),
                        );
                    }
                    return Err(err);
                },
            }
        }
        assert(cs0@.take(cs0@.len() as int) == cs0@);
        Ok(out)
    }

    /// Renames the identifiers of the clauses of a `switch`: each body, then its
    /// selectors.
    #[verifier::loop_isolation(false)]
    fn minify_switch_clauses(&mut self, cs: Vec<SwitchArm>) -> (r: Result<
        Vec<SwitchArm>,
        MinifyError,
    >)
        requires
            old(self).wf(),
        ensures
            final(self).wf(),
            r is Err ==> fails(old(self)@, switch_clauses_events(cs@)),
            r matches Ok(cs2) ==> switch_clauses_shape(cs@, cs2@) && renamed(
                old(self)@,
                switch_clauses_events(cs@),
                final(self)@,
                switch_clauses_events(cs2@),
            ),
        decreases cs,
    {
        let ghost cs0 = cs;
        let mut out: Vec<SwitchArm> = Vec::new();
        proof {
            lemma_renamed_empty(self@);
            assert(cs0@.take(0) =~= Seq::<SwitchArm>::empty());
        }
        for cl in it: cs.into_iter()
            invariant
                it.seq() == cs0@,
                self.wf(),
                out@.len() == it.index(),
                switch_clauses_shape(cs0@.take(it.index()), out@),
                renamed(
                    old(self)@,
                    switch_clauses_events(cs0@.take(it.index())),
                    self@,
                    switch_clauses_events(out@),
                ),
        {
            let ghost i = it.index();
            let ghost s1 = self@;
            assert(cl == cs0@[i]);
            assert(decreases_to!(cs0 => cs0@));
            assert(decreases_to!(cs0@ => cs0@[i]));
            assert(decreases_to!(cs0@[i] => cs0@[i].body));
            assert(cs0@.take(i + 1).drop_last() == cs0@.take(i));
            assert(cs0@.take(i + 1).last() == cs0@[i]);
            let SwitchArm { case_selectors, body } = cl;
            let ghost gc = case_selectors;
            let ghost gb = body;
            match self.minify_compound_statement(body) {
                Ok(b2) => {
                    let ghost s2 = self@;
                    match self.minify_selectors(case_selectors) {
                        Ok(c2) => {
                            proof {
                                lemma_renamed_append(
                                    old(self)@,
                                    switch_clauses_events(cs0@.take(i)),
                                    s1,
                                    switch_clauses_events(out@),
                                    compound_events(gb),
                                    s2,
                                    compound_events(b2),
                                );
                                lemma_renamed_append(
                                    old(self)@,
                                    switch_clauses_events(cs0@.take(i)) + compound_events(gb),
                                    s2,
                                    switch_clauses_events(out@) + compound_events(b2),
                                    selectors_events(gc@),
                                    self@,
                                    selectors_events(c2@),
                                );
                            }
                            let ghost before = out@;
                            out.push(SwitchArm { case_selectors: c2, body: b2 });
                            assert(out@.drop_last() == before);
                        },
                        Err(err) => {
                            proof {
                                lemma_renamed_append(
                                    old(self)@,
                                    switch_clauses_events(cs0@.take(i)),
                                    s1,
                                    switch_clauses_events(out@),
                                    compound_events(gb),
                                    s2,
                                    compound_events(b2),
                                );
                                lemma_fails_suffix(
                                    old(self)@,
                                    switch_clauses_events(cs0@.take(i)) + compound_events(gb),
                                    s2,
                                    switch_clauses_events(out@) + compound_events(b2),
                                    selectors_events(gc@),
                                );
                                lemma_switch_clauses_events_prefix(cs0@, i + 1);
                                lemma_fails_extends(
                                    old(self)@,
                                    switch_clauses_events(cs0@.take(i + 1)),
                                    switch_clauses_events(cs0@),
                                );
                            }
                            return Err(err);
                        },
                    }
                },
                Err(err) => {
                    proof {
                        lemma_fails_suffix(
                            old(self)@,
                            switch_clauses_events(cs0@.take(i)),
                            s1,
                            switch_clauses_events(out@),
                            compound_events(gb),
                        );
                        lemma_fails_prefix(
                            old(self)@,
                            switch_clauses_events(cs0@.take(i)) + compound_events(gb),
                            selectors_events(gc@),
                        );
                        lemma_switch_clauses_events_prefix(cs0@, i + 1);
                        lemma_fails_extends(
                            old(self)@,
                            switch_clauses_events(cs0@.take(i + 1)),
                            switch_clauses_events(cs0@),
                        );
                    }
                    return Err(err);
                },
            }
        }
        assert(cs0@.take(cs0@.len() as int) == cs0@);
        Ok(out)
    }

    /// Renames the identifiers of an optional statement.
    fn minify_opt_stmt(&mut self, s: Option<Box<Stmt>>) -> (r: Result<
        Option<Box<Stmt>>,
        MinifyError,
    >)
        requires
            old(self).wf(),
        ensures
            final(self).wf(),
            r is Err ==> fails(old(self)@, opt_stmt_events(s)),
            r matches Ok(s2) ==> opt_stmt_shape(s, s2) && renamed(
                old(self)@,
                opt_stmt_events(s),
                final(self)@,
                opt_stmt_events(s2),
            ),
        decreases s,
    {
        match s {
            Some(b) => match self.minify_stmt(*b) {
                Ok(b2) => Ok(Some(Box::new(b2))),
                Err(err) => Err(err),
            },
            None => {
                proof {
                    lemma_renamed_empty(self@);
                }
                Ok(None)
            },
        }
    }

    /// Renames the identifiers of a statement.
    fn minify_stmt(&mut self, s: Stmt) -> (r: Result<Stmt, MinifyError>)
        requires
            old(self).wf(),
        ensures
            final(self).wf(),
            r is Err ==> fails(old(self)@, stmt_events(s)),
            r matches Ok(s2) ==> stmt_shape(s, s2) && renamed(
                old(self)@,
                stmt_events(s),
                final(self)@,
                stmt_events(s2),
            ),
        decreases s,
    {
        match s {
            Stmt::Void => {
                proof {
                    lemma_renamed_empty(self@);
                }
                Ok(Stmt::Void)
            },
            Stmt::Break => {
                proof {
                    lemma_renamed_empty(self@);
                }
                Ok(Stmt::Break)
            },
            Stmt::Continue => {
                proof {
                    lemma_renamed_empty(self@);
                }
                Ok(Stmt::Continue)
            },
            Stmt::Discard => {
                proof {
                    lemma_renamed_empty(self@);
                }
                Ok(Stmt::Discard)
            },
            Stmt::Compound(c) => match self.minify_compound_statement(c) {
                Ok(c2) => Ok(Stmt::Compound(c2)),
                Err(err) => Err(err),
            },
            Stmt::Increment(e) => match self.minify_expr(e) {
                Ok(e2) => Ok(Stmt::Increment(e2)),
                Err(err) => Err(err),
            },
            Stmt::Decrement(e) => match self.minify_expr(e) {
                Ok(e2) => Ok(Stmt::Decrement(e2)),
                Err(err) => Err(err),
            },
            Stmt::ConstAssert(e) => match self.minify_expr(e) {
                Ok(e2) => Ok(Stmt::ConstAssert(e2)),
                Err(err) => Err(err),
            },
            Stmt::Loop(c) => match self.minify_compound_statement(c) {
                Ok(c2) => Ok(Stmt::Loop(c2)),
                Err(err) => Err(err),
            },
            Stmt::Return(e) => match self.minify_opt_expr(e) {
                Ok(e2) => Ok(Stmt::Return(e2)),
                Err(err) => Err(err),
            },
            Stmt::Assignment { lhs, rhs } => {
                let ghost gl = lhs;
                let ghost gr = rhs;
                let ghost s0 = self@;
                let l2 = match self.minify_expr(lhs) {
                    Ok(v) => v,
                    Err(err) => {
                        proof {
                            lemma_fails_prefix(s0, expr_events(gl), expr_events(gr));
                        }
                        return Err(err);
                    },
                };
                let ghost s1 = self@;
                let r2 = match self.minify_expr(rhs) {
                    Ok(v) => v,
                    Err(err) => {
                        proof {
                            lemma_fails_suffix(s0, expr_events(gl), s1, expr_events(l2), expr_events(gr));
                        }
                        return Err(err);
                    },
                };
                proof {
                    lemma_renamed_append(s0, expr_events(gl), s1, expr_events(l2), expr_events(gr), self@, expr_events(r2));
                }
                Ok(Stmt::Assignment { lhs: l2, rhs: r2 })
            },
            Stmt::If { if_clause, else_if_clauses, else_clause } => {
                let ghost gb = if_clause.body;
                let ghost ge = if_clause.expression;
                let ghost gels = else_clause;
                let ghost geifs = else_if_clauses;
                let ghost s0 = self@;
                let b2 = match self.minify_compound_statement(if_clause.body) {
                    Ok(v) => v,
                    Err(err) => {
                        proof {
                            lemma_fails_prefix(s0, compound_events(gb), expr_events(ge));
                            lemma_fails_prefix(s0, compound_events(gb) + expr_events(ge), opt_compound_events(gels));
                            lemma_fails_prefix(s0, compound_events(gb) + expr_events(ge) + opt_compound_events(gels), if_clauses_events(geifs@));
                        }
                        return Err(err);
                    },
                };
                let ghost s1 = self@;
                let e2 = match self.minify_expr(if_clause.expression) {
                    Ok(v) => v,
                    Err(err) => {
                        proof {
                            lemma_fails_suffix(s0, compound_events(gb), s1, compound_events(b2), expr_events(ge));
                            lemma_fails_prefix(s0, compound_events(gb) + expr_events(ge), opt_compound_events(gels));
                            lemma_fails_prefix(s0, compound_events(gb) + expr_events(ge) + opt_compound_events(gels), if_clauses_events(geifs@));
                        }
                        return Err(err);
                    },
                };
                proof {
                    lemma_renamed_append(s0, compound_events(gb), s1, compound_events(b2), expr_events(ge), self@, expr_events(e2));
                }
                let ghost s2 = self@;
                let els2 = match self.minify_opt_compound(else_clause) {
                    Ok(v) => v,
                    Err(err) => {
                        proof {
                            lemma_fails_suffix(s0, compound_events(gb) + expr_events(ge), s2, compound_events(b2) + expr_events(e2), opt_compound_events(gels));
                            lemma_fails_prefix(s0, compound_events(gb) + expr_events(ge) + opt_compound_events(gels), if_clauses_events(geifs@));
                        }
                        return Err(err);
                    },
                };
                proof {
                    lemma_renamed_append(s0, compound_events(gb) + expr_events(ge), s2, compound_events(b2) + expr_events(e2), opt_compound_events(gels), self@, opt_compound_events(els2));
                }
                let ghost s3 = self@;
                let eifs2 = match self.minify_if_clauses(else_if_clauses) {
                    Ok(v) => v,
                    Err(err) => {
                        proof {
                            lemma_fails_suffix(s0, compound_events(gb) + expr_events(ge) + opt_compound_events(gels), s3, compound_events(b2) + expr_events(e2) + opt_compound_events(els2), if_clauses_events(geifs@));
                        }
                        return Err(err);
                    },
                };
                proof {
                    lemma_renamed_append(s0, compound_events(gb) + expr_events(ge) + opt_compound_events(gels), s3, compound_events(b2) + expr_events(e2) + opt_compound_events(els2), if_clauses_events(geifs@), self@, if_clauses_events(eifs2@));
                }
                Ok(Stmt::If {
                    if_clause: IfClause { expression: e2, body: b2 },
                    else_if_clauses: eifs2,
                    else_clause: els2,
                })
            },
            Stmt::Switch { expression, clauses } => {
                let ghost ge = expression;
                let ghost gc = clauses;
                let ghost s0 = self@;
                let e2 = match self.minify_expr(expression) {
                    Ok(v) => v,
                    Err(err) => {
                        proof {
                            lemma_fails_prefix(s0, expr_events(ge), switch_clauses_events(gc@));
                        }
                        return Err(err);
                    },
                };
                let ghost s1 = self@;
                let c2 = match self.minify_switch_clauses(clauses) {
                    Ok(v) => v,
                    Err(err) => {
                        proof {
                            lemma_fails_suffix(s0, expr_events(ge), s1, expr_events(e2), switch_clauses_events(gc@));
                        }
                        return Err(err);
                    },
                };
                proof {
                    lemma_renamed_append(s0, expr_events(ge), s1, expr_events(e2), switch_clauses_events(gc@), self@, switch_clauses_events(c2@));
                }
                Ok(Stmt::Switch { expression: e2, clauses: c2 })
            },
            Stmt::For { initializer, condition, update, body } => {
                let ghost gi = initializer;
                let ghost gc = condition;
                let ghost gu = update;
                let ghost gb = body;
                let ghost s0 = self@;
                self.push_step();
                let ghost s1 = self@;
                let i2 = match self.minify_opt_stmt(initializer) {
                    Ok(v) => v,
                    Err(err) => {
                        proof {
                            lemma_fails_suffix(s0, seq![Event::PushScope], s1, seq![Event::PushScope], opt_stmt_events(gi));
                            lemma_fails_prefix(s0, seq![Event::PushScope] + opt_stmt_events(gi), opt_expr_events(gc));
                            lemma_fails_prefix(s0, seq![Event::PushScope] + opt_stmt_events(gi) + opt_expr_events(gc), compound_events(gb));
                            lemma_fails_prefix(s0, seq![Event::PushScope] + opt_stmt_events(gi) + opt_expr_events(gc) + compound_events(gb), opt_stmt_events(gu));
                            lemma_fails_prefix(s0, seq![Event::PushScope] + opt_stmt_events(gi) + opt_expr_events(gc) + compound_events(gb) + opt_stmt_events(gu), seq![Event::PopScope]);
                        }
                        return Err(err);
                    },
                };
                proof {
                    lemma_renamed_append(s0, seq![Event::PushScope], s1, seq![Event::PushScope], opt_stmt_events(gi), self@, opt_stmt_events(i2));
                }
                let ghost s2 = self@;
                let c2 = match self.minify_opt_expr(condition) {
                    Ok(v) => v,
                    Err(err) => {
                        proof {
                            lemma_fails_suffix(s0, seq![Event::PushScope] + opt_stmt_events(gi), s2, seq![Event::PushScope] + opt_stmt_events(i2), opt_expr_events(gc));
                            lemma_fails_prefix(s0, seq![Event::PushScope] + opt_stmt_events(gi) + opt_expr_events(gc), compound_events(gb));
                            lemma_fails_prefix(s0, seq![Event::PushScope] + opt_stmt_events(gi) + opt_expr_events(gc) + compound_events(gb), opt_stmt_events(gu));
                            lemma_fails_prefix(s0, seq![Event::PushScope] + opt_stmt_events(gi) + opt_expr_events(gc) + compound_events(gb) + opt_stmt_events(gu), seq![Event::PopScope]);
                        }
                        return Err(err);
                    },
                };
                proof {
                    lemma_renamed_append(s0, seq![Event::PushScope] + opt_stmt_events(gi), s2, seq![Event::PushScope] + opt_stmt_events(i2), opt_expr_events(gc), self@, opt_expr_events(c2));
                }
                let ghost s3 = self@;
                let b2 = match self.minify_compound_statement(body) {
                    Ok(v) => v,
                    Err(err) => {
                        proof {
                            lemma_fails_suffix(s0, seq![Event::PushScope] + opt_stmt_events(gi) + opt_expr_events(gc), s3, seq![Event::PushScope] + opt_stmt_events(i2) + opt_expr_events(c2), compound_events(gb));
                            lemma_fails_prefix(s0, seq![Event::PushScope] + opt_stmt_events(gi) + opt_expr_events(gc) + compound_events(gb), opt_stmt_events(gu));
                            lemma_fails_prefix(s0, seq![Event::PushScope] + opt_stmt_events(gi) + opt_expr_events(gc) + compound_events(gb) + opt_stmt_events(gu), seq![Event::PopScope]);
                        }
                        return Err(err);
                    },
                };
                proof {
                    lemma_renamed_append(s0, seq![Event::PushScope] + opt_stmt_events(gi) + opt_expr_events(gc), s3, seq![Event::PushScope] + opt_stmt_events(i2) + opt_expr_events(c2), compound_events(gb), self@, compound_events(b2));
                }
                let ghost s4 = self@;
                let u2 = match self.minify_opt_stmt(update) {
                    Ok(v) => v,
                    Err(err) => {
                        proof {
                            lemma_fails_suffix(s0, seq![Event::PushScope] + opt_stmt_events(gi) + opt_expr_events(gc) + compound_events(gb), s4, seq![Event::PushScope] + opt_stmt_events(i2) + opt_expr_events(c2) + compound_events(b2), opt_stmt_events(gu));
                            lemma_fails_prefix(s0, seq![Event::PushScope] + opt_stmt_events(gi) + opt_expr_events(gc) + compound_events(gb) + opt_stmt_events(gu), seq![Event::PopScope]);
                        }
                        return Err(err);
                    },
                };
                proof {
                    lemma_renamed_append(s0, seq![Event::PushScope] + opt_stmt_events(gi) + opt_expr_events(gc) + compound_events(gb), s4, seq![Event::PushScope] + opt_stmt_events(i2) + opt_expr_events(c2) + compound_events(b2), opt_stmt_events(gu), self@, opt_stmt_events(u2));
                }
                let ghost s5 = self@;
                self.pop_step();
                proof {
                    lemma_renamed_append(s0, seq![Event::PushScope] + opt_stmt_events(gi) + opt_expr_events(gc) + compound_events(gb) + opt_stmt_events(gu), s5, seq![Event::PushScope] + opt_stmt_events(i2) + opt_expr_events(c2) + compound_events(b2) + opt_stmt_events(u2), seq![Event::PopScope], self@, seq![Event::PopScope]);
                }
                Ok(Stmt::For { initializer: i2, condition: c2, update: u2, body: b2 })
            },
            Stmt::While { condition, body } => {
                let ghost gc = condition;
                let ghost gb = body;
                let ghost s0 = self@;
                let c2 = match self.minify_expr(condition) {
                    Ok(v) => v,
                    Err(err) => {
                        proof {
                            lemma_fails_prefix(s0, expr_events(gc), compound_events(gb));
                        }
                        return Err(err);
                    },
                };
                let ghost s1 = self@;
                let b2 = match self.minify_compound_statement(body) {
                    Ok(v) => v,
                    Err(err) => {
                        proof {
                            lemma_fails_suffix(s0, expr_events(gc), s1, expr_events(c2), compound_events(gb));
                        }
                        return Err(err);
                    },
                };
                proof {
                    lemma_renamed_append(s0, expr_events(gc), s1, expr_events(c2), compound_events(gb), self@, compound_events(b2));
                }
                Ok(Stmt::While { condition: c2, body: b2 })
            },
            Stmt::Call(call) => {
                let ghost gt = call.ty;
                let ghost ga = call.arguments;
                let ghost s0 = self@;
                let t2 = match self.minify_type_or_value(call.ty, true) {
                    Ok(v) => v,
                    Err(err) => {
                        proof {
                            lemma_fails_prefix(s0, type_events(gt, true), exprs_events(ga@));
                        }
                        return Err(err);
                    },
                };
                let ghost s1 = self@;
                let a2 = match self.minify_exprs(call.arguments) {
                    Ok(v) => v,
                    Err(err) => {
                        proof {
                            lemma_fails_suffix(s0, type_events(gt, true), s1, type_events(t2, true), exprs_events(ga@));
                        }
                        return Err(err);
                    },
                };
                proof {
                    lemma_renamed_append(s0, type_events(gt, true), s1, type_events(t2, true), exprs_events(ga@), self@, exprs_events(a2@));
                }
                Ok(Stmt::Call(Call { ty: t2, arguments: a2 }))
            },
            Stmt::VarDecl(d) => {
                let ghost gi = d.initializer;
                let ghost gt = d.ty;
                let ghost gn = d.ident@;
                let ghost s0 = self@;
                let i2 = match self.minify_opt_expr(d.initializer) {
                    Ok(v) => v,
                    Err(err) => {
                        proof {
                            lemma_fails_prefix(s0, opt_expr_events(gi), opt_type_events(gt, false));
                            lemma_fails_prefix(s0, opt_expr_events(gi) + opt_type_events(gt, false), seq![Event::Ident(Role::LocalDecl, gn)]);
                        }
                        return Err(err);
                    },
                };
                let ghost s1 = self@;
                let t2 = match self.minify_opt_type(d.ty, false) {
                    Ok(v) => v,
                    Err(err) => {
                        proof {
                            lemma_fails_suffix(s0, opt_expr_events(gi), s1, opt_expr_events(i2), opt_type_events(gt, false));
                            lemma_fails_prefix(s0, opt_expr_events(gi) + opt_type_events(gt, false), seq![Event::Ident(Role::LocalDecl, gn)]);
                        }
                        return Err(err);
                    },
                };
                proof {
                    lemma_renamed_append(s0, opt_expr_events(gi), s1, opt_expr_events(i2), opt_type_events(gt, false), self@, opt_type_events(t2, false));
                }
                let ghost s2 = self@;
                let n2 = match self.local_decl_step(d.ident) {
                    Ok(v) => v,
                    Err(err) => {
                        proof {
                            lemma_fails_suffix(s0, opt_expr_events(gi) + opt_type_events(gt, false), s2, opt_expr_events(i2) + opt_type_events(t2, false), seq![Event::Ident(Role::LocalDecl, gn)]);
                        }
                        return Err(err);
                    },
                };
                proof {
                    lemma_renamed_append(s0, opt_expr_events(gi) + opt_type_events(gt, false), s2, opt_expr_events(i2) + opt_type_events(t2, false), seq![Event::Ident(Role::LocalDecl, gn)], self@, seq![Event::Ident(Role::LocalDecl, n2@)]);
                }
                Ok(Stmt::VarDecl(VarDecl { ident: n2, ty: t2, initializer: i2 }))
            },
        }
    }

    /// Renames the identifiers of an optional block.
    fn minify_opt_compound(&mut self, c: Option<Block>) -> (r: Result<
        Option<Block>,
        MinifyError,
    >)
        requires
            old(self).wf(),
        ensures
            final(self).wf(),
            r is Err ==> fails(old(self)@, opt_compound_events(c)),
            r matches Ok(c2) ==> opt_compound_shape(c, c2) && renamed(
                old(self)@,
                opt_compound_events(c),
                final(self)@,
                opt_compound_events(c2),
            ),
        decreases c,
    {
        match c {
            Some(b) => match self.minify_compound_statement(b) {
                Ok(b2) => Ok(Some(b2)),
                Err(err) => Err(err),
            },
            None => {
                proof {
                    lemma_renamed_empty(self@);
                }
                Ok(None)
            },
        }
    }

    /// Enters a function, as a step of a walk.
    fn begin_step(&mut self)
        requires
            old(self).wf(),
        ensures
            final(self).wf(),
            renamed(old(self)@, seq![Event::BeginFunction], final(self)@, seq![Event::BeginFunction]),
    {
        proof {
            lemma_renamed_scope(self@, Event::BeginFunction);
        }
        self.begin_function_scope();
    }

    /// Leaves a function, as a step of a walk.
    fn end_step(&mut self)
        requires
            old(self).wf(),
        ensures
            final(self).wf(),
            renamed(old(self)@, seq![Event::EndFunction], final(self)@, seq![Event::EndFunction]),
    {
        proof {
            lemma_renamed_scope(self@, Event::EndFunction);
        }
        self.end_function_scope();
    }

    /// Renames the members of a struct, in order.
    #[verifier::loop_isolation(false)]
    fn minify_members(&mut self, ms: Vec<String>) -> (r: Result<Vec<String>, MinifyError>)
        requires
            old(self).wf(),
        ensures
            final(self).wf(),
            r is Err ==> fails(old(self)@, members_events(ms@)),
            r matches Ok(ms2) ==> ms2@.len() == ms@.len() && renamed(
                old(self)@,
                members_events(ms@),
                final(self)@,
                members_events(ms2@),
            ),
    {
        let ghost ms0 = ms;
        let mut out: Vec<String> = Vec::new();
        proof {
            lemma_renamed_empty(self@);
            assert(ms0@.take(0) =~= Seq::<String>::empty());
        }
        for m in it: ms.into_iter()
            invariant
                it.seq() == ms0@,
                self.wf(),
                out@.len() == it.index(),
                renamed(old(self)@, members_events(ms0@.take(it.index())), self@, members_events(out@)),
        {
            let ghost i = it.index();
            let ghost s1 = self@;
            assert(m == ms0@[i]);
            assert(ms0@.take(i + 1).drop_last() == ms0@.take(i));
            assert(ms0@.take(i + 1).last() == ms0@[i]);
            match self.global_step(m) {
                Ok(m2) => {
                    proof {
                        lemma_renamed_append(
                            old(self)@,
                            members_events(ms0@.take(i)),
                            s1,
                            members_events(out@),
                            seq![Event::Ident(Role::Global, ms0@[i]@)],
                            self@,
                            seq![Event::Ident(Role::Global, m2@)],
                        );
                    }
                    let ghost before = out@;
                    out.push(m2);
                    assert(out@.drop_last() == before);
                    assert(out@.last() == m2);
                },
                Err(err) => {
                    proof {
                        lemma_fails_suffix(
                            old(self)@,
                            members_events(ms0@.take(i)),
                            s1,
                            members_events(out@),
                            seq![Event::Ident(Role::Global, ms0@[i]@)],
                        );
                        lemma_members_events_prefix(ms0@, i + 1);
                        lemma_fails_extends(old(self)@, members_events(ms0@.take(i + 1)), members_events(ms0@));
                    }
                    return Err(err);
                },
            }
        }
        assert(ms0@.take(ms0@.len() as int) == ms0@);
        Ok(out)
    }

    /// Renames the parameters of a function: each name, then its type.
    #[verifier::loop_isolation(false)]
    fn minify_params(&mut self, ps: Vec<FormalParameter>) -> (r: Result<
        Vec<FormalParameter>,
        MinifyError,
    >)
        requires
            old(self).wf(),
        ensures
            final(self).wf(),
            r is Err ==> fails(old(self)@, params_events(ps@)),
            r matches Ok(ps2) ==> params_shape(ps@, ps2@) && renamed(
                old(self)@,
                params_events(ps@),
                final(self)@,
                params_events(ps2@),
            ),
    {
        let ghost ps0 = ps;
        let mut out: Vec<FormalParameter> = Vec::new();
        proof {
            lemma_renamed_empty(self@);
            assert(ps0@.take(0) =~= Seq::<FormalParameter>::empty());
        }
        for prm in it: ps.into_iter()
            invariant
                it.seq() == ps0@,
                self.wf(),
                out@.len() == it.index(),
                params_shape(ps0@.take(it.index()), out@),
                renamed(old(self)@, params_events(ps0@.take(it.index())), self@, params_events(out@)),
        {
            let ghost i = it.index();
            let ghost s1 = self@;
            assert(prm == ps0@[i]);
            assert(ps0@.take(i + 1).drop_last() == ps0@.take(i));
            assert(ps0@.take(i + 1).last() == ps0@[i]);
            let FormalParameter { ident, ty } = prm;
            let ghost gn = ident@;
            let ghost gt = ty;
            let ghost pre_in = params_events(ps0@.take(i));
            let ghost pre_out = params_events(out@);
            match self.local_decl_step(ident) {
                Ok(n2) => {
                    let ghost s2 = self@;
                    proof {
                        lemma_renamed_append(
                            old(self)@,
                            pre_in,
                            s1,
                            pre_out,
                            seq![Event::Ident(Role::LocalDecl, gn)],
                            s2,
                            seq![Event::Ident(Role::LocalDecl, n2@)],
                        );
                    }
                    match self.minify_type_or_value(ty, false) {
                        Ok(t2) => {
                            proof {
                                lemma_renamed_append(
                                    old(self)@,
                                    pre_in + seq![Event::Ident(Role::LocalDecl, gn)],
                                    s2,
                                    pre_out + seq![Event::Ident(Role::LocalDecl, n2@)],
                                    type_events(gt, false),
                                    self@,
                                    type_events(t2, false),
                                );
                            }
                            let ghost before = out@;
                            out.push(FormalParameter { ident: n2, ty: t2 });
                            assert(out@.drop_last() == before);
                        },
                        Err(err) => {
                            proof {
                                lemma_fails_suffix(
                                    old(self)@,
                                    pre_in + seq![Event::Ident(Role::LocalDecl, gn)],
                                    s2,
                                    pre_out + seq![Event::Ident(Role::LocalDecl, n2@)],
                                    type_events(gt, false),
                                );
                                lemma_params_events_prefix(ps0@, i + 1);
                                lemma_fails_extends(old(self)@, params_events(ps0@.take(i + 1)), params_events(ps0@));
                            }
                            return Err(err);
                        },
                    }
                },
                Err(err) => {
                    proof {
                        lemma_fails_suffix(
                            old(self)@,
                            pre_in,
                            s1,
                            pre_out,
                            seq![Event::Ident(Role::LocalDecl, gn)],
                        );
                        lemma_fails_prefix(
                            old(self)@,
                            pre_in + seq![Event::Ident(Role::LocalDecl, gn)],
                            type_events(gt, false),
                        );
                        lemma_params_events_prefix(ps0@, i + 1);
                        lemma_fails_extends(old(self)@, params_events(ps0@.take(i + 1)), params_events(ps0@));
                    }
                    return Err(err);
                },
            }
        }
        assert(ps0@.take(ps0@.len() as int) == ps0@);
        Ok(out)
    }

    /// First pass over a declaration: renames the name it declares (and the members of a
    /// struct); an attributed function keeps its name.
    fn predeclare(&mut self, g: Item) -> (r: Result<Item, MinifyError>)
        requires
            old(self).wf(),
        ensures
            final(self).wf(),
            r is Err ==> fails(old(self)@, decl_name_events(g)),
            r matches Ok(g2) ==> same_inside(g, g2) && entry_event(g2) == entry_event(g)
                && renamed(old(self)@, decl_name_events(g), final(self)@, decl_name_events(g2)),
    {
        let ghost s0 = self@;
        match g {
            Item::Other => {
                proof {
                    lemma_renamed_empty(s0);
                }
                Ok(Item::Other)
            },
            Item::VarDecl(d) => {
                let VarDecl { ident, ty, initializer } = d;
                match self.global_step(ident) {
                    Ok(n2) => Ok(Item::VarDecl(VarDecl { ident: n2, ty, initializer })),
                    Err(err) => Err(err),
                }
            },
            Item::TypeAlias(a) => {
                let TypeAlias { ident, ty } = a;
                match self.global_step(ident) {
                    Ok(n2) => Ok(Item::TypeAlias(TypeAlias { ident: n2, ty })),
                    Err(err) => Err(err),
                }
            },
            Item::Struct(st) => {
                let Struct { ident, members } = st;
                let ghost gn = ident@;
                let ghost gm = members;
                match self.global_step(ident) {
                    Ok(n2) => {
                        let ghost s1 = self@;
                        match self.minify_members(members) {
                            Ok(m2) => {
                                proof {
                                    lemma_renamed_append(
                                        s0,
                                        seq![Event::Ident(Role::Global, gn)],
                                        s1,
                                        seq![Event::Ident(Role::Global, n2@)],
                                        members_events(gm@),
                                        self@,
                                        members_events(m2@),
                                    );
                                }
                                Ok(Item::Struct(Struct { ident: n2, members: m2 }))
                            },
                            Err(err) => {
                                proof {
                                    lemma_fails_suffix(
                                        s0,
                                        seq![Event::Ident(Role::Global, gn)],
                                        s1,
                                        seq![Event::Ident(Role::Global, n2@)],
                                        members_events(gm@),
                                    );
                                }
                                Err(err)
                            },
                        }
                    },
                    Err(err) => {
                        proof {
                            lemma_fails_prefix(s0, seq![Event::Ident(Role::Global, gn)], members_events(gm@));
                        }
                        Err(err)
                    },
                }
            },
            Item::FnDecl(f) => {
                let FnDecl { has_attributes, ident, parameters, return_type, body } = f;
                if has_attributes {
                    proof {
                        lemma_renamed_ident(s0, Role::KeepGlobal, ident@);
                    }
                    self.no_map_global(&ident);
                    Ok(Item::FnDecl(FnDecl { has_attributes, ident, parameters, return_type, body }))
                } else {
                    match self.global_step(ident) {
                        Ok(n2) => Ok(Item::FnDecl(FnDecl { has_attributes, ident: n2, parameters, return_type, body })),
                        Err(err) => Err(err),
                    }
                }
            },
        }
    }

    /// Second pass over a declaration: renames its type, initializer, or function
    /// parameters and body (within a function scope); declared names stay.
    fn minify_decl_body(&mut self, g: Item) -> (r: Result<Item, MinifyError>)
        requires
            old(self).wf(),
        ensures
            final(self).wf(),
            r is Err ==> fails(old(self)@, decl_body_events(g)),
            r matches Ok(g2) ==> decl_shape(g, g2) && decl_name_events(g2) == decl_name_events(g)
                && renamed(old(self)@, decl_body_events(g), final(self)@, decl_body_events(g2)),
    {
        match g {
            Item::Other => {
                proof {
                    lemma_renamed_empty(self@);
                }
                Ok(Item::Other)
            },
            Item::Struct(st) => {
                proof {
                    lemma_renamed_empty(self@);
                }
                Ok(Item::Struct(st))
            },
            Item::TypeAlias(a) => {
                let TypeAlias { ident, ty } = a;
                match self.minify_type_or_value(ty, false) {
                    Ok(t2) => Ok(Item::TypeAlias(TypeAlias { ident, ty: t2 })),
                    Err(err) => Err(err),
                }
            },
            Item::VarDecl(d) => {
                let VarDecl { ident, ty, initializer } = d;
                let ghost gt = ty;
                let ghost gi = initializer;
                let ghost s0 = self@;
                let t2 = match self.minify_opt_type(ty, false) {
                    Ok(v) => v,
                    Err(err) => {
                        proof {
                            lemma_fails_prefix(s0, opt_type_events(gt, false), opt_expr_events(gi));
                        }
                        return Err(err);
                    },
                };
                let ghost s1 = self@;
                let i2 = match self.minify_opt_expr(initializer) {
                    Ok(v) => v,
                    Err(err) => {
                        proof {
                            lemma_fails_suffix(s0, opt_type_events(gt, false), s1, opt_type_events(t2, false), opt_expr_events(gi));
                        }
                        return Err(err);
                    },
                };
                proof {
                    lemma_renamed_append(s0, opt_type_events(gt, false), s1, opt_type_events(t2, false), opt_expr_events(gi), self@, opt_expr_events(i2));
                }
                Ok(Item::VarDecl(VarDecl { ident, ty: t2, initializer: i2 }))
            },
            Item::FnDecl(f) => {
                let FnDecl { has_attributes, ident, parameters, return_type, body } = f;
                let ghost gp = parameters;
                let ghost gb = body;
                let ghost gt = return_type;
                let ghost s0 = self@;
                self.begin_step();
                let ghost s1 = self@;
                let p2 = match self.minify_params(parameters) {
                    Ok(v) => v,
                    Err(err) => {
                        proof {
                            lemma_fails_suffix(s0, seq![Event::BeginFunction], s1, seq![Event::BeginFunction], params_events(gp@));
                            lemma_fails_prefix(s0, seq![Event::BeginFunction] + params_events(gp@), compound_events(gb));
                            lemma_fails_prefix(s0, seq![Event::BeginFunction] + params_events(gp@) + compound_events(gb), opt_type_events(gt, false));
                            lemma_fails_prefix(s0, seq![Event::BeginFunction] + params_events(gp@) + compound_events(gb) + opt_type_events(gt, false), seq![Event::EndFunction]);
                        }
                        return Err(err);
                    },
                };
                proof {
                    lemma_renamed_append(s0, seq![Event::BeginFunction], s1, seq![Event::BeginFunction], params_events(gp@), self@, params_events(p2@));
                }
                let ghost s2 = self@;
                let b2 = match self.minify_compound_statement(body) {
                    Ok(v) => v,
                    Err(err) => {
                        proof {
                            lemma_fails_suffix(s0, seq![Event::BeginFunction] + params_events(gp@), s2, seq![Event::BeginFunction] + params_events(p2@), compound_events(gb));
                            lemma_fails_prefix(s0, seq![Event::BeginFunction] + params_events(gp@) + compound_events(gb), opt_type_events(gt, false));
                            lemma_fails_prefix(s0, seq![Event::BeginFunction] + params_events(gp@) + compound_events(gb) + opt_type_events(gt, false), seq![Event::EndFunction]);
                        }
                        return Err(err);
                    },
                };
                proof {
                    lemma_renamed_append(s0, seq![Event::BeginFunction] + params_events(gp@), s2, seq![Event::BeginFunction] + params_events(p2@), compound_events(gb), self@, compound_events(b2));
                }
                let ghost s3 = self@;
                let t2 = match self.minify_opt_type(return_type, false) {
                    Ok(v) => v,
                    Err(err) => {
                        proof {
                            lemma_fails_suffix(s0, seq![Event::BeginFunction] + params_events(gp@) + compound_events(gb), s3, seq![Event::BeginFunction] + params_events(p2@) + compound_events(b2), opt_type_events(gt, false));
                            lemma_fails_prefix(s0, seq![Event::BeginFunction] + params_events(gp@) + compound_events(gb) + opt_type_events(gt, false), seq![Event::EndFunction]);
                        }
                        return Err(err);
                    },
                };
                proof {
                    lemma_renamed_append(s0, seq![Event::BeginFunction] + params_events(gp@) + compound_events(gb), s3, seq![Event::BeginFunction] + params_events(p2@) + compound_events(b2), opt_type_events(gt, false), self@, opt_type_events(t2, false));
                }
                let ghost s4 = self@;
                self.end_step();
                proof {
                    lemma_renamed_append(s0, seq![Event::BeginFunction] + params_events(gp@) + compound_events(gb) + opt_type_events(gt, false), s4, seq![Event::BeginFunction] + params_events(p2@) + compound_events(b2) + opt_type_events(t2, false), seq![Event::EndFunction], self@, seq![Event::EndFunction]);
                }
                Ok(Item::FnDecl(FnDecl {
                    has_attributes,
                    ident,
                    parameters: p2,
                    return_type: t2,
                    body: b2,
                }))
            },
        }
    }

    /// Renames the identifiers of a module: first it takes the names of the entry points,
    /// then renames every name the module declares, then every type, initializer and
    /// function body. Names given in earlier modules keep their renaming. If the short
    /// names run out, it returns the error and leaves the minifier as it was.
    #[verifier::loop_isolation(false)]
    #[verifier::rlimit(40)]
    #[verifier::spinoff_prover]
    pub fn minify(&mut self, module: &mut Module) -> (r: Result<(), MinifyError>)
        requires
            old(self).wf(),
        ensures
            final(self).wf(),
            r is Err <==> fails(old(self)@, module_events(*old(module))),
            r is Err ==> final(self)@ == old(self)@,
            r is Ok ==> module_shape(*old(module), *final(module)) && renamed(
                old(self)@,
                module_events(*old(module)),
                final(self)@,
                module_events(*final(module)),
            ),
    {
        let ghost s_orig = self@;
        let ghost ds_orig = module.global_declarations@;
        // what the minifier goes back to if it runs out of names
        let saved = self.copy();
        // entry points first: their names are taken before anything is renamed
        proof {
            lemma_renamed_empty(self@);
            assert(ds_orig.take(0) =~= Seq::<Item>::empty());
        }
        for i in 0..module.global_declarations.len()
            invariant
                self.wf(),
                module.global_declarations@ == ds_orig,
                renamed(s_orig, entry_events(ds_orig.take(i as int)), self@, entry_events(ds_orig.take(i as int))),
        {
            let ghost s1 = self@;
            assert(ds_orig.take(i + 1).drop_last() == ds_orig.take(i as int));
            assert(ds_orig.take(i + 1).last() == ds_orig[i as int]);
            match &module.global_declarations[i] {
                Item::FnDecl(f) => {
                    if f.has_attributes {
                        proof {
                            lemma_renamed_ident(s1, Role::Reserve, f.ident@);
                        }
                        self.reserve_global(&f.ident);
                    } else {
                        proof {
                            lemma_renamed_empty(s1);
                        }
                    }
                },
                _ => {
                    proof {
                        lemma_renamed_empty(s1);
                    }
                },
            }
            proof {
                lemma_renamed_append(
                    s_orig,
                    entry_events(ds_orig.take(i as int)),
                    s1,
                    entry_events(ds_orig.take(i as int)),
                    entry_event(ds_orig[i as int]),
                    self@,
                    entry_event(ds_orig[i as int]),
                );
            }
        }
        assert(ds_orig.take(ds_orig.len() as int) == ds_orig);
        let ghost s0 = self@;
        let mut decls: Vec<Item> = Vec::new();
        core::mem::swap(&mut decls, &mut module.global_declarations);
        let ghost ds0 = decls@;
        assert(ds0 == old(module).global_declarations@);
        // first pass: declared names
        let mut first: Vec<Item> = Vec::new();
        proof {
            lemma_renamed_empty(self@);
            assert(ds0.take(0) =~= Seq::<Item>::empty());
        }
        for g in it: decls.into_iter()
            invariant
                it.seq() == ds0,
                self.wf(),
                first@.len() == it.index(),
                forall|j: int| 0 <= j < it.index() ==> #[trigger] same_inside(ds0[j], first@[j]),
                forall|j: int| 0 <= j < it.index() ==> #[trigger] entry_event(first@[j]) == entry_event(ds0[j]),
                renamed(s0, decl_names_events(ds0.take(it.index())), self@, decl_names_events(first@)),
        {
            let ghost i = it.index();
            let ghost s1 = self@;
            assert(g == ds0[i]);
            assert(ds0.take(i + 1).drop_last() == ds0.take(i));
            assert(ds0.take(i + 1).last() == ds0[i]);
            match self.predeclare(g) {
                Ok(g2) => {
                    proof {
                        lemma_renamed_append(
                            s0,
                            decl_names_events(ds0.take(i)),
                            s1,
                            decl_names_events(first@),
                            decl_name_events(ds0[i]),
                            self@,
                            decl_name_events(g2),
                        );
                    }
                    let ghost before = first@;
                    first.push(g2);
                    assert(first@.drop_last() == before);
                    assert(first@.last() == g2);
                },
                Err(err) => {
                    proof {
                        lemma_fails_suffix(
                            s0,
                            decl_names_events(ds0.take(i)),
                            s1,
                            decl_names_events(first@),
                            decl_name_events(ds0[i]),
                        );
                        lemma_decl_names_events_prefix(ds0, i + 1);
                        lemma_fails_extends(s0, decl_names_events(ds0.take(i + 1)), decl_names_events(ds0));
                        lemma_fails_prefix(s0, decl_names_events(ds0), decl_bodies_events(ds0));
                        lemma_fails_suffix(
                            s_orig,
                            entry_events(ds0),
                            s0,
                            entry_events(ds0),
                            decl_names_events(ds0) + decl_bodies_events(ds0),
                        );
                        assert(entry_events(ds0) + (decl_names_events(ds0) + decl_bodies_events(ds0))
                            == module_events(*old(module)));
                    }
                    *self = saved;
                    return Err(err);
                },
            }
        }
        assert(ds0.take(ds0.len() as int) == ds0);
        let ghost s_mid = self@;
        let ghost ds1 = first@;
        proof {
            lemma_bodies_same_inside(ds0, ds1);
        }
        // second pass: types, initializers and function bodies
        let mut second: Vec<Item> = Vec::new();
        proof {
            lemma_renamed_empty(self@);
            assert(ds1.take(0) =~= Seq::<Item>::empty());
        }
        for g in it: first.into_iter()
            invariant
                it.seq() == ds1,
                self.wf(),
                second@.len() == it.index(),
                decls_shape(ds1.take(it.index()), second@),
                forall|j: int|
                    0 <= j < it.index() ==> #[trigger] decl_name_events(second@[j])
                        == decl_name_events(ds1[j]),
                renamed(s_mid, decl_bodies_events(ds1.take(it.index())), self@, decl_bodies_events(second@)),
        {
            let ghost i = it.index();
            let ghost s1 = self@;
            assert(g == ds1[i]);
            assert(ds1.take(i + 1).drop_last() == ds1.take(i));
            assert(ds1.take(i + 1).last() == ds1[i]);
            match self.minify_decl_body(g) {
                Ok(g2) => {
                    proof {
                        lemma_renamed_append(
                            s_mid,
                            decl_bodies_events(ds1.take(i)),
                            s1,
                            decl_bodies_events(second@),
                            decl_body_events(ds1[i]),
                            self@,
                            decl_body_events(g2),
                        );
                    }
                    let ghost before = second@;
                    second.push(g2);
                    assert(second@.drop_last() == before);
                    assert(second@.last() == g2);
                },
                Err(err) => {
                    proof {
                        lemma_fails_suffix(
                            s_mid,
                            decl_bodies_events(ds1.take(i)),
                            s1,
                            decl_bodies_events(second@),
                            decl_body_events(ds1[i]),
                        );
                        lemma_decl_bodies_events_prefix(ds1, i + 1);
                        lemma_fails_extends(s_mid, decl_bodies_events(ds1.take(i + 1)), decl_bodies_events(ds1));
                        lemma_fails_suffix(
                            s0,
                            decl_names_events(ds0),
                            s_mid,
                            decl_names_events(ds1),
                            decl_bodies_events(ds0),
                        );
                        lemma_fails_suffix(
                            s_orig,
                            entry_events(ds0),
                            s0,
                            entry_events(ds0),
                            decl_names_events(ds0) + decl_bodies_events(ds0),
                        );
                        assert(entry_events(ds0) + (decl_names_events(ds0) + decl_bodies_events(ds0))
                            == module_events(*old(module)));
                    }
                    *self = saved;
                    return Err(err);
                },
            }
        }
        assert(ds1.take(ds1.len() as int) == ds1);
        proof {
            lemma_names_same(second@, ds1);
            lemma_shape_same_inside(ds0, ds1, second@);
            lemma_renamed_append(
                s0,
                decl_names_events(ds0),
                s_mid,
                decl_names_events(ds1),
                decl_bodies_events(ds0),
                self@,
                decl_bodies_events(second@),
            );
            assert forall|j: int| 0 <= j < ds0.len() implies #[trigger] entry_event(ds0[j])
                == entry_event(second@[j]) by {
                lemma_entry_event_of_names(second@[j], ds1[j]);
            }
            lemma_entries_same(ds0, second@);
            lemma_renamed_append(
                s_orig,
                entry_events(ds0),
                s0,
                entry_events(ds0),
                decl_names_events(ds0) + decl_bodies_events(ds0),
                self@,
                decl_names_events(second@) + decl_bodies_events(second@),
            );
            assert(entry_events(ds0) + (decl_names_events(ds0) + decl_bodies_events(ds0))
                == module_events(*old(module)));
            assert(entry_events(second@) + (decl_names_events(second@) + decl_bodies_events(second@))
                == entry_events(second@) + decl_names_events(second@) + decl_bodies_events(second@));
        }
        module.global_declarations = second;
        Ok(())
    }

    /// The map file: one `old,new` line per module-scope renaming that changed a name,
    /// in the order the renamings were made, each line ending in CR LF.
    #[verifier::spinoff_prover]
    pub fn write_map(&self) -> (text: String)
        ensures
            text@ == map_text(self@.entries),
    {
        let ghost es = self@.entries;
        let mut result = String::new();
        let mut seen: Vec<(String, String)> = Vec::new();
        let mut i: usize = 0;
        while i < self.map_entries.len()
            invariant
                i <= self.map_entries@.len(),
                es == self.map_entries@.map_values(|e: (String, String)| (e.0@, e.1@)),
                result@ == map_text(es.take(i as int)),
                forall|x: (Seq<char>, Seq<char>)|
                    #![trigger es.take(i as int).contains(x)]
                    (exists|q: int| 0 <= q < seen@.len() && seen@[q].0@ == x.0 && seen@[q].1@ == x.1)
                        <==> (es.take(i as int).contains(x) && x.0 != x.1),
            decreases self.map_entries@.len() - i,
        {
            let old_name = &self.map_entries[i].0;
            let new_name = &self.map_entries[i].1;
            let ghost e = es[i as int];
            let ghost before = es.take(i as int);
            let ghost after = es.take(i + 1);
            assert(e == (old_name@, new_name@));
            assert(after == before.push(e));
            assert(after.drop_last() == before);
            assert(after.last() == e);
            let mut already = false;
            for q in 0..seen.len()
                invariant
                    already == exists|r: int|
                        0 <= r < q && seen@[r].0@ == old_name@ && seen@[r].1@ == new_name@,
            {
                if seen[q].0 == *old_name && seen[q].1 == *new_name {
                    already = true;
                }
            }
            proof {
                if already {
                    let r = choose|r: int|
                        0 <= r < seen@.len() && seen@[r].0@ == old_name@ && seen@[r].1@ == new_name@;
                    assert(seen@[r].0@ == e.0 && seen@[r].1@ == e.1);
                    assert(before.contains(e) && e.0 != e.1);
                }
                if before.contains(e) && e.0 != e.1 {
                    let q = choose|q: int| 0 <= q < seen@.len() && seen@[q].0@ == e.0 && seen@[q].1@ == e.1;
                    assert(seen@[q].0@ == old_name@ && seen@[q].1@ == new_name@);
                }
                assert forall|x: (Seq<char>, Seq<char>)|
                    after.contains(x) <==> (before.contains(x) || x == e) by {
                    if after.contains(x) {
                        let w = choose|w: int| 0 <= w < after.len() && after[w] == x;
                        if w < before.len() {
                            assert(before[w] == x);
                        }
                    }
                    if before.contains(x) {
                        let w = choose|w: int| 0 <= w < before.len() && before[w] == x;
                        assert(after[w] == x);
                    }
                    if x == e {
                        assert(after[i as int] == x);
                    }
                }
            }
            if *old_name != *new_name && !already {
                let ghost seen0 = seen@;
                seen.push((old_name.clone(), new_name.clone()));
                result.append(old_name.as_str());
                push_char(&mut result, ',');
                result.append(new_name.as_str());
                push_char(&mut result, '\r');
                push_char(&mut result, '\n');
                assert(listed_last(after));
                assert(result@ == map_text(after));
                assert forall|x: (Seq<char>, Seq<char>)|
                    #![trigger after.contains(x)]
                    (exists|q: int| 0 <= q < seen@.len() && seen@[q].0@ == x.0 && seen@[q].1@ == x.1)
                        <==> (after.contains(x) && x.0 != x.1) by {
                    if exists|q: int| 0 <= q < seen@.len() && seen@[q].0@ == x.0 && seen@[q].1@ == x.1 {
                        let q = choose|q: int| 0 <= q < seen@.len() && seen@[q].0@ == x.0 && seen@[q].1@ == x.1;
                        if q < seen0.len() {
                            assert(seen0[q] == seen@[q]);
                            assert(before.contains(x));
                        }
                    }
                    if before.contains(x) && x.0 != x.1 {
                        let q = choose|q: int| 0 <= q < seen0.len() && seen0[q].0@ == x.0 && seen0[q].1@ == x.1;
                        assert(seen@[q] == seen0[q]);
                    }
                    if x == e {
                        assert(seen@[seen0.len() as int].0@ == x.0);
                    }
                }
            } else {
                assert(!listed_last(after));
                assert(result@ == map_text(after));
                assert forall|x: (Seq<char>, Seq<char>)|
                    #![trigger after.contains(x)]
                    (exists|q: int| 0 <= q < seen@.len() && seen@[q].0@ == x.0 && seen@[q].1@ == x.1)
                        <==> (after.contains(x) && x.0 != x.1) by {
                    if x == e && e.0 != e.1 {
                        assert(before.contains(e));
                    }
                    if before.contains(x) {
                    }
                }
            }
            i = i + 1;
        }
        assert(es.take(self.map_entries@.len() as int) == es);
        result
    }
}

} // verus!
