//! The executable checker: a binding table and a scope stack, with one entry
//! point `apply` that validates one instruction at a time. Every method is
//! proved to follow the transition function `model::step` exactly.

use vstd::prelude::*;

use crate::laws::lemma_close_preserves_wf;
use crate::laws::lemma_declare_preserves_wf;
use crate::laws::lemma_live_implies_scope;
use crate::laws::lemma_resolve_at;
use crate::laws::lemma_run_snoc;
use crate::laws::lemma_step_preserves_wf;
use crate::laws::lemma_wf_init;
use crate::model::close_scope_model;
use crate::model::declare_model;
use crate::model::finish_model;
use crate::model::has_borrow;
use crate::model::init_model;
use crate::model::kill_in_reverse;
use crate::model::kill_one;
use crate::model::open_scope_model;
use crate::model::resolve_at;
use crate::model::run_model;
use crate::model::set_state_model;
use crate::model::snapshot_spec;
use crate::model::snapshot_view;
use crate::model::step;
use crate::model::step_declare;
use crate::model::step_end_scope;
use crate::model::step_use;
use crate::model::wf;
use crate::model::BindState;
use crate::model::BindingModel;
use crate::model::BorrowMode;
use crate::model::BorrowModel;
use crate::model::CheckerModel;
use crate::model::ErrorKind;
use crate::model::InstrModel;
use crate::model::Kind;
use crate::model::ScopeModel;
use crate::model::borrow_at;
use crate::model::borrow_ok;

verus! {

/// One binding record in the table.
pub struct Binding {
    pub name: String,
    pub kind: Kind,
    pub state: BindState,
    pub live: bool,
}

/// One active borrow: an index into the binding table plus a mode tag.
pub struct Borrow {
    pub target: usize,
    pub mode: BorrowMode,
}

/// One open scope: the bindings it introduced, in order, and the borrows
/// created in it, which it releases when it closes.
pub struct Scope {
    pub introduced: Vec<usize>,
    pub borrows: Vec<Borrow>,
}

/// The checker: binding table plus scope stack.
pub struct Checker {
    bindings: Vec<Binding>,
    scopes: Vec<Scope>,
}

/// The instruction vocabulary the checker validates.
#[derive(Clone, Debug)]
pub enum Instruction {
    Declare { name: String, kind: Kind },
    Use { name: String },
    Move { src: String, dst: String },
    Copy { src: String, dst: String },
    Clone { src: String, dst: String },
    BorrowShared { name: String },
    BorrowExclusive { name: String },
    EndScope,
}

impl View for Binding {
    type V = BindingModel;

    open spec fn view(&self) -> BindingModel {
        BindingModel { name: self.name@, kind: self.kind, state: self.state, live: self.live }
    }
}

impl View for Borrow {
    type V = BorrowModel;

    open spec fn view(&self) -> BorrowModel {
        BorrowModel { target: self.target as int, mode: self.mode }
    }
}

impl View for Scope {
    type V = ScopeModel;

    open spec fn view(&self) -> ScopeModel {
        ScopeModel {
            introduced: Seq::new(self.introduced@.len(), |j: int| self.introduced@[j] as int),
            borrows: Seq::new(self.borrows@.len(), |j: int| self.borrows@[j]@),
        }
    }
}

impl View for Checker {
    type V = CheckerModel;

    closed spec fn view(&self) -> CheckerModel {
        CheckerModel {
            bindings: Seq::new(self.bindings@.len(), |i: int| self.bindings@[i]@),
            scopes: Seq::new(self.scopes@.len(), |i: int| self.scopes@[i]@),
        }
    }
}

impl View for Instruction {
    type V = InstrModel;

    open spec fn view(&self) -> InstrModel {
        match self {
            Instruction::Declare { name, kind } => InstrModel::Declare { name: name@, kind: *kind },
            Instruction::Use { name } => InstrModel::Use { name: name@ },
            Instruction::Move { src, dst } => InstrModel::Move { src: src@, dst: dst@ },
            Instruction::Copy { src, dst } => InstrModel::Copy { src: src@, dst: dst@ },
            Instruction::Clone { src, dst } => InstrModel::Clone { src: src@, dst: dst@ },
            Instruction::BorrowShared { name } => InstrModel::BorrowShared { name: name@ },
            Instruction::BorrowExclusive { name } => InstrModel::BorrowExclusive { name: name@ },
            Instruction::EndScope => InstrModel::EndScope,
        }
    }
}

/// The models of a sequence of instructions, in order.
pub open spec fn instr_views(prog: Seq<Instruction>) -> Seq<InstrModel> {
    Seq::new(prog.len(), |i: int| prog[i]@)
}

/// A fresh checker: no bindings, one open root scope.
pub fn new_checker() -> (c: Checker)
    ensures
        c@ == init_model(),
        wf(c@),
{
    let mut scopes: Vec<Scope> = Vec::new();
    scopes.push(Scope { introduced: Vec::new(), borrows: Vec::new() });
    let c = Checker { bindings: Vec::new(), scopes };
    proof {
        assert(c@.scopes[0].introduced =~= init_model().scopes[0].introduced);
        assert(c@.scopes[0].borrows =~= init_model().scopes[0].borrows);
        assert(c@.scopes =~~= init_model().scopes);
        assert(c@.bindings =~= init_model().bindings);
        assert(c@ =~~= init_model());
        lemma_wf_init();
    }
    c
}

impl Checker {
    /// Index of the innermost live binding named `name`, if any.
    fn resolve_idx(&self, name: &String) -> (r: Option<usize>)
        ensures
            match r {
                Some(k) => k < self@.bindings.len() && resolve_at(self@.bindings, name@) == Some(
                    k as int,
                ),
                None => resolve_at(self@.bindings, name@) is None,
            },
    {
        let ghost bs = self@.bindings;
        let mut i: usize = self.bindings.len();
        proof {
            assert(bs.take(i as int) =~= bs);
        }
        while i > 0
            invariant
                i <= self.bindings@.len(),
                bs == self@.bindings,
                bs.len() == self.bindings@.len(),
                resolve_at(bs, name@) == resolve_at(bs.take(i as int), name@),
            decreases i,
        {
            i = i - 1;
            proof {
                assert(bs[i as int] == self.bindings@[i as int]@);
                assert(bs.take(i as int + 1).drop_last() =~= bs.take(i as int));
                assert(bs.take(i as int + 1).last() == bs[i as int]);
            }
            let b = &self.bindings[i];
            if b.live && b.name == *name {
                return Some(i);
            }
        }
        proof {
            assert(bs.take(0) =~= Seq::<BindingModel>::empty());
        }
        None
    }

    /// Whether any open scope holds a borrow of `mode` on binding `k`.
    fn has_borrow_on(&self, k: usize, mode: BorrowMode) -> (r: bool)
        ensures
            r == has_borrow(self@, k as int, mode),
    {
        let ghost m = self@;
        let mut i: usize = 0;
        while i < self.scopes.len()
            invariant
                m == self@,
                i <= self.scopes@.len(),
                m.scopes.len() == self.scopes@.len(),
                forall|a: int, b: int|
                    borrow_ok(m, a, b) && a < i ==> !((#[trigger] borrow_at(m, a, b)).target
                        == k as int && borrow_at(m, a, b).mode == mode),
            decreases self.scopes@.len() - i,
        {
            let mut j: usize = 0;
            while j < self.scopes[i].borrows.len()
                invariant
                    m == self@,
                    i < self.scopes@.len(),
                    m.scopes.len() == self.scopes@.len(),
                    j <= self.scopes@[i as int].borrows@.len(),
                    m.scopes[i as int].borrows.len() == self.scopes@[i as int].borrows@.len(),
                    forall|a: int, b: int|
                        borrow_ok(m, a, b) && a < i ==> !((#[trigger] borrow_at(m, a, b)).target
                            == k as int && borrow_at(m, a, b).mode == mode),
                    forall|b: int|
                        0 <= b < j ==> !((#[trigger] borrow_at(m, i as int, b)).target == k as int
                            && borrow_at(m, i as int, b).mode == mode),
                decreases self.scopes@[i as int].borrows@.len() - j,
            {
                proof {
                    assert(m.scopes[i as int] == self.scopes@[i as int]@);
                    assert(borrow_at(m, i as int, j as int) == self.scopes@[i as int].borrows@[
                        j as int
                    ]@);
                }
                let br = &self.scopes[i].borrows[j];
                if br.target == k && br.mode == mode {
                    proof {
                        assert(borrow_ok(m, i as int, j as int));
                        assert(has_borrow(m, k as int, mode));
                    }
                    return true;
                }
                j = j + 1;
            }
            i = i + 1;
        }
        proof {
            if has_borrow(m, k as int, mode) {
                let (a, b) = choose|a: int, b: int|
                    borrow_ok(m, a, b) && (#[trigger] borrow_at(m, a, b)).target == k as int
                        && borrow_at(m, a, b).mode == mode;
                assert(borrow_ok(m, a, b));
            }
        }
        false
    }

    /// Appends a fresh owned binding and records it in the innermost scope.
    fn push_binding(&mut self, name: String, kind: Kind)
        requires
            old(self)@.scopes.len() > 0,
        ensures
            final(self)@ == declare_model(old(self)@, name@, kind),
    {
        let ghost m = old(self)@;
        let ghost gname = name@;
        let id = self.bindings.len();
        self.bindings.push(Binding { name, kind, state: BindState::Owned, live: true });
        let mut top = self.scopes.pop().unwrap();
        top.introduced.push(id);
        self.scopes.push(top);
        proof {
            let n = m.scopes.len() - 1;
            assert(self@.bindings =~~= m.bindings.push(
                BindingModel { name: gname, kind, state: BindState::Owned, live: true },
            ));
            assert(self@.scopes[n].introduced =~= m.scopes[n].introduced.push(id as int));
            assert(self@.scopes[n].borrows =~= m.scopes[n].borrows);
            assert(self@.scopes =~~= m.scopes.update(
                n,
                ScopeModel {
                    introduced: m.scopes[n].introduced.push(id as int),
                    borrows: m.scopes[n].borrows,
                },
            ));
            assert(self@ =~~= declare_model(m, gname, kind));
        }
    }

    /// Records a borrow of `mode` on binding `k` in the innermost scope.
    fn push_borrow(&mut self, k: usize, mode: BorrowMode)
        requires
            old(self)@.scopes.len() > 0,
        ensures
            final(self)@ == crate::model::add_borrow_model(old(self)@, k as int, mode),
    {
        let ghost m = old(self)@;
        let mut top = self.scopes.pop().unwrap();
        top.borrows.push(Borrow { target: k, mode });
        self.scopes.push(top);
        proof {
            let n = m.scopes.len() - 1;
            assert(self@.bindings =~= m.bindings);
            assert(self@.scopes[n].introduced =~= m.scopes[n].introduced);
            assert(self@.scopes[n].borrows =~= m.scopes[n].borrows.push(
                BorrowModel { target: k as int, mode },
            ));
            assert(self@.scopes =~~= crate::model::add_borrow_model(m, k as int, mode).scopes);
            assert(self@ =~~= crate::model::add_borrow_model(m, k as int, mode));
        }
    }

    /// Direct state accessor: the recorded state of binding `id`.
    pub fn get_state(&self, id: usize) -> (st: BindState)
        requires
            (id as int) < self@.bindings.len(),
        ensures
            st == self@.bindings[id as int].state,
    {
        proof {
            assert(self@.bindings[id as int] == self.bindings@[id as int]@);
        }
        self.bindings[id].state
    }

    /// Direct state accessor: overwrites the recorded state of binding `id`.
    pub fn set_state(&mut self, id: usize, st: BindState)
        requires
            (id as int) < old(self)@.bindings.len(),
        ensures
            final(self)@ == set_state_model(old(self)@, id as int, st),
    {
        let ghost m = old(self)@;
        proof {
            assert(m.bindings[id as int] == self.bindings@[id as int]@);
        }
        let name = self.bindings[id].name.clone();
        let kind = self.bindings[id].kind;
        let live = self.bindings[id].live;
        self.bindings[id] = Binding { name, kind, state: st, live };
        proof {
            assert(self@.bindings =~~= set_state_model(m, id as int, st).bindings);
            assert(self@.scopes =~~= m.scopes);
            assert(self@ =~~= set_state_model(m, id as int, st));
        }
    }

    /// Binding `id` leaves scope: it stops resolving and an owned value is
    /// dropped.
    fn kill_slot(&mut self, id: usize)
        requires
            (id as int) < old(self)@.bindings.len(),
        ensures
            final(self)@.bindings == kill_one(old(self)@.bindings, id as int),
            final(self)@.scopes == old(self)@.scopes,
    {
        let ghost m = old(self)@;
        proof {
            assert(m.bindings[id as int] == self.bindings@[id as int]@);
        }
        let name = self.bindings[id].name.clone();
        let kind = self.bindings[id].kind;
        let st = self.bindings[id].state;
        let ns = match st {
            BindState::Owned => BindState::Dropped,
            _ => st,
        };
        self.bindings[id] = Binding { name, kind, state: ns, live: false };
        proof {
            assert(self@.bindings =~~= kill_one(m.bindings, id as int));
            assert(self@.scopes =~~= m.scopes);
        }
    }

    /// Looks up the innermost live binding named `name`.
    pub fn resolve(&self, name: &String) -> (r: Result<usize, ErrorKind>)
        ensures
            match r {
                Ok(k) => k < self@.bindings.len() && resolve_at(self@.bindings, name@) == Some(
                    k as int,
                ),
                Err(e) => e == ErrorKind::UnboundName && resolve_at(self@.bindings, name@)
                    is None,
            },
    {
        match self.resolve_idx(name) {
            Some(k) => Ok(k),
            None => Err(ErrorKind::UnboundName),
        }
    }

    /// Opens a new empty scope and returns its depth in the stack.
    pub fn open_scope(&mut self) -> (depth: usize)
        requires
            wf(old(self)@),
        ensures
            final(self)@ == open_scope_model(old(self)@),
            wf(final(self)@),
            depth as int == old(self)@.scopes.len(),
    {
        let ghost m = old(self)@;
        let d = self.scopes.len();
        self.scopes.push(Scope { introduced: Vec::new(), borrows: Vec::new() });
        proof {
            let n = m.scopes.len() as int;
            assert(self@.bindings =~= m.bindings);
            assert(self@.scopes[n].introduced =~= open_scope_model(m).scopes[n].introduced);
            assert(self@.scopes[n].borrows =~= open_scope_model(m).scopes[n].borrows);
            assert(self@.scopes =~~= open_scope_model(m).scopes);
            assert(self@ =~~= open_scope_model(m));
            crate::laws::lemma_open_preserves_wf(m);
        }
        d
    }

    /// Closes the innermost scope: its bindings are dropped in reverse
    /// introduction order and the borrows it holds are released. Rejected
    /// with `ScopeUnderflow` when no scope is open.
    pub fn close_scope(&mut self) -> (r: Result<(), ErrorKind>)
        requires
            wf(old(self)@),
        ensures
            ({
                let s = step_end_scope(old(self)@);
                &&& final(self)@ == s.0
                &&& r == s.1
                &&& wf(final(self)@)
            }),
    {
        let ghost m = old(self)@;
        if self.scopes.len() == 0 {
            return Err(ErrorKind::ScopeUnderflow);
        }
        let ghost n = m.scopes.len() - 1;
        let ghost intro = m.scopes[n].introduced;
        proof {
            assert(m.scopes[n] == self.scopes@[n]@);
            assert(forall|q: int|
                0 <= q < intro.len() ==> #[trigger] intro[q] == crate::model::intro_at(m, n, q));
        }
        let top = self.scopes.pop().unwrap();
        let mut j: usize = top.introduced.len();
        proof {
            assert(intro.take(j as int) =~= intro);
            assert(self@.scopes =~~= m.scopes.drop_last());
            assert(self@.bindings =~= m.bindings);
        }
        while j > 0
            invariant
                j <= top.introduced@.len(),
                intro.len() == top.introduced@.len(),
                forall|q: int| 0 <= q < intro.len() ==> #[trigger] intro[q] == top.introduced@[
                    q
                ] as int,
                forall|q: int| 0 <= q < intro.len() ==> 0 <= #[trigger] intro[q]
                    < self@.bindings.len(),
                self@.scopes == m.scopes.drop_last(),
                self@.bindings.len() == m.bindings.len(),
                kill_in_reverse(self@.bindings, intro.take(j as int)) == kill_in_reverse(
                    m.bindings,
                    intro,
                ),
            decreases j,
        {
            j = j - 1;
            let ghost before = self@.bindings;
            let id = top.introduced[j];
            self.kill_slot(id);
            proof {
                assert(intro.take(j as int + 1).drop_last() =~= intro.take(j as int));
                assert(intro.take(j as int + 1).last() == intro[j as int]);
                assert(self@.bindings == kill_one(before, intro[j as int]));
                assert(kill_in_reverse(before, intro.take(j as int + 1)) == kill_in_reverse(
                    self@.bindings,
                    intro.take(j as int),
                ));
            }
        }
        proof {
            assert(intro.take(0) =~= Seq::<int>::empty());
            assert(kill_in_reverse(self@.bindings, intro.take(0)) == self@.bindings);
            assert(self@ =~~= close_scope_model(m));
            lemma_close_preserves_wf(m);
        }
        Ok(())
    }

    fn do_declare(&mut self, name: String, kind: Kind) -> (r: Result<(), ErrorKind>)
        ensures
            ({
                let s = step_declare(old(self)@, name@, kind);
                &&& final(self)@ == s.0
                &&& r == s.1
            }),
    {
        if self.scopes.len() == 0 {
            return Err(ErrorKind::ScopeUnderflow);
        }
        self.push_binding(name, kind);
        Ok(())
    }

    fn do_use(&self, name: &String) -> (r: Result<(), ErrorKind>)
        ensures
            r == step_use(self@, name@).1,
    {
        match self.resolve_idx(name) {
            None => Err(ErrorKind::UnboundName),
            Some(k) => {
                proof {
                    assert(self@.bindings[k as int] == self.bindings@[k as int]@);
                }
                match self.bindings[k].state {
                    BindState::Owned => Ok(()),
                    BindState::MovedOut => Err(ErrorKind::UseAfterMove),
                    BindState::Dropped => Err(ErrorKind::UseAfterDrop),
                }
            },
        }
    }

    fn do_move(&mut self, src: &String, dst: String) -> (r: Result<(), ErrorKind>)
        requires
            wf(old(self)@),
        ensures
            ({
                let s = crate::model::step_move(old(self)@, src@, dst@);
                &&& final(self)@ == s.0
                &&& r == s.1
            }),
    {
        let ghost m = old(self)@;
        proof {
            lemma_resolve_at(m.bindings, src@);
        }
        let k = match self.resolve_idx(src) {
            None => {
                return Err(ErrorKind::UnboundName);
            },
            Some(k) => k,
        };
        proof {
            assert(m.bindings[k as int] == self.bindings@[k as int]@);
        }
        match self.bindings[k].state {
            BindState::MovedOut => {
                return Err(ErrorKind::UseAfterMove);
            },
            BindState::Dropped => {
                return Err(ErrorKind::UseAfterDrop);
            },
            BindState::Owned => {},
        }
        if self.has_borrow_on(k, BorrowMode::Shared) || self.has_borrow_on(
            k,
            BorrowMode::Exclusive,
        ) {
            return Err(ErrorKind::MoveWhileBorrowed);
        }
        if self.bindings[k].kind == Kind::Value {
            return Err(ErrorKind::MoveOfValueType);
        }
        proof {
            lemma_live_implies_scope(m, k as int);
        }
        self.set_state(k, BindState::MovedOut);
        self.push_binding(dst, Kind::Resource);
        Ok(())
    }

    fn do_copy(&mut self, src: &String, dst: String) -> (r: Result<(), ErrorKind>)
        requires
            wf(old(self)@),
        ensures
            ({
                let s = crate::model::step_copy(old(self)@, src@, dst@);
                &&& final(self)@ == s.0
                &&& r == s.1
            }),
    {
        let ghost m = old(self)@;
        proof {
            lemma_resolve_at(m.bindings, src@);
        }
        let k = match self.resolve_idx(src) {
            None => {
                return Err(ErrorKind::UnboundName);
            },
            Some(k) => k,
        };
        proof {
            assert(m.bindings[k as int] == self.bindings@[k as int]@);
        }
        if self.bindings[k].kind == Kind::Resource {
            return Err(ErrorKind::CopyOfResource);
        }
        match self.bindings[k].state {
            BindState::MovedOut => {
                return Err(ErrorKind::UseAfterMove);
            },
            BindState::Dropped => {
                return Err(ErrorKind::UseAfterDrop);
            },
            BindState::Owned => {},
        }
        proof {
            lemma_live_implies_scope(m, k as int);
        }
        self.push_binding(dst, Kind::Value);
        Ok(())
    }

    fn do_clone(&mut self, src: &String, dst: String) -> (r: Result<(), ErrorKind>)
        requires
            wf(old(self)@),
        ensures
            ({
                let s = crate::model::step_clone(old(self)@, src@, dst@);
                &&& final(self)@ == s.0
                &&& r == s.1
            }),
    {
        let ghost m = old(self)@;
        proof {
            lemma_resolve_at(m.bindings, src@);
        }
        let k = match self.resolve_idx(src) {
            None => {
                return Err(ErrorKind::UnboundName);
            },
            Some(k) => k,
        };
        proof {
            assert(m.bindings[k as int] == self.bindings@[k as int]@);
        }
        match self.bindings[k].state {
            BindState::MovedOut => {
                return Err(ErrorKind::UseAfterMove);
            },
            BindState::Dropped => {
                return Err(ErrorKind::UseAfterDrop);
            },
            BindState::Owned => {},
        }
        proof {
            lemma_live_implies_scope(m, k as int);
        }
        let kind = self.bindings[k].kind;
        self.push_binding(dst, kind);
        Ok(())
    }

    fn do_borrow(&mut self, name: &String, mode: BorrowMode) -> (r: Result<(), ErrorKind>)
        requires
            wf(old(self)@),
        ensures
            ({
                let s = crate::model::step_borrow(old(self)@, name@, mode);
                &&& final(self)@ == s.0
                &&& r == s.1
            }),
    {
        let ghost m = old(self)@;
        proof {
            lemma_resolve_at(m.bindings, name@);
        }
        let k = match self.resolve_idx(name) {
            None => {
                return Err(ErrorKind::UnboundName);
            },
            Some(k) => k,
        };
        proof {
            assert(m.bindings[k as int] == self.bindings@[k as int]@);
        }
        match self.bindings[k].state {
            BindState::MovedOut => {
                return Err(ErrorKind::UseAfterMove);
            },
            BindState::Dropped => {
                return Err(ErrorKind::UseAfterDrop);
            },
            BindState::Owned => {},
        }
        match mode {
            BorrowMode::Shared => {
                if self.has_borrow_on(k, BorrowMode::Exclusive) {
                    return Err(ErrorKind::ExclusiveBorrowConflict);
                }
            },
            BorrowMode::Exclusive => {
                if self.has_borrow_on(k, BorrowMode::Shared) {
                    return Err(ErrorKind::SharedBorrowConflict);
                }
                if self.has_borrow_on(k, BorrowMode::Exclusive) {
                    return Err(ErrorKind::ExclusiveBorrowConflict);
                }
            },
        }
        proof {
            lemma_live_implies_scope(m, k as int);
        }
        self.push_borrow(k, mode);
        Ok(())
    }

    /// The sole entry point for one instruction: validates it against the
    /// current state and either applies its effect or rejects it with the
    /// specific violation, leaving the state untouched.
    pub fn apply(&mut self, instr: &Instruction) -> (r: Result<(), ErrorKind>)
        requires
            wf(old(self)@),
        ensures
            ({
                let s = step(old(self)@, instr@);
                &&& final(self)@ == s.0
                &&& r == s.1
                &&& wf(final(self)@)
            }),
    {
        let r = match instr {
            Instruction::Declare { name, kind } => self.do_declare(name.clone(), *kind),
            Instruction::Use { name } => self.do_use(name),
            Instruction::Move { src, dst } => self.do_move(src, dst.clone()),
            Instruction::Copy { src, dst } => self.do_copy(src, dst.clone()),
            Instruction::Clone { src, dst } => self.do_clone(src, dst.clone()),
            Instruction::BorrowShared { name } => self.do_borrow(name, BorrowMode::Shared),
            Instruction::BorrowExclusive { name } => self.do_borrow(name, BorrowMode::Exclusive),
            Instruction::EndScope => self.close_scope(),
        };
        proof {
            lemma_step_preserves_wf(old(self)@, instr@);
        }
        r
    }

    /// Declares a new owned binding in the innermost scope, shadowing any
    /// previous binding of that name, and returns its index. Never fails
    /// while a scope is open.
    pub fn declare(&mut self, name: String, kind: Kind) -> (id: usize)
        requires
            wf(old(self)@),
            old(self)@.scopes.len() > 0,
        ensures
            id as int == old(self)@.bindings.len(),
            final(self)@ == declare_model(old(self)@, name@, kind),
            wf(final(self)@),
    {
        let ghost m = old(self)@;
        let ghost gname = name@;
        let id = self.bindings.len();
        self.push_binding(name, kind);
        proof {
            lemma_declare_preserves_wf(m, gname, kind);
        }
        id
    }

    /// Closes every remaining open scope, innermost first, and reports
    /// overall success.
    pub fn finish(&mut self) -> (r: Result<(), ErrorKind>)
        requires
            wf(old(self)@),
        ensures
            final(self)@ == finish_model(old(self)@),
            final(self)@.scopes.len() == 0,
            wf(final(self)@),
            r == Ok::<(), ErrorKind>(()),
    {
        let ghost m0 = old(self)@;
        while self.scopes.len() > 0
            invariant
                wf(self@),
                self@.scopes.len() == self.scopes@.len(),
                finish_model(self@) == finish_model(m0),
            decreases self.scopes@.len(),
        {
            let ghost before = self@;
            let _step_result = self.close_scope();
            proof {
                assert(finish_model(before) == finish_model(close_scope_model(before)));
            }
        }
        proof {
            assert(finish_model(self@) == self@);
        }
        Ok(())
    }

    /// A read-only diagnostic snapshot: every binding record ever created, in
    /// introduction order, with its name and current state.
    pub fn snapshot(&self) -> (r: Vec<(String, BindState)>)
        ensures
            snapshot_view(r@) == snapshot_spec(self@),
    {
        let mut out: Vec<(String, BindState)> = Vec::new();
        let mut i: usize = 0;
        while i < self.bindings.len()
            invariant
                i <= self.bindings@.len(),
                out@.len() == i,
                self@.bindings.len() == self.bindings@.len(),
                forall|q: int|
                    0 <= q < i ==> (#[trigger] out@[q]).0@ == self@.bindings[q].name && out@[q].1
                        == self@.bindings[q].state,
            decreases self.bindings@.len() - i,
        {
            proof {
                assert(self@.bindings[i as int] == self.bindings@[i as int]@);
            }
            let name = self.bindings[i].name.clone();
            let st = self.bindings[i].state;
            out.push((name, st));
            i = i + 1;
        }
        proof {
            assert(snapshot_view(out@) =~= snapshot_spec(self@));
        }
        out
    }
}

/// Runs a whole instruction sequence against a fresh checker and reports
/// whether every instruction was legal. A rejected instruction has no
/// effect, so checking continues past it, as a batch diagnostic would.
pub fn check_program(prog: &Vec<Instruction>) -> (legal: bool)
    ensures
        legal == run_model(init_model(), instr_views(prog@)).1,
{
    let ghost pv = instr_views(prog@);
    let mut c = new_checker();
    let mut ok = true;
    let mut i: usize = 0;
    proof {
        assert(pv.take(0) =~= Seq::<InstrModel>::empty());
        assert(run_model(init_model(), Seq::<InstrModel>::empty()) == (init_model(), true));
    }
    while i < prog.len()
        invariant
            i <= prog@.len(),
            pv == instr_views(prog@),
            pv.len() == prog@.len(),
            wf(c@),
            c@ == run_model(init_model(), pv.take(i as int)).0,
            ok == run_model(init_model(), pv.take(i as int)).1,
        decreases prog@.len() - i,
    {
        let ghost mbefore = c@;
        let r = c.apply(&prog[i]);
        if r.is_err() {
            ok = false;
        }
        proof {
            assert(pv[i as int] == prog@[i as int]@);
            assert(pv.take(i as int + 1) =~= pv.take(i as int).push(pv[i as int]));
            lemma_run_snoc(init_model(), pv.take(i as int), pv[i as int]);
        }
        i = i + 1;
    }
    proof {
        assert(pv.take(pv.len() as int) =~= pv);
    }
    ok
}

} // verus!
