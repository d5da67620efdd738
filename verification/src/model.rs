//! The mathematical model of the checker: the state it tracks, the verdict of
//! each instruction, and the transition function `step` that the executable
//! checker is proved to follow.

use vstd::prelude::*;

verus! {

/// Whether a binding's value is trivially duplicable (`Value`, copied on
/// assignment) or single-owner (`Resource`, moved on assignment and duplicable
/// only by an explicit clone).
#[derive(Clone, Copy, Debug, PartialEq, Eq, Structural)]
pub enum Kind {
    Value,
    Resource,
}

/// The ownership state of one binding.
#[derive(Clone, Copy, Debug, PartialEq, Eq, Structural)]
pub enum BindState {
    Owned,
    MovedOut,
    Dropped,
}

/// The mode of a borrow: many `Shared` borrows may coexist, a single
/// `Exclusive` borrow excludes every other borrow.
#[derive(Clone, Copy, Debug, PartialEq, Eq, Structural)]
pub enum BorrowMode {
    Shared,
    Exclusive,
}

/// The closed set of rule violations an instruction can be rejected with.
#[derive(Clone, Copy, Debug, PartialEq, Eq, Structural)]
pub enum ErrorKind {
    /// The name does not resolve to any binding in an open scope.
    UnboundName,
    /// The binding's value was moved to another binding.
    UseAfterMove,
    /// The binding's value was dropped.
    UseAfterDrop,
    /// The source of a move still has active borrows.
    MoveWhileBorrowed,
    /// Move of a `Value`-kind binding: values copy, they never move.
    MoveOfValueType,
    /// Copy of a `Resource`-kind binding: resources need an explicit clone.
    CopyOfResource,
    /// An exclusive borrow is already active on the binding.
    ExclusiveBorrowConflict,
    /// At least one shared borrow is already active on the binding.
    SharedBorrowConflict,
    /// `EndScope` (or a declaration) with no scope open: caller misuse.
    ScopeUnderflow,
}

/// One binding record. Records are never removed: a binding that left scope
/// stays in the table, not `live`, so that diagnostics can still show it.
#[verifier::ext_equal]
pub ghost struct BindingModel {
    pub name: Seq<char>,
    pub kind: Kind,
    pub state: BindState,
    /// Whether the binding's scope is still open, i.e. the name can resolve
    /// to this record.
    pub live: bool,
}

/// One active borrow: a back-reference to the binding table, never ownership.
#[verifier::ext_equal]
pub ghost struct BorrowModel {
    pub target: int,
    pub mode: BorrowMode,
}

/// One open lexical scope. It records which bindings were introduced in it,
/// in introduction order, and owns the borrows created in it: when the scope
/// closes, its bindings are dropped in reverse introduction order and its
/// borrows are released with it.
#[verifier::ext_equal]
pub ghost struct ScopeModel {
    pub introduced: Seq<int>,
    pub borrows: Seq<BorrowModel>,
}

/// The whole abstract state: the binding table and the scope stack.
#[verifier::ext_equal]
pub ghost struct CheckerModel {
    pub bindings: Seq<BindingModel>,
    pub scopes: Seq<ScopeModel>,
}

/// The instruction vocabulary, over names as character sequences.
pub ghost enum InstrModel {
    Declare { name: Seq<char>, kind: Kind },
    Use { name: Seq<char> },
    Move { src: Seq<char>, dst: Seq<char> },
    Copy { src: Seq<char>, dst: Seq<char> },
    Clone { src: Seq<char>, dst: Seq<char> },
    BorrowShared { name: Seq<char> },
    BorrowExclusive { name: Seq<char> },
    EndScope,
}

/// A fresh checker: no bindings, one open root scope.
pub open spec fn init_model() -> CheckerModel {
    CheckerModel {
        bindings: Seq::empty(),
        scopes: seq![ScopeModel { introduced: Seq::empty(), borrows: Seq::empty() }],
    }
}

/// The innermost live binding bound to `name`: the newest record that is both
/// live and so named, since inner scopes declare later than outer ones.
pub open spec fn resolve_at(bs: Seq<BindingModel>, name: Seq<char>) -> Option<int>
    decreases bs.len(),
{
    if bs.len() == 0 {
        None
    } else if bs.last().live && bs.last().name == name {
        Some(bs.len() - 1)
    } else {
        resolve_at(bs.drop_last(), name)
    }
}

/// Whether scope `i` exists and introduced a `j`-th binding.
pub open spec fn intro_ok(m: CheckerModel, i: int, j: int) -> bool {
    0 <= i < m.scopes.len() && 0 <= j < m.scopes[i].introduced.len()
}

/// The `j`-th binding introduced by scope `i`.
pub open spec fn intro_at(m: CheckerModel, i: int, j: int) -> int {
    m.scopes[i].introduced[j]
}

/// Whether scope `i` exists and holds a `j`-th borrow.
pub open spec fn borrow_ok(m: CheckerModel, i: int, j: int) -> bool {
    0 <= i < m.scopes.len() && 0 <= j < m.scopes[i].borrows.len()
}

/// The `j`-th borrow held by scope `i`.
pub open spec fn borrow_at(m: CheckerModel, i: int, j: int) -> BorrowModel {
    m.scopes[i].borrows[j]
}

/// Whether some open scope holds a borrow of `mode` on binding `target`.
pub open spec fn has_borrow(m: CheckerModel, target: int, mode: BorrowMode) -> bool {
    exists|i: int, j: int|
        borrow_ok(m, i, j) && (#[trigger] borrow_at(m, i, j)).target == target && borrow_at(
            m,
            i,
            j,
        ).mode == mode
}

/// Whether any borrow at all is active on binding `target`.
pub open spec fn borrowed(m: CheckerModel, target: int) -> bool {
    has_borrow(m, target, BorrowMode::Shared) || has_borrow(m, target, BorrowMode::Exclusive)
}

/// Whether binding `k` was introduced by some open scope.
pub open spec fn introduced_somewhere(m: CheckerModel, k: int) -> bool {
    exists|i: int, j: int| intro_ok(m, i, j) && #[trigger] intro_at(m, i, j) == k
}

/// Whether binding `k` was introduced by a scope no deeper than `bound`.
pub open spec fn introduced_below(m: CheckerModel, k: int, bound: int) -> bool {
    exists|i: int, j: int| intro_ok(m, i, j) && i <= bound && #[trigger] intro_at(m, i, j) == k
}

/// Every introduction entry indexes into the binding table.
pub open spec fn wf_intro(m: CheckerModel) -> bool {
    forall|i: int, j: int|
        intro_ok(m, i, j) ==> 0 <= #[trigger] intro_at(m, i, j) < m.bindings.len()
}

/// No binding is introduced twice: the scopes' introduction lists are
/// pairwise disjoint and each is free of repeats.
pub open spec fn wf_intro_distinct(m: CheckerModel) -> bool {
    forall|i1: int, j1: int, i2: int, j2: int|
        intro_ok(m, i1, j1) && intro_ok(m, i2, j2) && #[trigger] intro_at(m, i1, j1)
            == #[trigger] intro_at(m, i2, j2) ==> i1 == i2 && j1 == j2
}

/// A live binding was introduced by some open scope (so killing the scopes
/// kills every live binding).
pub open spec fn wf_live(m: CheckerModel) -> bool {
    forall|k: int|
        0 <= k < m.bindings.len() && (#[trigger] m.bindings[k]).live ==> introduced_somewhere(m, k)
}

/// Every borrow targets a live, owned binding that was introduced no deeper
/// than the borrow itself, so a binding always outlives its borrows.
pub open spec fn wf_borrows(m: CheckerModel) -> bool {
    forall|i: int, j: int|
        borrow_ok(m, i, j) ==> {
            let b = #[trigger] borrow_at(m, i, j);
            &&& 0 <= b.target < m.bindings.len()
            &&& m.bindings[b.target].live
            &&& m.bindings[b.target].state == BindState::Owned
            &&& introduced_below(m, b.target, i)
        }
}

/// The borrow-conflict rule: whenever two distinct borrow records share a
/// target, neither may be exclusive. Hence at most one exclusive borrow per
/// binding, and never an exclusive borrow beside a shared one.
pub open spec fn wf_excl(m: CheckerModel) -> bool {
    forall|i1: int, j1: int, i2: int, j2: int|
        borrow_ok(m, i1, j1) && borrow_ok(m, i2, j2) && !(i1 == i2 && j1 == j2)
            && (#[trigger] borrow_at(m, i1, j1)).target == (#[trigger] borrow_at(
            m,
            i2,
            j2,
        )).target ==> borrow_at(m, i1, j1).mode != BorrowMode::Exclusive
}

/// Well-formedness of the whole state: established by a fresh checker and
/// preserved by every instruction.
pub open spec fn wf(m: CheckerModel) -> bool {
    &&& wf_intro(m)
    &&& wf_intro_distinct(m)
    &&& wf_live(m)
    &&& wf_borrows(m)
    &&& wf_excl(m)
}

/// The verdict of reading a binding in the given state.
pub open spec fn use_verdict(st: BindState) -> Result<(), ErrorKind> {
    match st {
        BindState::Owned => Ok(()),
        BindState::MovedOut => Err(ErrorKind::UseAfterMove),
        BindState::Dropped => Err(ErrorKind::UseAfterDrop),
    }
}

/// A new owned binding named `name` in the innermost scope, shadowing any
/// previous binding of that name. Meaningful only while a scope is open.
pub open spec fn declare_model(m: CheckerModel, name: Seq<char>, kind: Kind) -> CheckerModel {
    let id = m.bindings.len() as int;
    let n = m.scopes.len() - 1;
    CheckerModel {
        bindings: m.bindings.push(
            BindingModel { name, kind, state: BindState::Owned, live: true },
        ),
        scopes: m.scopes.update(
            n,
            ScopeModel {
                introduced: m.scopes[n].introduced.push(id),
                borrows: m.scopes[n].borrows,
            },
        ),
    }
}

/// The same state with binding `k`'s ownership state replaced.
pub open spec fn set_state_model(m: CheckerModel, k: int, st: BindState) -> CheckerModel {
    CheckerModel {
        bindings: m.bindings.update(
            k,
            BindingModel {
                name: m.bindings[k].name,
                kind: m.bindings[k].kind,
                state: st,
                live: m.bindings[k].live,
            },
        ),
        scopes: m.scopes,
    }
}

/// A new borrow of `mode` on binding `k`, held by the innermost scope.
pub open spec fn add_borrow_model(m: CheckerModel, k: int, mode: BorrowMode) -> CheckerModel {
    let n = m.scopes.len() - 1;
    CheckerModel {
        bindings: m.bindings,
        scopes: m.scopes.update(
            n,
            ScopeModel {
                introduced: m.scopes[n].introduced,
                borrows: m.scopes[n].borrows.push(BorrowModel { target: k, mode }),
            },
        ),
    }
}

/// Binding `k` leaves scope: it stops resolving, and an owned value is
/// dropped. A value already moved out stays moved out.
pub open spec fn kill_one(bs: Seq<BindingModel>, k: int) -> Seq<BindingModel> {
    bs.update(
        k,
        BindingModel {
            name: bs[k].name,
            kind: bs[k].kind,
            state: if bs[k].state == BindState::Owned {
                BindState::Dropped
            } else {
                bs[k].state
            },
            live: false,
        },
    )
}

/// Kills the bindings listed in `intro`, the last-introduced one first: the
/// reverse drop order of a closing scope.
pub open spec fn kill_in_reverse(bs: Seq<BindingModel>, intro: Seq<int>) -> Seq<BindingModel>
    decreases intro.len(),
{
    if intro.len() == 0 {
        bs
    } else {
        kill_in_reverse(kill_one(bs, intro.last()), intro.drop_last())
    }
}

/// Closing the innermost scope: its bindings are dropped in reverse
/// introduction order and the borrows it holds are released with it.
pub open spec fn close_scope_model(m: CheckerModel) -> CheckerModel {
    let n = m.scopes.len() - 1;
    CheckerModel {
        bindings: kill_in_reverse(m.bindings, m.scopes[n].introduced),
        scopes: m.scopes.drop_last(),
    }
}

/// A new empty scope on top of the stack.
pub open spec fn open_scope_model(m: CheckerModel) -> CheckerModel {
    CheckerModel {
        bindings: m.bindings,
        scopes: m.scopes.push(ScopeModel { introduced: Seq::empty(), borrows: Seq::empty() }),
    }
}

pub open spec fn step_declare(m: CheckerModel, name: Seq<char>, kind: Kind) -> (CheckerModel,
    Result<(), ErrorKind>) {
    if m.scopes.len() == 0 {
        (m, Err(ErrorKind::ScopeUnderflow))
    } else {
        (declare_model(m, name, kind), Ok(()))
    }
}

pub open spec fn step_use(m: CheckerModel, name: Seq<char>) -> (CheckerModel, Result<
    (),
    ErrorKind,
>) {
    match resolve_at(m.bindings, name) {
        None => (m, Err(ErrorKind::UnboundName)),
        Some(k) => (m, use_verdict(m.bindings[k].state)),
    }
}

pub open spec fn step_move(m: CheckerModel, src: Seq<char>, dst: Seq<char>) -> (CheckerModel,
    Result<(), ErrorKind>) {
    match resolve_at(m.bindings, src) {
        None => (m, Err(ErrorKind::UnboundName)),
        Some(k) => {
            if m.bindings[k].state != BindState::Owned {
                (m, use_verdict(m.bindings[k].state))
            } else if borrowed(m, k) {
                (m, Err(ErrorKind::MoveWhileBorrowed))
            } else if m.bindings[k].kind == Kind::Value {
                (m, Err(ErrorKind::MoveOfValueType))
            } else {
                (declare_model(set_state_model(m, k, BindState::MovedOut), dst, Kind::Resource),
                    Ok(()))
            }
        },
    }
}

pub open spec fn step_copy(m: CheckerModel, src: Seq<char>, dst: Seq<char>) -> (CheckerModel,
    Result<(), ErrorKind>) {
    match resolve_at(m.bindings, src) {
        None => (m, Err(ErrorKind::UnboundName)),
        Some(k) => {
            if m.bindings[k].kind == Kind::Resource {
                (m, Err(ErrorKind::CopyOfResource))
            } else if m.bindings[k].state != BindState::Owned {
                (m, use_verdict(m.bindings[k].state))
            } else {
                (declare_model(m, dst, Kind::Value), Ok(()))
            }
        },
    }
}

pub open spec fn step_clone(m: CheckerModel, src: Seq<char>, dst: Seq<char>) -> (CheckerModel,
    Result<(), ErrorKind>) {
    match resolve_at(m.bindings, src) {
        None => (m, Err(ErrorKind::UnboundName)),
        Some(k) => {
            if m.bindings[k].state != BindState::Owned {
                (m, use_verdict(m.bindings[k].state))
            } else {
                (declare_model(m, dst, m.bindings[k].kind), Ok(()))
            }
        },
    }
}

pub open spec fn step_borrow(m: CheckerModel, name: Seq<char>, mode: BorrowMode) -> (CheckerModel,
    Result<(), ErrorKind>) {
    match resolve_at(m.bindings, name) {
        None => (m, Err(ErrorKind::UnboundName)),
        Some(k) => {
            if m.bindings[k].state != BindState::Owned {
                (m, use_verdict(m.bindings[k].state))
            } else {
                match mode {
                    BorrowMode::Shared => {
                        if has_borrow(m, k, BorrowMode::Exclusive) {
                            (m, Err(ErrorKind::ExclusiveBorrowConflict))
                        } else {
                            (add_borrow_model(m, k, BorrowMode::Shared), Ok(()))
                        }
                    },
                    BorrowMode::Exclusive => {
                        if has_borrow(m, k, BorrowMode::Shared) {
                            (m, Err(ErrorKind::SharedBorrowConflict))
                        } else if has_borrow(m, k, BorrowMode::Exclusive) {
                            (m, Err(ErrorKind::ExclusiveBorrowConflict))
                        } else {
                            (add_borrow_model(m, k, BorrowMode::Exclusive), Ok(()))
                        }
                    },
                }
            }
        },
    }
}

pub open spec fn step_end_scope(m: CheckerModel) -> (CheckerModel, Result<(), ErrorKind>) {
    if m.scopes.len() == 0 {
        (m, Err(ErrorKind::ScopeUnderflow))
    } else {
        (close_scope_model(m), Ok(()))
    }
}

/// The checker as a pure transition function: one instruction in, the next
/// state and this instruction's verdict out. A rejected instruction leaves
/// the state unchanged.
pub open spec fn step(m: CheckerModel, instr: InstrModel) -> (CheckerModel, Result<
    (),
    ErrorKind,
>) {
    match instr {
        InstrModel::Declare { name, kind } => step_declare(m, name, kind),
        InstrModel::Use { name } => step_use(m, name),
        InstrModel::Move { src, dst } => step_move(m, src, dst),
        InstrModel::Copy { src, dst } => step_copy(m, src, dst),
        InstrModel::Clone { src, dst } => step_clone(m, src, dst),
        InstrModel::BorrowShared { name } => step_borrow(m, name, BorrowMode::Shared),
        InstrModel::BorrowExclusive { name } => step_borrow(m, name, BorrowMode::Exclusive),
        InstrModel::EndScope => step_end_scope(m),
    }
}

/// Runs a whole instruction sequence from `m`, instruction by instruction;
/// the flag is whether every instruction was accepted. A rejected instruction
/// leaves the state untouched, so the run continues past it.
pub open spec fn run_model(m: CheckerModel, prog: Seq<InstrModel>) -> (CheckerModel, bool)
    decreases prog.len(),
{
    if prog.len() == 0 {
        (m, true)
    } else {
        let first = step(m, prog[0]);
        let rest = run_model(first.0, prog.skip(1));
        (rest.0, first.1 is Ok && rest.1)
    }
}

/// Closing every remaining open scope, innermost first.
pub open spec fn finish_model(m: CheckerModel) -> CheckerModel
    decreases m.scopes.len(),
{
    if m.scopes.len() == 0 {
        m
    } else {
        finish_model(close_scope_model(m))
    }
}

/// What a diagnostic snapshot shows: every binding record ever created, in
/// introduction order, with its current state.
pub open spec fn snapshot_spec(m: CheckerModel) -> Seq<(Seq<char>, BindState)> {
    Seq::new(m.bindings.len(), |i: int| (m.bindings[i].name, m.bindings[i].state))
}

/// The abstract content of an executable snapshot: each name as its
/// character sequence, beside the recorded state.
pub open spec fn snapshot_view(r: Seq<(String, BindState)>) -> Seq<(Seq<char>, BindState)> {
    Seq::new(r.len(), |i: int| (r[i].0@, r[i].1))
}

} // verus!
