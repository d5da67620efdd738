//! Proofs about the model: the checker's invariant is established by a fresh
//! state and preserved by every instruction, states move one way only, a
//! closing scope drops its bindings in reverse introduction order, and a
//! clone leaves two independently usable bindings.

use vstd::prelude::*;

use crate::model::add_borrow_model;
use crate::model::borrow_at;
use crate::model::borrow_ok;
use crate::model::borrowed;
use crate::model::close_scope_model;
use crate::model::declare_model;
use crate::model::has_borrow;
use crate::model::init_model;
use crate::model::intro_at;
use crate::model::intro_ok;
use crate::model::introduced_below;
use crate::model::introduced_somewhere;
use crate::model::kill_in_reverse;
use crate::model::kill_one;
use crate::model::open_scope_model;
use crate::model::resolve_at;
use crate::model::run_model;
use crate::model::set_state_model;
use crate::model::snapshot_spec;
use crate::model::step;
use crate::model::wf;
use crate::model::wf_excl;
use crate::model::wf_intro;
use crate::model::wf_intro_distinct;
use crate::model::BindState;
use crate::model::BindingModel;
use crate::model::BorrowMode;
use crate::model::CheckerModel;
use crate::model::ErrorKind;
use crate::model::InstrModel;
use crate::model::Kind;

verus! {

/// A fresh checker is well formed.
pub proof fn lemma_wf_init()
    ensures
        wf(init_model()),
{
    let m = init_model();
    assert(m.scopes[0].introduced.len() == 0);
    assert(m.scopes[0].borrows.len() == 0);
    assert(forall|i: int, j: int| !intro_ok(m, i, j));
    assert(forall|i: int, j: int| !borrow_ok(m, i, j));
}

/// What a successful resolution returns: a live binding of that name; and
/// when resolution fails, no live binding of that name exists.
pub proof fn lemma_resolve_at(bs: Seq<BindingModel>, name: Seq<char>)
    ensures
        match resolve_at(bs, name) {
            Some(k) => 0 <= k < bs.len() && bs[k].live && bs[k].name == name,
            None => forall|k: int| 0 <= k < bs.len() && (#[trigger] bs[k]).live ==> bs[k].name != name,
        },
    decreases bs.len(),
{
    if bs.len() > 0 {
        if !(bs.last().live && bs.last().name == name) {
            lemma_resolve_at(bs.drop_last(), name);
            assert(forall|k: int|
                0 <= k < bs.len() - 1 ==> bs.drop_last()[k] == #[trigger] bs[k]);
        }
    }
}

/// Appending a record changes resolution only for that record's own name.
pub proof fn lemma_resolve_at_push(bs: Seq<BindingModel>, b: BindingModel, name: Seq<char>)
    ensures
        resolve_at(bs.push(b), name) == if b.live && b.name == name {
            Some(bs.len() as int)
        } else {
            resolve_at(bs, name)
        },
{
    assert(bs.push(b).drop_last() =~= bs);
    assert(bs.push(b).last() == b);
}

/// A well-formed state with a live binding has an open scope.
pub proof fn lemma_live_implies_scope(m: CheckerModel, k: int)
    requires
        wf(m),
        0 <= k < m.bindings.len(),
        m.bindings[k].live,
    ensures
        m.scopes.len() > 0,
{
    assert(introduced_somewhere(m, k));
    let (i, j) = choose|i: int, j: int| intro_ok(m, i, j) && #[trigger] intro_at(m, i, j) == k;
    assert(intro_ok(m, i, j));
}

/// The pointwise outcome of the reverse-order kill of a closing scope: a
/// listed binding stops being live and an owned one is dropped; every other
/// binding is untouched. Repeats in the list change nothing: killing is
/// idempotent.
pub proof fn lemma_kill_in_reverse(bs: Seq<BindingModel>, intro: Seq<int>)
    requires
        forall|j: int| 0 <= j < intro.len() ==> 0 <= #[trigger] intro[j] < bs.len(),
    ensures
        kill_in_reverse(bs, intro).len() == bs.len(),
        forall|k: int|
            0 <= k < bs.len() && !intro.contains(k) ==> kill_in_reverse(bs, intro)[k] == bs[k],
        forall|j: int|
            0 <= j < intro.len() ==> {
                let k = #[trigger] intro[j];
                let out = kill_in_reverse(bs, intro);
                &&& out[k].live == false
                &&& out[k].name == bs[k].name
                &&& out[k].kind == bs[k].kind
                &&& out[k].state == (if bs[k].state == BindState::Owned {
                    BindState::Dropped
                } else {
                    bs[k].state
                })
            },
    decreases intro.len(),
{
    if intro.len() > 0 {
        let last = intro.last();
        let bs1 = kill_one(bs, last);
        let rest = intro.drop_last();
        assert(forall|j: int| 0 <= j < rest.len() ==> #[trigger] rest[j] == intro[j]);
        lemma_kill_in_reverse(bs1, rest);
        let out = kill_in_reverse(bs, intro);
        assert(out == kill_in_reverse(bs1, rest));
        assert forall|k: int|
            0 <= k < bs.len() && !intro.contains(k) implies out[k] == bs[k] by {
            assert(intro[intro.len() - 1] == last);
            assert(k != last);
            assert(!rest.contains(k)) by {
                if rest.contains(k) {
                    let j = choose|j: int| 0 <= j < rest.len() && rest[j] == k;
                    assert(intro[j] == k);
                }
            }
            assert(bs1[k] == bs[k]);
        }
        assert forall|j: int| 0 <= j < intro.len() implies {
            let k = #[trigger] intro[j];
            &&& out[k].live == false
            &&& out[k].name == bs[k].name
            &&& out[k].kind == bs[k].kind
            &&& out[k].state == (if bs[k].state == BindState::Owned {
                BindState::Dropped
            } else {
                bs[k].state
            })
        } by {
            let k = intro[j];
            if rest.contains(k) {
                let j1 = choose|j1: int| 0 <= j1 < rest.len() && rest[j1] == k;
                assert(rest[j1] == k);
                if k == last {
                    assert(bs1[k].state != BindState::Owned);
                } else {
                    assert(bs1[k] == bs[k]);
                }
            } else {
                assert(j == intro.len() - 1 || rest[j] == k);
                assert(k == last);
                assert(out[k] == bs1[k]);
            }
        }
    }
}

/// Declaring a binding in an open scope preserves well-formedness.
pub proof fn lemma_declare_preserves_wf(m: CheckerModel, name: Seq<char>, kind: Kind)
    requires
        wf(m),
        m.scopes.len() > 0,
    ensures
        wf(declare_model(m, name, kind)),
{
    let m2 = declare_model(m, name, kind);
    let n = m.scopes.len() - 1;
    let id = m.bindings.len() as int;
    let newj = m.scopes[n].introduced.len() as int;
    // the introduction entries: one new, the rest carried over
    assert(forall|i: int, j: int|
        intro_ok(m2, i, j) && !(i == n && j == newj) ==> intro_ok(m, i, j) && #[trigger] intro_at(
            m2,
            i,
            j,
        ) == intro_at(m, i, j));
    assert(forall|i: int, j: int|
        intro_ok(m, i, j) ==> intro_ok(m2, i, j) && #[trigger] intro_at(m2, i, j) == intro_at(
            m,
            i,
            j,
        ));
    assert(intro_ok(m2, n, newj) && intro_at(m2, n, newj) == id);
    // the borrows are carried over unchanged
    assert(forall|i: int, j: int|
        borrow_ok(m2, i, j) ==> borrow_ok(m, i, j) && #[trigger] borrow_at(m2, i, j) == borrow_at(
            m,
            i,
            j,
        ));
    assert(forall|i: int, j: int|
        borrow_ok(m, i, j) ==> borrow_ok(m2, i, j) && #[trigger] borrow_at(m2, i, j) == borrow_at(
            m,
            i,
            j,
        ));
    // the old bindings are carried over, one new live owned one at the end
    assert(forall|k: int| 0 <= k < id ==> #[trigger] m2.bindings[k] == m.bindings[k]);
    assert(wf_intro(m2));
    assert(wf_intro_distinct(m2));
    assert forall|k: int|
        0 <= k < m2.bindings.len() && (#[trigger] m2.bindings[k]).live implies
        introduced_somewhere(m2, k) by {
        if k < id {
            assert(introduced_somewhere(m, k));
            let (i, j) = choose|i: int, j: int|
                intro_ok(m, i, j) && #[trigger] intro_at(m, i, j) == k;
            assert(intro_ok(m2, i, j) && intro_at(m2, i, j) == k);
        } else {
            assert(intro_at(m2, n, newj) == k);
        }
    }
    assert forall|i: int, j: int| borrow_ok(m2, i, j) implies {
        let b = #[trigger] borrow_at(m2, i, j);
        &&& 0 <= b.target < m2.bindings.len()
        &&& m2.bindings[b.target].live
        &&& m2.bindings[b.target].state == BindState::Owned
        &&& introduced_below(m2, b.target, i)
    } by {
        let b = borrow_at(m2, i, j);
        assert(b == borrow_at(m, i, j));
        assert(introduced_below(m, b.target, i));
        let (i2, j2) = choose|i2: int, j2: int|
            intro_ok(m, i2, j2) && i2 <= i && #[trigger] intro_at(m, i2, j2) == b.target;
        assert(intro_ok(m2, i2, j2) && i2 <= i && intro_at(m2, i2, j2) == b.target);
    }
    assert(wf_excl(m2));
}

/// Changing the state of an unborrowed binding preserves well-formedness.
pub proof fn lemma_set_state_preserves_wf(m: CheckerModel, k: int, st: BindState)
    requires
        wf(m),
        0 <= k < m.bindings.len(),
        !borrowed(m, k),
    ensures
        wf(set_state_model(m, k, st)),
{
    let m2 = set_state_model(m, k, st);
    assert(m2.scopes == m.scopes);
    assert(m2.bindings.len() == m.bindings.len());
    assert(forall|j: int|
        0 <= j < m.bindings.len() && j != k ==> #[trigger] m2.bindings[j] == m.bindings[j]);
    assert(m2.bindings[k].live == m.bindings[k].live);
    assert(forall|i: int, j: int|
        intro_ok(m2, i, j) ==> intro_ok(m, i, j) && #[trigger] intro_at(m2, i, j) == intro_at(
            m,
            i,
            j,
        ));
    assert(forall|i: int, j: int|
        intro_ok(m, i, j) ==> intro_ok(m2, i, j) && #[trigger] intro_at(m2, i, j) == intro_at(
            m,
            i,
            j,
        ));
    assert(forall|i: int, j: int|
        borrow_ok(m2, i, j) ==> borrow_ok(m, i, j) && #[trigger] borrow_at(m2, i, j) == borrow_at(
            m,
            i,
            j,
        ));
    assert(forall|i: int, j: int|
        borrow_ok(m, i, j) ==> borrow_ok(m2, i, j) && #[trigger] borrow_at(m2, i, j) == borrow_at(
            m,
            i,
            j,
        ));
    assert(wf_intro(m2));
    assert(wf_intro_distinct(m2));
    assert forall|k2: int|
        0 <= k2 < m2.bindings.len() && (#[trigger] m2.bindings[k2]).live implies
        introduced_somewhere(m2, k2) by {
        assert(m.bindings[k2].live);
        assert(introduced_somewhere(m, k2));
        let (i, j) = choose|i: int, j: int|
            intro_ok(m, i, j) && #[trigger] intro_at(m, i, j) == k2;
        assert(intro_ok(m2, i, j) && intro_at(m2, i, j) == k2);
    }
    assert forall|i: int, j: int| borrow_ok(m2, i, j) implies {
        let b = #[trigger] borrow_at(m2, i, j);
        &&& 0 <= b.target < m2.bindings.len()
        &&& m2.bindings[b.target].live
        &&& m2.bindings[b.target].state == BindState::Owned
        &&& introduced_below(m2, b.target, i)
    } by {
        let b = borrow_at(m2, i, j);
        assert(b == borrow_at(m, i, j));
        assert(b.target != k) by {
            if b.target == k {
                assert(has_borrow(m, k, b.mode));
            }
        }
        assert(introduced_below(m, b.target, i));
        let (i2, j2) = choose|i2: int, j2: int|
            intro_ok(m, i2, j2) && i2 <= i && #[trigger] intro_at(m, i2, j2) == b.target;
        assert(intro_ok(m2, i2, j2) && intro_at(m2, i2, j2) == b.target);
    }
    assert(wf_excl(m2));
}

/// Adding a borrow that respects the conflict rule preserves
/// well-formedness.
pub proof fn lemma_add_borrow_preserves_wf(m: CheckerModel, k: int, mode: BorrowMode)
    requires
        wf(m),
        m.scopes.len() > 0,
        0 <= k < m.bindings.len(),
        m.bindings[k].live,
        m.bindings[k].state == BindState::Owned,
        mode == BorrowMode::Shared ==> !has_borrow(m, k, BorrowMode::Exclusive),
        mode == BorrowMode::Exclusive ==> !borrowed(m, k),
    ensures
        wf(add_borrow_model(m, k, mode)),
{
    let m2 = add_borrow_model(m, k, mode);
    let n = m.scopes.len() - 1;
    let newj = m.scopes[n].borrows.len() as int;
    assert(forall|i: int, j: int|
        intro_ok(m2, i, j) <==> intro_ok(m, i, j));
    assert(forall|i: int, j: int|
        intro_ok(m, i, j) ==> #[trigger] intro_at(m2, i, j) == intro_at(m, i, j));
    assert(forall|i: int, j: int|
        borrow_ok(m2, i, j) && !(i == n && j == newj) ==> borrow_ok(m, i, j)
            && #[trigger] borrow_at(m2, i, j) == borrow_at(m, i, j));
    assert(forall|i: int, j: int|
        borrow_ok(m, i, j) ==> borrow_ok(m2, i, j) && #[trigger] borrow_at(m2, i, j) == borrow_at(
            m,
            i,
            j,
        ));
    assert(borrow_ok(m2, n, newj));
    assert(borrow_at(m2, n, newj).target == k && borrow_at(m2, n, newj).mode == mode);
    assert(wf_intro(m2));
    assert(wf_intro_distinct(m2));
    assert forall|k2: int|
        0 <= k2 < m2.bindings.len() && (#[trigger] m2.bindings[k2]).live implies
        introduced_somewhere(m2, k2) by {
        assert(introduced_somewhere(m, k2));
        let (i, j) = choose|i: int, j: int|
            intro_ok(m, i, j) && #[trigger] intro_at(m, i, j) == k2;
        assert(intro_ok(m2, i, j) && intro_at(m2, i, j) == k2);
    }
    assert forall|i: int, j: int| borrow_ok(m2, i, j) implies {
        let b = #[trigger] borrow_at(m2, i, j);
        &&& 0 <= b.target < m2.bindings.len()
        &&& m2.bindings[b.target].live
        &&& m2.bindings[b.target].state == BindState::Owned
        &&& introduced_below(m2, b.target, i)
    } by {
        let b = borrow_at(m2, i, j);
        if i == n && j == newj {
            assert(introduced_somewhere(m, k));
            let (i2, j2) = choose|i2: int, j2: int|
                intro_ok(m, i2, j2) && #[trigger] intro_at(m, i2, j2) == k;
            assert(i2 <= n);
            assert(intro_ok(m2, i2, j2) && intro_at(m2, i2, j2) == k);
        } else {
            assert(b == borrow_at(m, i, j));
            assert(introduced_below(m, b.target, i));
            let (i2, j2) = choose|i2: int, j2: int|
                intro_ok(m, i2, j2) && i2 <= i && #[trigger] intro_at(m, i2, j2) == b.target;
            assert(intro_ok(m2, i2, j2) && intro_at(m2, i2, j2) == b.target);
        }
    }
    assert forall|i1: int, j1: int, i2: int, j2: int|
        borrow_ok(m2, i1, j1) && borrow_ok(m2, i2, j2) && !(i1 == i2 && j1 == j2)
            && (#[trigger] borrow_at(m2, i1, j1)).target == (#[trigger] borrow_at(
            m2,
            i2,
            j2,
        )).target implies borrow_at(m2, i1, j1).mode != BorrowMode::Exclusive by {
        if i1 == n && j1 == newj {
            // the new borrow: any partner targeting k is an old borrow on k
            assert(borrow_at(m2, i2, j2).target == k);
            assert(borrow_ok(m, i2, j2) && borrow_at(m2, i2, j2) == borrow_at(m, i2, j2));
            assert(has_borrow(m, k, borrow_at(m, i2, j2).mode));
        } else {
            if i2 == n && j2 == newj {
                // partner is the new borrow on k: the old borrow would conflict
                assert(borrow_at(m2, i1, j1).target == k);
                assert(borrow_ok(m, i1, j1) && borrow_at(m2, i1, j1) == borrow_at(m, i1, j1));
                assert(has_borrow(m, k, borrow_at(m, i1, j1).mode));
            }
        }
    }
}

/// Closing the innermost scope preserves well-formedness.
pub proof fn lemma_close_preserves_wf(m: CheckerModel)
    requires
        wf(m),
        m.scopes.len() > 0,
    ensures
        wf(close_scope_model(m)),
{
    let m2 = close_scope_model(m);
    let n = m.scopes.len() - 1;
    let intro = m.scopes[n].introduced;
    assert(forall|j: int|
        0 <= j < intro.len() ==> #[trigger] intro[j] == intro_at(m, n, j));
    assert(forall|j: int| 0 <= j < intro.len() ==> 0 <= #[trigger] intro[j] < m.bindings.len());
    lemma_kill_in_reverse(m.bindings, intro);
    assert(forall|i: int, j: int|
        intro_ok(m2, i, j) ==> i < n && intro_ok(m, i, j) && #[trigger] intro_at(m2, i, j)
            == intro_at(m, i, j));
    assert(forall|i: int, j: int|
        intro_ok(m, i, j) && i < n ==> intro_ok(m2, i, j) && #[trigger] intro_at(m2, i, j)
            == intro_at(m, i, j));
    assert(forall|i: int, j: int|
        borrow_ok(m2, i, j) ==> i < n && borrow_ok(m, i, j) && #[trigger] borrow_at(m2, i, j)
            == borrow_at(m, i, j));
    assert(wf_intro(m2));
    assert(wf_intro_distinct(m2));
    assert forall|k: int|
        0 <= k < m2.bindings.len() && (#[trigger] m2.bindings[k]).live implies
        introduced_somewhere(m2, k) by {
        assert(!intro.contains(k)) by {
            if intro.contains(k) {
                let j = choose|j: int| 0 <= j < intro.len() && intro[j] == k;
                assert(m2.bindings[k].live == false);
            }
        }
        assert(m2.bindings[k] == m.bindings[k]);
        assert(introduced_somewhere(m, k));
        let (i, j) = choose|i: int, j: int| intro_ok(m, i, j) && #[trigger] intro_at(m, i, j) == k;
        assert(i < n) by {
            if i == n {
                assert(intro[j] == k);
                assert(intro.contains(k));
            }
        }
        assert(intro_ok(m2, i, j) && intro_at(m2, i, j) == k);
    }
    assert forall|i: int, j: int| borrow_ok(m2, i, j) implies {
        let b = #[trigger] borrow_at(m2, i, j);
        &&& 0 <= b.target < m2.bindings.len()
        &&& m2.bindings[b.target].live
        &&& m2.bindings[b.target].state == BindState::Owned
        &&& introduced_below(m2, b.target, i)
    } by {
        let b = borrow_at(m2, i, j);
        assert(b == borrow_at(m, i, j));
        assert(introduced_below(m, b.target, i));
        let (i2, j2) = choose|i2: int, j2: int|
            intro_ok(m, i2, j2) && i2 <= i && #[trigger] intro_at(m, i2, j2) == b.target;
        assert(!intro.contains(b.target)) by {
            if intro.contains(b.target) {
                let j3 = choose|j3: int| 0 <= j3 < intro.len() && intro[j3] == b.target;
                assert(intro_at(m, n, j3) == b.target);
                assert(intro_at(m, i2, j2) == intro_at(m, n, j3));
                assert(i2 == n && j2 == j3);
            }
        }
        assert(m2.bindings[b.target] == m.bindings[b.target]);
        assert(intro_ok(m2, i2, j2) && intro_at(m2, i2, j2) == b.target);
    }
    assert(wf_excl(m2));
}

/// Opening a scope preserves well-formedness.
pub proof fn lemma_open_preserves_wf(m: CheckerModel)
    requires
        wf(m),
    ensures
        wf(open_scope_model(m)),
{
    let m2 = open_scope_model(m);
    let n = m.scopes.len() as int;
    assert(m2.bindings == m.bindings);
    assert(m2.scopes.len() == n + 1);
    assert(m2.scopes[n].introduced.len() == 0);
    assert(m2.scopes[n].borrows.len() == 0);
    assert(forall|i: int, j: int|
        intro_ok(m2, i, j) ==> i < n && intro_ok(m, i, j) && #[trigger] intro_at(m2, i, j)
            == intro_at(m, i, j));
    assert(forall|i: int, j: int|
        intro_ok(m, i, j) ==> intro_ok(m2, i, j) && #[trigger] intro_at(m2, i, j) == intro_at(
            m,
            i,
            j,
        ));
    assert(forall|i: int, j: int|
        borrow_ok(m2, i, j) ==> i < n && borrow_ok(m, i, j) && #[trigger] borrow_at(m2, i, j)
            == borrow_at(m, i, j));
    assert(forall|i: int, j: int|
        borrow_ok(m, i, j) ==> borrow_ok(m2, i, j) && #[trigger] borrow_at(m2, i, j) == borrow_at(
            m,
            i,
            j,
        ));
    assert(wf_intro(m2));
    assert(wf_intro_distinct(m2));
    assert forall|k: int|
        0 <= k < m2.bindings.len() && (#[trigger] m2.bindings[k]).live implies
        introduced_somewhere(m2, k) by {
        assert(m.bindings[k].live);
        assert(introduced_somewhere(m, k));
        let (i, j) = choose|i: int, j: int| intro_ok(m, i, j) && #[trigger] intro_at(m, i, j) == k;
        assert(intro_ok(m2, i, j) && intro_at(m2, i, j) == k);
    }
    assert forall|i: int, j: int| borrow_ok(m2, i, j) implies {
        let b = #[trigger] borrow_at(m2, i, j);
        &&& 0 <= b.target < m2.bindings.len()
        &&& m2.bindings[b.target].live
        &&& m2.bindings[b.target].state == BindState::Owned
        &&& introduced_below(m2, b.target, i)
    } by {
        let b = borrow_at(m2, i, j);
        assert(b == borrow_at(m, i, j));
        assert(m.bindings[b.target].live && m.bindings[b.target].state == BindState::Owned);
        assert(introduced_below(m, b.target, i));
        let (i2, j2) = choose|i2: int, j2: int|
            intro_ok(m, i2, j2) && i2 <= i && #[trigger] intro_at(m, i2, j2) == b.target;
        assert(intro_ok(m2, i2, j2) && intro_at(m2, i2, j2) == b.target);
    }
    assert(wf_excl(m2));
}

/// Every instruction, accepted or rejected, preserves well-formedness.
pub proof fn lemma_step_preserves_wf(m: CheckerModel, instr: InstrModel)
    requires
        wf(m),
    ensures
        wf(step(m, instr).0),
{
    match instr {
        InstrModel::Declare { name, kind } => {
            if m.scopes.len() > 0 {
                lemma_declare_preserves_wf(m, name, kind);
            }
        },
        InstrModel::Use { name } => {},
        InstrModel::Move { src, dst } => {
            lemma_resolve_at(m.bindings, src);
            if let Some(k) = resolve_at(m.bindings, src) {
                if m.bindings[k].state == BindState::Owned && !borrowed(m, k) && m.bindings[k].kind
                    != Kind::Value {
                    lemma_live_implies_scope(m, k);
                    lemma_set_state_preserves_wf(m, k, BindState::MovedOut);
                    lemma_declare_preserves_wf(
                        set_state_model(m, k, BindState::MovedOut),
                        dst,
                        Kind::Resource,
                    );
                }
            }
        },
        InstrModel::Copy { src, dst } => {
            lemma_resolve_at(m.bindings, src);
            if let Some(k) = resolve_at(m.bindings, src) {
                if m.bindings[k].kind != Kind::Resource && m.bindings[k].state
                    == BindState::Owned {
                    lemma_live_implies_scope(m, k);
                    lemma_declare_preserves_wf(m, dst, Kind::Value);
                }
            }
        },
        InstrModel::Clone { src, dst } => {
            lemma_resolve_at(m.bindings, src);
            if let Some(k) = resolve_at(m.bindings, src) {
                if m.bindings[k].state == BindState::Owned {
                    lemma_live_implies_scope(m, k);
                    lemma_declare_preserves_wf(m, dst, m.bindings[k].kind);
                }
            }
        },
        InstrModel::BorrowShared { name } => {
            lemma_resolve_at(m.bindings, name);
            if let Some(k) = resolve_at(m.bindings, name) {
                if m.bindings[k].state == BindState::Owned && !has_borrow(
                    m,
                    k,
                    BorrowMode::Exclusive,
                ) {
                    lemma_live_implies_scope(m, k);
                    lemma_add_borrow_preserves_wf(m, k, BorrowMode::Shared);
                }
            }
        },
        InstrModel::BorrowExclusive { name } => {
            lemma_resolve_at(m.bindings, name);
            if let Some(k) = resolve_at(m.bindings, name) {
                if m.bindings[k].state == BindState::Owned && !has_borrow(
                    m,
                    k,
                    BorrowMode::Shared,
                ) && !has_borrow(m, k, BorrowMode::Exclusive) {
                    lemma_live_implies_scope(m, k);
                    lemma_add_borrow_preserves_wf(m, k, BorrowMode::Exclusive);
                }
            }
        },
        InstrModel::EndScope => {
            if m.scopes.len() > 0 {
                lemma_close_preserves_wf(m);
            }
        },
    }
}

/// Well-formedness holds after any whole run, so the borrow-conflict rule is
/// an invariant of every reachable state.
pub proof fn lemma_run_preserves_wf(m: CheckerModel, prog: Seq<InstrModel>)
    requires
        wf(m),
    ensures
        wf(run_model(m, prog).0),
    decreases prog.len(),
{
    if prog.len() > 0 {
        lemma_step_preserves_wf(m, prog[0]);
        lemma_run_preserves_wf(step(m, prog[0]).0, prog.skip(1));
    }
}

/// Running a sequence and then one more instruction is one longer run.
pub proof fn lemma_run_snoc(m: CheckerModel, prog: Seq<InstrModel>, last: InstrModel)
    ensures
        ({
            let before = run_model(m, prog);
            let at_last = step(before.0, last);
            run_model(m, prog.push(last)) == (at_last.0, before.1 && at_last.1 is Ok)
        }),
    decreases prog.len(),
{
    if prog.len() == 0 {
        assert(prog.push(last)[0] == last);
        assert(prog.push(last).skip(1) =~= Seq::<InstrModel>::empty());
        let first = step(m, last);
        assert(run_model(first.0, Seq::<InstrModel>::empty()) == (first.0, true));
        assert(run_model(m, prog) == (m, true));
    } else {
        assert(prog.push(last)[0] == prog[0]);
        assert(prog.push(last).skip(1) =~= prog.skip(1).push(last));
        let first = step(m, prog[0]);
        lemma_run_snoc(first.0, prog.skip(1), last);
        assert(run_model(m, prog.push(last)) == {
            let rest = run_model(first.0, prog.skip(1).push(last));
            (rest.0, first.1 is Ok && rest.1)
        });
        assert(run_model(m, prog) == {
            let rest = run_model(first.0, prog.skip(1));
            (rest.0, first.1 is Ok && rest.1)
        });
    }
}

/// A rejected instruction has no effect: whenever `step` returns an error,
/// the state it returns is the state it was given, so a caller may keep
/// applying instructions for batch diagnostics.
pub proof fn lemma_rejection_preserves_state(m: CheckerModel, instr: InstrModel)
    requires
        step(m, instr).1 is Err,
    ensures
        step(m, instr).0 == m,
{
}

/// Once a binding's value is moved out or dropped, no instruction brings it
/// back: the record's state is final.
pub proof fn lemma_state_monotonic(m: CheckerModel, instr: InstrModel, k: int)
    requires
        wf(m),
        0 <= k < m.bindings.len(),
        m.bindings[k].state != BindState::Owned,
    ensures
        step(m, instr).0.bindings.len() >= m.bindings.len(),
        step(m, instr).0.bindings[k].state == m.bindings[k].state,
    decreases 1int,
{
    let m2 = step(m, instr).0;
    match instr {
        InstrModel::Declare { name, kind } => {},
        InstrModel::Use { name } => {},
        InstrModel::Move { src, dst } => {
            lemma_resolve_at(m.bindings, src);
        },
        InstrModel::Copy { src, dst } => {},
        InstrModel::Clone { src, dst } => {},
        InstrModel::BorrowShared { name } => {},
        InstrModel::BorrowExclusive { name } => {},
        InstrModel::EndScope => {
            if m.scopes.len() > 0 {
                let n = m.scopes.len() - 1;
                let intro = m.scopes[n].introduced;
                assert(forall|j: int|
                    0 <= j < intro.len() ==> #[trigger] intro[j] == intro_at(m, n, j));
                lemma_kill_in_reverse(m.bindings, intro);
                if intro.contains(k) {
                    let j = choose|j: int| 0 <= j < intro.len() && intro[j] == k;
                    assert(intro[j] == k);
                }
            }
        },
    }
}

/// Once moved out or dropped, a binding's state survives any further run
/// unchanged: state transitions are monotonic.
pub proof fn lemma_run_state_monotonic(m: CheckerModel, prog: Seq<InstrModel>, k: int)
    requires
        wf(m),
        0 <= k < m.bindings.len(),
        m.bindings[k].state != BindState::Owned,
    ensures
        run_model(m, prog).0.bindings.len() >= m.bindings.len(),
        run_model(m, prog).0.bindings[k].state == m.bindings[k].state,
    decreases prog.len(),
{
    if prog.len() > 0 {
        lemma_state_monotonic(m, prog[0], k);
        lemma_step_preserves_wf(m, prog[0]);
        lemma_run_state_monotonic(step(m, prog[0]).0, prog.skip(1), k);
    }
}

/// While a name still resolves to a moved-from binding, using it is rejected
/// with `UseAfterMove`, and the rejection does not change the state.
pub proof fn lemma_use_after_move(m: CheckerModel, name: Seq<char>, k: int)
    requires
        resolve_at(m.bindings, name) == Some(k),
        0 <= k < m.bindings.len(),
        m.bindings[k].state == BindState::MovedOut,
    ensures
        step(m, InstrModel::Use { name }) == (m, Err::<(), ErrorKind>(ErrorKind::UseAfterMove)),
{
}

/// While a name still resolves to a dropped binding, using it is rejected
/// with `UseAfterDrop`, and the rejection does not change the state.
pub proof fn lemma_use_after_drop(m: CheckerModel, name: Seq<char>, k: int)
    requires
        resolve_at(m.bindings, name) == Some(k),
        0 <= k < m.bindings.len(),
        m.bindings[k].state == BindState::Dropped,
    ensures
        step(m, InstrModel::Use { name }) == (m, Err::<(), ErrorKind>(ErrorKind::UseAfterDrop)),
{
}

/// The outcome of closing a scope, binding by binding: everything the scope
/// introduced stops resolving (an owned value is dropped, a moved-out one
/// stays moved out), and every other binding is untouched. The fold
/// `kill_in_reverse` that the transition is defined by peels the
/// introduction list from its end: the drops happen in exactly reverse
/// introduction order.
pub proof fn lemma_end_scope_drops(m: CheckerModel)
    requires
        wf(m),
        m.scopes.len() > 0,
    ensures
        ({
            let m2 = step(m, InstrModel::EndScope).0;
            let intro = m.scopes[m.scopes.len() - 1].introduced;
            &&& step(m, InstrModel::EndScope).1 == Ok::<(), ErrorKind>(())
            &&& m2.scopes == m.scopes.drop_last()
            &&& m2.bindings.len() == m.bindings.len()
            &&& m2.bindings == kill_in_reverse(m.bindings, intro)
            &&& forall|j: int|
                0 <= j < intro.len() ==> {
                    let k = #[trigger] intro[j];
                    &&& m2.bindings[k].live == false
                    &&& m2.bindings[k].state == (if m.bindings[k].state == BindState::Owned {
                        BindState::Dropped
                    } else {
                        m.bindings[k].state
                    })
                }
            &&& forall|k: int|
                0 <= k < m.bindings.len() && !intro.contains(k) ==> m2.bindings[k]
                    == m.bindings[k]
        }),
{
    let n = m.scopes.len() - 1;
    let intro = m.scopes[n].introduced;
    assert(forall|j: int| 0 <= j < intro.len() ==> #[trigger] intro[j] == intro_at(m, n, j));
    lemma_kill_in_reverse(m.bindings, intro);
}

/// In a well-formed state no binding carries an exclusive borrow beside a
/// shared one.
pub proof fn lemma_no_shared_beside_exclusive(m: CheckerModel, k: int)
    requires
        wf(m),
    ensures
        !(has_borrow(m, k, BorrowMode::Exclusive) && has_borrow(m, k, BorrowMode::Shared)),
{
    if has_borrow(m, k, BorrowMode::Exclusive) && has_borrow(m, k, BorrowMode::Shared) {
        let (i1, j1) = choose|i1: int, j1: int|
            borrow_ok(m, i1, j1) && (#[trigger] borrow_at(m, i1, j1)).target == k && borrow_at(
                m,
                i1,
                j1,
            ).mode == BorrowMode::Exclusive;
        let (i2, j2) = choose|i2: int, j2: int|
            borrow_ok(m, i2, j2) && (#[trigger] borrow_at(m, i2, j2)).target == k && borrow_at(
                m,
                i2,
                j2,
            ).mode == BorrowMode::Shared;
        assert(!(i1 == i2 && j1 == j2));
        assert(borrow_at(m, i1, j1).mode != BorrowMode::Exclusive);
    }
}

/// In a well-formed state a binding has at most one exclusive borrow: any
/// two exclusive borrow records on the same binding are the same record.
pub proof fn lemma_at_most_one_exclusive(
    m: CheckerModel,
    k: int,
    i1: int,
    j1: int,
    i2: int,
    j2: int,
)
    requires
        wf(m),
        borrow_ok(m, i1, j1),
        borrow_ok(m, i2, j2),
        borrow_at(m, i1, j1).target == k,
        borrow_at(m, i2, j2).target == k,
        borrow_at(m, i1, j1).mode == BorrowMode::Exclusive,
        borrow_at(m, i2, j2).mode == BorrowMode::Exclusive,
    ensures
        i1 == i2 && j1 == j2,
{
}

/// In a well-formed state a binding that is moved out, dropped, or out of
/// scope carries no borrow at all.
pub proof fn lemma_dead_unborrowed(m: CheckerModel, k: int)
    requires
        wf(m),
        0 <= k < m.bindings.len(),
        m.bindings[k].state != BindState::Owned || !m.bindings[k].live,
    ensures
        !borrowed(m, k),
{
    if borrowed(m, k) {
        if has_borrow(m, k, BorrowMode::Shared) {
            let (i, j) = choose|i: int, j: int|
                borrow_ok(m, i, j) && (#[trigger] borrow_at(m, i, j)).target == k && borrow_at(
                    m,
                    i,
                    j,
                ).mode == BorrowMode::Shared;
            assert(borrow_ok(m, i, j));
        } else {
            let (i, j) = choose|i: int, j: int|
                borrow_ok(m, i, j) && (#[trigger] borrow_at(m, i, j)).target == k && borrow_at(
                    m,
                    i,
                    j,
                ).mode == BorrowMode::Exclusive;
            assert(borrow_ok(m, i, j));
        }
    }
}

/// Two diagnostic snapshots of the same state are identical: taking a
/// snapshot has no effect on the checker.
pub proof fn lemma_snapshot_idempotent(
    m: CheckerModel,
    s1: Seq<(Seq<char>, BindState)>,
    s2: Seq<(Seq<char>, BindState)>,
)
    requires
        s1 == snapshot_spec(m),
        s2 == snapshot_spec(m),
    ensures
        s1 == s2,
{
}

/// An accepted clone leaves two independently owned bindings: immediately
/// after `Clone(src, dst)`, using `src` succeeds and using `dst` succeeds.
pub proof fn lemma_clone_then_use(m: CheckerModel, src: Seq<char>, dst: Seq<char>)
    requires
        wf(m),
        step(m, InstrModel::Clone { src, dst }).1 is Ok,
    ensures
        ({
            let m2 = step(m, InstrModel::Clone { src, dst }).0;
            &&& step(m2, InstrModel::Use { name: src }).1 == Ok::<(), ErrorKind>(())
            &&& step(m2, InstrModel::Use { name: dst }).1 == Ok::<(), ErrorKind>(())
        }),
{
    lemma_resolve_at(m.bindings, src);
    let k = resolve_at(m.bindings, src).unwrap();
    let m2 = step(m, InstrModel::Clone { src, dst }).0;
    let b = BindingModel {
        name: dst,
        kind: m.bindings[k].kind,
        state: BindState::Owned,
        live: true,
    };
    assert(m2.bindings == m.bindings.push(b));
    lemma_resolve_at_push(m.bindings, b, dst);
    assert(m2.bindings[m.bindings.len() as int] == b);
    lemma_resolve_at_push(m.bindings, b, src);
    if !(b.live && b.name == src) {
        assert(m2.bindings[k] == m.bindings[k]);
    }
}

} // verus!
