//! Scenario and property tests for the ownership-and-borrow checker.

use borrowck::eat_at_restaurant;
use borrowck::check_program;
use borrowck::new_checker;
use borrowck::BindState;
use borrowck::ErrorKind;
use borrowck::Instruction;
use borrowck::Kind;

fn s(x: &str) -> String {
    String::from(x)
}

#[test]
fn scenario_copy_value_then_use_both() {
    let mut c = new_checker();
    assert_eq!(c.apply(&Instruction::Declare { name: s("x"), kind: Kind::Value }), Ok(()));
    assert_eq!(c.apply(&Instruction::Copy { src: s("x"), dst: s("y") }), Ok(()));
    assert_eq!(c.apply(&Instruction::Use { name: s("x") }), Ok(()));
    assert_eq!(c.apply(&Instruction::Use { name: s("y") }), Ok(()));
    let snap = c.snapshot();
    assert_eq!(snap.len(), 2);
    assert_eq!(snap[0].0, "x");
    assert_eq!(snap[0].1, BindState::Owned);
    assert_eq!(snap[1].0, "y");
    assert_eq!(snap[1].1, BindState::Owned);
}

#[test]
fn scenario_use_after_move() {
    let mut c = new_checker();
    assert_eq!(c.apply(&Instruction::Declare { name: s("s"), kind: Kind::Resource }), Ok(()));
    assert_eq!(c.apply(&Instruction::Move { src: s("s"), dst: s("t") }), Ok(()));
    assert_eq!(
        c.apply(&Instruction::Use { name: s("s") }),
        Err(ErrorKind::UseAfterMove)
    );
    assert_eq!(c.apply(&Instruction::Use { name: s("t") }), Ok(()));
}

#[test]
fn scenario_exclusive_then_shared_conflict() {
    let mut c = new_checker();
    assert_eq!(c.apply(&Instruction::Declare { name: s("s"), kind: Kind::Resource }), Ok(()));
    assert_eq!(c.apply(&Instruction::BorrowExclusive { name: s("s") }), Ok(()));
    assert_eq!(
        c.apply(&Instruction::BorrowShared { name: s("s") }),
        Err(ErrorKind::ExclusiveBorrowConflict)
    );
}

#[test]
fn scenario_two_shared_borrows_then_use() {
    let mut c = new_checker();
    assert_eq!(c.apply(&Instruction::Declare { name: s("s"), kind: Kind::Resource }), Ok(()));
    assert_eq!(c.apply(&Instruction::BorrowShared { name: s("s") }), Ok(()));
    assert_eq!(c.apply(&Instruction::BorrowShared { name: s("s") }), Ok(()));
    assert_eq!(c.apply(&Instruction::Use { name: s("s") }), Ok(()));
}

#[test]
fn scenario_scope_close_unbinds() {
    let mut c = new_checker();
    c.open_scope();
    assert_eq!(c.apply(&Instruction::Declare { name: s("a"), kind: Kind::Resource }), Ok(()));
    assert_eq!(c.apply(&Instruction::EndScope), Ok(()));
    assert_eq!(
        c.apply(&Instruction::Use { name: s("a") }),
        Err(ErrorKind::UnboundName)
    );
}

#[test]
fn scenario_move_to_same_name() {
    let mut c = new_checker();
    assert_eq!(c.apply(&Instruction::Declare { name: s("s"), kind: Kind::Resource }), Ok(()));
    assert_eq!(c.apply(&Instruction::Move { src: s("s"), dst: s("s") }), Ok(()));
    assert_eq!(c.apply(&Instruction::Use { name: s("s") }), Ok(()));
    let snap = c.snapshot();
    assert_eq!(snap.len(), 2);
    assert_eq!(snap[0].0, "s");
    assert_eq!(snap[0].1, BindState::MovedOut);
    assert_eq!(snap[1].0, "s");
    assert_eq!(snap[1].1, BindState::Owned);
}

#[test]
fn move_while_borrowed() {
    let mut c = new_checker();
    assert_eq!(c.apply(&Instruction::Declare { name: s("s"), kind: Kind::Resource }), Ok(()));
    assert_eq!(c.apply(&Instruction::BorrowShared { name: s("s") }), Ok(()));
    assert_eq!(
        c.apply(&Instruction::Move { src: s("s"), dst: s("t") }),
        Err(ErrorKind::MoveWhileBorrowed)
    );
    // the rejected move had no effect: s is still owned and usable
    assert_eq!(c.apply(&Instruction::Use { name: s("s") }), Ok(()));
}

#[test]
fn move_of_value_type() {
    let mut c = new_checker();
    assert_eq!(c.apply(&Instruction::Declare { name: s("x"), kind: Kind::Value }), Ok(()));
    assert_eq!(
        c.apply(&Instruction::Move { src: s("x"), dst: s("y") }),
        Err(ErrorKind::MoveOfValueType)
    );
    assert_eq!(c.apply(&Instruction::Use { name: s("x") }), Ok(()));
}

#[test]
fn copy_of_resource() {
    let mut c = new_checker();
    assert_eq!(c.apply(&Instruction::Declare { name: s("s"), kind: Kind::Resource }), Ok(()));
    assert_eq!(
        c.apply(&Instruction::Copy { src: s("s"), dst: s("t") }),
        Err(ErrorKind::CopyOfResource)
    );
}

#[test]
fn clone_resource_then_use_both() {
    let mut c = new_checker();
    assert_eq!(c.apply(&Instruction::Declare { name: s("s"), kind: Kind::Resource }), Ok(()));
    assert_eq!(c.apply(&Instruction::Clone { src: s("s"), dst: s("t") }), Ok(()));
    assert_eq!(c.apply(&Instruction::Use { name: s("s") }), Ok(()));
    assert_eq!(c.apply(&Instruction::Use { name: s("t") }), Ok(()));
    let snap = c.snapshot();
    assert_eq!(snap[0].1, BindState::Owned);
    assert_eq!(snap[1].1, BindState::Owned);
}

#[test]
fn clone_of_moved_fails() {
    let mut c = new_checker();
    assert_eq!(c.apply(&Instruction::Declare { name: s("s"), kind: Kind::Resource }), Ok(()));
    assert_eq!(c.apply(&Instruction::Move { src: s("s"), dst: s("t") }), Ok(()));
    assert_eq!(
        c.apply(&Instruction::Clone { src: s("s"), dst: s("u") }),
        Err(ErrorKind::UseAfterMove)
    );
}

#[test]
fn shared_then_exclusive_conflict() {
    let mut c = new_checker();
    assert_eq!(c.apply(&Instruction::Declare { name: s("s"), kind: Kind::Resource }), Ok(()));
    assert_eq!(c.apply(&Instruction::BorrowShared { name: s("s") }), Ok(()));
    assert_eq!(
        c.apply(&Instruction::BorrowExclusive { name: s("s") }),
        Err(ErrorKind::SharedBorrowConflict)
    );
}

#[test]
fn exclusive_twice_conflict() {
    let mut c = new_checker();
    assert_eq!(c.apply(&Instruction::Declare { name: s("s"), kind: Kind::Resource }), Ok(()));
    assert_eq!(c.apply(&Instruction::BorrowExclusive { name: s("s") }), Ok(()));
    assert_eq!(
        c.apply(&Instruction::BorrowExclusive { name: s("s") }),
        Err(ErrorKind::ExclusiveBorrowConflict)
    );
}

#[test]
fn scope_underflow() {
    let mut c = new_checker();
    assert_eq!(c.apply(&Instruction::EndScope), Ok(()));
    assert_eq!(c.apply(&Instruction::EndScope), Err(ErrorKind::ScopeUnderflow));
    assert_eq!(
        c.apply(&Instruction::Declare { name: s("x"), kind: Kind::Value }),
        Err(ErrorKind::ScopeUnderflow)
    );
}

#[test]
fn use_after_drop_via_accessors() {
    let mut c = new_checker();
    let id = c.declare(s("s"), Kind::Resource);
    assert_eq!(c.get_state(id), BindState::Owned);
    c.set_state(id, BindState::Dropped);
    assert_eq!(c.get_state(id), BindState::Dropped);
    assert_eq!(
        c.apply(&Instruction::Use { name: s("s") }),
        Err(ErrorKind::UseAfterDrop)
    );
}

#[test]
fn snapshot_idempotent() {
    let mut c = new_checker();
    assert_eq!(c.apply(&Instruction::Declare { name: s("x"), kind: Kind::Value }), Ok(()));
    assert_eq!(c.apply(&Instruction::Declare { name: s("y"), kind: Kind::Resource }), Ok(()));
    assert_eq!(c.apply(&Instruction::Move { src: s("y"), dst: s("z") }), Ok(()));
    let first = c.snapshot();
    let second = c.snapshot();
    assert_eq!(first, second);
}

#[test]
fn scope_close_drops_in_order() {
    let mut c = new_checker();
    assert_eq!(c.apply(&Instruction::Declare { name: s("outer"), kind: Kind::Resource }), Ok(()));
    c.open_scope();
    assert_eq!(c.apply(&Instruction::Declare { name: s("a"), kind: Kind::Resource }), Ok(()));
    assert_eq!(c.apply(&Instruction::Declare { name: s("b"), kind: Kind::Resource }), Ok(()));
    assert_eq!(c.apply(&Instruction::EndScope), Ok(()));
    let snap = c.snapshot();
    assert_eq!(snap.len(), 3);
    assert_eq!(snap[0].0, "outer");
    assert_eq!(snap[0].1, BindState::Owned);
    assert_eq!(snap[1].0, "a");
    assert_eq!(snap[1].1, BindState::Dropped);
    assert_eq!(snap[2].0, "b");
    assert_eq!(snap[2].1, BindState::Dropped);
}

#[test]
fn borrow_released_on_scope_close() {
    let mut c = new_checker();
    assert_eq!(c.apply(&Instruction::Declare { name: s("s"), kind: Kind::Resource }), Ok(()));
    c.open_scope();
    assert_eq!(c.apply(&Instruction::BorrowShared { name: s("s") }), Ok(()));
    assert_eq!(
        c.apply(&Instruction::BorrowExclusive { name: s("s") }),
        Err(ErrorKind::SharedBorrowConflict)
    );
    assert_eq!(c.apply(&Instruction::EndScope), Ok(()));
    // the shared borrow died with its scope, so the exclusive one is legal now
    assert_eq!(c.apply(&Instruction::BorrowExclusive { name: s("s") }), Ok(()));
}

#[test]
fn shadowing_resolves_to_innermost() {
    let mut c = new_checker();
    assert_eq!(c.apply(&Instruction::Declare { name: s("x"), kind: Kind::Value }), Ok(()));
    c.open_scope();
    assert_eq!(c.apply(&Instruction::Declare { name: s("x"), kind: Kind::Resource }), Ok(()));
    // the inner x is a resource, so a move of x is legal while it shadows
    assert_eq!(c.apply(&Instruction::Move { src: s("x"), dst: s("y") }), Ok(()));
    assert_eq!(c.apply(&Instruction::EndScope), Ok(()));
    // the outer x is untouched by everything that happened to its shadow
    assert_eq!(c.apply(&Instruction::Use { name: s("x") }), Ok(()));
    assert_eq!(
        c.apply(&Instruction::Move { src: s("x"), dst: s("y") }),
        Err(ErrorKind::MoveOfValueType)
    );
}

#[test]
fn finish_closes_all_scopes() {
    let mut c = new_checker();
    assert_eq!(c.apply(&Instruction::Declare { name: s("a"), kind: Kind::Resource }), Ok(()));
    c.open_scope();
    assert_eq!(c.apply(&Instruction::Declare { name: s("b"), kind: Kind::Resource }), Ok(()));
    c.open_scope();
    assert_eq!(c.apply(&Instruction::Declare { name: s("d"), kind: Kind::Value }), Ok(()));
    assert_eq!(c.finish(), Ok(()));
    let snap = c.snapshot();
    assert_eq!(snap.len(), 3);
    assert_eq!(snap[0].1, BindState::Dropped);
    assert_eq!(snap[1].1, BindState::Dropped);
    assert_eq!(snap[2].1, BindState::Dropped);
    // nothing is left open once finish has run
    assert_eq!(c.apply(&Instruction::EndScope), Err(ErrorKind::ScopeUnderflow));
}

#[test]
fn resolve_and_unbound_name() {
    let mut c = new_checker();
    let id = c.declare(s("x"), Kind::Value);
    assert_eq!(c.resolve(&s("x")), Ok(id));
    assert_eq!(c.resolve(&s("nope")), Err(ErrorKind::UnboundName));
    assert_eq!(
        c.apply(&Instruction::Use { name: s("nope") }),
        Err(ErrorKind::UnboundName)
    );
}

#[test]
fn moved_state_is_permanent() {
    let mut c = new_checker();
    assert_eq!(c.apply(&Instruction::Declare { name: s("s"), kind: Kind::Resource }), Ok(()));
    assert_eq!(c.apply(&Instruction::Move { src: s("s"), dst: s("t") }), Ok(()));
    assert_eq!(
        c.apply(&Instruction::Use { name: s("s") }),
        Err(ErrorKind::UseAfterMove)
    );
    assert_eq!(
        c.apply(&Instruction::BorrowShared { name: s("s") }),
        Err(ErrorKind::UseAfterMove)
    );
    assert_eq!(
        c.apply(&Instruction::Use { name: s("s") }),
        Err(ErrorKind::UseAfterMove)
    );
}

#[test]
fn check_program_aggregates_verdicts() {
    let legal = vec![
        Instruction::Declare { name: s("x"), kind: Kind::Value },
        Instruction::Copy { src: s("x"), dst: s("y") },
        Instruction::Use { name: s("y") },
    ];
    assert!(check_program(&legal));
    let illegal = vec![
        Instruction::Declare { name: s("s"), kind: Kind::Resource },
        Instruction::Move { src: s("s"), dst: s("t") },
        Instruction::Use { name: s("s") },
    ];
    assert!(!check_program(&illegal));
}

#[test]
fn eat_at_restaurant_is_legal() {
    assert!(eat_at_restaurant());
}
