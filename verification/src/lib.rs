//! An ownership-and-borrow legality checker for a small instruction language.
//!
//! A caller feeds a sequence of instructions (declare, move, copy, clone,
//! borrow, use, end-scope) to a [`checker::Checker`]; the checker tracks, for
//! every named binding, whether it currently owns its value, has been
//! moved-from, or was dropped when its scope closed, and which borrows are
//! active on it, and reports for each instruction either success or the first
//! rule it violates.

pub mod checker;
pub mod demo;
pub mod laws;
pub mod model;

pub use checker::check_program;
pub use demo::eat_at_restaurant;
pub use checker::new_checker;
pub use checker::Checker;
pub use checker::Instruction;
pub use model::BindState;
pub use model::BorrowMode;
pub use model::ErrorKind;
pub use model::Kind;
