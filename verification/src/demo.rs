//! A worked example: one evening at a restaurant, written as an instruction
//! sequence and run through the checker.

use vstd::prelude::*;
use vstd::string::StringExecFns;

use crate::checker::check_program;
use crate::checker::instr_views;
use crate::checker::Instruction;
use crate::model::init_model;
use crate::model::run_model;
use crate::model::InstrModel;
use crate::model::Kind;

verus! {

/// The evening, instruction by instruction: a menu is a plain value that can
/// be copied into an order; the table is a resource that two diners may hold
/// shared borrows of while reading at it; the meal is a resource that moves
/// from the kitchen's binding onto the plate; and closing the scope ends the
/// visit, dropping everything still owned.
pub open spec fn dinner_script() -> Seq<InstrModel> {
    seq![
        InstrModel::Declare { name: "menu"@, kind: Kind::Value },
        InstrModel::Copy { src: "menu"@, dst: "order"@ },
        InstrModel::Use { name: "menu"@ },
        InstrModel::Use { name: "order"@ },
        InstrModel::Declare { name: "table"@, kind: Kind::Resource },
        InstrModel::BorrowShared { name: "table"@ },
        InstrModel::BorrowShared { name: "table"@ },
        InstrModel::Use { name: "table"@ },
        InstrModel::Declare { name: "meal"@, kind: Kind::Resource },
        InstrModel::Move { src: "meal"@, dst: "plate"@ },
        InstrModel::Use { name: "plate"@ },
        InstrModel::EndScope,
    ]
}

/// Builds the dinner script and checks it: the result is exactly the
/// verdict of the model run on that script.
pub fn eat_at_restaurant() -> (legal: bool)
    ensures
        legal == run_model(init_model(), dinner_script()).1,
{
    let mut prog: Vec<Instruction> = Vec::new();
    prog.push(Instruction::Declare { name: String::from_str("menu"), kind: Kind::Value });
    prog.push(
        Instruction::Copy { src: String::from_str("menu"), dst: String::from_str("order") },
    );
    prog.push(Instruction::Use { name: String::from_str("menu") });
    prog.push(Instruction::Use { name: String::from_str("order") });
    prog.push(Instruction::Declare { name: String::from_str("table"), kind: Kind::Resource });
    prog.push(Instruction::BorrowShared { name: String::from_str("table") });
    prog.push(Instruction::BorrowShared { name: String::from_str("table") });
    prog.push(Instruction::Use { name: String::from_str("table") });
    prog.push(Instruction::Declare { name: String::from_str("meal"), kind: Kind::Resource });
    prog.push(
        Instruction::Move { src: String::from_str("meal"), dst: String::from_str("plate") },
    );
    prog.push(Instruction::Use { name: String::from_str("plate") });
    prog.push(Instruction::EndScope);
    let legal = check_program(&prog);
    proof {
        assert(instr_views(prog@) =~= dinner_script());
    }
    legal
}

} // verus!
