//! Global values: how the address that one stands for is found in the layout
//! that the linker has made.

use vstd::prelude::*;
use crate::error::StackifyError;
use crate::hir::{Function, GlobalValue, GlobalValueData, Program};

verus! {

/// The symbol that the global value `gv` is relative to.
pub open spec fn symbol_of(function: &Function, gv: int) -> u32
    decreases gv,
{
    match function.globals@[gv] {
        GlobalValueData::Symbol { name, .. } => name,
        GlobalValueData::IAddImm { base, .. } | GlobalValueData::Load { base, .. } => if 0 <= base
            < gv {
            symbol_of(function, base as int)
        } else {
            0
        },
    }
}

/// The sum of the displacements of the global value `gv` and of the layers
/// below it.
pub open spec fn total_offset(function: &Function, gv: int) -> int
    decreases gv,
{
    match function.globals@[gv] {
        GlobalValueData::Symbol { offset, .. } => offset as int,
        GlobalValueData::IAddImm { base, offset } | GlobalValueData::Load { base, offset, .. } => if 0
            <= base < gv {
            offset + total_offset(function, base as int)
        } else {
            offset as int
        },
    }
}

/// The address that the global value `gv` stands for: where the global table
/// starts, plus where the variable starts in it, plus the displacements. There
/// is none if the program does not define the variable, or if the sum is no
/// address.
pub open spec fn global_address(program: &Program, function: &Function, gv: int) -> Result<
    u32,
    StackifyError,
> {
    let name = symbol_of(function, gv);
    match program.spec_find(name) {
        None => Err(StackifyError::UndefinedGlobal(name)),
        Some(var) => {
            let addr = program.next_available_offset + program.globals@[var].offset + total_offset(
                function,
                gv,
            );
            if 0 <= addr <= u32::MAX {
                Ok(addr as u32)
            } else {
                Err(StackifyError::AddressOutOfRange)
            }
        },
    }
}

/// The address that the global value `gv` stands for.
pub fn calculate_global_value_addr(program: &Program, function: &Function, gv: GlobalValue) -> (result:
    Result<u32, StackifyError>)
    requires
        function.wf(),
        (gv as int) < function.globals@.len(),
    ensures
        result == global_address(program, function, gv as int),
{
    let mut current = gv;
    let mut relative: i128 = 0;
    loop
        invariant
            function.wf(),
            (current as int) < function.globals@.len(),
            current <= gv,
            relative + total_offset(function, current as int) == total_offset(function, gv as int),
            symbol_of(function, current as int) == symbol_of(function, gv as int),
            -(gv - current) * 0x8000_0000 <= relative <= (gv - current) * 0x8000_0000,
        decreases current,
    {
        let data = function.global_value(current);
        assert(function.global_wf(current as int));
        relative = relative + data.offset() as i128;
        match data {
            GlobalValueData::Symbol { name, .. } => {
                let var = match program.find(name) {
                    Some(var) => var,
                    None => {
                        return Err(StackifyError::UndefinedGlobal(name));
                    },
                };
                let addr: i128 = program.next_available_offset as i128 + program.offset_of(var) as i128
                    + relative;
                if 0 <= addr && addr <= u32::MAX as i128 {
                    return Ok(addr as u32);
                } else {
                    return Err(StackifyError::AddressOutOfRange);
                }
            },
            GlobalValueData::IAddImm { base, .. } => {
                current = base;
            },
            GlobalValueData::Load { base, .. } => {
                current = base;
            },
        }
    }
}

} // verus!
