use vstd::prelude::*;

verus! {

/// One transaction instruction as the fee model sees it: either one of the
/// compute-budget program's instructions, or an instruction of any other
/// program.
#[derive(Clone, Copy, PartialEq, Eq, Structural, Debug)]
pub enum BudgetInstruction {
    /// An instruction whose program is not the compute-budget program.
    NotComputeBudget,
    /// The deprecated combined request: compute units and an additional fee.
    RequestUnitsDeprecated { units: u32, additional_fee: u32 },
    RequestHeapFrame,
    SetComputeUnitLimit(u32),
    SetComputeUnitPrice(u64),
    SetLoadedAccountsDataSizeLimit,
    Unused,
}

/// The running fee-derivation state: the priority seen so far, the explicit
/// compute-unit request if any, and how many non-budget instructions have
/// passed.
pub struct BudgetFold {
    pub priority: u64,
    pub requested: Option<u64>,
    pub other_count: int,
}

/// How one instruction advances the fee derivation. A later instruction of
/// the same kind overrides an earlier one.
pub open spec fn budget_step(st: BudgetFold, ix: BudgetInstruction) -> BudgetFold {
    match ix {
        BudgetInstruction::NotComputeBudget => BudgetFold {
            other_count: st.other_count + 1,
            ..st
        },
        BudgetInstruction::RequestUnitsDeprecated { units, additional_fee } => BudgetFold {
            priority: ((additional_fee as int) * 1_000_000 / (units as int)) as u64,
            requested: Option::Some(units as u64),
            ..st
        },
        BudgetInstruction::SetComputeUnitLimit(units) => BudgetFold {
            requested: Option::Some(units as u64),
            ..st
        },
        BudgetInstruction::SetComputeUnitPrice(price) => BudgetFold { priority: price, ..st },
        _ => st,
    }
}

/// The fee derivation over a whole instruction list, front to back.
pub open spec fn budget_fold(ixs: Seq<BudgetInstruction>) -> BudgetFold
    decreases ixs.len(),
{
    if ixs.len() == 0 {
        BudgetFold { priority: 0, requested: Option::None, other_count: 0 }
    } else {
        budget_step(budget_fold(ixs.drop_last()), ixs.last())
    }
}

/// The priority a transaction's instructions yield: the last compute-unit
/// price, or the deprecated request's fee-per-unit ratio, and zero without
/// either.
pub open spec fn priority_of(ixs: Seq<BudgetInstruction>) -> u64 {
    budget_fold(ixs).priority
}

/// The requested compute units: the last explicit request, defaulting to
/// 200000 per non-budget instruction, and never below 1400000.
pub open spec fn requested_cus_of(ixs: Seq<BudgetInstruction>) -> u64 {
    let st = budget_fold(ixs);
    let base: int = match st.requested {
        Option::Some(r) => r as int,
        Option::None => st.other_count * 200_000,
    };
    if base >= 1_400_000 {
        base as u64
    } else {
        1_400_000
    }
}

/// The deprecated request's unit count may not be zero: its fee-per-unit
/// ratio divides by it.
pub open spec fn instruction_wf(ix: BudgetInstruction) -> bool {
    match ix {
        BudgetInstruction::RequestUnitsDeprecated { units, .. } => units != 0,
        _ => true,
    }
}

/// A decodable instruction list: a bounded length and no zero-unit deprecated
/// request.
pub open spec fn instructions_wf(ixs: Seq<BudgetInstruction>) -> bool {
    &&& ixs.len() <= 0x1_0000_0000
    &&& forall|m: int| 0 <= m < ixs.len() ==> instruction_wf(#[trigger] ixs[m])
}

/// Derives a transaction's priority and requested compute units from its
/// instruction list.
pub fn get_priority_and_requested_cus(ixs: &Vec<BudgetInstruction>) -> (r: (u64, u64))
    requires
        instructions_wf(ixs@),
    ensures
        r.0 == priority_of(ixs@),
        r.1 == requested_cus_of(ixs@),
{
    let mut priority: u64 = 0;
    let mut requested: Option<u64> = Option::None;
    let mut other: u64 = 0;
    let mut k: usize = 0;
    while k < ixs.len()
        invariant
            instructions_wf(ixs@),
            0 <= k <= ixs@.len(),
            other as int <= k,
            ({
                let st = budget_fold(ixs@.take(k as int));
                priority == st.priority && requested == st.requested && other as int
                    == st.other_count
            }),
        decreases ixs@.len() - k,
    {
        proof {
            assert(ixs@.take(k + 1 as int).drop_last() =~= ixs@.take(k as int));
            assert(ixs@.take(k + 1 as int).last() == ixs@[k as int]);
            assert(instruction_wf(ixs@[k as int]));
        }
        match ixs[k] {
            BudgetInstruction::NotComputeBudget => {
                other += 1;
            },
            BudgetInstruction::RequestUnitsDeprecated { units, additional_fee } => {
                requested = Option::Some(units as u64);
                priority = (additional_fee as u64) * 1_000_000 / (units as u64);
            },
            BudgetInstruction::SetComputeUnitLimit(units) => {
                requested = Option::Some(units as u64);
            },
            BudgetInstruction::SetComputeUnitPrice(price) => {
                priority = price;
            },
            BudgetInstruction::RequestHeapFrame => {},
            BudgetInstruction::SetLoadedAccountsDataSizeLimit => {},
            BudgetInstruction::Unused => {},
        }
        k += 1;
    }
    proof {
        assert(ixs@.take(ixs@.len() as int) =~= ixs@);
    }
    let req: u64 = match requested {
        Option::Some(r) => {
            if r >= 1_400_000 {
                r
            } else {
                1_400_000
            }
        },
        Option::None => {
            let base = other * 200_000;
            if base >= 1_400_000 {
                base
            } else {
                1_400_000
            }
        },
    };
    (priority, req)
}

} // verus!
