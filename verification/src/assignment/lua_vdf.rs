//! Budgets of the Lua volume-delay-function sandbox, and the decision
//! that its instruction watchdog takes each time its hook fires.
use vstd::prelude::*;

verus! {

/// The watchdog hook fires every this many VM instructions.
pub const HOOK_INTERVAL: u32 = 10_000;

/// Maximum VM instructions a single `travel_time`/`integral` call may
/// execute before it is aborted.
pub const MAX_INSTRUCTIONS_PER_CALL: u64 = 1_000_000;

/// Memory limit of the Lua state, in bytes.
pub const MEMORY_LIMIT_BYTES: usize = 64 * 1024 * 1024;

/// One firing of the watchdog hook: the instruction count of the current
/// call after `HOOK_INTERVAL` more instructions, and whether the call
/// must be aborted because the count reached the budget.
pub fn watchdog_tick(executed_before: u64) -> (r: (u64, bool))
    requires
        executed_before + HOOK_INTERVAL <= u64::MAX,
    ensures
        r.0 == executed_before + HOOK_INTERVAL,
        r.1 == (r.0 >= MAX_INSTRUCTIONS_PER_CALL),
{
    let executed = executed_before + HOOK_INTERVAL as u64;
    (executed, executed >= MAX_INSTRUCTIONS_PER_CALL)
}

} // verus!
