//! The memory-mode policy: a pure decision from the user's flags and the
//! input file's size to one of the two strategies.
use vstd::prelude::*;
use crate::{Args, ConfigError, MemoryMode};

verus! {

/// Files strictly larger than this many bytes default to the low-memory
/// strategy.
pub const MEMORY_MODE_THRESHOLD: u64 = 500_000_000;

/// The mode chosen for a non-conflicting pair of flags: the disabling flag
/// forces `Standard`; otherwise the low-memory flag or a size above the
/// threshold selects `Low`.
pub open spec fn chosen_mode(
    low_memory_mode: bool,
    disable_low_memory_mode: bool,
    file_size: u64,
) -> MemoryMode {
    if disable_low_memory_mode {
        MemoryMode::Standard
    } else if low_memory_mode || file_size > MEMORY_MODE_THRESHOLD {
        MemoryMode::Low
    } else {
        MemoryMode::Standard
    }
}

/// What mode selection decides: a conflicting pair of flags is a
/// configuration error; any other pair picks the mode.
pub open spec fn selected_mode(
    low_memory_mode: bool,
    disable_low_memory_mode: bool,
    file_size: u64,
) -> Result<MemoryMode, ConfigError> {
    if low_memory_mode && disable_low_memory_mode {
        Err(ConfigError::ConflictingFlags)
    } else {
        Ok(chosen_mode(low_memory_mode, disable_low_memory_mode, file_size))
    }
}

/// Setting the low-memory flag and its disabling flag together is a
/// configuration error whatever the file's size: no mode is ever chosen.
pub proof fn lemma_conflicting_flags_rejected(file_size: u64)
    ensures
        selected_mode(true, true, file_size) == Err::<MemoryMode, ConfigError>(
            ConfigError::ConflictingFlags,
        ),
{
}

/// Picks the strategy for one input file, rejecting a conflicting pair of
/// flags as a configuration error.
pub fn select_mode(
    low_memory_mode: bool,
    disable_low_memory_mode: bool,
    file_size: u64,
) -> (r: Result<MemoryMode, ConfigError>)
    ensures
        r == selected_mode(low_memory_mode, disable_low_memory_mode, file_size),
{
    if low_memory_mode && disable_low_memory_mode {
        return Err(ConfigError::ConflictingFlags);
    }
    let mut is_low_memory_mode_enabled = low_memory_mode && !disable_low_memory_mode;
    if file_size > MEMORY_MODE_THRESHOLD && !disable_low_memory_mode {
        is_low_memory_mode_enabled = true;
    }
    if is_low_memory_mode_enabled {
        Ok(MemoryMode::Low)
    } else {
        Ok(MemoryMode::Standard)
    }
}

/// Picks the strategy for one input file from the full set of options.
/// The caller has already rejected a conflicting pair of flags.
pub fn get_memory_mode(args: &Args, file_size: u64) -> (r: MemoryMode)
    requires
        !(args.low_memory_mode && args.disable_low_memory_mode),
    ensures
        r == chosen_mode(args.low_memory_mode, args.disable_low_memory_mode, file_size),
{
    match select_mode(args.low_memory_mode, args.disable_low_memory_mode, file_size) {
        Ok(mode) => mode,
        Err(_) => MemoryMode::Standard,
    }
}

} // verus!
