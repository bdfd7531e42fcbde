//! How many scanner threads to start on a machine.
use vstd::prelude::*;

verus! {

/// Upper bound on the number of scanner threads.
pub const HARD_MAX_THREADS: usize = 65535;

/// What is known of the machine: its processor cores and, where the platform tells, its total
/// and available physical memory in MB.
#[derive(Debug, Clone, Copy, PartialEq, Eq, Structural)]
pub struct Machine {
    pub cores: usize,
    pub total_mem_mb: Option<u64>,
    pub avail_mem_mb: Option<u64>,
}

/// The outcome of `auto_threads` with the figures it rests on.
#[derive(Debug, Clone, Copy, PartialEq, Eq, Structural)]
pub struct ThreadDecision {
    pub cores: usize,
    pub total_mem_mb: Option<u64>,
    pub avail_mem_mb: Option<u64>,
    pub stack_bytes: usize,
    pub chosen: usize,
}

/// The stack of one thread when `threads` of them run: 256 KB above 2000 threads, else 1 MB.
pub open spec fn stack_size(threads: int) -> int {
    if threads > 2000 {
        262144
    } else {
        1048576
    }
}

/// The smaller of two numbers.
pub open spec fn least(a: int, b: int) -> int {
    if a <= b {
        a
    } else {
        b
    }
}

/// The larger of two numbers.
pub open spec fn greatest(a: int, b: int) -> int {
    if a >= b {
        a
    } else {
        b
    }
}

/// One hundred threads per core, but no more than there are work items, nor than the upper
/// bound, and at least one.
pub open spec fn wanted_threads(cores: int, work_items: int) -> int {
    greatest(least(least(least(cores * 100, usize::MAX as int), work_items), HARD_MAX_THREADS as int), 1)
}

/// Seventy percent of `avail_mb` in bytes.
pub open spec fn usable_bytes(avail_mb: int) -> int {
    least(avail_mb * 1048576, u64::MAX as int) * 7 / 10
}

/// At most `n` threads, and at least one, whose stacks, of the size that fits `n` threads, fill
/// no more than `usable` bytes.
pub open spec fn threads_within(n: int, usable: int) -> int {
    least(n, greatest(usable / stack_size(n), 1))
}

/// The automatic thread count. Fewer threads may get larger stacks, so the memory bound is
/// applied to the lowered count once more.
pub open spec fn auto_count(machine: Machine, work_items: int) -> int {
    let n = wanted_threads(machine.cores as int, work_items);
    match machine.avail_mem_mb {
        Some(mb) => threads_within(
            threads_within(n, usable_bytes(mb as int)),
            usable_bytes(mb as int),
        ),
        None => n,
    }
}

/// The stack size of each of `threads` threads. A worker only connects and exchanges a few
/// hundred bytes, so 256 KB is enough when there are many.
pub fn stack_size_for(threads: usize) -> (r: usize)
    ensures
        r == stack_size(threads as int),
{
    if threads > 2000 {
        256 * 1024
    } else {
        1024 * 1024
    }
}

fn fit(n: usize, usable: u64) -> (r: usize)
    requires
        n >= 1,
    ensures
        r == threads_within(n as int, usable as int),
{
    let cap: u64 = usable / stack_size_for(n) as u64;
    if cap < 1 {
        1
    } else if cap < n as u64 {
        cap as usize
    } else {
        n
    }
}

/// Chooses the number of threads:
/// 1. start from 100 per core, as the work waits on the network;
/// 2. no more than there are work items;
/// 3. `chosen * stack_bytes` fills at most 70% of the available memory, where it is known;
/// 4. no more than `HARD_MAX_THREADS`, and at least one.
pub fn auto_threads(work_items: usize, machine: &Machine) -> (r: ThreadDecision)
    ensures
        r.cores == machine.cores,
        r.total_mem_mb == machine.total_mem_mb,
        r.avail_mem_mb == machine.avail_mem_mb,
        r.chosen == auto_count(*machine, work_items as int),
        r.stack_bytes == stack_size(r.chosen as int),
{
    let base: usize = if machine.cores > usize::MAX / 100 {
        usize::MAX
    } else {
        machine.cores * 100
    };
    let mut chosen: usize = base;
    if work_items < chosen {
        chosen = work_items;
    }
    if HARD_MAX_THREADS < chosen {
        chosen = HARD_MAX_THREADS;
    }
    if chosen < 1 {
        chosen = 1;
    }
    if let Some(mb) = machine.avail_mem_mb {
        let bytes: u64 = if mb > u64::MAX / 1048576 {
            u64::MAX
        } else {
            mb * 1048576
        };
        let usable: u64 = (bytes as u128 * 7 / 10) as u64;
        chosen = fit(chosen, usable);
        chosen = fit(chosen, usable);
    }
    ThreadDecision {
        cores: machine.cores,
        total_mem_mb: machine.total_mem_mb,
        avail_mem_mb: machine.avail_mem_mb,
        stack_bytes: stack_size_for(chosen),
        chosen,
    }
}

/// The automatic count is at least one and at most the work items, one hundred per core and
/// the upper bound (but for that one).
pub proof fn law_auto_count_bounds(machine: Machine, work_items: int)
    requires
        work_items >= 0,
    ensures
        1 <= auto_count(machine, work_items) <= HARD_MAX_THREADS,
        auto_count(machine, work_items) <= greatest(work_items, 1),
        auto_count(machine, work_items) <= greatest(machine.cores * 100, 1),
{
}

/// Where the available memory is known, the stacks of the chosen threads fill at most 70% of
/// it, unless a single thread does not fit.
pub proof fn law_stacks_fit_memory(machine: Machine, work_items: int)
    requires
        work_items >= 0,
        machine.avail_mem_mb is Some,
    ensures
        ({
            let n = auto_count(machine, work_items);
            let avail = machine.avail_mem_mb->0 * 1048576;
            n == 1 || n * stack_size(n) * 10 <= avail * 7
        }),
{
    let w = wanted_threads(machine.cores as int, work_items);
    let usable = usable_bytes(machine.avail_mem_mb->0 as int);
    let n1 = threads_within(w, usable);
    let n = threads_within(n1, usable);
    if n1 > 2000 {
        assert(n1 <= usable / 262144);
        assert(n == n1);
        assert(stack_size(n) == 262144);
        assert(n * stack_size(n) == n * 262144);
        assert(n * 262144 <= usable);
    } else if n > 1 {
        assert(n <= usable / 1048576);
        assert(stack_size(n) == 1048576);
        assert(n * stack_size(n) == n * 1048576);
        assert(n * 1048576 <= usable);
    }
}

/// The stacks: one megabyte each for up to two thousand threads, a quarter of that for more.
pub proof fn law_stack_sizes(threads: int)
    ensures
        threads <= 2000 ==> stack_size(threads) == 1024 * 1024,
        threads > 2000 ==> stack_size(threads) == 256 * 1024,
{
}

/// The automatic count is the largest that keeps the limits: any number of threads that is
/// within the work items, one hundred per core and the upper bound, and whose stacks fill at
/// most 70% of the available memory where that is known, is no larger than the chosen one.
pub proof fn law_auto_count_is_greatest(machine: Machine, work_items: int, k: int)
    requires
        1 <= k <= work_items,
        k <= machine.cores * 100,
        k <= 65535,
        machine.avail_mem_mb is Some ==> (if k > 2000 {
            k * 262144 * 10
        } else {
            k * 1048576 * 10
        }) <= machine.avail_mem_mb->0 * 1048576 * 7,
    ensures
        k <= auto_count(machine, work_items),
{
    let w = wanted_threads(machine.cores as int, work_items);
    assert(k <= w);
    if machine.avail_mem_mb is Some {
        let mb = machine.avail_mem_mb->0 as int;
        let usable = usable_bytes(mb);
        let n1 = threads_within(w, usable);
        if mb * 1048576 <= u64::MAX {
            assert(usable == mb * 1048576 * 7 / 10);
        } else {
            assert(usable == u64::MAX * 7 / 10);
        }
        if k > 2000 {
            assert(k * 262144 <= usable);
            assert(k <= usable / 262144);
        } else {
            assert(k * 1048576 <= usable);
            assert(k <= usable / 1048576);
            assert(k <= usable / 262144);
        }
    }
}

} // verus!
