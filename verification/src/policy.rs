//! Scheduling policies: when to stop dividing and how large sequential blocks are.
use vstd::prelude::*;
use crate::parallel::current_num_threads;

verus! {

/// How a divisible input is scheduled.
#[derive(Clone, Copy, Debug, PartialEq, Eq, Structural)]
pub enum Policy {
    /// Divide until the pieces are small with respect to the number of threads.
    DefaultPolicy,
    /// Never divide: one sequential task.
    Sequential,
    /// Divide with joins while the size is above the given threshold.
    Join(usize),
    /// Same as `Join`, kept for the join-context scheduler.
    JoinContext(usize),
    /// Divide while the size is above the given threshold (depth-join scheduler).
    DepJoin(usize),
    /// Adaptive scheduling: sequential blocks grow from the first size to the second;
    /// pieces larger than the first size may be divided.
    Adaptive(usize, usize),
}


impl Default for Policy {
    fn default() -> (r: Self)
        ensures
            r == Policy::DefaultPolicy,
    {
        Policy::DefaultPolicy
    }
}

/// Threshold of a policy once the default threshold is known:
/// an input strictly larger than it is divided.
pub open spec fn threshold_for(policy: Policy, default_threshold: nat) -> nat {
    match policy {
        Policy::DefaultPolicy => default_threshold,
        Policy::Sequential => usize::MAX as nat,
        Policy::Join(t) => if t == 0 { 1 } else { t as nat },
        Policy::JoinContext(t) => if t == 0 { 1 } else { t as nat },
        Policy::DepJoin(t) => if t == 0 { 1 } else { t as nat },
        Policy::Adaptive(min_size, _) => if min_size == 0 { 1 } else { min_size as nat },
    }
}

/// Threshold of the default policy for an input of the given length when it
/// aims at the given number of tasks: `length / tasks`, at least 1.
pub open spec fn default_threshold(length: nat, tasks: nat) -> nat {
    if length / tasks == 0 {
        1
    } else {
        length / tasks
    }
}

/// Size of the first sequential block of a policy.
pub open spec fn first_block(policy: Policy) -> nat {
    match policy {
        Policy::Adaptive(min_size, _) => if min_size == 0 { 1 } else { min_size as nat },
        _ => usize::MAX as nat,
    }
}

/// Largest sequential block of a policy.
pub open spec fn max_block(policy: Policy) -> nat {
    match policy {
        Policy::Adaptive(min_size, max_size) => {
            let m = if min_size == 0 { 1 } else { min_size as nat };
            if (max_size as nat) < m { m } else { max_size as nat }
        },
        _ => usize::MAX as nat,
    }
}

/// Block following a block of size `current`: under an adaptive policy the
/// size doubles, but never goes past the largest block (a block already at
/// or above it keeps its size); under the other policies it stays as it is.
pub open spec fn next_block(policy: Policy, current: nat) -> nat {
    match policy {
        Policy::Adaptive(_, _) => {
            let top = max_block(policy);
            if current >= top {
                current
            } else if current > top / 2 {
                top
            } else {
                2 * current
            }
        },
        _ => current,
    }
}

impl Policy {
    /// Size above which an input of the given length is divided.
    /// For the default policy it is `length / (2 * threads)`, at least 1.
    pub fn division_threshold(&self, length: usize) -> (r: usize)
        ensures
            r >= 1,
            *self != Policy::DefaultPolicy ==> r == threshold_for(*self, 1),
            *self == Policy::DefaultPolicy ==> exists|tasks: nat|
                tasks >= 2 && r == #[trigger] default_threshold(length as nat, tasks),
    {
        match self {
            Policy::DefaultPolicy => {
                let threads = current_num_threads();
                let tasks: usize = if threads == 0 {
                    2
                } else if threads > usize::MAX / 2 {
                    usize::MAX
                } else {
                    2 * threads
                };
                let d = length / tasks;
                let d = if d == 0 { 1 } else { d };
                assert(d == default_threshold(length as nat, tasks as nat));
                d
            },
            Policy::Sequential => usize::MAX,
            Policy::Join(t) | Policy::JoinContext(t) | Policy::DepJoin(t) => {
                if *t == 0 { 1 } else { *t }
            },
            Policy::Adaptive(min_size, _) => {
                if *min_size == 0 { 1 } else { *min_size }
            },
        }
    }

    /// Size of the first sequential block: adaptive policies start small,
    /// the others do everything at once.
    pub fn first_block_size(&self) -> (r: usize)
        ensures
            r == first_block(*self),
            r >= 1,
    {
        match self {
            Policy::Adaptive(min_size, _) => if *min_size == 0 { 1 } else { *min_size },
            _ => usize::MAX,
        }
    }

    /// Next sequential block size: blocks double up to the largest block size.
    pub fn next_block_size(&self, current: usize) -> (r: usize)
        requires
            current >= 1,
        ensures
            r == next_block(*self, current as nat),
            r >= 1,
            r >= current || r == max_block(*self),
            r <= max_block(*self) || r == current,
    {
        match self {
            Policy::Adaptive(min_size, max_size) => {
                let m = if *min_size == 0 { 1 } else { *min_size };
                let top = if *max_size < m { m } else { *max_size };
                if current >= top {
                    current
                } else if current > top / 2 {
                    top
                } else {
                    current * 2
                }
            },
            _ => current,
        }
    }
}

} // verus!
