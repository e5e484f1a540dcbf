//! Limits on what a process may use.

use vstd::prelude::*;
use crate::consts::{KHEAP_SZ, USR_STK_SZ};

verus! {

/// The limits of a process.
#[derive(Clone, Copy, PartialEq, Eq, Structural, Debug)]
pub struct ResourceLimits {
    /// Open files.
    pub max_fds: u64,
    /// Threads.
    pub max_threads: u64,
    /// Bytes of stack.
    pub max_stack_size: u64,
    /// Bytes of data.
    pub max_data_size: u64,
    /// Bytes of a file.
    pub max_file_size: u64,
    /// Memory mappings.
    pub max_mappings: u64,
    /// Seconds of CPU time.
    pub cpu_time_limit: u64,
}

impl ResourceLimits {
    /// One more descriptor may be opened where `current` are open.
    pub open spec fn allows_fd(self, current: u64) -> bool {
        current < self.max_fds
    }

    /// A stack of so many bytes is allowed.
    pub open spec fn allows_stack(self, requested: u64) -> bool {
        requested <= self.max_stack_size
    }

    /// So many bytes of data are allowed.
    pub open spec fn allows_data(self, requested: u64) -> bool {
        requested <= self.max_data_size
    }

    /// A file of so many bytes is allowed.
    pub open spec fn allows_filesize(self, requested: u64) -> bool {
        requested <= self.max_file_size
    }

    /// The limits that a process starts with.
    pub fn default_limits() -> (l: Self)
        ensures
            l == (ResourceLimits {
                max_fds: 1024,
                max_threads: 256,
                max_stack_size: (USR_STK_SZ * 4) as u64,
                max_data_size: KHEAP_SZ,
                max_file_size: u64::MAX,
                max_mappings: 65536,
                cpu_time_limit: 0,
            }),
    {
        ResourceLimits {
            max_fds: 1024,
            max_threads: 256,
            max_stack_size: USR_STK_SZ * 4,
            max_data_size: KHEAP_SZ,
            max_file_size: u64::MAX,
            max_mappings: 65536,
            cpu_time_limit: 0,
        }
    }

    /// Whether one more file may be opened.
    pub fn check_fd(&self, current: u64) -> (r: bool)
        ensures
            r == self.allows_fd(current),
            r == (current < self.max_fds),
    {
        current < self.max_fds
    }

    /// Whether one more thread may be started.
    pub fn check_threads(&self, current: u64) -> (r: bool)
        ensures
            r == (current < self.max_threads),
    {
        current < self.max_threads
    }

    /// Whether a stack of this size is allowed.
    pub fn check_stack(&self, requested: u64) -> (r: bool)
        ensures
            r == self.allows_stack(requested),
            r == (requested <= self.max_stack_size),
    {
        requested <= self.max_stack_size
    }

    /// Whether data of this size is allowed.
    pub fn check_data(&self, requested: u64) -> (r: bool)
        ensures
            r == self.allows_data(requested),
            r == (requested <= self.max_data_size),
    {
        requested <= self.max_data_size
    }

    /// Whether a file of this size is allowed.
    pub fn check_filesize(&self, requested: u64) -> (r: bool)
        ensures
            r == self.allows_filesize(requested),
            r == (requested <= self.max_file_size),
    {
        requested <= self.max_file_size
    }

    /// Whether one more mapping is allowed.
    pub fn check_mappings(&self, current: u64) -> (r: bool)
        ensures
            r == (current < self.max_mappings),
    {
        current < self.max_mappings
    }

    /// The same limits, for a child.
    pub fn inherit(&self) -> (l: Self)
        ensures
            l == *self,
    {
        *self
    }

    /// The limits with that of `resource` set to `value`: 0 CPU time, 1 file size, 2 data, 3 stack,
    /// 7 open files.
    pub open spec fn limited(self, resource: u64, value: u64) -> ResourceLimits {
        if resource == 0 {
            ResourceLimits { cpu_time_limit: value, ..self }
        } else if resource == 1 {
            ResourceLimits { max_file_size: value, ..self }
        } else if resource == 2 {
            ResourceLimits { max_data_size: value, ..self }
        } else if resource == 3 {
            ResourceLimits { max_stack_size: value, ..self }
        } else if resource == 7 {
            ResourceLimits { max_fds: value, ..self }
        } else {
            self
        }
    }

    /// The limit of `resource`.
    pub open spec fn limit(self, resource: u64) -> Result<u64, &'static str> {
        if resource == 0 {
            Ok(self.cpu_time_limit)
        } else if resource == 1 {
            Ok(self.max_file_size)
        } else if resource == 2 {
            Ok(self.max_data_size)
        } else if resource == 3 {
            Ok(self.max_stack_size)
        } else if resource == 7 {
            Ok(self.max_fds)
        } else {
            Err("einval")
        }
    }

    /// Sets the limit of `resource`.
    pub fn set_limit(&mut self, resource: u64, value: u64) -> (r: Result<(), &'static str>)
        ensures
            *final(self) == old(self).limited(resource, value),
            r == (if old(self).limit(resource) is Ok { Ok(()) } else { Err::<(), &'static str>("einval") }),
    {
        match resource {
            0 => {
                self.cpu_time_limit = value;
                Ok(())
            },
            1 => {
                self.max_file_size = value;
                Ok(())
            },
            2 => {
                self.max_data_size = value;
                Ok(())
            },
            3 => {
                self.max_stack_size = value;
                Ok(())
            },
            7 => {
                self.max_fds = value;
                Ok(())
            },
            _ => Err("einval"),
        }
    }

    /// The limit of `resource`.
    pub fn get_limit(&self, resource: u64) -> (r: Result<u64, &'static str>)
        ensures
            r == self.limit(resource),
    {
        match resource {
            0 => Ok(self.cpu_time_limit),
            1 => Ok(self.max_file_size),
            2 => Ok(self.max_data_size),
            3 => Ok(self.max_stack_size),
            7 => Ok(self.max_fds),
            _ => Err("einval"),
        }
    }

    /// Whether any of these is over its limit.
    pub fn exceeds_any(&self, fds: u64, threads: u64, stack: u64) -> (r: bool)
        ensures
            r == (fds > self.max_fds || threads > self.max_threads || stack > self.max_stack_size),
    {
        fds > self.max_fds || threads > self.max_threads || stack > self.max_stack_size
    }
}

/// A limit that was set is the limit that is read; no other limit changes.
pub proof fn law_get_after_set(l: ResourceLimits, resource: u64, value: u64, other: u64)
    ensures
        l.limit(resource) is Ok ==> l.limited(resource, value).limit(resource) == Ok::<u64, &'static str>(value),
        other != resource ==> l.limited(resource, value).limit(other) == l.limit(other),
{
}

/// A limit that was set is kept: so many descriptors can be open and no more, and a stack, data and
/// files can be so large and no larger.
pub proof fn law_limits_are_kept(l: ResourceLimits, value: u64, n: u64)
    ensures
        l.limited(7, value).allows_fd(n) <==> n < value,
        l.limited(3, value).allows_stack(n) <==> n <= value,
        l.limited(2, value).allows_data(n) <==> n <= value,
        l.limited(1, value).allows_filesize(n) <==> n <= value,
{
}

} // verus!
