//! System calls: their numbers, the per-task counts that the entry point
//! keeps, and the entry point that dispatches on the number.
use vstd::prelude::*;
use crate::kernel::Kernel;
use crate::mm::range_mapped;
use crate::task::{other_ready, SwitchAction, TaskControlBlock, TaskStatus};
use fs::{sys_write, write_ok, write_post};
use process::{
    exit_post,
    get_time_post,
    only_tasks_changed,
    sys_exit,
    sys_get_time,
    sys_trace,
    sys_yield,
    trace_post,
    word_bytes,
    yield_post,
};

pub mod fs;
pub mod process;

verus! {

/// System call numbers.
pub const SYSCALL_UNLINKAT: usize = 35;
pub const SYSCALL_LINKAT: usize = 37;
pub const SYSCALL_OPEN: usize = 56;
pub const SYSCALL_CLOSE: usize = 57;
pub const SYSCALL_READ: usize = 63;
pub const SYSCALL_WRITE: usize = 64;
pub const SYSCALL_FSTAT: usize = 80;
pub const SYSCALL_EXIT: usize = 93;
pub const SYSCALL_YIELD: usize = 124;
pub const SYSCALL_SET_PRIORITY: usize = 140;
pub const SYSCALL_GET_TIME: usize = 169;
pub const SYSCALL_GETPID: usize = 172;
pub const SYSCALL_SBRK: usize = 214;
pub const SYSCALL_MUNMAP: usize = 215;
pub const SYSCALL_FORK: usize = 220;
pub const SYSCALL_EXEC: usize = 221;
pub const SYSCALL_MMAP: usize = 222;
pub const SYSCALL_WAITPID: usize = 260;
pub const SYSCALL_SPAWN: usize = 400;
pub const SYSCALL_TRACE: usize = 410;

/// Per-task counts of the calls that the entry point dispatches.
#[derive(Clone, Copy, Debug, PartialEq, Eq, Structural)]
pub struct CountSyscall {
    pub write: usize,
    pub exit: usize,
    pub get_time: usize,
    pub trace: usize,
    pub _yield: usize,
}

impl CountSyscall {
    /// All counts at zero.
    pub fn new() -> (r: Self)
        ensures
            r == (CountSyscall { write: 0, exit: 0, get_time: 0, trace: 0, _yield: 0 }),
            forall|id: usize| #[trigger] r.count(id) == 0,
    {
        CountSyscall { write: 0, exit: 0, get_time: 0, trace: 0, _yield: 0 }
    }

    /// The count of system call `id`; 0 for a call that is not counted.
    pub open spec fn count(self, id: usize) -> usize {
        if id == SYSCALL_WRITE {
            self.write
        } else if id == SYSCALL_TRACE {
            self.trace
        } else if id == SYSCALL_YIELD {
            self._yield
        } else if id == SYSCALL_EXIT {
            self.exit
        } else if id == SYSCALL_GET_TIME {
            self.get_time
        } else {
            0
        }
    }

    /// The counts after one more call of `id`.
    pub open spec fn bumped(self, id: usize) -> Self {
        if id == SYSCALL_WRITE {
            CountSyscall { write: (self.write + 1) as usize, ..self }
        } else if id == SYSCALL_TRACE {
            CountSyscall { trace: (self.trace + 1) as usize, ..self }
        } else if id == SYSCALL_YIELD {
            CountSyscall { _yield: (self._yield + 1) as usize, ..self }
        } else if id == SYSCALL_EXIT {
            CountSyscall { exit: (self.exit + 1) as usize, ..self }
        } else if id == SYSCALL_GET_TIME {
            CountSyscall { get_time: (self.get_time + 1) as usize, ..self }
        } else {
            self
        }
    }

    /// Whether calls of `id` are counted.
    pub open spec fn counted(id: usize) -> bool {
        id == SYSCALL_WRITE || id == SYSCALL_TRACE || id == SYSCALL_YIELD || id == SYSCALL_EXIT
            || id == SYSCALL_GET_TIME
    }

    /// The count of system call `id`.
    pub fn get_count(&self, id: usize) -> (r: usize)
        ensures
            r == self.count(id),
    {
        if id == SYSCALL_WRITE {
            self.write
        } else if id == SYSCALL_TRACE {
            self.trace
        } else if id == SYSCALL_YIELD {
            self._yield
        } else if id == SYSCALL_EXIT {
            self.exit
        } else if id == SYSCALL_GET_TIME {
            self.get_time
        } else {
            0
        }
    }

    /// Counts one more call of `id`.
    pub fn modify(&mut self, id: usize)
        requires
            old(self).count(id) < usize::MAX,
        ensures
            *final(self) == old(self).bumped(id),
            forall|c: usize| #[trigger]
                final(self).count(c) == old(self).count(c) + if c == id && CountSyscall::counted(
                    id,
                ) {
                    1int
                } else {
                    0int
                },
    {
        if id == SYSCALL_WRITE {
            self.write = self.write + 1;
        } else if id == SYSCALL_TRACE {
            self.trace = self.trace + 1;
        } else if id == SYSCALL_YIELD {
            self._yield = self._yield + 1;
        } else if id == SYSCALL_EXIT {
            self.exit = self.exit + 1;
        } else if id == SYSCALL_GET_TIME {
            self.get_time = self.get_time + 1;
        }
    }
}

/// What the entry point hands back: a value for the calling task, or, for
/// `exit`, what the scheduler decided.
#[derive(Clone, Copy, Debug, PartialEq, Eq, Structural)]
pub enum SyscallReturn {
    Value(isize),
    Exited(SwitchAction),
}

/// The calls the entry point dispatches.
pub open spec fn dispatched(id: usize) -> bool {
    id == SYSCALL_WRITE || id == SYSCALL_EXIT || id == SYSCALL_YIELD || id == SYSCALL_GET_TIME
        || id == SYSCALL_TRACE
}

/// `mid` is `old` with one more call of `id` counted for the running task,
/// by the entry point's counts and by the task manager's.
pub open spec fn counted_call(old: Kernel, mid: Kernel, id: usize) -> bool {
    &&& mid.tm.current == old.tm.current
    &&& mid.tm.tasks@ == old.tm.tasks@.update(
        old.tm.current as int,
        TaskControlBlock {
            syscall_counts: old.cur().syscall_counts.bumped(id),
            cnts: old.cur().cnts.bumped(id),
            ..old.cur()
        },
    )
    &&& only_tasks_changed(old, mid)
}

/// What a dispatched call needs of its arguments.
pub open spec fn syscall_ok(k: Kernel, id: usize, args: [usize; 3]) -> bool {
    &&& dispatched(id)
    &&& k.cur().syscall_counts.count(id) < usize::MAX
    &&& k.cur().cnts.count(id) < isize::MAX
    &&& id == SYSCALL_WRITE ==> write_ok(k, args[0], args[1], args[2])
    &&& id == SYSCALL_EXIT ==> other_ready(k.tm.tasks@, k.tm.current as int)
    &&& id == SYSCALL_GET_TIME ==> range_mapped(k.mem(), args[0] as int, 2 * word_bytes())
}

/// Changing only the running task's counts keeps the kernel well formed.
proof fn lemma_counts_change_keeps_wf(old: Kernel, new: Kernel, t: TaskControlBlock)
    requires
        old.wf(),
        new.tm.current == old.tm.current,
        new.tm.tasks@ == old.tm.tasks@.update(old.tm.current as int, t),
        t == (TaskControlBlock { syscall_counts: t.syscall_counts, cnts: t.cnts, ..old.cur() }),
        new.free_frames == old.free_frames,
        new.files == old.files,
        new.fs == old.fs,
    ensures
        new.wf(),
{
    let c = old.tm.current as int;
    assert(old.tm.tasks[c].wf());
    assert forall|fd: int|
        0 <= fd < t.fd_table.len() && (#[trigger] t.fd_table[fd]) is Some implies t.fd_table[fd].unwrap()
        < old.files.len() by {
        assert(old.tm.tasks[c].fd_table[fd] is Some);
    }
    assert forall|ch: int| 0 <= ch < t.children.len() implies #[trigger] t.children[ch]
        < old.tm.tasks.len() by {
        assert(old.tm.tasks[c].children[ch] < old.tm.tasks.len());
    }
    crate::kernel::lemma_task_update_keeps_wf(old, new, t);
}

/// Counts the call for the running task, then performs system call
/// `syscall_id` with `args`; `now_us` is the time, in microseconds since
/// the epoch, for `get_time`.
pub fn syscall(k: &mut Kernel, syscall_id: usize, args: [usize; 3], now_us: usize) -> (r:
    SyscallReturn)
    requires
        old(k).wf(),
        syscall_ok(*old(k), syscall_id, args),
    ensures
        final(k).wf(),
        exists|mid: Kernel|
            #[trigger] counted_call(*old(k), mid, syscall_id) && mid.wf() && if syscall_id
                == SYSCALL_WRITE {
                r matches SyscallReturn::Value(x) && write_post(
                    mid,
                    *final(k),
                    args[0],
                    args[1],
                    args[2],
                    x,
                )
            } else if syscall_id == SYSCALL_EXIT {
                r matches SyscallReturn::Exited(a) && exit_post(mid, *final(k), args[0] as i32, a)
            } else if syscall_id == SYSCALL_YIELD {
                r matches SyscallReturn::Value(x) && yield_post(mid, *final(k), x)
            } else if syscall_id == SYSCALL_GET_TIME {
                r matches SyscallReturn::Value(x) && get_time_post(
                    mid,
                    *final(k),
                    args[0],
                    now_us,
                    x,
                )
            } else {
                r matches SyscallReturn::Value(x) && trace_post(
                    mid,
                    *final(k),
                    args[0],
                    args[1],
                    args[2],
                    x,
                )
            },
{
    let cur = k.tm.current;
    k.tm.tasks[cur].syscall_counts.modify(syscall_id);
    proof {
        let t = TaskControlBlock {
            syscall_counts: old(k).cur().syscall_counts.bumped(syscall_id),
            ..old(k).cur()
        };
        assert(k.tm.tasks@ =~= old(k).tm.tasks@.update(cur as int, t));
        lemma_counts_change_keeps_wf(*old(k), *k, t);
    }
    k.tm.modify_cnt(syscall_id);
    let ghost mid = *k;
    proof {
        let t = TaskControlBlock {
            syscall_counts: old(k).cur().syscall_counts.bumped(syscall_id),
            cnts: old(k).cur().cnts.bumped(syscall_id),
            ..old(k).cur()
        };
        assert(k.tm.tasks@ =~= old(k).tm.tasks@.update(cur as int, t));
        lemma_counts_change_keeps_wf(*old(k), *k, t);
    }
    let r = if syscall_id == SYSCALL_WRITE {
        SyscallReturn::Value(sys_write(k, args[0], args[1], args[2]))
    } else if syscall_id == SYSCALL_EXIT {
        proof {
            let j = choose|j: int|
                0 <= j < old(k).tm.tasks@.len() && j != cur && #[trigger] old(k).tm.tasks@[j].status
                    == TaskStatus::Ready;
            assert(k.tm.tasks@[j] == old(k).tm.tasks@[j]);
        }
        SyscallReturn::Exited(sys_exit(k, args[0] as i32))
    } else if syscall_id == SYSCALL_YIELD {
        SyscallReturn::Value(sys_yield(k))
    } else if syscall_id == SYSCALL_GET_TIME {
        SyscallReturn::Value(sys_get_time(k, args[0], args[1], now_us))
    } else {
        SyscallReturn::Value(sys_trace(k, args[0], args[1], args[2]))
    };
    assert(counted_call(*old(k), mid, syscall_id));
    r
}

/// Right after the entry point has counted a `trace` call, `trace`
/// reporting its own count gives one more than before: the count includes
/// the call itself.
pub proof fn lemma_trace_counts_itself(k0: Kernel, mid: Kernel, k2: Kernel, data: usize, r: isize)
    requires
        k0.wf(),
        k0.cur().cnts.count(SYSCALL_TRACE) < isize::MAX,
        counted_call(k0, mid, SYSCALL_TRACE),
        trace_post(mid, k2, 2, SYSCALL_TRACE, data, r),
    ensures
        r == k0.cur().cnts.count(SYSCALL_TRACE) + 1,
{
    assert(mid.cur().cnts == k0.cur().cnts.bumped(SYSCALL_TRACE));
}


/// The entry point counts exactly write (64), exit (93), yield (124),
/// get_time (169) and trace (410): one more call of such a call raises its
/// count by one; a call of any other number has count 0 and changes
/// nothing; and no call changes the count of another.
pub proof fn lemma_entry_counts(c: CountSyscall, id: usize, other: usize)
    requires
        c.count(id) < usize::MAX,
    ensures
        CountSyscall::counted(id) <==> (id == 64 || id == 93 || id == 124 || id == 169 || id == 410),
        (id == 64 || id == 93 || id == 124 || id == 169 || id == 410) ==> c.bumped(id).count(id)
            == c.count(id) + 1,
        !(id == 64 || id == 93 || id == 124 || id == 169 || id == 410) ==> c.bumped(id) == c
            && c.count(id) == 0,
        other != id ==> c.bumped(id).count(other) == c.count(other),
        (CountSyscall { write: 0, exit: 0, get_time: 0, trace: 0, _yield: 0 }).count(other) == 0,
{
}

} // verus!
