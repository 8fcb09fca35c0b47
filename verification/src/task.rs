//! Task management: the task table, the round-robin choice of the next task
//! to run, the state transitions around a switch, and per-task bookkeeping
//! (program break, system-call counts).
use vstd::prelude::*;
use crate::mm::{map_range, unmap_range, AddressSpace, PageState, PAGE_SIZE};
use crate::syscall::{
    CountSyscall,
    SYSCALL_EXIT,
    SYSCALL_GET_TIME,
    SYSCALL_MMAP,
    SYSCALL_MUNMAP,
    SYSCALL_SBRK,
    SYSCALL_TRACE,
    SYSCALL_WRITE,
    SYSCALL_YIELD,
};

verus! {

/// The state of a task.
#[derive(Clone, Copy, Debug, PartialEq, Eq, Structural)]
pub enum TaskStatus {
    UnInit,
    Ready,
    Running,
    Exited,
}

/// What the scheduler decided: switch from one task to another.
#[derive(Clone, Copy, Debug, PartialEq, Eq, Structural)]
pub struct SwitchAction {
    pub from: usize,
    pub to: usize,
}

/// Per-task counts of the system calls that the task manager tracks.
#[derive(Clone, Copy, Debug, PartialEq, Eq, Structural)]
pub struct CntSys {
    pub cnt_write: isize,
    pub cnt_exit: isize,
    pub cnt_gettime: isize,
    pub cnt_yield: isize,
    pub cnt_trace: isize,
    pub cnt_mmap: isize,
    pub cnt_munmap: isize,
    pub cnt_sbrk: isize,
}

impl CntSys {
    /// All counts at zero.
    pub fn new() -> (r: Self)
        ensures
            r == (CntSys {
                cnt_write: 0,
                cnt_exit: 0,
                cnt_gettime: 0,
                cnt_yield: 0,
                cnt_trace: 0,
                cnt_mmap: 0,
                cnt_munmap: 0,
                cnt_sbrk: 0,
            }),
            forall|id: usize| #[trigger] r.count(id) == if CntSys::counted(id) {
                0
            } else {
                -1
            },
    {
        CntSys {
            cnt_write: 0,
            cnt_exit: 0,
            cnt_gettime: 0,
            cnt_yield: 0,
            cnt_trace: 0,
            cnt_mmap: 0,
            cnt_munmap: 0,
            cnt_sbrk: 0,
        }
    }

    /// Whether system call `id` is one that is counted.
    pub open spec fn counted(id: usize) -> bool {
        id == SYSCALL_WRITE || id == SYSCALL_EXIT || id == SYSCALL_YIELD || id == SYSCALL_GET_TIME
            || id == SYSCALL_TRACE || id == SYSCALL_MMAP || id == SYSCALL_MUNMAP || id
            == SYSCALL_SBRK
    }

    /// The counts after one more call of `id`.
    pub open spec fn bumped(self, id: usize) -> Self {
        if id == SYSCALL_WRITE {
            CntSys { cnt_write: (self.cnt_write + 1) as isize, ..self }
        } else if id == SYSCALL_EXIT {
            CntSys { cnt_exit: (self.cnt_exit + 1) as isize, ..self }
        } else if id == SYSCALL_YIELD {
            CntSys { cnt_yield: (self.cnt_yield + 1) as isize, ..self }
        } else if id == SYSCALL_GET_TIME {
            CntSys { cnt_gettime: (self.cnt_gettime + 1) as isize, ..self }
        } else if id == SYSCALL_TRACE {
            CntSys { cnt_trace: (self.cnt_trace + 1) as isize, ..self }
        } else if id == SYSCALL_MMAP {
            CntSys { cnt_mmap: (self.cnt_mmap + 1) as isize, ..self }
        } else if id == SYSCALL_MUNMAP {
            CntSys { cnt_munmap: (self.cnt_munmap + 1) as isize, ..self }
        } else if id == SYSCALL_SBRK {
            CntSys { cnt_sbrk: (self.cnt_sbrk + 1) as isize, ..self }
        } else {
            self
        }
    }

    /// The count of system call `id`; -1 for a call that is not counted.
    pub open spec fn count(self, id: usize) -> isize {
        if id == SYSCALL_WRITE {
            self.cnt_write
        } else if id == SYSCALL_EXIT {
            self.cnt_exit
        } else if id == SYSCALL_YIELD {
            self.cnt_yield
        } else if id == SYSCALL_GET_TIME {
            self.cnt_gettime
        } else if id == SYSCALL_TRACE {
            self.cnt_trace
        } else if id == SYSCALL_MMAP {
            self.cnt_mmap
        } else if id == SYSCALL_MUNMAP {
            self.cnt_munmap
        } else if id == SYSCALL_SBRK {
            self.cnt_sbrk
        } else {
            -1isize
        }
    }
}

/// The user registers saved when a task traps into the kernel: the 32
/// general registers and the address to return to.
pub struct TrapContext {
    pub x: Vec<usize>,
    pub sepc: usize,
}

/// The registers a task starts with: all zero but the stack pointer
/// (register 2), returning to the entry point.
pub open spec fn init_trap_cx(t: TrapContext, sp: usize, entry: usize) -> bool {
    &&& t.x@ == Seq::new(32, |i: int| if i == 2 { sp } else { 0usize })
    &&& t.sepc == entry
}

impl TrapContext {
    /// The registers of a task about to start at `entry` with its stack
    /// pointer at `sp`.
    pub fn app_init_context(entry: usize, sp: usize) -> (r: Self)
        ensures
            init_trap_cx(r, sp, entry),
    {
        let mut x: Vec<usize> = Vec::new();
        let mut i: usize = 0;
        while i < 32
            invariant
                i <= 32,
                x@ == Seq::new(i as nat, |j: int| if j == 2 { sp } else { 0usize }),
            decreases 32 - i,
        {
            x.push(if i == 2 { sp } else { 0 });
            assert(x@ =~= Seq::new((i + 1) as nat, |j: int| if j == 2 { sp } else { 0usize }));
            i += 1;
        }
        TrapContext { x, sepc: entry }
    }

    /// A copy of these registers in which register `reg` holds `value`.
    pub fn copy_with(&self, reg: usize, value: usize) -> (r: Self)
        requires
            reg < self.x@.len(),
        ensures
            r.x@ == self.x@.update(reg as int, value),
            r.sepc == self.sepc,
    {
        let mut x: Vec<usize> = Vec::new();
        let mut i: usize = 0;
        while i < self.x.len()
            invariant
                i <= self.x.len(),
                x@ == self.x@.take(i as int),
            decreases self.x.len() - i,
        {
            x.push(self.x[i]);
            assert(x@ =~= self.x@.take(i + 1));
            i += 1;
        }
        assert(x@ =~= self.x@);
        x.set(reg, value);
        TrapContext { x, sepc: self.sepc }
    }
}

/// A task: its identity, scheduling state, family, memory and open files.
pub struct TaskControlBlock {
    pub pid: usize,
    pub status: TaskStatus,
    pub parent: Option<usize>,
    pub children: Vec<usize>,
    pub exit_code: i32,
    pub priority: isize,
    /// The image the task was loaded from.
    pub program: Vec<u8>,
    pub heap_bottom: usize,
    pub program_brk: usize,
    pub memory: AddressSpace,
    /// The user registers saved at its last trap.
    pub trap_cx: TrapContext,
    /// Descriptor table: each open descriptor names an entry of the kernel's
    /// open-file table.
    pub fd_table: Vec<Option<usize>>,
    /// Counts kept by the system-call entry point.
    pub syscall_counts: CountSyscall,
    /// Counts kept by the task manager.
    pub cnts: CntSys,
}

/// The priority a new task starts with.
pub const DEFAULT_PRIORITY: isize = 16;

/// The program break after growing it by `size` (shrinking where negative);
/// `None` where it would drop below the heap's bottom.
pub open spec fn new_brk(heap_bottom: usize, brk: usize, size: i32) -> Option<usize> {
    if brk + size < heap_bottom {
        None
    } else {
        Some((brk + size) as usize)
    }
}

impl TaskControlBlock {
    pub open spec fn wf(&self) -> bool {
        &&& self.memory.wf()
        &&& self.heap_bottom <= self.program_brk <= isize::MAX
        &&& self.trap_cx.x@.len() == 32
    }

    /// Moves the program break by `size`, growing the heap by the pages up
    /// to the new break or giving back those past it; the old break, or
    /// `None` (and nothing changes) if the break would drop below the heap's
    /// bottom.
    pub fn change_program_brk(&mut self, size: i32) -> (r: Option<usize>)
        requires
            old(self).wf(),
            old(self).program_brk + size <= isize::MAX,
            new_brk(old(self).heap_bottom, old(self).program_brk, size) matches Some(nb) ==> heap_ok(
                old(self).memory@,
                old(self).program_brk as int,
                nb as int,
            ),
        ensures
            final(self).wf(),
            match new_brk(old(self).heap_bottom, old(self).program_brk, size) {
                Some(nb) => {
                    &&& r == Some(old(self).program_brk)
                    &&& *final(self) == (TaskControlBlock {
                        program_brk: nb,
                        memory: final(self).memory,
                        ..*old(self)
                    })
                    &&& final(self).memory@ == heap_memory(
                        old(self).memory@,
                        old(self).program_brk as int,
                        nb as int,
                    )
                },
                None => r is None && *final(self) == *old(self),
            },
    {
        let old_break = self.program_brk;
        let nb: usize;
        if size < 0 {
            let dec = (0i64 - size as i64) as usize;
            if dec > self.program_brk - self.heap_bottom {
                return None;
            }
            nb = self.program_brk - dec;
        } else {
            nb = self.program_brk + size as usize;
        }
        assert(nb == old_break + size);
        let old_end = (old_break + PAGE_SIZE - 1) / PAGE_SIZE;
        let new_end = (nb + PAGE_SIZE - 1) / PAGE_SIZE;
        assert(old_end == page_ceil(old_break as int));
        assert(new_end == page_ceil(nb as int));
        let mut mem = AddressSpace::new();
        std::mem::swap(&mut mem, &mut self.memory);
        let ghost m0 = mem@;
        assert(heap_ok(m0, old_break as int, nb as int));
        if nb >= old_break {
            assert(new_end >= old_end) by (nonlinear_arith)
                requires
                    old_end == (old_break + 4095) / 4096,
                    new_end == (nb + 4095) / 4096,
                    nb >= old_break,
            ;
            let mut v: usize = old_end;
            assert(map_range(m0, old_end as int, 0, HEAP_FLAGS) =~= m0);
            while v < new_end
                invariant
                    old_end <= v <= new_end,
                    mem.wf(),
                    mem@ == map_range(m0, old_end as int, v - old_end, HEAP_FLAGS),
                    forall|u: usize| old_end <= u < new_end ==> !#[trigger] m0.contains_key(u),
                decreases new_end - v,
            {
                assert(!m0.contains_key(v));
                mem.map_zeroed(v, HEAP_FLAGS);
                assert(mem@ =~= map_range(m0, old_end as int, v + 1 - old_end, HEAP_FLAGS));
                v += 1;
            }
        } else {
            assert(new_end <= old_end) by (nonlinear_arith)
                requires
                    old_end == (old_break + 4095) / 4096,
                    new_end == (nb + 4095) / 4096,
                    nb < old_break,
            ;
            let mut v: usize = new_end;
            assert(unmap_range(m0, new_end as int, 0) =~= m0);
            while v < old_end
                invariant
                    new_end <= v <= old_end,
                    mem.wf(),
                    mem@ == unmap_range(m0, new_end as int, v - new_end),
                    forall|u: usize| new_end <= u < old_end ==> #[trigger] m0.contains_key(u),
                decreases old_end - v,
            {
                assert(m0.contains_key(v));
                mem.unmap(v);
                assert(mem@ =~= unmap_range(m0, new_end as int, v + 1 - new_end));
                v += 1;
            }
        }
        self.memory = mem;
        self.program_brk = nb;
        Some(old_break)
    }
}

/// Page-table bits of heap pages: valid, readable, writable, user.
pub const HEAP_FLAGS: u8 = 23;

/// The page past the last byte below address `a`.
pub open spec fn page_ceil(a: int) -> int {
    (a + PAGE_SIZE - 1) / PAGE_SIZE as int
}

/// The heap's pages can follow the break from `old_brk` to `new_brk`: the
/// pages it grows into are free, and those it gives back are mapped.
pub open spec fn heap_ok(m: Map<usize, PageState>, old_brk: int, new_brk: int) -> bool {
    if new_brk >= old_brk {
        forall|u: usize| page_ceil(old_brk) <= u < page_ceil(new_brk) ==> !#[trigger] m.contains_key(u)
    } else {
        forall|u: usize| page_ceil(new_brk) <= u < page_ceil(old_brk) ==> #[trigger] m.contains_key(u)
    }
}

/// The address space after the break moves from `old_brk` to `new_brk`:
/// zeroed heap pages added up to the page of the new break, or the pages
/// past it removed.
pub open spec fn heap_memory(m: Map<usize, PageState>, old_brk: int, new_brk: int) -> Map<usize, PageState> {
    if new_brk >= old_brk {
        map_range(m, page_ceil(old_brk), page_ceil(new_brk) - page_ceil(old_brk), HEAP_FLAGS)
    } else {
        unmap_range(m, page_ceil(new_brk), page_ceil(old_brk) - page_ceil(new_brk))
    }
}

/// Growing the heap by `size` bytes and then shrinking it back gives back
/// the address space it started with: the pages the heap grew into are
/// exactly those it gives back.
pub proof fn lemma_heap_round_trip(m: Map<usize, PageState>, brk: int, size: int)
    requires
        0 <= brk,
        0 <= size,
        heap_ok(m, brk, brk + size),
    ensures
        heap_ok(heap_memory(m, brk, brk + size), brk + size, brk),
        heap_memory(heap_memory(m, brk, brk + size), brk + size, brk) == m,
{
    let (lo, hi) = (page_ceil(brk), page_ceil(brk + size));
    assert(lo <= hi) by (nonlinear_arith)
        requires
            lo == (brk + 4095) / 4096,
            hi == (brk + size + 4095) / 4096,
            size >= 0,
    ;
    let m1 = heap_memory(m, brk, brk + size);
    assert(m1 == map_range(m, lo, hi - lo, HEAP_FLAGS));
    if size > 0 {
        assert(unmap_range(m1, lo, hi - lo) =~= m);
        assert(heap_memory(m1, brk + size, brk) == unmap_range(m1, lo, hi - lo));
    } else {
        assert(m1 =~= m);
        assert(map_range(m1, lo, 0, HEAP_FLAGS) =~= m1);
    }
}

/// The position `k` steps after `current` in a table of `n` tasks.
pub open spec fn rr_index(n: int, current: int, k: int) -> int {
    (current + k) % n
}

/// The first ready task at most `n` steps after `current`, looking from
/// step `k` on.
pub open spec fn next_ready_from(tasks: Seq<TaskControlBlock>, current: int, k: int) -> Option<
    usize,
>
    decreases tasks.len() + 1 - k,
{
    if k > tasks.len() || k < 1 {
        None
    } else if tasks[rr_index(tasks.len() as int, current, k)].status == TaskStatus::Ready {
        Some(rr_index(tasks.len() as int, current, k) as usize)
    } else {
        next_ready_from(tasks, current, k + 1)
    }
}

/// The task that runs next: the first ready one after the current task in
/// round-robin order (the current one last).
pub open spec fn next_ready(tasks: Seq<TaskControlBlock>, current: int) -> Option<usize> {
    next_ready_from(tasks, current, 1)
}

/// The task table and the task that is running.
pub struct TaskManager {
    pub tasks: Vec<TaskControlBlock>,
    pub current: usize,
}

/// No task other than the current one is running.
pub open spec fn only_current_runs(tasks: Seq<TaskControlBlock>, current: int) -> bool {
    forall|i: int| 0 <= i < tasks.len() && i != current ==> #[trigger] tasks[i].status
        != TaskStatus::Running
}

/// `new` is `old` with the task at `i` replaced by one that differs only in
/// its status, which is `s`.
pub open spec fn status_set(
    old: Seq<TaskControlBlock>,
    new: Seq<TaskControlBlock>,
    i: int,
    s: TaskStatus,
) -> bool {
    &&& new.len() == old.len()
    &&& new[i].status == s
    &&& same_but_status(old[i], new[i])
    &&& forall|j: int| 0 <= j < old.len() && j != i ==> #[trigger] new[j] == old[j]
}

/// Two tasks that differ at most in their status.
pub open spec fn same_but_status(a: TaskControlBlock, b: TaskControlBlock) -> bool {
    &&& a.pid == b.pid
    &&& a.parent == b.parent
    &&& a.children == b.children
    &&& a.exit_code == b.exit_code
    &&& a.priority == b.priority
    &&& a.program == b.program
    &&& a.heap_bottom == b.heap_bottom
    &&& a.program_brk == b.program_brk
    &&& a.memory == b.memory
    &&& a.trap_cx == b.trap_cx
    &&& a.fd_table == b.fd_table
    &&& a.syscall_counts == b.syscall_counts
    &&& a.cnts == b.cnts
}

impl TaskManager {
    pub open spec fn wf(&self) -> bool {
        &&& 0 < self.tasks.len()
        &&& self.current < self.tasks.len()
        &&& forall|i: int| 0 <= i < self.tasks.len() ==> (#[trigger] self.tasks[i]).wf()
        &&& only_current_runs(self.tasks@, self.current as int)
    }

    /// Number of tasks in the table.
    pub fn num_app(&self) -> (r: usize)
        ensures
            r == self.tasks.len(),
    {
        self.tasks.len()
    }

    /// Sets the status of task `i`.
    fn set_status(&mut self, i: usize, s: TaskStatus)
        requires
            i < old(self).tasks.len(),
        ensures
            status_set(old(self).tasks@, final(self).tasks@, i as int, s),
            final(self).current == old(self).current,
    {
        self.tasks[i].status = s;
    }

    /// Marks the first task running; it becomes the current one.
    pub fn run_first_task(&mut self) -> (r: SwitchAction)
        requires
            old(self).wf(),
            old(self).current == 0,
        ensures
            final(self).wf(),
            final(self).current == 0,
            status_set(old(self).tasks@, final(self).tasks@, 0, TaskStatus::Running),
            r == (SwitchAction { from: 0, to: 0 }),
    {
        self.set_status(0, TaskStatus::Running);
        proof {
            assert forall|i: int| 0 <= i < self.tasks.len() implies (#[trigger] self.tasks[i]).wf() by {
                assert(old(self).tasks[i].wf());
            }
        }
        SwitchAction { from: 0, to: 0 }
    }

    /// Marks the current task ready again.
    pub fn mark_current_suspended(&mut self)
        requires
            old(self).wf(),
        ensures
            final(self).wf(),
            final(self).current == old(self).current,
            status_set(
                old(self).tasks@,
                final(self).tasks@,
                old(self).current as int,
                TaskStatus::Ready,
            ),
    {
        let cur = self.current;
        self.set_status(cur, TaskStatus::Ready);
        proof {
            assert forall|i: int| 0 <= i < self.tasks.len() implies (#[trigger] self.tasks[i]).wf() by {
                assert(old(self).tasks[i].wf());
            }
        }
    }

    /// Marks the current task exited.
    pub fn mark_current_exited(&mut self)
        requires
            old(self).wf(),
        ensures
            final(self).wf(),
            final(self).current == old(self).current,
            status_set(
                old(self).tasks@,
                final(self).tasks@,
                old(self).current as int,
                TaskStatus::Exited,
            ),
    {
        let cur = self.current;
        self.set_status(cur, TaskStatus::Exited);
        proof {
            assert forall|i: int| 0 <= i < self.tasks.len() implies (#[trigger] self.tasks[i]).wf() by {
                assert(old(self).tasks[i].wf());
            }
        }
    }

    /// The next task to run: the first ready task after the current one in
    /// round-robin order, the current one last.
    pub fn find_next_task(&self) -> (r: Option<usize>)
        requires
            self.wf(),
        ensures
            r == next_ready(self.tasks@, self.current as int),
            r matches Some(i) ==> i < self.tasks.len() && self.tasks[i as int].status
                == TaskStatus::Ready,
    {
        let n = self.tasks.len();
        let cur = self.current;
        let mut j: usize = 0;
        while j < n
            invariant
                self.wf(),
                n == self.tasks.len(),
                cur == self.current,
                j <= n,
                next_ready(self.tasks@, cur as int) == next_ready_from(
                    self.tasks@,
                    cur as int,
                    j + 1,
                ),
            decreases n - j,
        {
            let k = j + 1;
            let id = if k <= n - 1 - cur {
                cur + k
            } else {
                k - (n - cur)
            };
            assert(id == rr_index(n as int, cur as int, k as int)) by (nonlinear_arith)
                requires
                    cur < n,
                    1 <= k <= n,
                    id == if k <= n - 1 - cur {
                        cur + k
                    } else {
                        k - (n - cur)
                    },
            ;
            if self.tasks[id].status == TaskStatus::Ready {
                return Some(id);
            }
            j += 1;
        }
        None
    }

    /// Switches to the next ready task, which becomes the current one and
    /// runs. Some task must be ready: with none left, all applications have
    /// completed and the kernel stops instead.
    pub fn run_next_task(&mut self) -> (r: SwitchAction)
        requires
            old(self).wf(),
            old(self).tasks[old(self).current as int].status != TaskStatus::Running,
            next_ready(old(self).tasks@, old(self).current as int) is Some,
        ensures
            final(self).wf(),
            match next_ready(old(self).tasks@, old(self).current as int) {
                Some(next) => {
                    &&& next < old(self).tasks.len()
                    &&& old(self).tasks[next as int].status == TaskStatus::Ready
                    &&& r == SwitchAction { from: old(self).current, to: next }
                    &&& final(self).current == next
                    &&& status_set(
                        old(self).tasks@,
                        final(self).tasks@,
                        next as int,
                        TaskStatus::Running,
                    )
                },
                None => false,
            },
    {
        match self.find_next_task() {
            Some(next) => {
                let current = self.current;
                self.set_status(next, TaskStatus::Running);
                self.current = next;
                proof {
                    assert forall|i: int| 0 <= i < self.tasks.len() implies (
                    #[trigger] self.tasks[i]).wf() by {
                        assert(old(self).tasks[i].wf());
                    }
                    assert forall|i: int|
                        0 <= i < self.tasks.len() && i != next implies #[trigger] self.tasks[i].status
                        != TaskStatus::Running by {
                        assert(old(self).tasks[i].status != TaskStatus::Running);
                    }
                }
                SwitchAction { from: current, to: next }
            },
            None => {
                assert(false);
                SwitchAction { from: self.current, to: self.current }
            },
        }
    }

    /// Marks the current task ready and switches to the next one.
    pub fn suspend_current_and_run_next(&mut self) -> (r: SwitchAction)
        requires
            old(self).wf(),
        ensures
            final(self).wf(),
            ({
                let mid = old(self).tasks@.update(
                    old(self).current as int,
                    TaskControlBlock {
                        status: TaskStatus::Ready,
                        ..old(self).tasks[old(self).current as int]
                    },
                );
                next_ready(mid, old(self).current as int) matches Some(next) && r
                    == SwitchAction { from: old(self).current, to: next }
                    && final(self).current == next && status_set(
                    mid,
                    final(self).tasks@,
                    next as int,
                    TaskStatus::Running,
                )
            }),
    {
        self.mark_current_suspended();
        let ghost mid = self.tasks@;
        assert(mid =~= old(self).tasks@.update(
            old(self).current as int,
            TaskControlBlock { status: TaskStatus::Ready, ..old(self).tasks[old(self).current as int] },
        ));
        proof {
            lemma_next_ready_finds_ready(mid, self.current as int);
        }
        self.run_next_task()
    }

    /// Marks the current task exited with `exit_code` and switches to the
    /// next ready one; another task must be ready.
    pub fn exit_current_and_run_next(&mut self, exit_code: i32) -> (r: SwitchAction)
        requires
            old(self).wf(),
            other_ready(old(self).tasks@, old(self).current as int),
        ensures
            final(self).wf(),
            final(self).tasks[old(self).current as int].exit_code == exit_code,
            final(self).tasks[old(self).current as int].status == TaskStatus::Exited,
            ({
                let mid = old(self).tasks@.update(
                    old(self).current as int,
                    TaskControlBlock {
                        status: TaskStatus::Exited,
                        exit_code,
                        ..old(self).tasks[old(self).current as int]
                    },
                );
                match next_ready(mid, old(self).current as int) {
                    Some(next) => r == SwitchAction { from: old(self).current, to: next }
                        && final(self).current == next && status_set(
                        mid,
                        final(self).tasks@,
                        next as int,
                        TaskStatus::Running,
                    ),
                    None => false,
                }
            }),
    {
        let cur = self.current;
        self.tasks[cur].exit_code = exit_code;
        self.mark_current_exited();
        let ghost mid = self.tasks@;
        assert(mid =~= old(self).tasks@.update(
            old(self).current as int,
            TaskControlBlock {
                status: TaskStatus::Exited,
                exit_code,
                ..old(self).tasks[old(self).current as int]
            },
        ));
        proof {
            let j = choose|j: int|
                0 <= j < mid.len() && j != cur && #[trigger] old(self).tasks@[j].status
                    == TaskStatus::Ready;
            assert(mid[j].status == TaskStatus::Ready);
            lemma_next_ready_finds(mid, cur as int, j);
        }
        self.run_next_task()
    }

    /// Moves the current task's program break by `size` (see
    /// `TaskControlBlock::change_program_brk`).
    pub fn change_current_program_brk(&mut self, size: i32) -> (r: Option<usize>)
        requires
            old(self).wf(),
            old(self).tasks[old(self).current as int].program_brk + size <= isize::MAX,
            ({
                let t = old(self).tasks[old(self).current as int];
                new_brk(t.heap_bottom, t.program_brk, size) matches Some(nb) ==> heap_ok(
                    t.memory@,
                    t.program_brk as int,
                    nb as int,
                )
            }),
        ensures
            final(self).wf(),
            final(self).current == old(self).current,
            final(self).tasks.len() == old(self).tasks.len(),
            ({
                let t = old(self).tasks[old(self).current as int];
                match new_brk(t.heap_bottom, t.program_brk, size) {
                    Some(nb) => {
                        &&& r == Some(t.program_brk)
                        &&& final(self).tasks@ == old(self).tasks@.update(
                            old(self).current as int,
                            TaskControlBlock {
                                program_brk: nb,
                                memory: final(self).tasks[old(self).current as int].memory,
                                ..t
                            },
                        )
                        &&& final(self).tasks[old(self).current as int].memory@ == heap_memory(
                            t.memory@,
                            t.program_brk as int,
                            nb as int,
                        )
                    },
                    None => r is None && final(self).tasks@ == old(self).tasks@,
                }
            }),
    {
        let cur = self.current;
        assert(self.tasks[cur as int].wf());
        let r = self.tasks[cur].change_program_brk(size);
        proof {
            assert forall|i: int| 0 <= i < self.tasks.len() implies (#[trigger] self.tasks[i]).wf() by {
                assert(old(self).tasks[i].wf());
            }
            assert forall|i: int|
                0 <= i < self.tasks.len() && i != cur implies #[trigger] self.tasks[i].status
                != TaskStatus::Running by {
                assert(old(self).tasks[i].status != TaskStatus::Running);
            }
            assert(self.tasks@ =~= old(self).tasks@.update(cur as int, self.tasks[cur as int]));
        }
        r
    }

    /// Counts one more call of system call `id` for the current task.
    pub fn modify_cnt(&mut self, id: usize)
        requires
            old(self).wf(),
            old(self).tasks[old(self).current as int].cnts.count(id) < isize::MAX,
        ensures
            final(self).wf(),
            final(self).current == old(self).current,
            final(self).tasks.len() == old(self).tasks.len(),
            forall|c: usize| #[trigger]
                final(self).tasks[old(self).current as int].cnts.count(c) == old(self).tasks[old(self).current as int].cnts.count(c) + if c == id && CntSys::counted(
                    id,
                ) {
                    1int
                } else {
                    0int
                },
            final(self).tasks[old(self).current as int] == (TaskControlBlock {
                cnts: old(self).tasks[old(self).current as int].cnts.bumped(id),
                ..old(self).tasks[old(self).current as int]
            }),
            forall|j: int|
                0 <= j < old(self).tasks.len() && j != old(self).current ==> #[trigger] final(self).tasks[j] == old(self).tasks[j],
    {
        let cur = self.current;
        let c = &mut self.tasks[cur].cnts;
        if id == SYSCALL_WRITE {
            c.cnt_write = c.cnt_write + 1;
        } else if id == SYSCALL_EXIT {
            c.cnt_exit = c.cnt_exit + 1;
        } else if id == SYSCALL_YIELD {
            c.cnt_yield = c.cnt_yield + 1;
        } else if id == SYSCALL_GET_TIME {
            c.cnt_gettime = c.cnt_gettime + 1;
        } else if id == SYSCALL_TRACE {
            c.cnt_trace = c.cnt_trace + 1;
        } else if id == SYSCALL_MMAP {
            c.cnt_mmap = c.cnt_mmap + 1;
        } else if id == SYSCALL_MUNMAP {
            c.cnt_munmap = c.cnt_munmap + 1;
        } else if id == SYSCALL_SBRK {
            c.cnt_sbrk = c.cnt_sbrk + 1;
        }
        proof {
            assert forall|i: int| 0 <= i < self.tasks.len() implies (#[trigger] self.tasks[i]).wf() by {
                assert(old(self).tasks[i].wf());
            }
            assert forall|i: int|
                0 <= i < self.tasks.len() && i != cur implies #[trigger] self.tasks[i].status
                != TaskStatus::Running by {
                assert(old(self).tasks[i].status != TaskStatus::Running);
            }
        }
    }

    /// The current task's count of system call `id` (-1 if not counted).
    pub fn get_count(&self, id: usize) -> (r: isize)
        requires
            self.wf(),
        ensures
            r == self.tasks[self.current as int].cnts.count(id),
    {
        let c = &self.tasks[self.current].cnts;
        if id == SYSCALL_WRITE {
            c.cnt_write
        } else if id == SYSCALL_EXIT {
            c.cnt_exit
        } else if id == SYSCALL_YIELD {
            c.cnt_yield
        } else if id == SYSCALL_GET_TIME {
            c.cnt_gettime
        } else if id == SYSCALL_TRACE {
            c.cnt_trace
        } else if id == SYSCALL_MMAP {
            c.cnt_mmap
        } else if id == SYSCALL_MUNMAP {
            c.cnt_munmap
        } else if id == SYSCALL_SBRK {
            c.cnt_sbrk
        } else {
            -1
        }
    }
}

/// Some task other than the current one is ready.
pub open spec fn other_ready(tasks: Seq<TaskControlBlock>, current: int) -> bool {
    exists|j: int| 0 <= j < tasks.len() && j != current && #[trigger] tasks[j].status
        == TaskStatus::Ready
}

/// Where some task is ready, the round-robin search finds a task.
pub proof fn lemma_next_ready_finds(tasks: Seq<TaskControlBlock>, current: int, j: int)
    requires
        0 <= current < tasks.len(),
        0 <= j < tasks.len(),
        tasks[j].status == TaskStatus::Ready,
    ensures
        next_ready(tasks, current) is Some,
{
    let n = tasks.len() as int;
    let kj = if j > current { j - current } else { j - current + n };
    assert(1 <= kj <= n && rr_index(n, current, kj) == j) by (nonlinear_arith)
        requires
            0 <= current < n,
            0 <= j < n,
            kj == if j > current { j - current } else { j - current + n },
    ;
    lemma_next_ready_from_reaches(tasks, current, 1, kj);
}

proof fn lemma_next_ready_from_reaches(tasks: Seq<TaskControlBlock>, current: int, k: int, kj: int)
    requires
        0 <= current < tasks.len(),
        1 <= k <= kj <= tasks.len(),
        tasks[rr_index(tasks.len() as int, current, kj)].status == TaskStatus::Ready,
    ensures
        next_ready_from(tasks, current, k) is Some,
    decreases kj - k,
{
    if k < kj && tasks[rr_index(tasks.len() as int, current, k)].status != TaskStatus::Ready {
        lemma_next_ready_from_reaches(tasks, current, k + 1, kj);
    }
}

/// Where the current task is not running, round-robin search ends at the
/// current task at the latest if it is ready.
pub proof fn lemma_next_ready_finds_ready(tasks: Seq<TaskControlBlock>, current: int)
    requires
        0 <= current < tasks.len(),
        tasks[current].status == TaskStatus::Ready,
    ensures
        next_ready(tasks, current) is Some,
{
    lemma_next_ready_from_finds(tasks, current, 1);
}

proof fn lemma_next_ready_from_finds(tasks: Seq<TaskControlBlock>, current: int, k: int)
    requires
        0 <= current < tasks.len(),
        1 <= k <= tasks.len(),
        tasks[current].status == TaskStatus::Ready,
    ensures
        next_ready_from(tasks, current, k) is Some,
    decreases tasks.len() + 1 - k,
{
    if k == tasks.len() {
        assert(rr_index(tasks.len() as int, current, k) == current) by (nonlinear_arith)
            requires
                k == tasks.len(),
                0 <= current < k,
        ;
    } else if tasks[rr_index(tasks.len() as int, current, k)].status != TaskStatus::Ready {
        lemma_next_ready_from_finds(tasks, current, k + 1);
    }
}

/// The round-robin search only ever picks a ready task.
pub proof fn lemma_next_ready_is_ready(tasks: Seq<TaskControlBlock>, current: int, k: int)
    requires
        next_ready_from(tasks, current, k) is Some,
        0 < tasks.len() <= usize::MAX,
    ensures
        ({
            let i = next_ready_from(tasks, current, k)->0 as int;
            0 <= i < tasks.len() && tasks[i].status == TaskStatus::Ready
        }),
    decreases tasks.len() + 1 - k,
{
    let n = tasks.len() as int;
    if 1 <= k <= n && tasks[rr_index(n, current, k)].status != TaskStatus::Ready {
        lemma_next_ready_is_ready(tasks, current, k + 1);
    } else {
        assert(0 <= rr_index(n, current, k) < n) by (nonlinear_arith)
            requires
                n > 0,
                rr_index(n, current, k) == (current + k) % n,
        ;
    }
}

/// Where the current task is the only ready one, the round-robin search
/// comes back to it.
pub proof fn lemma_only_ready_resumes(tasks: Seq<TaskControlBlock>, current: int)
    requires
        0 <= current < tasks.len(),
        tasks[current].status == TaskStatus::Ready,
        forall|i: int| 0 <= i < tasks.len() && i != current ==> #[trigger] tasks[i].status
            != TaskStatus::Ready,
    ensures
        next_ready(tasks, current) == Some(current as usize),
{
    lemma_only_ready_from(tasks, current, 1);
}

proof fn lemma_only_ready_from(tasks: Seq<TaskControlBlock>, current: int, k: int)
    requires
        0 <= current < tasks.len(),
        1 <= k <= tasks.len(),
        tasks[current].status == TaskStatus::Ready,
        forall|i: int| 0 <= i < tasks.len() && i != current ==> #[trigger] tasks[i].status
            != TaskStatus::Ready,
    ensures
        next_ready_from(tasks, current, k) == Some(current as usize),
    decreases tasks.len() + 1 - k,
{
    let n = tasks.len() as int;
    if k == n {
        assert(rr_index(n, current, k) == current) by (nonlinear_arith)
            requires
                k == n,
                0 <= current < k,
        ;
    } else {
        assert(rr_index(n, current, k) != current && 0 <= rr_index(n, current, k) < n) by (nonlinear_arith)
            requires
                1 <= k < n,
                0 <= current < n,
        ;
        lemma_only_ready_from(tasks, current, k + 1);
    }
}


/// The task manager counts exactly write (64), exit (93), yield (124),
/// get_time (169), trace (410), mmap (222), munmap (215) and sbrk (214):
/// from zero, one more call of such a call raises its count by one; any
/// other number reports -1 and its calls change nothing; and no call
/// changes the count of another.
pub proof fn lemma_task_counts(c: CntSys, id: usize, other: usize)
    requires
        c.count(id) < isize::MAX,
    ensures
        CntSys::counted(id) <==> (id == 64 || id == 93 || id == 124 || id == 169 || id == 410 || id
            == 222 || id == 215 || id == 214),
        (id == 64 || id == 93 || id == 124 || id == 169 || id == 410 || id == 222 || id == 215 || id
            == 214) ==> c.bumped(id).count(id) == c.count(id) + 1,
        !(id == 64 || id == 93 || id == 124 || id == 169 || id == 410 || id == 222 || id == 215
            || id == 214) ==> c.bumped(id) == c && c.count(id) == -1,
        other != id ==> c.bumped(id).count(other) == c.count(other),
        (id == 64 || id == 93 || id == 124 || id == 169 || id == 410 || id == 222 || id == 215 || id
            == 214) ==> (CntSys {
            cnt_write: 0,
            cnt_exit: 0,
            cnt_gettime: 0,
            cnt_yield: 0,
            cnt_trace: 0,
            cnt_mmap: 0,
            cnt_munmap: 0,
            cnt_sbrk: 0,
        }).count(id) == 0,
{
}

} // verus!
