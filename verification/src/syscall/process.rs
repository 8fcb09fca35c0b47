//! Process-management system calls: exit and yield, time, memory mapping,
//! program break, priority, tracing, and the process family (fork, exec,
//! spawn, waitpid).
use vstd::prelude::*;
use crate::fs::{copy_bytes, lookup};
use crate::kernel::{
    fresh_task,
    lemma_memory_changed_chain,
    lemma_sched_change_keeps_wf,
    lemma_task_update_keeps_wf,
    memory_changed,
    new_task,
    same_but_schedule,
    user_str,
    Kernel,
};
use crate::mm::{
    byte_at,
    cstr_at,
    AddressSpace,
    is_mapped,
    map_range,
    range_mapped,
    stores,
    unmap_range,
    zero_page,
    PageState,
    PAGE_SIZE,
    PTE_R,
    PTE_U,
    PTE_V,
    PTE_W,
    PTE_X,
};
use crate::syscall::fs::{le_bytes, push_le_bytes};
use crate::elf::{elf_ok, entry_of, image_space, load_image, stack_top};
use crate::syscall::CountSyscall;
use crate::task::{
    init_trap_cx,
    other_ready,
    TrapContext,
    heap_memory,
    heap_ok,
    new_brk,
    next_ready,
    status_set,
    CntSys,
    SwitchAction,
    TaskControlBlock,
    TaskStatus,
    DEFAULT_PRIORITY,
};

verus! {

/// A time of day as `get_time` stores it.
#[derive(Clone, Copy, Debug, PartialEq, Eq)]
pub struct TimeVal {
    pub sec: usize,
    pub usec: usize,
}

impl TimeVal {
    /// The time `us` microseconds after the epoch, split into whole seconds
    /// and the microseconds left over.
    pub fn from_us(us: usize) -> (t: Self)
        ensures
            t.sec == us / 1_000_000,
            t.usec == us % 1_000_000,
            t.usec < 1_000_000,
            t.sec * 1_000_000 + t.usec == us,
    {
        let t = TimeVal { sec: us / 1_000_000, usec: us % 1_000_000 };
        assert(t.sec * 1_000_000 + t.usec == us) by (nonlinear_arith)
            requires
                t.sec == us / 1_000_000,
                t.usec == us % 1_000_000,
        ;
        t
    }
}

/// Bytes in a machine word.
pub open spec fn word_bytes() -> int {
    usize::BITS as int / 8
}

/// The bytes of a `TimeVal` as `get_time` stores it: `sec` then `usec`, each
/// a little-endian machine word.
pub open spec fn time_val_bytes(t: TimeVal) -> Seq<u8> {
    le_bytes(t.sec as u64, word_bytes()) + le_bytes(t.usec as u64, word_bytes())
}

/// The time `get_time` reports for a clock reading of `us` microseconds.
pub open spec fn reported_time(us: usize) -> TimeVal {
    TimeVal { sec: us / 1_000_000, usec: us % 1_000_000 }
}

/// What `get_time` does: stores the time `now_us` microseconds after the
/// epoch, as a `TimeVal`, at `ts`, changing nothing else; the result is 0.
pub open spec fn get_time_post(old: Kernel, new: Kernel, ts: usize, now_us: usize, r: isize) -> bool {
    &&& r == 0
    &&& memory_changed(old, new)
    &&& stores(
        old.mem(),
        new.mem(),
        ts as int,
        time_val_bytes(reported_time(now_us)),
    )
}

/// Stores the time, `now_us` microseconds after the epoch, at `ts`.
pub fn sys_get_time(k: &mut Kernel, ts: usize, _tz: usize, now_us: usize) -> (r: isize)
    requires
        old(k).wf(),
        range_mapped(old(k).mem(), ts as int, 2 * word_bytes()),
    ensures
        final(k).wf(),
        get_time_post(*old(k), *final(k), ts, now_us, r),
{
    let t = TimeVal::from_us(now_us);
    let size = (usize::BITS / 8) as usize;
    let mut bytes: Vec<u8> = Vec::new();
    push_le_bytes(&mut bytes, t.sec as u64, size);
    push_le_bytes(&mut bytes, t.usec as u64, size);
    assert(bytes@ =~= time_val_bytes(t));
    k.write_user_bytes(ts, &bytes);
    0
}

/// Number of pages that `len` bytes span from a page boundary.
pub open spec fn pages_for(len: usize) -> int {
    if len % PAGE_SIZE == 0 {
        len as int / PAGE_SIZE as int
    } else {
        len as int / PAGE_SIZE as int + 1
    }
}

/// Whether `prot` asks for some access and names only read, write and
/// execute.
pub open spec fn prot_ok(prot: usize) -> bool {
    prot & !0x7usize == 0 && prot & 0x7usize != 0
}

/// The page-table bits that `mmap` gives a page for `prot`: valid, user,
/// and read, write, execute as `prot` asks.
pub open spec fn prot_flags(prot: usize) -> u8 {
    (PTE_V | PTE_U | (if prot & 1 != 0 {
        PTE_R
    } else {
        0
    }) | (if prot & 2 != 0 {
        PTE_W
    } else {
        0
    }) | (if prot & 4 != 0 {
        PTE_X
    } else {
        0
    })) as u8
}

/// The first of pages `vpn0 + i .. vpn0 + n` that is mapped, as an offset
/// from `vpn0`; `n` if none is.
pub open spec fn first_mapped_from(m: Map<usize, PageState>, vpn0: int, i: int, n: int) -> int
    decreases n - i,
{
    if i >= n {
        n
    } else if m.contains_key((vpn0 + i) as usize) {
        i
    } else {
        first_mapped_from(m, vpn0, i + 1, n)
    }
}

/// The first of pages `vpn0 + i .. vpn0 + n` that is not mapped, as an
/// offset from `vpn0`; `n` if all are.
pub open spec fn first_unmapped_from(m: Map<usize, PageState>, vpn0: int, i: int, n: int) -> int
    decreases n - i,
{
    if i >= n {
        n
    } else if !m.contains_key((vpn0 + i) as usize) {
        i
    } else {
        first_unmapped_from(m, vpn0, i + 1, n)
    }
}

/// The first mapped page found from offset `i` on lies at `i` or later.
pub proof fn lemma_first_mapped_ge(m: Map<usize, PageState>, vpn0: int, i: int, n: int)
    requires
        i <= n,
    ensures
        i <= first_mapped_from(m, vpn0, i, n) <= n,
    decreases n - i,
{
    if i < n && !m.contains_key((vpn0 + i) as usize) {
        lemma_first_mapped_ge(m, vpn0, i + 1, n);
    }
}

/// Where no page is found mapped from offset `i` on, none is mapped there.
pub proof fn lemma_none_mapped(m: Map<usize, PageState>, vpn0: int, i: int, n: int, j: int)
    requires
        first_mapped_from(m, vpn0, i, n) == n,
        i <= j < n,
    ensures
        !m.contains_key((vpn0 + j) as usize),
    decreases j - i,
{
    if i < j {
        lemma_first_mapped_ge(m, vpn0, i + 1, n);
        if m.contains_key((vpn0 + i) as usize) {
            assert(first_mapped_from(m, vpn0, i, n) == i);
        } else {
            lemma_none_mapped(m, vpn0, i + 1, n, j);
        }
    }
}

/// Where every page from offset `i` on is mapped, no unmapped one is found.
pub proof fn lemma_all_mapped(m: Map<usize, PageState>, vpn0: int, i: int, n: int)
    requires
        0 <= i <= n,
        forall|j: int| i <= j < n ==> #[trigger] m.contains_key((vpn0 + j) as usize),
    ensures
        first_unmapped_from(m, vpn0, i, n) == n,
    decreases n - i,
{
    if i < n {
        assert(m.contains_key((vpn0 + i) as usize));
        lemma_all_mapped(m, vpn0, i + 1, n);
    }
}

/// How many pages `mmap` maps before it stops: up to the first page already
/// mapped, or as many as the pool has frames for, whichever comes first.
pub open spec fn mmap_count(m: Map<usize, PageState>, vpn0: int, n: int, free: int) -> int {
    let f = first_mapped_from(m, vpn0, 0, n);
    if f <= free {
        f
    } else {
        free
    }
}

/// `new` is `old` where the running task's memory is now `mem` and
/// `frames` frames have been handed out (handed back where negative).
pub open spec fn mapped_state(old: Kernel, new: Kernel, mem: Map<usize, PageState>, frames: int) -> bool {
    &&& new.tm.current == old.tm.current
    &&& new.tm.tasks@ == old.tm.tasks@.update(
        old.tm.current as int,
        TaskControlBlock { memory: new.cur().memory, ..old.cur() },
    )
    &&& new.mem() == mem
    &&& new.free_frames == old.free_frames - frames
    &&& new.files == old.files
    &&& new.fs == old.fs
    &&& new.console_in == old.console_in
    &&& new.console_out == old.console_out
}

/// Maps the pages that `[start, start + len)` spans to fresh zeroed frames
/// with the access `prot` asks for. -1 where `start` is not page-aligned or
/// `prot` is invalid; then -1, keeping the pages mapped so far, at the
/// first page already mapped or where the pool has no frame left; else 0.
/// Each page mapped takes one frame from the pool.
pub fn sys_mmap(k: &mut Kernel, start: usize, len: usize, prot: usize) -> (r: isize)
    requires
        old(k).wf(),
    ensures
        final(k).wf(),
        if start % PAGE_SIZE != 0 || !prot_ok(prot) {
            r == -1 && *final(k) == *old(k)
        } else {
            let n = pages_for(len);
            let vpn0 = start as int / PAGE_SIZE as int;
            let m = mmap_count(old(k).mem(), vpn0, n, old(k).free_frames as int);
            &&& r == (if m == n {
                0isize
            } else {
                -1isize
            })
            &&& mapped_state(
                *old(k),
                *final(k),
                map_range(old(k).mem(), vpn0, m, prot_flags(prot)),
                m,
            )
        },
{
    if start % PAGE_SIZE != 0 {
        return -1;
    }
    if (prot & !0x7) != 0 || (prot & 0x7) == 0 {
        return -1;
    }
    let flags: u8 = PTE_V | PTE_U | (if prot & 1 != 0 {
        PTE_R
    } else {
        0
    }) | (if prot & 2 != 0 {
        PTE_W
    } else {
        0
    }) | (if prot & 4 != 0 {
        PTE_X
    } else {
        0
    });
    let n: usize = if len % PAGE_SIZE != 0 {
        len / PAGE_SIZE + 1
    } else {
        len / PAGE_SIZE
    };
    let vpn0 = start / PAGE_SIZE;
    let cur = k.tm.current;
    let ghost m0 = old(k).mem();
    assert(vpn0 + n <= usize::MAX) by (nonlinear_arith)
        requires
            vpn0 == start / 4096,
            n <= len / 4096 + 1,
    ;
    assert(k.tm.tasks[cur as int].wf());
    let mut i: usize = 0;
    assert(flags == prot_flags(prot));
    assert(map_range(m0, vpn0 as int, 0, flags) =~= m0);
    assert(k.tm.tasks@ =~= old(k).tm.tasks@.update(
        cur as int,
        TaskControlBlock { memory: k.cur().memory, ..old(k).cur() },
    ));
    while i < n
        invariant
            old(k).wf(),
            k.wf(),
            k.tm.current == cur,
            cur == old(k).tm.current,
            i <= n,
            vpn0 + n <= usize::MAX,
            vpn0 == start / PAGE_SIZE,
            n == pages_for(len),
            m0 == old(k).mem(),
            start % PAGE_SIZE == 0,
            i <= old(k).free_frames,
            flags == prot_flags(prot),
            prot_ok(prot),
            first_mapped_from(m0, vpn0 as int, 0, n as int) == first_mapped_from(
                m0,
                vpn0 as int,
                i as int,
                n as int,
            ),
            mapped_state(*old(k), *k, map_range(m0, vpn0 as int, i as int, flags), i as int),
        decreases n - i,
    {
        let vpn = vpn0 + i;
        proof {
            lemma_first_mapped_ge(m0, vpn0 as int, i as int, n as int);
        }
        if k.user_page_mapped(vpn) {
            assert(m0.contains_key(vpn));
            assert(first_mapped_from(m0, vpn0 as int, i as int, n as int) == i);
            return -1;
        }
        assert(!m0.contains_key(vpn));
        if k.free_frames == 0 {
            return -1;
        }
        let ghost before = *k;
        k.map_user_page(vpn, flags);
        proof {
            lemma_memory_changed_chain(*old(k), before, *k);
            assert(map_range(m0, vpn0 as int, i + 1, flags) =~= map_range(
                m0,
                vpn0 as int,
                i as int,
                flags,
            ).insert(vpn, zero_page(flags)));
        }
        i += 1;
    }
    0
}

/// Where `mmap` maps the whole range it was asked for, `munmap` of the same
/// range unmaps all of it, succeeds, and gives back the address space from
/// before the `mmap`.
pub proof fn lemma_munmap_undoes_mmap(
    m: Map<usize, PageState>,
    start: usize,
    len: usize,
    prot: usize,
    free: int,
)
    requires
        start % PAGE_SIZE == 0,
        prot_ok(prot),
        mmap_count(m, start as int / PAGE_SIZE as int, pages_for(len), free) == pages_for(len),
    ensures
        ({
            let vpn0 = start as int / PAGE_SIZE as int;
            let n = pages_for(len);
            let m1 = map_range(m, vpn0, n, prot_flags(prot));
            &&& first_unmapped_from(m1, vpn0, 0, n) == n
            &&& unmap_range(m1, vpn0, n) == m
        }),
{
    let vpn0 = start as int / PAGE_SIZE as int;
    let n = pages_for(len);
    let m1 = map_range(m, vpn0, n, prot_flags(prot));
    assert(vpn0 + n <= usize::MAX) by (nonlinear_arith)
        requires
            vpn0 == start / 4096,
            n <= len / 4096 + 1,
            start <= usize::MAX,
            len <= usize::MAX,
    ;
    lemma_first_mapped_ge(m, vpn0, 0, n);
    assert forall|j: int| 0 <= j < n implies #[trigger] m1.contains_key((vpn0 + j) as usize) by {}
    lemma_all_mapped(m1, vpn0, 0, n);
    assert forall|v: usize| #[trigger] m.contains_key(v) implies !(vpn0 <= v < vpn0 + n) by {
        if vpn0 <= v < vpn0 + n {
            lemma_none_mapped(m, vpn0, 0, n, v - vpn0);
        }
    }
    assert(unmap_range(m1, vpn0, n) =~= m);
}

/// Mapping a range that a previous `mmap` mapped in full fails at once and
/// maps nothing.
pub proof fn lemma_mmap_twice_fails(
    m: Map<usize, PageState>,
    start: usize,
    len: usize,
    prot: usize,
    prot2: usize,
    free: int,
    free2: int,
)
    requires
        start % PAGE_SIZE == 0,
        prot_ok(prot),
        0 < pages_for(len),
        0 <= free2,
        mmap_count(m, start as int / PAGE_SIZE as int, pages_for(len), free) == pages_for(len),
    ensures
        ({
            let vpn0 = start as int / PAGE_SIZE as int;
            let n = pages_for(len);
            let m1 = map_range(m, vpn0, n, prot_flags(prot));
            &&& mmap_count(m1, vpn0, n, free2) == 0
            &&& map_range(m1, vpn0, 0, prot_flags(prot2)) == m1
        }),
{
    let vpn0 = start as int / PAGE_SIZE as int;
    let n = pages_for(len);
    let m1 = map_range(m, vpn0, n, prot_flags(prot));
    assert(vpn0 <= usize::MAX) by (nonlinear_arith)
        requires
            vpn0 == start / 4096,
            start <= usize::MAX,
    ;
    assert(m1.contains_key(vpn0 as usize));
    assert(map_range(m1, vpn0, 0, prot_flags(prot2)) =~= m1);
}

/// Unmaps the pages that `[start, start + len)` spans, handing each page's
/// frame back to the pool. -1 where `start` is not page-aligned; then -1,
/// keeping the pages unmapped so far, at the first page not mapped; else 0.
pub fn sys_munmap(k: &mut Kernel, start: usize, len: usize) -> (r: isize)
    requires
        old(k).wf(),
    ensures
        final(k).wf(),
        if start % PAGE_SIZE != 0 {
            r == -1 && *final(k) == *old(k)
        } else {
            let n = pages_for(len);
            let vpn0 = start as int / PAGE_SIZE as int;
            let c = first_unmapped_from(old(k).mem(), vpn0, 0, n);
            &&& r == (if c == n {
                0isize
            } else {
                -1isize
            })
            &&& mapped_state(*old(k), *final(k), unmap_range(old(k).mem(), vpn0, c), -c)
        },
{
    if start % PAGE_SIZE != 0 {
        return -1;
    }
    let n: usize = if len % PAGE_SIZE != 0 {
        len / PAGE_SIZE + 1
    } else {
        len / PAGE_SIZE
    };
    let vpn0 = start / PAGE_SIZE;
    let cur = k.tm.current;
    let ghost m0 = old(k).mem();
    assert(vpn0 + n <= usize::MAX) by (nonlinear_arith)
        requires
            vpn0 == start / 4096,
            n <= len / 4096 + 1,
    ;
    let mut i: usize = 0;
    assert(unmap_range(m0, vpn0 as int, 0) =~= m0);
    assert(k.tm.tasks@ =~= old(k).tm.tasks@.update(
        cur as int,
        TaskControlBlock { memory: k.cur().memory, ..old(k).cur() },
    ));
    while i < n
        invariant
            old(k).wf(),
            k.wf(),
            k.tm.current == cur,
            cur == old(k).tm.current,
            i <= n,
            vpn0 + n <= usize::MAX,
            vpn0 == start / PAGE_SIZE,
            n == pages_for(len),
            m0 == old(k).mem(),
            start % PAGE_SIZE == 0,
            first_unmapped_from(m0, vpn0 as int, 0, n as int) == first_unmapped_from(
                m0,
                vpn0 as int,
                i as int,
                n as int,
            ),
            mapped_state(*old(k), *k, unmap_range(m0, vpn0 as int, i as int), -(i as int)),
        decreases n - i,
    {
        let vpn = vpn0 + i;
        if !k.user_page_mapped(vpn) {
            assert(!m0.contains_key(vpn));
            assert(first_unmapped_from(m0, vpn0 as int, i as int, n as int) == i);
            return -1;
        }
        assert(m0.contains_key(vpn));
        let ghost before = *k;
        k.unmap_user_page(vpn);
        proof {
            lemma_memory_changed_chain(*old(k), before, *k);
            assert(unmap_range(m0, vpn0 as int, i + 1) =~= unmap_range(
                m0,
                vpn0 as int,
                i as int,
            ).remove(vpn));
        }
        i += 1;
    }
    0
}

/// `new` is `old` with the same tasks, files and devices except as the
/// task manager's state `tasks` and `current` say.
pub open spec fn only_tasks_changed(old: Kernel, new: Kernel) -> bool {
    &&& new.files == old.files
    &&& new.fs == old.fs
    &&& new.free_frames == old.free_frames
    &&& new.console_in == old.console_in
    &&& new.console_out == old.console_out
}

/// What `yield` does: the running task becomes ready and the next ready
/// task, in round-robin order after it, runs; the result is 0.
pub open spec fn yield_post(old: Kernel, new: Kernel, r: isize) -> bool {
    let cur = old.tm.current as int;
    let mid = old.tm.tasks@.update(cur, TaskControlBlock { status: TaskStatus::Ready, ..old.cur() });
    &&& r == 0
    &&& next_ready(mid, cur) matches Some(next) && new.tm.current == next && status_set(
        mid,
        new.tm.tasks@,
        next as int,
        TaskStatus::Running,
    )
    &&& only_tasks_changed(old, new)
}

/// Gives up the processor to the next ready task.
pub fn sys_yield(k: &mut Kernel) -> (r: isize)
    requires
        old(k).wf(),
    ensures
        final(k).wf(),
        yield_post(*old(k), *final(k), r),
{
    k.tm.suspend_current_and_run_next();
    proof {
        lemma_sched_change_keeps_wf(*old(k), *k);
    }
    0
}

/// What `exit` does: the running task exits with `exit_code` and the next
/// ready task, in round-robin order after it, runs.
pub open spec fn exit_post(old: Kernel, new: Kernel, exit_code: i32, r: SwitchAction) -> bool {
    let cur = old.tm.current as int;
    let mid = old.tm.tasks@.update(
        cur,
        TaskControlBlock { status: TaskStatus::Exited, exit_code, ..old.cur() },
    );
    &&& next_ready(mid, cur) matches Some(next) && r == (SwitchAction {
        from: old.tm.current,
        to: next,
    }) && new.tm.current == next && status_set(mid, new.tm.tasks@, next as int, TaskStatus::Running)
    &&& only_tasks_changed(old, new)
}

/// Ends the running task with `exit_code` and switches to the next one.
/// Another task must be ready: where none is, all applications have
/// completed and the kernel stops instead.
pub fn sys_exit(k: &mut Kernel, exit_code: i32) -> (r: SwitchAction)
    requires
        old(k).wf(),
        other_ready(old(k).tm.tasks@, old(k).tm.current as int),
    ensures
        final(k).wf(),
        exit_post(*old(k), *final(k), exit_code, r),
{
    let r = k.tm.exit_current_and_run_next(exit_code);
    proof {
        assert forall|i: int|
            0 <= i < old(k).tm.tasks.len() implies same_but_schedule(
            old(k).tm.tasks[i],
            #[trigger] k.tm.tasks[i],
        ) by {
            assert(old(k).tm.tasks[i].pid == k.tm.tasks[i].pid);
        }
        lemma_sched_change_keeps_wf(*old(k), *k);
    }
    r
}

/// The pid of the running task.
pub fn sys_getpid(k: &Kernel) -> (r: isize)
    requires
        k.wf(),
    ensures
        r == k.cur().pid,
{
    let cur = k.tm.current;
    k.tm.tasks[cur].pid as isize
}

/// Moves the running task's program break by `size`; the old break, or -1
/// where the break would drop below the heap's bottom. The heap's pages
/// follow the break: those it grows into are mapped zeroed, those it gives
/// back are unmapped.
pub fn sys_sbrk(k: &mut Kernel, size: i32) -> (r: isize)
    requires
        old(k).wf(),
        old(k).cur().program_brk + size <= isize::MAX,
        new_brk(old(k).cur().heap_bottom, old(k).cur().program_brk, size) matches Some(nb) ==> {
            &&& heap_ok(old(k).mem(), old(k).cur().program_brk as int, nb as int)
            &&& heap_memory(old(k).mem(), old(k).cur().program_brk as int, nb as int).dom().len()
                <= old(k).free_frames + old(k).mem().dom().len()
        },
    ensures
        final(k).wf(),
        match new_brk(old(k).cur().heap_bottom, old(k).cur().program_brk, size) {
            Some(b) => {
                &&& r == old(k).cur().program_brk
                &&& final(k).tm.current == old(k).tm.current
                &&& final(k).tm.tasks@ == old(k).tm.tasks@.update(
                    old(k).tm.current as int,
                    TaskControlBlock { program_brk: b, memory: final(k).cur().memory, ..old(k).cur() },
                )
                &&& final(k).mem() == heap_memory(old(k).mem(), old(k).cur().program_brk as int, b as int)
                &&& final(k).free_frames + final(k).mem().dom().len() == old(k).free_frames
                    + old(k).mem().dom().len()
                &&& final(k).files == old(k).files
                &&& final(k).fs == old(k).fs
                &&& final(k).console_in == old(k).console_in
                &&& final(k).console_out == old(k).console_out
            },
            None => {
                &&& r == -1
                &&& final(k).tm.current == old(k).tm.current
                &&& final(k).tm.tasks@ == old(k).tm.tasks@
                &&& only_tasks_changed(*old(k), *final(k))
            },
        },
{
    let cur = k.tm.current;
    assert(k.tm.tasks[cur as int].wf());
    let ghost t0 = k.cur();
    let before = k.tm.tasks[cur].memory.page_count();
    let r = k.tm.change_current_program_brk(size);
    match r {
        Some(old_brk) => {
            assert(k.tm.tasks[cur as int].wf());
            let after = k.tm.tasks[cur].memory.page_count();
            proof {
                crate::kernel::lemma_held_update(old(k).tm.tasks@, cur as int, k.cur());
            }
            k.free_frames = k.free_frames + before - after;
            proof {
                let t = k.cur();
                assert(k.tm.tasks@ =~= old(k).tm.tasks@.update(cur as int, t));
                lemma_task_update_keeps_wf(*old(k), *k, t);
            }
            old_brk as isize
        },
        None => {
            proof {
                assert(k.tm.tasks@ =~= old(k).tm.tasks@.update(cur as int, t0));
                lemma_task_update_keeps_wf(*old(k), *k, t0);
            }
            -1
        },
    }
}

/// Sets the running task's priority to `prio`; -1 where `prio` is below 2.
pub fn sys_set_priority(k: &mut Kernel, prio: isize) -> (r: isize)
    requires
        old(k).wf(),
    ensures
        final(k).wf(),
        if prio <= 1 {
            r == -1 && *final(k) == *old(k)
        } else {
            &&& r == prio
            &&& final(k).tm.current == old(k).tm.current
            &&& final(k).tm.tasks@ == old(k).tm.tasks@.update(
                old(k).tm.current as int,
                TaskControlBlock { priority: prio, ..old(k).cur() },
            )
            &&& only_tasks_changed(*old(k), *final(k))
        },
{
    if prio <= 1 {
        return -1;
    }
    let cur = k.tm.current;
    k.tm.tasks[cur].priority = prio;
    proof {
        let t = TaskControlBlock { priority: prio, ..old(k).cur() };
        assert(k.tm.tasks@ =~= old(k).tm.tasks@.update(cur as int, t));
        assert(old(k).tm.tasks[cur as int].wf());
        lemma_task_update_keeps_wf(*old(k), *k, t);
    }
    prio
}

/// Whether `va` lies in the Sv39 user-addressable part of the address
/// space: the low 256 GiB or the high 256 GiB.
pub open spec fn sv39_canonical(va: usize) -> bool {
    (va as u64) < 0x40_0000_0000u64 || (va as u64) >= 0xFFFF_FFC0_0000_0000u64
}

/// Whether `va` lies in the low or the high 256 GiB of the address space.
pub fn is_canonical(va: usize) -> (r: bool)
    ensures
        r == sv39_canonical(va),
{
    (va as u64) < 0x40_0000_0000u64 || (va as u64) >= 0xFFFF_FFC0_0000_0000u64
}

/// Whether the running task may read the byte at `va`: the address is
/// canonical and its page is mapped for user access and reading.
pub open spec fn user_readable(m: Map<usize, PageState>, va: int) -> bool {
    sv39_canonical(va as usize) && is_mapped(m, va) && m[(va / PAGE_SIZE as int) as usize].flags & PTE_U != 0
        && m[(va / PAGE_SIZE as int) as usize].flags & PTE_R != 0
}

/// Whether the running task may write the byte at `va`: the address is
/// canonical and its page is mapped for user access and writing.
pub open spec fn user_writable(m: Map<usize, PageState>, va: int) -> bool {
    sv39_canonical(va as usize) && is_mapped(m, va) && m[(va / PAGE_SIZE as int) as usize].flags & PTE_U != 0
        && m[(va / PAGE_SIZE as int) as usize].flags & PTE_W != 0
}

/// What `trace` does. Request 0 reads the byte at address `id`, request 1
/// stores `data`'s low byte there, where the address is canonical and the
/// running task itself could; -1 otherwise. Request 2 gives the running task's count of calls of `id`.
/// Any other request gives -1.
pub open spec fn trace_post(old: Kernel, new: Kernel, req: usize, id: usize, data: usize, r: isize) -> bool {
    if req == 0 {
        if user_readable(old.mem(), id as int) {
            r == byte_at(old.mem(), id as int) && new == old
        } else {
            r == -1 && new == old
        }
    } else if req == 1 {
        if user_writable(old.mem(), id as int) {
            &&& r == 0
            &&& memory_changed(old, new)
            &&& stores(old.mem(), new.mem(), id as int, seq![data as u8])
        } else {
            r == -1 && new == old
        }
    } else if req == 2 {
        r == old.cur().cnts.count(id) && new == old
    } else {
        r == -1 && new == old
    }
}

/// Reads or writes a byte of the running task's memory, or reports how
/// often it has made a system call.
pub fn sys_trace(k: &mut Kernel, trace_request: usize, id: usize, data: usize) -> (r: isize)
    requires
        old(k).wf(),
    ensures
        final(k).wf(),
        trace_post(*old(k), *final(k), trace_request, id, data, r),
{
    let cur = k.tm.current;
    assert(k.tm.tasks[cur as int].wf());
    if (trace_request == 0 || trace_request == 1) && !is_canonical(id) {
        return -1;
    }
    if trace_request == 0 {
        match k.tm.tasks[cur].memory.page_flags(id / PAGE_SIZE) {
            Some(flags) => {
                if flags & PTE_U != 0 && flags & PTE_R != 0 {
                    let b = k.tm.tasks[cur].memory.read_byte(id);
                    b as isize
                } else {
                    -1
                }
            },
            None => -1,
        }
    } else if trace_request == 1 {
        match k.tm.tasks[cur].memory.page_flags(id / PAGE_SIZE) {
            Some(flags) => {
                if flags & PTE_U != 0 && flags & PTE_W != 0 {
                    let mut one: Vec<u8> = Vec::new();
                    one.push(data as u8);
                    assert(one@ =~= seq![data as u8]);
                    assert(crate::mm::is_mapped(k.mem(), id as int));
                    k.write_user_bytes(id, &one);
                    0
                } else {
                    -1
                }
            },
            None => -1,
        }
    } else if trace_request == 2 {
        k.tm.get_count(id)
    } else {
        -1
    }
}

/// A copy of a descriptor table.
fn copy_fd_table(t: &Vec<Option<usize>>) -> (r: Vec<Option<usize>>)
    ensures
        r@ == t@,
{
    let mut r: Vec<Option<usize>> = Vec::new();
    let mut i: usize = 0;
    while i < t.len()
        invariant
            i <= t.len(),
            r@ == t@.take(i as int),
        decreases t.len() - i,
    {
        r.push(t[i]);
        assert(t@.take(i as int).push(t@[i as int]) =~= t@.take(i + 1));
        i += 1;
    }
    assert(t@.take(t.len() as int) =~= t@);
    r
}

/// `child` is a copy of `parent` made by `fork` under pid `pid`: the same
/// program, break, memory contents, open files and registers, except that
/// register 10 (the value `fork` returns in the child) is 0; a fresh ready
/// task otherwise, with `parent` (pid `ppid`) as its parent.
pub open spec fn forked(child: TaskControlBlock, parent: TaskControlBlock, pid: usize, ppid: usize) -> bool {
    &&& child.wf()
    &&& child.pid == pid
    &&& child.status == TaskStatus::Ready
    &&& child.parent == Some(ppid)
    &&& child.children@.len() == 0
    &&& child.exit_code == 0
    &&& child.priority == DEFAULT_PRIORITY
    &&& child.program@ == parent.program@
    &&& child.heap_bottom == parent.heap_bottom
    &&& child.program_brk == parent.program_brk
    &&& child.memory@ == parent.memory@
    &&& child.trap_cx.x@ == parent.trap_cx.x@.update(10, 0)
    &&& child.trap_cx.sepc == parent.trap_cx.sepc
    &&& child.fd_table@ == parent.fd_table@
    &&& child.syscall_counts == CountSyscall { write: 0, exit: 0, get_time: 0, trace: 0, _yield: 0 }
    &&& child.cnts == (CntSys {
        cnt_write: 0,
        cnt_exit: 0,
        cnt_gettime: 0,
        cnt_yield: 0,
        cnt_trace: 0,
        cnt_mmap: 0,
        cnt_munmap: 0,
        cnt_sbrk: 0,
    })
}

/// `new`'s task table is `old`'s with `child` added as a child of the
/// running task and appended to the table.
pub open spec fn child_added(old: Kernel, new: Kernel, child_pid: usize) -> bool {
    let cur = old.tm.current as int;
    &&& child_pid == old.tm.tasks.len()
    &&& new.tm.current == old.tm.current
    &&& new.tm.tasks.len() == old.tm.tasks.len() + 1
    &&& new.tm.tasks[cur].children@ == old.cur().children@.push(child_pid)
    &&& new.tm.tasks[cur] == (TaskControlBlock { children: new.tm.tasks[cur].children, ..old.cur() })
    &&& forall|j: int|
        0 <= j < old.tm.tasks.len() && j != cur ==> #[trigger] new.tm.tasks[j] == old.tm.tasks[j]
    &&& new.files == old.files
    &&& new.fs == old.fs
    &&& new.console_in == old.console_in
    &&& new.console_out == old.console_out
}

/// Adds `child` to the task table as a child of the running task.
fn add_child(k: &mut Kernel, child: TaskControlBlock)
    requires
        old(k).wf(),
        old(k).tm.tasks.len() + 1 < isize::MAX,
        child.wf(),
        child.pid == old(k).tm.tasks.len(),
        child.status == TaskStatus::Ready,
        child.children@.len() == 0,
        forall|fd: int|
            0 <= fd < child.fd_table.len() && (#[trigger] child.fd_table[fd]) is Some
                ==> child.fd_table[fd].unwrap() < old(k).files.len(),
        child.memory@.dom().len() <= old(k).free_frames,
    ensures
        final(k).wf(),
        child_added(*old(k), *final(k), child.pid),
        final(k).tm.tasks[child.pid as int] == child,
        final(k).free_frames == old(k).free_frames - child.memory@.dom().len(),
{
    let cur = k.tm.current;
    let n = k.tm.tasks.len();
    let pages = child.memory.page_count();
    k.free_frames = k.free_frames - pages;
    k.tm.tasks.push(child);
    let ghost mid = *k;
    proof {
        lemma_task_added_keeps_wf(*old(k), mid);
    }
    k.tm.tasks[cur].children.push(n);
    proof {
        let c = cur as int;
        let t = TaskControlBlock { children: k.tm.tasks[c].children, ..old(k).cur() };
        assert(mid.cur() == old(k).cur());
        assert(k.tm.tasks@ =~= mid.tm.tasks@.update(c, t));
        assert(old(k).tm.tasks[c].wf());
        assert forall|ch: int| 0 <= ch < t.children.len() implies #[trigger] t.children[ch]
            < mid.tm.tasks.len() by {
            if ch < old(k).cur().children.len() {
                assert(old(k).tm.tasks[c].children[ch] < old(k).tm.tasks.len());
            }
        }
        assert(t.children@.no_duplicates()) by {
            assert(old(k).tm.tasks[c].children@.no_duplicates());
            assert forall|a: int, b: int|
                0 <= a < b < t.children.len() implies t.children@[a] != t.children@[b] by {
                assert(old(k).tm.tasks[c].children[a] < n);
                if b < old(k).cur().children.len() {
                    assert(old(k).tm.tasks[c].children[b] < n);
                }
            }
        }
        assert forall|fd: int|
            0 <= fd < t.fd_table.len() && (#[trigger] t.fd_table[fd]) is Some implies t.fd_table[fd].unwrap()
            < k.files.len() by {
            assert(old(k).tm.tasks[c].fd_table[fd] is Some);
        }
        lemma_task_update_keeps_wf(mid, *k, t);
    }
}

/// Appending a ready task with no children, whose descriptors name open
/// files, keeps the kernel well formed.
proof fn lemma_task_added_keeps_wf(old: Kernel, new: Kernel)
    requires
        old.wf(),
        old.tm.tasks.len() + 1 < isize::MAX,
        new.tm.current == old.tm.current,
        new.tm.tasks@ == old.tm.tasks@.push(new.tm.tasks@.last()),
        new.tm.tasks@.last().wf(),
        new.tm.tasks@.last().pid == old.tm.tasks.len(),
        new.tm.tasks@.last().status == TaskStatus::Ready,
        new.tm.tasks@.last().children@.len() == 0,
        forall|fd: int|
            0 <= fd < new.tm.tasks@.last().fd_table.len() && (#[trigger] new.tm.tasks@.last().fd_table[fd]) is Some
                ==> new.tm.tasks@.last().fd_table[fd].unwrap() < old.files.len(),
        new.free_frames + new.tm.tasks@.last().memory@.dom().len() == old.free_frames,
        new.files == old.files,
        new.fs == old.fs,
    ensures
        new.wf(),
{
    let n = old.tm.tasks.len() as int;
    crate::kernel::lemma_held_push(old.tm.tasks@, new.tm.tasks@.last());
    assert forall|i: int| 0 <= i < new.tm.tasks.len() implies (#[trigger] new.tm.tasks[i]).wf()
        && new.tm.tasks[i].pid == i && new.tm.tasks[i].children@.no_duplicates() by {
        if i < n {
            assert(new.tm.tasks[i] == old.tm.tasks[i]);
            assert(old.tm.tasks[i].wf() && old.tm.tasks[i].pid == i);
            assert(old.tm.tasks[i].children@.no_duplicates());
        }
    }
    assert forall|i: int|
        0 <= i < new.tm.tasks.len() && i != new.tm.current implies #[trigger] new.tm.tasks[i].status
        != TaskStatus::Running by {
        if i < n {
            assert(old.tm.tasks[i].status != TaskStatus::Running);
        }
    }
    assert forall|i: int, fd: int|
        0 <= i < new.tm.tasks.len() && 0 <= fd < new.tm.tasks[i].fd_table.len()
            && (#[trigger] new.tm.tasks[i].fd_table[fd]) is Some implies new.tm.tasks[i].fd_table[fd].unwrap()
        < new.files.len() by {
        if i < n {
            assert(old.tm.tasks[i].fd_table[fd] is Some);
        }
    }
    assert forall|i: int, ch: int|
        0 <= i < new.tm.tasks.len() && 0 <= ch < new.tm.tasks[i].children.len() implies #[trigger] new.tm.tasks[i].children[ch]
        < new.tm.tasks.len() by {
        if i < n {
            assert(old.tm.tasks[i].children[ch] < old.tm.tasks.len());
        }
    }
}

/// Creates a copy of the running task as its child, copying each mapped
/// page into a frame of its own; the child's pid.
pub fn sys_fork(k: &mut Kernel) -> (r: isize)
    requires
        old(k).wf(),
        old(k).tm.tasks.len() + 1 < isize::MAX,
        old(k).mem().dom().len() <= old(k).free_frames,
    ensures
        final(k).wf(),
        r == old(k).tm.tasks.len(),
        final(k).free_frames == old(k).free_frames - old(k).mem().dom().len(),
        child_added(*old(k), *final(k), old(k).tm.tasks.len()),
        forked(
            final(k).tm.tasks[old(k).tm.tasks.len() as int],
            old(k).cur(),
            old(k).tm.tasks.len(),
            old(k).tm.current,
        ),
{
    let cur = k.tm.current;
    let n = k.tm.tasks.len();
    assert(k.tm.tasks[cur as int].wf());
    let parent = &k.tm.tasks[cur];
    let child = TaskControlBlock {
        pid: n,
        status: TaskStatus::Ready,
        parent: Some(cur),
        children: Vec::new(),
        exit_code: 0,
        priority: DEFAULT_PRIORITY,
        program: copy_bytes(&parent.program),
        heap_bottom: parent.heap_bottom,
        program_brk: parent.program_brk,
        memory: parent.memory.clone_space(),
        trap_cx: parent.trap_cx.copy_with(10, 0),
        fd_table: copy_fd_table(&parent.fd_table),
        syscall_counts: CountSyscall::new(),
        cnts: CntSys::new(),
    };
    proof {
        assert forall|fd: int|
            0 <= fd < child.fd_table.len() && (#[trigger] child.fd_table[fd]) is Some implies child.fd_table[fd].unwrap()
            < old(k).files.len() by {
            assert(old(k).tm.tasks[cur as int].fd_table[fd] is Some);
        }
    }
    add_child(k, child);
    n as isize
}

/// Whether the file named by the string at `path`, if there is one, holds
/// an image that can be loaded, and the pool has a frame for each of its
/// pages.
pub open spec fn image_ok(k: Kernel, path: usize) -> bool {
    lookup(k.fs@.dir, user_str(k.mem(), path as int)) matches Some(ino) ==> {
        &&& elf_ok(k.fs@.files[ino as int])
        &&& image_space(k.fs@.files[ino as int]).dom().len() <= k.free_frames
    }
}

/// Replaces the running task's address space by the one built from the
/// image in the file named at `path`, and restarts it at the image's entry
/// point; the new address space takes a frame from the pool for each of
/// its pages, and the old one's frames go back. -1 where no such file
/// exists.
pub fn sys_exec(k: &mut Kernel, path: usize) -> (r: isize)
    requires
        old(k).wf(),
        exists|n: int| cstr_at(old(k).mem(), path as int, n),
        image_ok(*old(k), path),
    ensures
        final(k).wf(),
        match lookup(old(k).fs@.dir, user_str(old(k).mem(), path as int)) {
            None => r == -1 && *final(k) == *old(k),
            Some(ino) => {
                &&& r == 0
                &&& final(k).tm.current == old(k).tm.current
                &&& final(k).tm.tasks@ == old(k).tm.tasks@.update(
                    old(k).tm.current as int,
                    TaskControlBlock {
                        program: final(k).cur().program,
                        memory: final(k).cur().memory,
                        trap_cx: final(k).cur().trap_cx,
                        heap_bottom: stack_top(old(k).fs@.files[ino as int]) as usize,
                        program_brk: stack_top(old(k).fs@.files[ino as int]) as usize,
                        ..old(k).cur()
                    },
                )
                &&& final(k).free_frames == old(k).free_frames + old(k).mem().dom().len()
                    - image_space(old(k).fs@.files[ino as int]).dom().len()
                &&& final(k).cur().program@ == old(k).fs@.files[ino as int]
                &&& final(k).mem() == image_space(old(k).fs@.files[ino as int])
                &&& init_trap_cx(
                    final(k).cur().trap_cx,
                    stack_top(old(k).fs@.files[ino as int]) as usize,
                    entry_of(old(k).fs@.files[ino as int]) as usize,
                )
                &&& final(k).files == old(k).files
                &&& final(k).fs == old(k).fs
                &&& final(k).console_in == old(k).console_in
                &&& final(k).console_out == old(k).console_out
            },
        },
{
    let name = k.read_user_str(path);
    match k.fs.find(&name) {
        Some(ino) => {
            let data = k.fs.read_all(ino);
            let (memory, user_sp, entry) = load_image(&data);
            let cur = k.tm.current;
            assert(k.tm.tasks[cur as int].wf());
            let before = k.tm.tasks[cur].memory.page_count();
            let after = memory.page_count();
            proof {
                crate::kernel::lemma_held_update(old(k).tm.tasks@, cur as int, old(k).cur());
            }
            k.free_frames = k.free_frames + before - after;
            k.tm.tasks[cur].program = data;
            k.tm.tasks[cur].memory = memory;
            k.tm.tasks[cur].trap_cx = TrapContext::app_init_context(entry, user_sp);
            k.tm.tasks[cur].heap_bottom = user_sp;
            k.tm.tasks[cur].program_brk = user_sp;
            proof {
                let t = TaskControlBlock {
                    program: k.cur().program,
                    memory: k.cur().memory,
                    trap_cx: k.cur().trap_cx,
                    heap_bottom: user_sp,
                    program_brk: user_sp,
                    ..old(k).cur()
                };
                assert(k.tm.tasks@ =~= old(k).tm.tasks@.update(cur as int, t));
                assert(old(k).tm.tasks[cur as int].wf());
                lemma_task_update_keeps_wf(*old(k), *k, t);
            }
            0
        },
        None => -1,
    }
}

/// Starts the image in the file named at `path` as a new child task, with
/// an address space built from the image alone, which takes a frame from
/// the pool for each of its pages; the child's pid, or -1 where no such
/// file exists.
pub fn sys_spawn(k: &mut Kernel, path: usize) -> (r: isize)
    requires
        old(k).wf(),
        image_ok(*old(k), path),
        exists|n: int| cstr_at(old(k).mem(), path as int, n),
        old(k).tm.tasks.len() + 1 < isize::MAX,
    ensures
        final(k).wf(),
        match lookup(old(k).fs@.dir, user_str(old(k).mem(), path as int)) {
            None => r == -1 && *final(k) == *old(k),
            Some(ino) => {
                &&& r == old(k).tm.tasks.len()
                &&& child_added(*old(k), *final(k), old(k).tm.tasks.len())
                &&& final(k).free_frames == old(k).free_frames - image_space(
                    old(k).fs@.files[ino as int],
                ).dom().len()
                &&& fresh_task(
                    final(k).tm.tasks[old(k).tm.tasks.len() as int],
                    old(k).tm.tasks.len(),
                    old(k).fs@.files[ino as int],
                    Some(old(k).tm.current),
                )
            },
        },
{
    let name = k.read_user_str(path);
    match k.fs.find(&name) {
        Some(ino) => {
            let data = k.fs.read_all(ino);
            let n = k.tm.tasks.len();
            let cur = k.tm.current;
            let child = new_task(n, &data, Some(cur));
            assert(child.fd_table@ == seq![Some(0usize), Some(1usize), Some(2usize)]);
            assert forall|fd: int|
                0 <= fd < child.fd_table.len() && (#[trigger] child.fd_table[fd]) is Some implies child.fd_table[fd].unwrap()
                < k.files.len() by {
                assert(child.fd_table[fd] == seq![Some(0usize), Some(1usize), Some(2usize)][fd]);
            }
            add_child(k, child);
            n as isize
        },
        None => -1,
    }
}

/// Whether `pid` selects child `c`: -1 selects any child.
pub open spec fn pid_matches(pid: isize, c: usize) -> bool {
    pid == -1 || pid == c
}

/// Whether the running task has a child that `pid` selects.
pub open spec fn has_child(k: Kernel, pid: isize) -> bool {
    exists|i: int| 0 <= i < k.cur().children.len() && pid_matches(pid, #[trigger] k.cur().children[i])
}

/// Position, in the running task's list of children, of the first exited
/// child that `pid` selects, from position `i` on; the list's length if
/// there is none.
pub open spec fn first_zombie_from(k: Kernel, pid: isize, i: int) -> int
    decreases k.cur().children.len() - i,
{
    if i >= k.cur().children.len() {
        k.cur().children.len() as int
    } else if pid_matches(pid, k.cur().children[i]) && k.tm.tasks[k.cur().children[i] as int].status
        == TaskStatus::Exited {
        i
    } else {
        first_zombie_from(k, pid, i + 1)
    }
}

/// What `waitpid` needs where it reaps a child: the exit code's place is
/// mapped and inside one page.
pub open spec fn waitpid_ok(k: Kernel, pid: isize, exit_code_ptr: usize) -> bool {
    has_child(k, pid) && first_zombie_from(k, pid, 0) < k.cur().children.len() ==> {
        &&& range_mapped(k.mem(), exit_code_ptr as int, 4)
        &&& exit_code_ptr % PAGE_SIZE <= PAGE_SIZE - 4
    }
}

/// The bytes of an exit code as `waitpid` stores it, little-endian.
pub open spec fn exit_code_bytes(code: i32) -> Seq<u8> {
    le_bytes((code as u32) as u64, 4)
}

/// What `waitpid` does: -1 where the running task has no child that `pid`
/// names; -2 where none of them has exited; else the first exited one is
/// reaped: it leaves the children, its exit code is stored at
/// `exit_code_ptr`, its memory is released and its frames go back to the
/// pool, and its pid is the result.
pub open spec fn waitpid_post(old: Kernel, new: Kernel, pid: isize, exit_code_ptr: usize, r: isize) -> bool {
    if !has_child(old, pid) {
        r == -1 && new == old
    } else if first_zombie_from(old, pid, 0) == old.cur().children.len() {
        r == -2 && new == old
    } else {
        let z = first_zombie_from(old, pid, 0);
        let child = old.cur().children[z];
        &&& r == child
        &&& new.tm.current == old.tm.current
        &&& new.tm.tasks@ == old.tm.tasks@.update(
            old.tm.current as int,
            TaskControlBlock { children: new.cur().children, memory: new.cur().memory, ..old.cur() },
        ).update(
            child as int,
            TaskControlBlock { memory: new.tm.tasks[child as int].memory, ..old.tm.tasks[child as int] },
        )
        &&& new.cur().children@ == old.cur().children@.remove(z)
        &&& stores(
            old.mem(),
            new.mem(),
            exit_code_ptr as int,
            exit_code_bytes(old.tm.tasks[child as int].exit_code),
        )
        &&& new.tm.tasks[child as int].memory@ == Map::<usize, PageState>::empty()
        &&& new.free_frames == old.free_frames + old.tm.tasks[child as int].memory@.dom().len()
        &&& new.files == old.files
        &&& new.fs == old.fs
        &&& new.console_in == old.console_in
        &&& new.console_out == old.console_out
    }
}

/// Reaps an exited child that `pid` selects (-1: any): removes it from the
/// running task's children, stores its exit code at `exit_code_ptr`,
/// releases its memory and frames, and gives its pid. -1 where no child is
/// selected, -2 where none of those selected has exited yet.
pub fn sys_waitpid(k: &mut Kernel, pid: isize, exit_code_ptr: usize) -> (r: isize)
    requires
        old(k).wf(),
        waitpid_ok(*old(k), pid, exit_code_ptr),
    ensures
        final(k).wf(),
        waitpid_post(*old(k), *final(k), pid, exit_code_ptr, r),
{
    let cur = k.tm.current;
    let nc = k.tm.tasks[cur].children.len();
    let mut i: usize = 0;
    let mut any = false;
    while i < nc
        invariant
            k.wf(),
            cur == k.tm.current,
            nc == k.cur().children.len(),
            i <= nc,
            any == exists|j: int| 0 <= j < i && pid_matches(pid, #[trigger] k.cur().children[j]),
        decreases nc - i,
    {
        let c = k.tm.tasks[cur].children[i];
        if pid == -1 || (pid >= 0 && pid as usize == c) {
            any = true;
        }
        i += 1;
    }
    if !any {
        return -1;
    }
    let mut j: usize = 0;
    while j < nc
        invariant
            k.wf(),
            *k == *old(k),
            waitpid_ok(*old(k), pid, exit_code_ptr),
            has_child(*old(k), pid),
            cur == k.tm.current,
            nc == k.cur().children.len(),
            j <= nc,
            first_zombie_from(*k, pid, 0) == first_zombie_from(*k, pid, j as int),
        decreases nc - j,
    {
        let c = k.tm.tasks[cur].children[j];
        assert(k.cur().children[j as int] < k.tm.tasks.len());
        if (pid == -1 || (pid >= 0 && pid as usize == c)) && k.tm.tasks[c].status
            == TaskStatus::Exited {
            let code = k.tm.tasks[c].exit_code;
            let mut bytes: Vec<u8> = Vec::new();
            push_le_bytes(&mut bytes, (#[verifier::truncate] (code as u32)) as u64, 4);
            assert(bytes@ =~= exit_code_bytes(code));
            let ghost k0 = *k;
            k.tm.tasks[cur].children.remove(j);
            proof {
                let t = TaskControlBlock { children: k.cur().children, ..k0.cur() };
                assert(k.tm.tasks@ =~= k0.tm.tasks@.update(cur as int, t));
                assert(k0.tm.tasks[cur as int].wf());
                assert forall|ch: int| 0 <= ch < t.children.len() implies #[trigger] t.children[ch]
                    < k0.tm.tasks.len() by {
                    if ch < j {
                        assert(t.children[ch] == k0.cur().children[ch]);
                    } else {
                        assert(t.children[ch] == k0.cur().children[ch + 1]);
                    }
                }
                assert forall|fd: int|
                    0 <= fd < t.fd_table.len() && (#[trigger] t.fd_table[fd]) is Some implies t.fd_table[fd].unwrap()
                    < k0.files.len() by {
                    assert(k0.tm.tasks[cur as int].fd_table[fd] is Some);
                }
                lemma_task_update_keeps_wf(k0, *k, t);
            }
            assert(k.mem() == old(k).mem());
            k.write_user_bytes(exit_code_ptr, &bytes);
            let ghost k1 = *k;
            assert(k.tm.tasks[c as int].status == TaskStatus::Exited);
            assert(c != cur);
            assert(k.tm.tasks[c as int].wf());
            let fr = k.tm.tasks[c].memory.page_count();
            proof {
                crate::kernel::lemma_held_update(k1.tm.tasks@, c as int, k1.tm.tasks[c as int]);
            }
            k.tm.tasks[c].memory = AddressSpace::new();
            k.free_frames = k.free_frames + fr;
            proof {
                let t = TaskControlBlock { memory: k.tm.tasks[c as int].memory, ..k1.tm.tasks[c as int] };
                assert(k.tm.tasks@ =~= k1.tm.tasks@.update(c as int, t));
                lemma_reaped_task_released(k1, *k, c as int, t);
                assert(k.tm.tasks@ =~= old(k).tm.tasks@.update(
                    cur as int,
                    TaskControlBlock {
                        children: k.cur().children,
                        memory: k.cur().memory,
                        ..old(k).cur()
                    },
                ).update(c as int, t));
            }
            return c as isize;
        }
        j += 1;
    }
    -2
}

/// Moving the break by `size` and then back by `-size` returns it to where
/// it was.
pub proof fn lemma_sbrk_round_trip(heap_bottom: usize, brk: usize, size: i32)
    requires
        heap_bottom <= brk,
        size != i32::MIN,
        brk + size <= isize::MAX,
        new_brk(heap_bottom, brk, size) is Some,
    ensures
        new_brk(heap_bottom, new_brk(heap_bottom, brk, size).unwrap(), (-size) as i32) == Some(brk),
{
    let b1 = new_brk(heap_bottom, brk, size).unwrap();
    assert(b1 == brk + size);
    assert((-size) as i32 == -size);
}

/// A byte stored by `trace` (request 1) is what `trace` (request 0) reads
/// back at the same address.
pub proof fn lemma_trace_read_after_write(
    k0: Kernel,
    k1: Kernel,
    k2: Kernel,
    addr: usize,
    data: usize,
    unused: usize,
    r1: isize,
    r2: isize,
)
    requires
        user_writable(k0.mem(), addr as int),
        user_readable(k0.mem(), addr as int),
        trace_post(k0, k1, 1, addr, data, r1),
        trace_post(k1, k2, 0, addr, unused, r2),
    ensures
        r1 == 0,
        r2 == (data as u8) as isize,
{
    crate::mm::lemma_read_after_store(k0.mem(), k1.mem(), addr as int, seq![data as u8], 0);
    let v = (addr as int / PAGE_SIZE as int) as usize;
    assert(k1.mem()[v].flags == k0.mem()[v].flags);
}

/// Releasing the memory of a task that has exited, other than the running
/// one, and handing its frames back keeps the kernel well formed.
proof fn lemma_reaped_task_released(old: Kernel, new: Kernel, i: int, t: TaskControlBlock)
    requires
        old.wf(),
        0 <= i < old.tm.tasks.len(),
        i != old.tm.current,
        new.tm.current == old.tm.current,
        new.tm.tasks@ == old.tm.tasks@.update(i, t),
        t.wf(),
        t.pid == old.tm.tasks[i].pid,
        t.status == old.tm.tasks[i].status,
        t.children == old.tm.tasks[i].children,
        t.fd_table == old.tm.tasks[i].fd_table,
        new.free_frames + t.memory@.dom().len() == old.free_frames + old.tm.tasks[i].memory@.dom().len(),
        new.files == old.files,
        new.fs == old.fs,
    ensures
        new.wf(),
{
    crate::kernel::lemma_held_update(old.tm.tasks@, i, t);
    assert forall|j: int| 0 <= j < new.tm.tasks.len() implies (#[trigger] new.tm.tasks[j]).wf()
        && new.tm.tasks[j].pid == j && new.tm.tasks[j].children@.no_duplicates() by {
        assert(old.tm.tasks[j].wf() && old.tm.tasks[j].pid == j);
        assert(old.tm.tasks[j].children@.no_duplicates());
    }
    assert forall|j: int|
        0 <= j < new.tm.tasks.len() && j != new.tm.current implies #[trigger] new.tm.tasks[j].status
        != TaskStatus::Running by {
        assert(old.tm.tasks[j].status != TaskStatus::Running);
    }
    assert forall|j: int, fd: int|
        0 <= j < new.tm.tasks.len() && 0 <= fd < new.tm.tasks[j].fd_table.len()
            && (#[trigger] new.tm.tasks[j].fd_table[fd]) is Some implies new.tm.tasks[j].fd_table[fd].unwrap()
        < new.files.len() by {
        assert(old.tm.tasks[j].fd_table[fd] is Some);
    }
    assert forall|j: int, ch: int|
        0 <= j < new.tm.tasks.len() && 0 <= ch < new.tm.tasks[j].children.len() implies #[trigger] new.tm.tasks[j].children[ch]
        < new.tm.tasks.len() by {
        assert(old.tm.tasks[j].children[ch] < old.tm.tasks.len());
    }
}

/// A child that `waitpid` has reaped is no longer a child of the task:
/// waiting for its pid again finds no child.
pub proof fn lemma_reaped_child_gone(k0: Kernel, k1: Kernel, z: int)
    requires
        k0.wf(),
        0 <= z < k0.cur().children.len(),
        k1.tm.current == k0.tm.current,
        k1.cur().children@ == k0.cur().children@.remove(z),
    ensures
        !has_child(k1, k0.cur().children[z] as isize),
{
    let ch = k0.cur().children@;
    let c = ch[z];
    assert(ch.no_duplicates());
    assert(c < k0.tm.tasks.len());
    assert forall|i: int| 0 <= i < k1.cur().children.len() implies !pid_matches(
        c as isize,
        #[trigger] k1.cur().children[i],
    ) by {
        if i < z {
            assert(k1.cur().children[i] == ch[i]);
        } else {
            assert(k1.cur().children[i] == ch[i + 1]);
        }
    }
}



/// The times that `get_time` reports never go backwards: of two calls, the
/// second with a clock reading no earlier than the first, the second stores
/// a time that is no earlier, by seconds first and then microseconds.
pub proof fn lemma_get_time_monotonic(
    k0: Kernel,
    k1: Kernel,
    ts1: usize,
    us1: usize,
    r1: isize,
    k2: Kernel,
    k3: Kernel,
    ts2: usize,
    us2: usize,
    r2: isize,
)
    requires
        get_time_post(k0, k1, ts1, us1, r1),
        get_time_post(k2, k3, ts2, us2, r2),
        us1 <= us2,
    ensures
        stores(k0.mem(), k1.mem(), ts1 as int, time_val_bytes(reported_time(us1))),
        stores(k2.mem(), k3.mem(), ts2 as int, time_val_bytes(reported_time(us2))),
        reported_time(us1).sec < reported_time(us2).sec || (reported_time(us1).sec
            == reported_time(us2).sec && reported_time(us1).usec <= reported_time(us2).usec),
{
    let (s1, u1, s2, u2) = (us1 / 1_000_000, us1 % 1_000_000, us2 / 1_000_000, us2 % 1_000_000);
    assert(s1 < s2 || (s1 == s2 && u1 <= u2)) by (nonlinear_arith)
        requires
            us1 <= us2,
            s1 == us1 / 1_000_000,
            u1 == us1 % 1_000_000,
            s2 == us2 / 1_000_000,
            u2 == us2 % 1_000_000,
    ;
}

/// The first child from `j` on that `pid` names and that has exited is the
/// one at `i`, where none before it from `j` on matches.
proof fn lemma_first_zombie_at(k: Kernel, pid: isize, j: int, i: int)
    requires
        0 <= j <= i < k.cur().children.len(),
        pid_matches(pid, k.cur().children[i]),
        k.tm.tasks[k.cur().children[i] as int].status == TaskStatus::Exited,
        forall|l: int| j <= l < i ==> !pid_matches(pid, #[trigger] k.cur().children[l]),
    ensures
        first_zombie_from(k, pid, j) == i,
    decreases i - j,
{
    if j < i {
        lemma_first_zombie_at(k, pid, j + 1, i);
    }
}

/// A child that has exited is reaped exactly once: waiting for its pid
/// gives the pid and stores its exit code; waiting for it again finds no
/// such child.
pub proof fn lemma_waitpid_reaps_once(
    k0: Kernel,
    k1: Kernel,
    k2: Kernel,
    p: usize,
    ptr1: usize,
    r1: isize,
    ptr2: usize,
    r2: isize,
)
    requires
        k0.wf(),
        k0.cur().children@.contains(p),
        k0.tm.tasks[p as int].status == TaskStatus::Exited,
        waitpid_post(k0, k1, p as isize, ptr1, r1),
        waitpid_post(k1, k2, p as isize, ptr2, r2),
    ensures
        r1 == p,
        stores(k0.mem(), k1.mem(), ptr1 as int, exit_code_bytes(k0.tm.tasks[p as int].exit_code)),
        r2 == -1,
{
    let ch = k0.cur().children@;
    let i = choose|i: int| 0 <= i < ch.len() && ch[i] == p;
    assert(ch.no_duplicates());
    assert(p < k0.tm.tasks.len());
    assert(p as isize == p);
    assert(has_child(k0, p as isize)) by {
        assert(pid_matches(p as isize, k0.cur().children[i]));
    }
    assert forall|l: int| 0 <= l < i implies !pid_matches(p as isize, #[trigger] k0.cur().children[l]) by {
        assert(ch[l] != ch[i]);
    }
    lemma_first_zombie_at(k0, p as isize, 0, i);
    lemma_reaped_child_gone(k0, k1, i);
}

/// A task that has exited is never run again: yielding or exiting switches
/// to another task, and the exited one stays exited.
pub proof fn lemma_exited_stays_exited(
    k0: Kernel,
    k1: Kernel,
    i: int,
    r: isize,
    code: i32,
    a: SwitchAction,
)
    requires
        k0.wf(),
        0 <= i < k0.tm.tasks.len(),
        k0.tm.tasks[i].status == TaskStatus::Exited,
        yield_post(k0, k1, r) || exit_post(k0, k1, code, a),
    ensures
        k1.tm.current != i,
        k1.tm.tasks[i].status == TaskStatus::Exited,
{
    let cur = k0.tm.current as int;
    assert(i != cur);
    let mid = if yield_post(k0, k1, r) {
        k0.tm.tasks@.update(cur, TaskControlBlock { status: TaskStatus::Ready, ..k0.cur() })
    } else {
        k0.tm.tasks@.update(cur, TaskControlBlock { status: TaskStatus::Exited, exit_code: code, ..k0.cur() })
    };
    assert(mid[i] == k0.tm.tasks[i]);
    crate::task::lemma_next_ready_is_ready(mid, cur, 1);
    let next = next_ready(mid, cur)->0 as int;
    assert(mid[next].status == TaskStatus::Ready);
    assert(next != i);
    assert(k1.tm.tasks@[i] == mid[i]);
}


/// A child reaped after it exits gives back its exit code exactly once:
/// the running task adds child `p` (by `fork` or `spawn`), yields to it,
/// the child exits with `code` and the parent runs again; then waiting for
/// `p` gives `p` and stores `code`, and waiting for it again gives -1.
pub proof fn lemma_exit_then_waitpid(
    k0: Kernel,
    k1: Kernel,
    k2: Kernel,
    k3: Kernel,
    k4: Kernel,
    k5: Kernel,
    p: usize,
    ry: isize,
    code: i32,
    a: SwitchAction,
    ptr1: usize,
    r1: isize,
    ptr2: usize,
    r2: isize,
)
    requires
        k0.wf(),
        k1.wf(),
        k2.wf(),
        k3.wf(),
        child_added(k0, k1, p),
        yield_post(k1, k2, ry),
        k2.tm.current == p,
        exit_post(k2, k3, code, a),
        k3.tm.current == k0.tm.current,
        waitpid_post(k3, k4, p as isize, ptr1, r1),
        waitpid_post(k4, k5, p as isize, ptr2, r2),
    ensures
        r1 == p,
        stores(k3.mem(), k4.mem(), ptr1 as int, exit_code_bytes(code)),
        r2 == -1,
{
    let c = k0.tm.current as int;
    assert(p as int != c);
    assert(k1.tm.tasks[c].children@.last() == p);
    assert(k1.tm.current == c);
    // the yield from the parent to the child keeps the parent's children
    let mid1 = k1.tm.tasks@.update(c, TaskControlBlock { status: TaskStatus::Ready, ..k1.cur() });
    assert(k2.tm.tasks[c].children == k1.tm.tasks[c].children) by {
        assert(mid1[c].children == k1.tm.tasks[c].children);
    }
    // the child's exit records its code and switches away from it
    let mid2 = k2.tm.tasks@.update(
        p as int,
        TaskControlBlock { status: TaskStatus::Exited, exit_code: code, ..k2.cur() },
    );
    crate::task::lemma_next_ready_is_ready(mid2, p as int, 1);
    let next = next_ready(mid2, p as int)->0 as int;
    assert(next != p as int);
    assert(k3.tm.tasks[p as int] == mid2[p as int]);
    assert(k3.tm.tasks[p as int].status == TaskStatus::Exited);
    assert(k3.tm.tasks[p as int].exit_code == code);
    assert(k3.tm.tasks[c].children == k1.tm.tasks[c].children) by {
        assert(mid2[c].children == k2.tm.tasks[c].children);
    }
    let ch = k3.cur().children@;
    assert(ch[ch.len() - 1] == p);
    assert(ch.contains(p));
    lemma_waitpid_reaps_once(k3, k4, k5, p, ptr1, r1, ptr2, r2);
}


/// `mmap` maps pages as `prot` asks: its bits read (1), write (2), execute
/// (4) give the page-table bits R (2), W (4), X (8), every page is valid (1)
/// and a user page (16), and no other bit is set; `prot` is accepted when
/// it asks for some access and names no other bit.
pub proof fn lemma_mmap_flags(prot: usize)
    ensures
        (prot_flags(prot) & 2 != 0) <==> (prot & 1 != 0),
        (prot_flags(prot) & 4 != 0) <==> (prot & 2 != 0),
        (prot_flags(prot) & 8 != 0) <==> (prot & 4 != 0),
        prot_flags(prot) & 1 != 0,
        prot_flags(prot) & 16 != 0,
        prot_flags(prot) & 0xe0 == 0,
        prot_ok(prot) <==> (1 <= prot <= 7),
{
    let a: u8 = if prot & 1 != 0 { 2u8 } else { 0u8 };
    let b: u8 = if prot & 2 != 0 { 4u8 } else { 0u8 };
    let c: u8 = if prot & 4 != 0 { 8u8 } else { 0u8 };
    assert(prot_flags(prot) == 1u8 | 16u8 | a | b | c);
    let g: u8 = 1u8 | 16u8 | a | b | c;
    assert(((g & 2 != 0) == (a == 2)) && ((g & 4 != 0) == (b == 4)) && ((g & 8 != 0) == (c == 8))
        && g & 1 != 0 && g & 16 != 0 && g & 0xe0 == 0) by (bit_vector)
        requires
            a == 0 || a == 2,
            b == 0 || b == 4,
            c == 0 || c == 8,
            g == 1u8 | 16u8 | a | b | c,
    ;
    assert((prot & !0x7usize == 0 && prot & 0x7usize != 0) == (1 <= prot && prot <= 7)) by (bit_vector);
}

} // verus!
