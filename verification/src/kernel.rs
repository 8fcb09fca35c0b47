//! The kernel state that system calls act on: the task manager, the table
//! of open files, the file system, the pool of free frames and the console.
use vstd::prelude::*;
use crate::fs::{copy_bytes, FileSystem};
use crate::mm::{byte_at, cstr_at, range_mapped, stores, AddressSpace};
use crate::syscall::CountSyscall;
use crate::elf::{elf_ok, entry_of, image_space, load_image, stack_top};
use crate::task::{
    init_trap_cx,
    CntSys,
    TaskControlBlock,
    TaskManager,
    TaskStatus,
    TrapContext,
    DEFAULT_PRIORITY,
};

verus! {

/// An open file: the console's input or output, or an inode opened with
/// some access and read or written from `offset` on.
#[derive(Clone, Copy, Debug, PartialEq, Eq, Structural)]
pub enum FileObject {
    Stdin,
    Stdout,
    Inode { inode: usize, readable: bool, writable: bool, offset: usize },
}

impl FileObject {
    pub open spec fn readable_spec(self) -> bool {
        match self {
            FileObject::Stdin => true,
            FileObject::Stdout => false,
            FileObject::Inode { readable, .. } => readable,
        }
    }

    pub open spec fn writable_spec(self) -> bool {
        match self {
            FileObject::Stdin => false,
            FileObject::Stdout => true,
            FileObject::Inode { writable, .. } => writable,
        }
    }

    /// Whether the file may be read.
    pub fn readable(&self) -> (r: bool)
        ensures
            r == self.readable_spec(),
    {
        match self {
            FileObject::Stdin => true,
            FileObject::Stdout => false,
            FileObject::Inode { readable, .. } => *readable,
        }
    }

    /// Whether the file may be written.
    pub fn writable(&self) -> (r: bool)
        ensures
            r == self.writable_spec(),
    {
        match self {
            FileObject::Stdin => false,
            FileObject::Stdout => true,
            FileObject::Inode { writable, .. } => *writable,
        }
    }
}

/// The whole kernel state.
pub struct Kernel {
    pub tm: TaskManager,
    /// Open files; descriptors name entries of this table, and a file that
    /// several descriptors name (after `fork`) shares its offset.
    pub files: Vec<FileObject>,
    pub fs: FileSystem,
    /// Frames that remain to be handed out; each mapped page of a task's
    /// memory holds one of the others.
    pub free_frames: usize,
    /// Console input not yet read.
    pub console_in: Vec<u8>,
    /// Console output written so far.
    pub console_out: Vec<u8>,
}

/// The open-file table entry that descriptor `fd` names, if it is open.
pub open spec fn fd_entry(t: TaskControlBlock, fd: usize) -> Option<usize> {
    if fd < t.fd_table.len() {
        t.fd_table[fd as int]
    } else {
        None
    }
}

/// The frames that the tasks' memories hold: one for each mapped page.
pub open spec fn held_frames(tasks: Seq<TaskControlBlock>) -> int
    decreases tasks.len(),
{
    if tasks.len() == 0 {
        0
    } else {
        held_frames(tasks.drop_last()) + tasks.last().memory@.dom().len()
    }
}

/// Replacing task `i` changes the frames held by the difference in its
/// pages.
pub proof fn lemma_held_update(tasks: Seq<TaskControlBlock>, i: int, t: TaskControlBlock)
    requires
        0 <= i < tasks.len(),
    ensures
        held_frames(tasks.update(i, t)) == held_frames(tasks) - tasks[i].memory@.dom().len()
            + t.memory@.dom().len(),
        held_frames(tasks) >= tasks[i].memory@.dom().len(),
    decreases tasks.len(),
{
    let u = tasks.update(i, t);
    lemma_held_nonneg(tasks.drop_last());
    if i < tasks.len() - 1 {
        assert(u.drop_last() =~= tasks.drop_last().update(i, t));
        lemma_held_update(tasks.drop_last(), i, t);
    } else {
        assert(u.drop_last() =~= tasks.drop_last());
    }
}

/// Tasks hold no fewer than no frames.
pub proof fn lemma_held_nonneg(tasks: Seq<TaskControlBlock>)
    ensures
        held_frames(tasks) >= 0,
    decreases tasks.len(),
{
    if tasks.len() > 0 {
        lemma_held_nonneg(tasks.drop_last());
    }
}

/// Adding a task adds the frames its memory holds.
pub proof fn lemma_held_push(tasks: Seq<TaskControlBlock>, t: TaskControlBlock)
    ensures
        held_frames(tasks.push(t)) == held_frames(tasks) + t.memory@.dom().len(),
{
    assert(tasks.push(t).drop_last() =~= tasks);
}

/// Tables whose tasks hold as many pages each hold as many frames.
pub proof fn lemma_held_same(a: Seq<TaskControlBlock>, b: Seq<TaskControlBlock>)
    requires
        a.len() == b.len(),
        forall|i: int| 0 <= i < a.len() ==> (#[trigger] b[i]).memory@.dom().len() == a[i].memory@.dom().len(),
    ensures
        held_frames(a) == held_frames(b),
    decreases a.len(),
{
    if a.len() > 0 {
        assert forall|i: int| 0 <= i < a.drop_last().len() implies (#[trigger] b.drop_last()[i]).memory@.dom().len()
            == a.drop_last()[i].memory@.dom().len() by {
            assert(b.drop_last()[i] == b[i] && a.drop_last()[i] == a[i]);
        }
        lemma_held_same(a.drop_last(), b.drop_last());
        assert(b[b.len() - 1].memory@.dom().len() == a[a.len() - 1].memory@.dom().len());
    }
}

/// The frames that loading the first `n` of `apps` takes from the pool: one
/// for each page of each image's address space.
pub open spec fn boot_frames(apps: Seq<Vec<u8>>, n: int) -> int
    decreases n,
{
    if n <= 0 {
        0
    } else {
        boot_frames(apps, n - 1) + image_space(apps[n - 1]@).dom().len()
    }
}

/// Loading more images takes no fewer frames.
proof fn lemma_boot_frames_grow(apps: Seq<Vec<u8>>, a: int, b: int)
    requires
        0 <= a <= b,
    ensures
        boot_frames(apps, a) <= boot_frames(apps, b),
    decreases b - a,
{
    if a < b {
        lemma_boot_frames_grow(apps, a, b - 1);
    }
}

impl Kernel {
    pub open spec fn wf(&self) -> bool {
        &&& self.tm.wf()
        &&& self.fs.wf()
        &&& self.tm.tasks.len() < isize::MAX
        &&& self.cur().status != TaskStatus::Exited
        &&& 3 <= self.files.len()
        &&& self.files[0] == FileObject::Stdin
        &&& self.files[1] == FileObject::Stdout
        &&& self.files[2] == FileObject::Stdout
        &&& forall|i: int| 0 <= i < self.tm.tasks.len() ==> #[trigger] self.tm.tasks[i].pid == i
        &&& forall|i: int, fd: int|
            0 <= i < self.tm.tasks.len() && 0 <= fd < self.tm.tasks[i].fd_table.len()
                && (#[trigger] self.tm.tasks[i].fd_table[fd]) is Some
                ==> self.tm.tasks[i].fd_table[fd].unwrap() < self.files.len()
        &&& forall|f: int|
            0 <= f < self.files.len() ==> match #[trigger] self.files[f] {
                FileObject::Inode { inode, .. } => inode < self.fs@.files.len(),
                _ => true,
            }
        &&& forall|i: int, c: int|
            0 <= i < self.tm.tasks.len() && 0 <= c < self.tm.tasks[i].children.len()
                ==> #[trigger] self.tm.tasks[i].children[c] < self.tm.tasks.len()
        &&& forall|i: int| 0 <= i < self.tm.tasks.len() ==> (#[trigger] self.tm.tasks[i]).children@.no_duplicates()
        &&& self.free_frames + held_frames(self.tm.tasks@) <= usize::MAX
    }

    /// The running task.
    pub open spec fn cur(&self) -> TaskControlBlock {
        self.tm.tasks[self.tm.current as int]
    }

    /// The running task's address space.
    pub open spec fn mem(&self) -> Map<usize, crate::mm::PageState> {
        self.cur().memory@
    }

    /// A freshly booted kernel: one ready task loaded from each image, each
    /// with the console open on descriptors 0 (input), 1 and 2 (output), and
    /// an empty file system. Each page of the images' address spaces takes a
    /// frame from the `free_frames` in the pool.
    #[verifier::rlimit(40)]
    pub fn new(apps: &Vec<Vec<u8>>, free_frames: usize) -> (k: Self)
        requires
            0 < apps.len() < isize::MAX,
            forall|i: int| 0 <= i < apps.len() ==> elf_ok(#[trigger] apps[i]@),
            boot_frames(apps@, apps.len() as int) <= free_frames,
        ensures
            k.wf(),
            k.tm.current == 0,
            k.tm.tasks.len() == apps.len(),
            forall|i: int|
                0 <= i < apps.len() ==> fresh_task(#[trigger] k.tm.tasks[i], i as usize, apps[i]@, None),
            k.files@ == seq![FileObject::Stdin, FileObject::Stdout, FileObject::Stdout],
            k.fs@.files.len() == 0,
            k.fs@.dir.len() == 0,
            k.free_frames == free_frames - boot_frames(apps@, apps.len() as int),
            k.console_in@.len() == 0,
            k.console_out@.len() == 0,
    {
        let mut tasks: Vec<TaskControlBlock> = Vec::new();
        let mut i: usize = 0;
        let mut drawn: usize = 0;
        while i < apps.len()
            invariant
                i <= apps.len(),
                tasks.len() == i,
                forall|j: int| 0 <= j < apps.len() ==> elf_ok(#[trigger] apps[j]@),
                forall|j: int| 0 <= j < i ==> fresh_task(#[trigger] tasks[j], j as usize, apps[j]@, None),
                boot_frames(apps@, apps.len() as int) <= free_frames,
                drawn == boot_frames(apps@, i as int),
                held_frames(tasks@) == drawn,
            decreases apps.len() - i,
        {
            let t = new_task(i, &apps[i], None);
            assert(t.memory.wf());
            let pages = t.memory.page_count();
            proof {
                lemma_boot_frames_grow(apps@, i + 1, apps.len() as int);
                lemma_held_push(tasks@, t);
            }
            drawn = drawn + pages;
            tasks.push(t);
            i += 1;
        }
        let mut files: Vec<FileObject> = Vec::new();
        files.push(FileObject::Stdin);
        files.push(FileObject::Stdout);
        files.push(FileObject::Stdout);
        let k = Kernel {
            tm: TaskManager { tasks, current: 0 },
            files,
            fs: FileSystem::new(),
            free_frames: free_frames - drawn,
            console_in: Vec::new(),
            console_out: Vec::new(),
        };
        assert(k.files@ =~= seq![FileObject::Stdin, FileObject::Stdout, FileObject::Stdout]);
        assert forall|i: int, fd: int|
            0 <= i < k.tm.tasks.len() && 0 <= fd < k.tm.tasks[i].fd_table.len()
                && (#[trigger] k.tm.tasks[i].fd_table[fd]) is Some implies k.tm.tasks[i].fd_table[fd].unwrap()
            < k.files.len() by {
            assert(k.tm.tasks[i].fd_table@ == seq![Some(0usize), Some(1usize), Some(2usize)]);
        }
        k
    }

    /// The `len` bytes at address `va` of the running task.
    pub fn read_user_bytes(&self, va: usize, len: usize) -> (r: Vec<u8>)
        requires
            self.wf(),
            range_mapped(self.mem(), va as int, len as int),
        ensures
            r@ == Seq::new(len as nat, |i: int| byte_at(self.mem(), va + i)),
    {
        let cur = self.tm.current;
        assert(self.tm.tasks[cur as int].wf());
        let r = self.tm.tasks[cur].memory.read_bytes(va, len);
        assert(r@ =~= Seq::new(len as nat, |i: int| byte_at(self.mem(), va + i)));
        r
    }

    /// The NUL-terminated string at address `va` of the running task.
    pub fn read_user_str(&self, va: usize) -> (r: Vec<u8>)
        requires
            self.wf(),
            exists|n: int| cstr_at(self.mem(), va as int, n),
        ensures
            r@ == user_str(self.mem(), va as int),
    {
        let cur = self.tm.current;
        assert(self.tm.tasks[cur as int].wf());
        let r = self.tm.tasks[cur].memory.read_cstr(va);
        proof {
            lemma_cstr_unique(self.mem(), va as int, r@.len() as int, user_str_len(self.mem(), va as int));
        }
        assert(r@ =~= user_str(self.mem(), va as int));
        r
    }

    /// Stores `bytes` at address `va` of the running task.
    pub fn write_user_bytes(&mut self, va: usize, bytes: &Vec<u8>)
        requires
            old(self).wf(),
            range_mapped(old(self).mem(), va as int, bytes.len() as int),
        ensures
            final(self).wf(),
            memory_changed(*old(self), *final(self)),
            stores(old(self).mem(), final(self).mem(), va as int, bytes@),
    {
        let cur = self.tm.current;
        assert(self.tm.tasks[cur as int].wf());
        self.tm.tasks[cur].memory.write_bytes(va, bytes);
        proof {
            lemma_memory_change_keeps_wf(*old(self), *self);
        }
    }
}

impl Kernel {
    /// Whether page `vpn` of the running task is mapped.
    pub fn user_page_mapped(&self, vpn: usize) -> (r: bool)
        requires
            self.wf(),
        ensures
            r == self.mem().contains_key(vpn),
    {
        let cur = self.tm.current;
        assert(self.tm.tasks[cur as int].wf());
        self.tm.tasks[cur].memory.contains(vpn)
    }

    /// Maps page `vpn` of the running task to a zeroed frame taken from
    /// the pool.
    pub fn map_user_page(&mut self, vpn: usize, flags: u8)
        requires
            old(self).wf(),
            !old(self).mem().contains_key(vpn),
            old(self).free_frames > 0,
        ensures
            final(self).wf(),
            memory_moved(*old(self), *final(self), 1),
            final(self).mem() == old(self).mem().insert(vpn, crate::mm::zero_page(flags)),
    {
        let cur = self.tm.current;
        assert(self.tm.tasks[cur as int].wf());
        proof {
            old(self).cur().memory.lemma_dom_finite();
        }
        self.tm.tasks[cur].memory.map_zeroed(vpn, flags);
        self.free_frames = self.free_frames - 1;
        proof {
            assert(self.mem().dom() =~= old(self).mem().dom().insert(vpn));
            lemma_memory_change_keeps_wf(*old(self), *self);
        }
    }

    /// Unmaps page `vpn` of the running task, handing its frame back to
    /// the pool.
    pub fn unmap_user_page(&mut self, vpn: usize)
        requires
            old(self).wf(),
            old(self).mem().contains_key(vpn),
        ensures
            final(self).wf(),
            memory_moved(*old(self), *final(self), -1),
            final(self).mem() == old(self).mem().remove(vpn),
    {
        let cur = self.tm.current;
        assert(self.tm.tasks[cur as int].wf());
        proof {
            old(self).cur().memory.lemma_dom_finite();
        }
        self.tm.tasks[cur].memory.unmap(vpn);
        proof {
            assert(self.mem().dom() =~= old(self).mem().dom().remove(vpn));
            lemma_held_update(old(self).tm.tasks@, cur as int, self.cur());
            assert(self.free_frames + 1 <= usize::MAX);
        }
        self.free_frames = self.free_frames + 1;
        proof {
            lemma_memory_change_keeps_wf(*old(self), *self);
        }
    }
}

/// `new` is `old` where only the running task's memory has changed and
/// `frames` frames have gone from the pool to it (back to the pool where
/// `frames` is negative).
pub open spec fn memory_moved(old: Kernel, new: Kernel, frames: int) -> bool {
    &&& new.tm.current == old.tm.current
    &&& new.tm.tasks@ == old.tm.tasks@.update(
        old.tm.current as int,
        TaskControlBlock { memory: new.cur().memory, ..old.cur() },
    )
    &&& new.free_frames == old.free_frames - frames
    &&& new.files == old.files
    &&& new.fs == old.fs
    &&& new.console_in == old.console_in
    &&& new.console_out == old.console_out
}

/// Two changes of the running task's memory in a row change only its
/// memory.
pub proof fn lemma_memory_changed_chain(a: Kernel, b: Kernel, c: Kernel)
    requires
        a.tm.current < a.tm.tasks.len(),
        b.tm.current == a.tm.current,
        b.tm.tasks@ == a.tm.tasks@.update(
            a.tm.current as int,
            TaskControlBlock { memory: b.cur().memory, ..a.cur() },
        ),
        c.tm.current == b.tm.current,
        c.tm.tasks@ == b.tm.tasks@.update(
            b.tm.current as int,
            TaskControlBlock { memory: c.cur().memory, ..b.cur() },
        ),
    ensures
        c.tm.current == a.tm.current,
        c.tm.tasks@ == a.tm.tasks@.update(
            a.tm.current as int,
            TaskControlBlock { memory: c.cur().memory, ..a.cur() },
        ),
{
    assert(c.tm.tasks@ =~= a.tm.tasks@.update(
        a.tm.current as int,
        TaskControlBlock { memory: c.cur().memory, ..a.cur() },
    ));
}

/// Length of the NUL-terminated string at `va` (meaningful where one is).
pub open spec fn user_str_len(m: Map<usize, crate::mm::PageState>, va: int) -> int {
    choose|n: int| cstr_at(m, va, n)
}

/// The NUL-terminated string at `va`, without its NUL.
pub open spec fn user_str(m: Map<usize, crate::mm::PageState>, va: int) -> Seq<u8> {
    Seq::new(user_str_len(m, va) as nat, |i: int| byte_at(m, va + i))
}

/// A string has one length: the position of its first NUL.
pub proof fn lemma_cstr_unique(m: Map<usize, crate::mm::PageState>, va: int, n1: int, n2: int)
    requires
        cstr_at(m, va, n1),
        cstr_at(m, va, n2),
    ensures
        n1 == n2,
{
    if n1 < n2 {
        assert(crate::mm::is_mapped(m, va + n1));
    } else if n2 < n1 {
        assert(crate::mm::is_mapped(m, va + n2));
    }
}

/// `new` differs from `old` at most in the running task's memory.
pub open spec fn memory_changed(old: Kernel, new: Kernel) -> bool {
    &&& new.tm.current == old.tm.current
    &&& new.tm.tasks@ == old.tm.tasks@.update(
        old.tm.current as int,
        TaskControlBlock { memory: new.cur().memory, ..old.cur() },
    )
    &&& new.files == old.files
    &&& new.fs == old.fs
    &&& new.free_frames == old.free_frames
    &&& new.console_in == old.console_in
    &&& new.console_out == old.console_out
}

/// Changing the running task's memory, keeping it well formed, keeps the
/// kernel well formed.
pub proof fn lemma_memory_change_keeps_wf(old: Kernel, new: Kernel)
    requires
        old.wf(),
        new.tm.current == old.tm.current,
        new.tm.tasks@ == old.tm.tasks@.update(
            old.tm.current as int,
            TaskControlBlock { memory: new.cur().memory, ..old.cur() },
        ),
        new.cur().memory.wf(),
        new.free_frames + new.mem().dom().len() == old.free_frames + old.mem().dom().len(),
        new.files == old.files,
        new.fs == old.fs,
    ensures
        new.wf(),
{
    let c = old.tm.current as int;
    lemma_held_update(old.tm.tasks@, c, new.cur());
    assert forall|i: int| 0 <= i < new.tm.tasks.len() implies (#[trigger] new.tm.tasks[i]).wf() by {
        assert(old.tm.tasks[i].wf());
    }
    assert forall|i: int|
        0 <= i < new.tm.tasks.len() && i != c implies #[trigger] new.tm.tasks[i].status
        != TaskStatus::Running by {
        assert(old.tm.tasks[i].status != TaskStatus::Running);
    }
    assert forall|i: int| 0 <= i < new.tm.tasks.len() implies #[trigger] new.tm.tasks[i].pid == i by {
        assert(old.tm.tasks[i].pid == i);
    }
    assert forall|i: int, fd: int|
        0 <= i < new.tm.tasks.len() && 0 <= fd < new.tm.tasks[i].fd_table.len()
            && (#[trigger] new.tm.tasks[i].fd_table[fd]) is Some implies new.tm.tasks[i].fd_table[fd].unwrap()
        < new.files.len() by {
        assert(old.tm.tasks[i].fd_table[fd] is Some);
    }
    assert forall|i: int, ch: int|
        0 <= i < new.tm.tasks.len() && 0 <= ch < new.tm.tasks[i].children.len() implies #[trigger] new.tm.tasks[i].children[ch]
        < new.tm.tasks.len() by {
        assert(old.tm.tasks[i].children[ch] < old.tm.tasks.len());
    }
}

/// Replacing the running task by `t`, which keeps its identity and status,
/// is well formed, and has children that are tasks and descriptors that
/// name open files, keeps the kernel well formed where the pool gives or
/// takes a frame for each page its memory gains or loses; so does opening
/// more files on inodes that exist along with it.
pub proof fn lemma_task_update_keeps_wf(old: Kernel, new: Kernel, t: TaskControlBlock)
    requires
        old.wf(),
        new.tm.current == old.tm.current,
        new.tm.tasks@ == old.tm.tasks@.update(old.tm.current as int, t),
        t.wf(),
        t.pid == old.cur().pid,
        t.status == old.cur().status,
        forall|ch: int| 0 <= ch < t.children.len() ==> #[trigger] t.children[ch] < old.tm.tasks.len(),
        t.children@.no_duplicates(),
        forall|fd: int|
            0 <= fd < t.fd_table.len() && (#[trigger] t.fd_table[fd]) is Some ==> t.fd_table[fd].unwrap()
                < new.files.len(),
        new.free_frames + t.memory@.dom().len() == old.free_frames + old.cur().memory@.dom().len(),
        old.files@.len() <= new.files@.len(),
        forall|f: int| 0 <= f < old.files.len() ==> #[trigger] new.files[f] == old.files[f],
        forall|f: int|
            old.files.len() <= f < new.files.len() ==> match #[trigger] new.files[f] {
                FileObject::Inode { inode, .. } => inode < new.fs@.files.len(),
                _ => true,
            },
        new.fs == old.fs,
    ensures
        new.wf(),
{
    let c = old.tm.current as int;
    lemma_held_update(old.tm.tasks@, c, t);
    assert forall|f: int| 0 <= f < new.files.len() implies match #[trigger] new.files[f] {
        FileObject::Inode { inode, .. } => inode < new.fs@.files.len(),
        _ => true,
    } by {
        if f < old.files.len() {
            assert(new.files[f] == old.files[f]);
        }
    }
    assert(new.tm.tasks[c] == t);
    assert forall|i: int| 0 <= i < new.tm.tasks.len() implies (#[trigger] new.tm.tasks[i]).children@.no_duplicates() by {
        if i != c {
            assert(old.tm.tasks[i].children@.no_duplicates());
        }
    }
    assert forall|i: int| 0 <= i < new.tm.tasks.len() implies (#[trigger] new.tm.tasks[i]).wf() by {
        assert(old.tm.tasks[i].wf());
    }
    assert forall|i: int|
        0 <= i < new.tm.tasks.len() && i != c implies #[trigger] new.tm.tasks[i].status
        != TaskStatus::Running by {
        assert(old.tm.tasks[i].status != TaskStatus::Running);
    }
    assert forall|i: int| 0 <= i < new.tm.tasks.len() implies #[trigger] new.tm.tasks[i].pid == i by {
        assert(old.tm.tasks[i].pid == i);
    }
    assert forall|i: int, fd: int|
        0 <= i < new.tm.tasks.len() && 0 <= fd < new.tm.tasks[i].fd_table.len()
            && (#[trigger] new.tm.tasks[i].fd_table[fd]) is Some implies new.tm.tasks[i].fd_table[fd].unwrap()
        < new.files.len() by {
        if i != c {
            assert(old.tm.tasks[i].fd_table[fd] is Some);
        }
    }
    assert forall|i: int, ch: int|
        0 <= i < new.tm.tasks.len() && 0 <= ch < new.tm.tasks[i].children.len() implies #[trigger] new.tm.tasks[i].children[ch]
        < new.tm.tasks.len() by {
        if i != c {
            assert(old.tm.tasks[i].children[ch] < old.tm.tasks.len());
        }
    }
}

/// A task that only its scheduling state and exit code tell apart from
/// `old`: the same identity, family, memory and descriptors.
pub open spec fn same_but_schedule(old: TaskControlBlock, new: TaskControlBlock) -> bool {
    &&& new.pid == old.pid
    &&& new.children == old.children
    &&& new.fd_table == old.fd_table
    &&& new.memory == old.memory
}

/// Changing only the scheduling state of tasks, keeping the task manager
/// well formed, keeps the kernel well formed.
pub proof fn lemma_sched_change_keeps_wf(old: Kernel, new: Kernel)
    requires
        old.wf(),
        new.tm.wf(),
        new.tm.tasks.len() == old.tm.tasks.len(),
        new.cur().status != TaskStatus::Exited,
        forall|i: int|
            0 <= i < old.tm.tasks.len() ==> same_but_schedule(old.tm.tasks[i], #[trigger] new.tm.tasks[i]),
        new.free_frames == old.free_frames,
        new.files == old.files,
        new.fs == old.fs,
    ensures
        new.wf(),
{
    assert forall|i: int| 0 <= i < old.tm.tasks.len() implies (#[trigger] new.tm.tasks@[i]).memory@.dom().len()
        == old.tm.tasks@[i].memory@.dom().len() by {
        assert(same_but_schedule(old.tm.tasks[i], new.tm.tasks[i]));
    }
    lemma_held_same(old.tm.tasks@, new.tm.tasks@);
    assert forall|i: int| 0 <= i < new.tm.tasks.len() implies #[trigger] new.tm.tasks[i].pid == i by {
        assert(old.tm.tasks[i].pid == i);
        assert(same_but_schedule(old.tm.tasks[i], new.tm.tasks[i]));
    }
    assert forall|i: int, fd: int|
        0 <= i < new.tm.tasks.len() && 0 <= fd < new.tm.tasks[i].fd_table.len()
            && (#[trigger] new.tm.tasks[i].fd_table[fd]) is Some implies new.tm.tasks[i].fd_table[fd].unwrap()
        < new.files.len() by {
        assert(same_but_schedule(old.tm.tasks[i], new.tm.tasks[i]));
        assert(old.tm.tasks[i].fd_table[fd] is Some);
    }
    assert forall|i: int, ch: int|
        0 <= i < new.tm.tasks.len() && 0 <= ch < new.tm.tasks[i].children.len() implies #[trigger] new.tm.tasks[i].children[ch]
        < new.tm.tasks.len() by {
        assert(same_but_schedule(old.tm.tasks[i], new.tm.tasks[i]));
        assert(old.tm.tasks[i].children[ch] < old.tm.tasks.len());
    }
}

/// Changing only the file system, keeping it well formed and keeping its
/// inodes, keeps the kernel well formed.
pub proof fn lemma_fs_change_keeps_wf(old: Kernel, new: Kernel)
    requires
        old.wf(),
        new.tm == old.tm,
        new.free_frames == old.free_frames,
        new.files == old.files,
        new.fs.wf(),
        new.fs@.files.len() >= old.fs@.files.len(),
    ensures
        new.wf(),
{
    assert forall|f: int| 0 <= f < new.files.len() implies match #[trigger] new.files[f] {
        FileObject::Inode { inode, .. } => inode < new.fs@.files.len(),
        _ => true,
    } by {
        assert(old.files[f] == new.files[f]);
    }
}

/// `t` is a task freshly loaded from the image `program`: ready, with the
/// address space the image describes, its heap empty at the top of its
/// stack, registers set to start at the entry point, no children, no calls
/// counted, and the console open on descriptors 0, 1 and 2.
pub open spec fn fresh_task(t: TaskControlBlock, pid: usize, program: Seq<u8>, parent: Option<usize>) -> bool {
    &&& t.wf()
    &&& t.pid == pid
    &&& t.status == TaskStatus::Ready
    &&& t.parent == parent
    &&& t.children@.len() == 0
    &&& t.exit_code == 0
    &&& t.program@ == program
    &&& t.memory@ == image_space(program)
    &&& t.heap_bottom == stack_top(program)
    &&& t.program_brk == stack_top(program)
    &&& init_trap_cx(t.trap_cx, stack_top(program) as usize, entry_of(program) as usize)
    &&& t.fd_table@ == seq![Some(0usize), Some(1usize), Some(2usize)]
    &&& t.priority == DEFAULT_PRIORITY
    &&& t.syscall_counts == CountSyscall { write: 0, exit: 0, get_time: 0, trace: 0, _yield: 0 }
    &&& t.cnts == (CntSys {
        cnt_write: 0,
        cnt_exit: 0,
        cnt_gettime: 0,
        cnt_yield: 0,
        cnt_trace: 0,
        cnt_mmap: 0,
        cnt_munmap: 0,
        cnt_sbrk: 0,
    })
}

/// A task loaded from the image `program`.
pub fn new_task(pid: usize, program: &Vec<u8>, parent: Option<usize>) -> (t: TaskControlBlock)
    requires
        elf_ok(program@),
    ensures
        fresh_task(t, pid, program@, parent),
{
    let (memory, user_sp, entry) = load_image(program);
    let mut fd_table: Vec<Option<usize>> = Vec::new();
    fd_table.push(Some(0));
    fd_table.push(Some(1));
    fd_table.push(Some(2));
    assert(fd_table@ =~= seq![Some(0usize), Some(1usize), Some(2usize)]);
    TaskControlBlock {
        pid,
        status: TaskStatus::Ready,
        parent,
        children: Vec::new(),
        exit_code: 0,
        priority: DEFAULT_PRIORITY,
        program: copy_bytes(program),
        heap_bottom: user_sp,
        program_brk: user_sp,
        memory,
        trap_cx: TrapContext::app_init_context(entry, user_sp),
        fd_table,
        syscall_counts: CountSyscall::new(),
        cnts: CntSys::new(),
    }
}

} // verus!
