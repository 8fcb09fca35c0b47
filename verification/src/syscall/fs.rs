//! File and file-system system calls.
use vstd::prelude::*;
use crate::fs::{
    bytes_eq,
    link_spec,
    nlink,
    open_flags_from_bits,
    open_flags_known,
    open_spec,
    read_at_spec,
    read_write,
    read_write_spec,
    unlink_spec,
    write_at_spec,
    Stat,
    S_IFREG,
};
use crate::kernel::{
    fd_entry,
    lemma_fs_change_keeps_wf,
    lemma_task_update_keeps_wf,
    memory_changed,
    user_str,
    FileObject,
    Kernel,
};
use crate::mm::{byte_at, cstr_at, range_mapped, stores, PAGE_SIZE};
use crate::task::{TaskControlBlock, TaskStatus};

verus! {

/// The open file that descriptor `fd` of the running task names, if it is
/// open and may be written.
pub open spec fn write_target(k: Kernel, fd: usize) -> Option<usize> {
    match fd_entry(k.cur(), fd) {
        Some(f) => if k.files[f as int].writable_spec() {
            Some(f)
        } else {
            None
        },
        None => None,
    }
}

/// The open file that descriptor `fd` of the running task names, if it is
/// open and may be read.
pub open spec fn read_target(k: Kernel, fd: usize) -> Option<usize> {
    match fd_entry(k.cur(), fd) {
        Some(f) => if k.files[f as int].readable_spec() {
            Some(f)
        } else {
            None
        },
        None => None,
    }
}

/// The `len` bytes at `va` of the running task.
pub open spec fn user_bytes(k: Kernel, va: int, len: int) -> Seq<u8> {
    Seq::new(len as nat, |i: int| byte_at(k.mem(), va + i))
}

/// The open file after its offset moved on by `n` bytes.
pub open spec fn advanced(f: FileObject, n: int) -> FileObject {
    match f {
        FileObject::Inode { inode, readable, writable, offset } => FileObject::Inode {
            inode,
            readable,
            writable,
            offset: (offset + n) as usize,
        },
        other => other,
    }
}

/// Everything the running task may write through descriptor `fd` can be
/// written: the buffer is mapped, its length fits, and the file offset
/// does not overflow.
pub open spec fn write_ok(k: Kernel, fd: usize, buf: usize, len: usize) -> bool {
    write_target(k, fd) matches Some(f) ==> {
        &&& range_mapped(k.mem(), buf as int, len as int)
        &&& len <= isize::MAX
        &&& k.files[f as int] matches FileObject::Inode { offset, .. } ==> offset + len
            <= usize::MAX
    }
}

/// What `write` does: -1 and nothing else where `fd` is not open for
/// writing; else the `len` bytes at `buf` are appended to the console or
/// written into the file at its offset, which moves on past them, and the
/// result is `len`.
pub open spec fn write_post(old: Kernel, new: Kernel, fd: usize, buf: usize, len: usize, r: isize) -> bool {
    match write_target(old, fd) {
        None => r == -1 && new == old,
        Some(f) => {
            let data = user_bytes(old, buf as int, len as int);
            &&& r == len
            &&& new.tm == old.tm
            &&& new.free_frames == old.free_frames
            &&& new.console_in == old.console_in
            &&& match old.files[f as int] {
                FileObject::Inode { inode, offset, .. } => {
                    &&& new.fs@.files == old.fs@.files.update(
                        inode as int,
                        write_at_spec(old.fs@.files[inode as int], offset as int, data),
                    )
                    &&& new.fs@.dir == old.fs@.dir
                    &&& new.files@ == old.files@.update(
                        f as int,
                        advanced(old.files[f as int], len as int),
                    )
                    &&& new.console_out == old.console_out
                },
                _ => {
                    &&& new.console_out@ == old.console_out@ + data
                    &&& new.fs == old.fs
                    &&& new.files == old.files
                },
            }
        },
    }
}

/// Writes `len` bytes from `buf` to the file open on `fd`; -1 where `fd` is
/// not open for writing.
pub fn sys_write(k: &mut Kernel, fd: usize, buf: usize, len: usize) -> (r: isize)
    requires
        old(k).wf(),
        write_ok(*old(k), fd, buf, len),
    ensures
        final(k).wf(),
        write_post(*old(k), *final(k), fd, buf, len, r),
{
    let cur = k.tm.current;
    if fd >= k.tm.tasks[cur].fd_table.len() {
        return -1;
    }
    match k.tm.tasks[cur].fd_table[fd] {
        Some(f) => {
            assert(k.tm.tasks[cur as int].fd_table[fd as int] is Some);
            let file = k.files[f];
            if !file.writable() {
                return -1;
            }
            let data = k.read_user_bytes(buf, len);
            match file {
                FileObject::Inode { inode, readable, writable, offset } => {
                    assert(k.files[f as int] == file);
                    k.fs.write_at(inode, offset, &data);
                    k.files.set(f, FileObject::Inode { inode, readable, writable, offset: offset + len });
                    proof {
                        assert(k.files@ =~= old(k).files@.update(
                            f as int,
                            advanced(old(k).files[f as int], len as int),
                        ));
                        assert forall|g: int| 0 <= g < k.files.len() implies match #[trigger] k.files[g] {
                            FileObject::Inode { inode, .. } => inode < k.fs@.files.len(),
                            _ => true,
                        } by {
                            assert(old(k).files[g] == k.files[g] || g == f);
                        }
                    }
                },
                _ => {
                    let mut d = data;
                    k.console_out.append(&mut d);
                },
            }
            len as isize
        },
        None => -1,
    }
}

/// Everything the running task may read through descriptor `fd` can be
/// read: the buffer is mapped and its length fits; console input is read
/// one byte at a time once a byte has arrived.
pub open spec fn read_ok(k: Kernel, fd: usize, buf: usize, len: usize) -> bool {
    read_target(k, fd) matches Some(f) ==> {
        &&& range_mapped(k.mem(), buf as int, len as int)
        &&& len <= isize::MAX
        &&& k.files[f as int] matches FileObject::Inode { offset, .. } ==> offset + len
            <= usize::MAX
        &&& k.files[f as int] is Stdin ==> len == 1 && k.console_in@.len() > 0
    }
}

/// Reads up to `len` bytes from the file open on `fd` into `buf`; the number
/// of bytes read, or -1 where `fd` is not open for reading.
pub fn sys_read(k: &mut Kernel, fd: usize, buf: usize, len: usize) -> (r: isize)
    requires
        old(k).wf(),
        read_ok(*old(k), fd, buf, len),
    ensures
        final(k).wf(),
        match read_target(*old(k), fd) {
            None => r == -1 && *final(k) == *old(k),
            Some(f) => match old(k).files[f as int] {
                FileObject::Inode { inode, offset, .. } => {
                    let data = read_at_spec(old(k).fs@.files[inode as int], offset as int, len as int);
                    &&& r == data.len()
                    &&& final(k).tm.current == old(k).tm.current
                    &&& final(k).tm.tasks@ == old(k).tm.tasks@.update(
                        old(k).tm.current as int,
                        TaskControlBlock { memory: final(k).cur().memory, ..old(k).cur() },
                    )
                    &&& stores(old(k).mem(), final(k).mem(), buf as int, data)
                    &&& final(k).files@ == old(k).files@.update(
                        f as int,
                        advanced(old(k).files[f as int], data.len() as int),
                    )
                    &&& final(k).fs == old(k).fs
                    &&& final(k).free_frames == old(k).free_frames
                    &&& final(k).console_in == old(k).console_in
                    &&& final(k).console_out == old(k).console_out
                },
                _ => {
                    &&& r == 1
                    &&& final(k).tm.current == old(k).tm.current
                    &&& final(k).tm.tasks@ == old(k).tm.tasks@.update(
                        old(k).tm.current as int,
                        TaskControlBlock { memory: final(k).cur().memory, ..old(k).cur() },
                    )
                    &&& stores(old(k).mem(), final(k).mem(), buf as int, seq![old(k).console_in@[0]])
                    &&& final(k).console_in@ == old(k).console_in@.drop_first()
                    &&& final(k).files == old(k).files
                    &&& final(k).fs == old(k).fs
                    &&& final(k).free_frames == old(k).free_frames
                    &&& final(k).console_out == old(k).console_out
                },
            },
        },
{
    let cur = k.tm.current;
    if fd >= k.tm.tasks[cur].fd_table.len() {
        return -1;
    }
    match k.tm.tasks[cur].fd_table[fd] {
        Some(f) => {
            assert(k.tm.tasks[cur as int].fd_table[fd as int] is Some);
            let file = k.files[f];
            if !file.readable() {
                return -1;
            }
            match file {
                FileObject::Inode { inode, readable, writable, offset } => {
                    let data = k.fs.read_at(inode, offset, len);
                    assert(data@.len() <= len);
                    let n = data.len();
                    k.write_user_bytes(buf, &data);
                    k.files.set(f, FileObject::Inode { inode, readable, writable, offset: offset + n });
                    proof {
                        assert(k.files@ =~= old(k).files@.update(
                            f as int,
                            advanced(old(k).files[f as int], n as int),
                        ));
                        assert forall|g: int| 0 <= g < k.files.len() implies match #[trigger] k.files[g] {
                            FileObject::Inode { inode, .. } => inode < k.fs@.files.len(),
                            _ => true,
                        } by {
                            assert(old(k).files[g] == k.files[g] || g == f);
                        }
                    }
                    n as isize
                },
                _ => {
                    let c = k.console_in.remove(0);
                    let mut one: Vec<u8> = Vec::new();
                    one.push(c);
                    assert(one@ =~= seq![c]);
                    k.write_user_bytes(buf, &one);
                    1
                },
            }
        },
        None => -1,
    }
}

/// The first free descriptor: the lowest closed one, else a new one at the
/// end of the table.
pub open spec fn first_free_from(t: Seq<Option<usize>>, i: int) -> int
    decreases t.len() - i,
{
    if i >= t.len() {
        t.len() as int
    } else if t[i] is None {
        i
    } else {
        first_free_from(t, i + 1)
    }
}

/// The first free descriptor is at most one past the end of the table.
pub proof fn lemma_first_free_bound(t: Seq<Option<usize>>, i: int)
    requires
        0 <= i,
    ensures
        i <= t.len() ==> i <= first_free_from(t, i) <= t.len(),
        first_free_from(t, i) < t.len() ==> t[first_free_from(t, i)] is None,
    decreases t.len() - i,
{
    if i < t.len() && t[i] is Some {
        lemma_first_free_bound(t, i + 1);
    }
}

/// The descriptor table after installing `f` on the first free descriptor.
pub open spec fn install_fd(t: Seq<Option<usize>>, f: usize) -> Seq<Option<usize>> {
    let fd = first_free_from(t, 0);
    if fd < t.len() {
        t.update(fd, Some(f))
    } else {
        t.push(Some(f))
    }
}

/// Opens the file named by the string at `path` with `flags`; the new
/// descriptor, or -1 where no such file exists and `O_CREATE` is not given.
pub fn sys_open(k: &mut Kernel, path: usize, flags: u32) -> (r: isize)
    requires
        old(k).wf(),
        exists|n: int| cstr_at(old(k).mem(), path as int, n),
        open_flags_known(flags),
        old(k).cur().fd_table.len() < isize::MAX,
        old(k).fs@.files.len() < usize::MAX,
    ensures
        final(k).wf(),
        ({
            let name = user_str(old(k).mem(), path as int);
            let (fs2, opened) = open_spec(old(k).fs@, name, flags);
            match opened {
                None => r == -1 && *final(k) == *old(k),
                Some(ino) => {
                    let (readable, writable) = read_write_spec(flags);
                    &&& r == first_free_from(old(k).cur().fd_table@, 0)
                    &&& final(k).fs@ == fs2
                    &&& final(k).files@ == old(k).files@.push(
                        FileObject::Inode { inode: ino, readable, writable, offset: 0 },
                    )
                    &&& final(k).tm.current == old(k).tm.current
                    &&& final(k).cur().fd_table@ == install_fd(
                        old(k).cur().fd_table@,
                        old(k).files.len(),
                    )
                    &&& final(k).tm.tasks@ == old(k).tm.tasks@.update(
                        old(k).tm.current as int,
                        TaskControlBlock { fd_table: final(k).cur().fd_table, ..old(k).cur() },
                    )
                    &&& final(k).free_frames == old(k).free_frames
                    &&& final(k).console_in == old(k).console_in
                    &&& final(k).console_out == old(k).console_out
                },
            }
        }),
{
    let name = k.read_user_str(path);
    let ok = open_flags_from_bits(flags);
    assert(ok);
    let ghost k0 = *k;
    match k.fs.open_file(&name, flags) {
        Some(ino) => {
            let (readable, writable) = read_write(flags);
            let f = k.files.len();
            k.files.push(FileObject::Inode { inode: ino, readable, writable, offset: 0 });
            let cur = k.tm.current;
            let fd = alloc_fd(&mut k.tm.tasks[cur].fd_table, f);
            proof {
                lemma_first_free_bound(old(k).cur().fd_table@, 0);
                let km = Kernel { fs: k.fs, ..*old(k) };
                assert(km.fs@.files.len() >= old(k).fs@.files.len());
                lemma_fs_change_keeps_wf(*old(k), km);
                let c = old(k).tm.current as int;
                let t = TaskControlBlock { fd_table: k.cur().fd_table, ..old(k).cur() };
                assert(k.tm.tasks@ =~= old(k).tm.tasks@.update(c, t));
                assert(old(k).tm.tasks[c].wf());
                assert forall|d: int|
                    0 <= d < t.fd_table.len() && (#[trigger] t.fd_table[d]) is Some implies t.fd_table[d].unwrap()
                    < k.files.len() by {
                    if t.fd_table[d] != Some(f) {
                        assert(old(k).tm.tasks[c].fd_table[d] is Some);
                    }
                }
                assert forall|ch: int| 0 <= ch < t.children.len() implies #[trigger] t.children[ch]
                    < old(k).tm.tasks.len() by {
                    assert(old(k).tm.tasks[c].children[ch] < old(k).tm.tasks.len());
                }
                assert forall|g: int| 0 <= g < km.files.len() implies #[trigger] k.files[g]
                    == km.files[g] by {}
                lemma_task_update_keeps_wf(km, *k, t);
            }
            fd as isize
        },
        None => -1,
    }
}

/// The open-file entry that descriptor `fd` of table `t` names.
pub open spec fn fd_slot(t: Seq<Option<usize>>, fd: int) -> Option<usize> {
    if 0 <= fd < t.len() {
        t[fd]
    } else {
        None
    }
}

/// `open` installs the file on the descriptor it returns, and closing that
/// descriptor leaves every descriptor as it was before the `open`.
pub proof fn lemma_close_undoes_open(t: Seq<Option<usize>>, f: usize)
    ensures
        fd_slot(install_fd(t, f), first_free_from(t, 0)) == Some(f),
        forall|d: int|
            #[trigger] fd_slot(install_fd(t, f).update(first_free_from(t, 0), None), d) == fd_slot(
                t,
                d,
            ),
{
    lemma_first_free_bound(t, 0);
}

/// Installs `f` on the lowest closed descriptor of `t`, or on a new one at
/// the end; returns the descriptor.
fn alloc_fd(t: &mut Vec<Option<usize>>, f: usize) -> (fd: usize)
    ensures
        fd == first_free_from(old(t)@, 0),
        final(t)@ == install_fd(old(t)@, f),
{
    let mut i: usize = 0;
    while i < t.len()
        invariant
            i <= t.len(),
            *t == *old(t),
            first_free_from(t@, 0) == first_free_from(t@, i as int),
        decreases t.len() - i,
    {
        if t[i].is_none() {
            t.set(i, Some(f));
            return i;
        }
        i += 1;
    }
    t.push(Some(f));
    i
}

/// Closes descriptor `fd`; -1 where it is not open.
pub fn sys_close(k: &mut Kernel, fd: usize) -> (r: isize)
    requires
        old(k).wf(),
    ensures
        final(k).wf(),
        match fd_entry(old(k).cur(), fd) {
            None => r == -1 && *final(k) == *old(k),
            Some(_) => {
                &&& r == 0
                &&& final(k).tm.current == old(k).tm.current
                &&& final(k).tm.tasks@ == old(k).tm.tasks@.update(
                    old(k).tm.current as int,
                    TaskControlBlock { fd_table: final(k).cur().fd_table, ..old(k).cur() },
                )
                &&& final(k).cur().fd_table@ == old(k).cur().fd_table@.update(fd as int, None)
                &&& final(k).files == old(k).files
                &&& final(k).fs == old(k).fs
                &&& final(k).free_frames == old(k).free_frames
                &&& final(k).console_in == old(k).console_in
                &&& final(k).console_out == old(k).console_out
            },
        },
{
    let cur = k.tm.current;
    if fd >= k.tm.tasks[cur].fd_table.len() {
        return -1;
    }
    if k.tm.tasks[cur].fd_table[fd].is_none() {
        return -1;
    }
    k.tm.tasks[cur].fd_table.set(fd, None);
    proof {
        let c = old(k).tm.current as int;
        let t = TaskControlBlock { fd_table: k.cur().fd_table, ..old(k).cur() };
        assert(k.tm.tasks@ =~= old(k).tm.tasks@.update(c, t));
        assert(old(k).tm.tasks[c].wf());
        assert forall|d: int|
            0 <= d < t.fd_table.len() && (#[trigger] t.fd_table[d]) is Some implies t.fd_table[d].unwrap()
            < k.files.len() by {
            assert(old(k).tm.tasks[c].fd_table[d] is Some);
        }
        assert forall|ch: int| 0 <= ch < t.children.len() implies #[trigger] t.children[ch]
            < old(k).tm.tasks.len() by {
            assert(old(k).tm.tasks[c].children[ch] < old(k).tm.tasks.len());
        }
        lemma_task_update_keeps_wf(*old(k), *k, t);
    }
    0
}

/// The `n` low bytes of `x`, least significant first.
pub open spec fn le_bytes(x: u64, n: int) -> Seq<u8> {
    Seq::new(n as nat, |i: int| ((x >> ((8 * i) as u64)) & 0xffu64) as u8)
}

/// The bytes of a `Stat` as `fstat` stores them: `dev` (as zero), `ino`,
/// `mode` and `nlink`, each little-endian.
pub open spec fn stat_bytes(s: Stat) -> Seq<u8> {
    le_bytes(0, 8) + le_bytes(s.ino, 8) + le_bytes(s.mode as u64, 4) + le_bytes(s.nlink as u64, 4)
}

/// Appends the `n` low bytes of `x` to `out`, least significant first.
pub(crate) fn push_le_bytes(out: &mut Vec<u8>, x: u64, n: usize)
    requires
        n <= 8,
    ensures
        final(out)@ == old(out)@ + le_bytes(x, n as int),
{
    let mut i: usize = 0;
    while i < n
        invariant
            i <= n <= 8,
            out@ == old(out)@ + le_bytes(x, i as int),
        decreases n - i,
    {
        let b = ((x >> (i as u64 * 8)) & 0xff) as u8;
        out.push(b);
        assert(out@ =~= old(out)@ + le_bytes(x, i + 1));
        i += 1;
    }
}

/// The status of a console file: no inode behind it (number 0), neither a
/// regular file nor a directory (mode 0), and one link, the console itself.
pub open spec fn console_stat_spec() -> Stat {
    Stat { dev: 0, ino: 0, mode: 0, nlink: 1 }
}

/// The status of a console file.
pub fn console_stat() -> (s: Stat)
    ensures
        s == console_stat_spec(),
{
    Stat { dev: 0, ino: 0, mode: 0, nlink: 1 }
}

/// The status of open file `f`: for a file on an inode, its number, a
/// regular file's mode and its link count; for the console, the console's.
pub open spec fn file_stat(k: Kernel, f: FileObject) -> Stat {
    match f {
        FileObject::Inode { inode, .. } => Stat {
            dev: 0,
            ino: inode as u64,
            mode: S_IFREG,
            nlink: nlink(k.fs@.dir, inode) as u32,
        },
        _ => console_stat_spec(),
    }
}

/// Where `fstat` on `fd` stores: the buffer is mapped, with the mode word
/// inside one page.
pub open spec fn fstat_ok(k: Kernel, fd: usize, st: usize) -> bool {
    fd_entry(k.cur(), fd) is Some ==> {
        &&& range_mapped(k.mem(), st as int, 24)
        &&& (st + 16) % (PAGE_SIZE as int) <= PAGE_SIZE - 4
    }
}

/// Stores the status of the file open on `fd` at `st`; -1 where `fd` is not
/// open.
pub fn sys_fstat(k: &mut Kernel, fd: usize, st: usize) -> (r: isize)
    requires
        old(k).wf(),
        fstat_ok(*old(k), fd, st),
    ensures
        final(k).wf(),
        match fd_entry(old(k).cur(), fd) {
            None => r == -1 && *final(k) == *old(k),
            Some(f) => {
                &&& r == 0
                &&& memory_changed(*old(k), *final(k))
                &&& stores(
                    old(k).mem(),
                    final(k).mem(),
                    st as int,
                    stat_bytes(file_stat(*old(k), old(k).files[f as int])),
                )
            },
        },
{
    let cur = k.tm.current;
    if fd >= k.tm.tasks[cur].fd_table.len() {
        return -1;
    }
    match k.tm.tasks[cur].fd_table[fd] {
        Some(f) => {
            assert(k.tm.tasks[cur as int].fd_table[fd as int] is Some);
            let stat = match k.files[f] {
                FileObject::Inode { inode, .. } => k.fs.stat(inode),
                _ => console_stat(),
            };
            let mut bytes: Vec<u8> = Vec::new();
            push_le_bytes(&mut bytes, 0, 8);
            push_le_bytes(&mut bytes, stat.ino, 8);
            push_le_bytes(&mut bytes, stat.mode as u64, 4);
            push_le_bytes(&mut bytes, stat.nlink as u64, 4);
            assert(bytes@ =~= stat_bytes(stat));
            k.write_user_bytes(st, &bytes);
            0
        },
        None => -1,
    }
}

/// Links the name at `new_name` to the file named at `old_name`; -1 where
/// the two names are equal.
pub fn sys_linkat(k: &mut Kernel, old_name: usize, new_name: usize) -> (r: isize)
    requires
        old(k).wf(),
        exists|n: int| cstr_at(old(k).mem(), old_name as int, n),
        exists|n: int| cstr_at(old(k).mem(), new_name as int, n),
    ensures
        final(k).wf(),
        ({
            let a = user_str(old(k).mem(), old_name as int);
            let b = user_str(old(k).mem(), new_name as int);
            if a == b {
                r == -1 && *final(k) == *old(k)
            } else {
                &&& r == 0
                &&& final(k).fs@.dir == link_spec(old(k).fs@.dir, a, b)
                &&& final(k).fs@.files == old(k).fs@.files
                &&& final(k).tm == old(k).tm
                &&& final(k).files == old(k).files
                &&& final(k).free_frames == old(k).free_frames
                &&& final(k).console_in == old(k).console_in
                &&& final(k).console_out == old(k).console_out
            }
        }),
{
    let name1 = k.read_user_str(old_name);
    let name2 = k.read_user_str(new_name);
    if bytes_eq(&name1, &name2) {
        return -1;
    }
    k.fs.add_dirent(&name1, &name2);
    proof {
        lemma_fs_change_keeps_wf(*old(k), *k);
    }
    0
}

/// Removes the name at `name` from the directory.
pub fn sys_unlinkat(k: &mut Kernel, name: usize) -> (r: isize)
    requires
        old(k).wf(),
        exists|n: int| cstr_at(old(k).mem(), name as int, n),
    ensures
        final(k).wf(),
        r == 0,
        final(k).fs@.dir == unlink_spec(old(k).fs@.dir, user_str(old(k).mem(), name as int)),
        final(k).fs@.files == old(k).fs@.files,
        final(k).tm == old(k).tm,
        final(k).files == old(k).files,
        final(k).free_frames == old(k).free_frames,
        final(k).console_in == old(k).console_in,
        final(k).console_out == old(k).console_out,
{
    let path = k.read_user_str(name);
    k.fs.delete_dirent(&path);
    proof {
        lemma_fs_change_keeps_wf(*old(k), *k);
    }
    0
}


/// `open` takes the lowest free descriptor: every descriptor below the one
/// it picks is in use, and the one it picks is free, or one past the end
/// of the table where none is.
pub proof fn lemma_lowest_free_fd(t: Seq<Option<usize>>)
    ensures
        0 <= first_free_from(t, 0) <= t.len(),
        forall|j: int| 0 <= j < first_free_from(t, 0) ==> (#[trigger] t[j]) is Some,
        first_free_from(t, 0) < t.len() ==> t[first_free_from(t, 0)] is None,
        first_free_from(t, 0) == t.len() ==> forall|j: int| 0 <= j < t.len() ==> (#[trigger] t[j]) is Some,
{
    lemma_lowest_free_from(t, 0);
}

proof fn lemma_lowest_free_from(t: Seq<Option<usize>>, i: int)
    requires
        0 <= i <= t.len(),
    ensures
        i <= first_free_from(t, i) <= t.len(),
        forall|j: int| i <= j < first_free_from(t, i) ==> (#[trigger] t[j]) is Some,
        first_free_from(t, i) < t.len() ==> t[first_free_from(t, i)] is None,
    decreases t.len() - i,
{
    if i < t.len() && t[i] is Some {
        lemma_lowest_free_from(t, i + 1);
    }
}

} // verus!
