use os::elf::image_loadable;
use os::fs::O_CREATE;
use os::kernel::Kernel;
use os::mm::{PTE_R, PTE_U, PTE_V, PTE_W, PTE_X};
use os::syscall::fs::{sys_open, sys_write};
use os::syscall::process::{
    sys_exec, sys_exit, sys_fork, sys_getpid, sys_mmap, sys_sbrk, sys_set_priority, sys_spawn,
    sys_waitpid, sys_yield,
};
use os::syscall::{
    syscall, CountSyscall, SyscallReturn, SYSCALL_EXIT, SYSCALL_GET_TIME, SYSCALL_MMAP,
    SYSCALL_SBRK, SYSCALL_TRACE, SYSCALL_WRITE, SYSCALL_YIELD,
};
use os::task::{CntSys, SwitchAction, TaskManager, TaskStatus};

/// Where the boot images place their one segment, and the stack top (and
/// heap bottom) that follows from it: the segment's page, a guard page, two
/// stack pages.
const CODE: usize = 0x40000;
const TOP: usize = 0x44000;

/// A minimal ELF64 image: one loadable segment, readable and executable,
/// holding `code` at `vaddr`, entered at `vaddr`.
fn elf_image(vaddr: u64, code: &[u8]) -> Vec<u8> {
    let mut d = vec![0u8; 64];
    d[0..4].copy_from_slice(b"\x7fELF");
    d[4] = 2;
    d[5] = 1;
    d[6] = 1;
    d[0x18..0x20].copy_from_slice(&vaddr.to_le_bytes());
    d[0x20..0x28].copy_from_slice(&64u64.to_le_bytes());
    d[0x34..0x36].copy_from_slice(&64u16.to_le_bytes());
    d[0x36..0x38].copy_from_slice(&56u16.to_le_bytes());
    d[0x38..0x3a].copy_from_slice(&1u16.to_le_bytes());
    let mut ph = vec![0u8; 56];
    ph[0..4].copy_from_slice(&1u32.to_le_bytes());
    ph[4..8].copy_from_slice(&5u32.to_le_bytes());
    ph[8..16].copy_from_slice(&120u64.to_le_bytes());
    ph[16..24].copy_from_slice(&vaddr.to_le_bytes());
    ph[24..32].copy_from_slice(&vaddr.to_le_bytes());
    ph[32..40].copy_from_slice(&(code.len() as u64).to_le_bytes());
    ph[40..48].copy_from_slice(&(code.len() as u64).to_le_bytes());
    ph[48..56].copy_from_slice(&4096u64.to_le_bytes());
    d.extend_from_slice(&ph);
    d.extend_from_slice(code);
    d
}

fn app(i: usize) -> Vec<u8> {
    elf_image(CODE as u64, &[b'a' + i as u8])
}

fn boot(n: usize) -> Kernel {
    let apps: Vec<Vec<u8>> = (0..n).map(app).collect();
    Kernel::new(&apps, 64)
}

fn started(n: usize) -> Kernel {
    let mut k = boot(n);
    assert_eq!(k.tm.run_first_task(), SwitchAction { from: 0, to: 0 });
    k
}

fn statuses(tm: &TaskManager) -> Vec<TaskStatus> {
    tm.tasks.iter().map(|t| t.status).collect()
}

fn put_str(k: &mut Kernel, va: usize, s: &[u8]) {
    let mut v = s.to_vec();
    v.push(0);
    k.write_user_bytes(va, &v);
}

#[test]
fn boot_loads_one_ready_task_per_program() {
    let k = boot(3);
    assert_eq!(k.tm.num_app(), 3);
    assert_eq!(k.free_frames, 64 - 9);
    assert_eq!(k.tm.current, 0);
    for (i, t) in k.tm.tasks.iter().enumerate() {
        assert_eq!(t.pid, i);
        assert_eq!(t.status, TaskStatus::Ready);
        assert_eq!(t.program, app(i));
        assert_eq!(t.fd_table, vec![Some(0), Some(1), Some(2)]);
        assert_eq!(t.priority, 16);
        assert_eq!(t.memory.page_count(), 3);
        assert_eq!(t.memory.page_flags(CODE / 4096), Some(PTE_V | PTE_U | PTE_R | PTE_X));
        assert_eq!(t.memory.read_byte(CODE), b'a' + i as u8);
        assert_eq!(t.memory.read_byte(CODE + 1), 0);
        assert!(!t.memory.contains(CODE / 4096 + 1));
        assert_eq!(t.memory.page_flags(CODE / 4096 + 2), Some(PTE_V | PTE_U | PTE_R | PTE_W));
        assert_eq!(t.memory.page_flags(CODE / 4096 + 3), Some(PTE_V | PTE_U | PTE_R | PTE_W));
        assert_eq!(t.heap_bottom, TOP);
        assert_eq!(t.program_brk, TOP);
        assert_eq!(t.trap_cx.sepc, CODE);
        assert_eq!(t.trap_cx.x[2], TOP);
        assert_eq!(t.trap_cx.x.len(), 32);
    }
}

#[test]
fn run_first_task_marks_task_zero_running() {
    let k = started(2);
    assert_eq!(statuses(&k.tm), vec![TaskStatus::Running, TaskStatus::Ready]);
}

#[test]
fn find_next_task_is_round_robin() {
    let mut k = started(4);
    k.tm.current = 2;
    k.tm.tasks[0].status = TaskStatus::Ready;
    k.tm.tasks[2].status = TaskStatus::Running;
    k.tm.tasks[3].status = TaskStatus::Exited;
    assert_eq!(k.tm.find_next_task(), Some(0));
    k.tm.tasks[0].status = TaskStatus::Exited;
    k.tm.tasks[1].status = TaskStatus::Exited;
    assert_eq!(k.tm.find_next_task(), None);
}

#[test]
fn yield_switches_round_robin() {
    let mut k = started(3);
    assert_eq!(sys_yield(&mut k), 0);
    assert_eq!(k.tm.current, 1);
    assert_eq!(
        statuses(&k.tm),
        vec![TaskStatus::Ready, TaskStatus::Running, TaskStatus::Ready]
    );
    assert_eq!(sys_yield(&mut k), 0);
    assert_eq!(sys_yield(&mut k), 0);
    assert_eq!(k.tm.current, 0);
}

#[test]
fn yield_with_no_other_ready_task_resumes_itself() {
    let mut k = started(2);
    k.tm.tasks[1].status = TaskStatus::Exited;
    assert_eq!(sys_yield(&mut k), 0);
    assert_eq!(k.tm.current, 0);
    assert_eq!(k.tm.tasks[0].status, TaskStatus::Running);
}

#[test]
fn exit_records_code_and_switches_to_next_ready() {
    let mut k = started(3);
    assert_eq!(sys_exit(&mut k, 7), SwitchAction { from: 0, to: 1 });
    assert_eq!(k.tm.tasks[0].status, TaskStatus::Exited);
    assert_eq!(k.tm.tasks[0].exit_code, 7);
    assert_eq!(k.tm.current, 1);
    assert_eq!(sys_exit(&mut k, -3), SwitchAction { from: 1, to: 2 });
    assert_eq!(k.tm.tasks[1].exit_code, -3);
    assert_eq!(
        statuses(&k.tm),
        vec![TaskStatus::Exited, TaskStatus::Exited, TaskStatus::Running]
    );
}

#[test]
fn exited_task_is_never_run_again() {
    let mut k = started(3);
    assert_eq!(sys_exit(&mut k, 1), SwitchAction { from: 0, to: 1 });
    assert_eq!(sys_yield(&mut k), 0);
    assert_eq!(k.tm.current, 2);
    assert_eq!(sys_yield(&mut k), 0);
    assert_eq!(k.tm.current, 1);
    assert_eq!(sys_yield(&mut k), 0);
    assert_eq!(k.tm.current, 2);
    assert_eq!(k.tm.tasks[0].status, TaskStatus::Exited);
    assert_eq!(k.tm.find_next_task(), Some(1));
}

#[test]
fn getpid_reports_current_task() {
    let mut k = started(2);
    assert_eq!(sys_getpid(&k), 0);
    sys_yield(&mut k);
    assert_eq!(sys_getpid(&k), 1);
}

#[test]
fn sbrk_moves_break_and_refuses_below_bottom() {
    let mut k = started(1);
    let top = TOP as isize;
    assert_eq!(sys_sbrk(&mut k, 100), top);
    assert_eq!(k.tm.tasks[0].program_brk, TOP + 100);
    assert_eq!(sys_sbrk(&mut k, -40), top + 100);
    assert_eq!(sys_sbrk(&mut k, -61), -1);
    assert_eq!(k.tm.tasks[0].program_brk, TOP + 60);
    assert_eq!(sys_sbrk(&mut k, 25), top + 60);
    assert_eq!(sys_sbrk(&mut k, -25), top + 85);
    assert_eq!(k.tm.tasks[0].program_brk, TOP + 60);
}

#[test]
fn sbrk_maps_and_unmaps_heap_pages() {
    let mut k = started(1);
    let heap = TOP / 4096;
    assert!(!k.user_page_mapped(heap));
    assert_eq!(k.free_frames, 61);
    assert_eq!(sys_sbrk(&mut k, 1), TOP as isize);
    assert_eq!(k.free_frames, 60);
    assert_eq!(k.tm.tasks[0].memory.page_flags(heap), Some(PTE_V | PTE_U | PTE_R | PTE_W));
    assert!(!k.user_page_mapped(heap + 1));
    k.write_user_bytes(TOP, &vec![5]);
    assert_eq!(sys_sbrk(&mut k, 8192), TOP as isize + 1);
    assert_eq!(k.free_frames, 58);
    assert!(k.user_page_mapped(heap + 1));
    assert!(k.user_page_mapped(heap + 2));
    assert!(!k.user_page_mapped(heap + 3));
    assert_eq!(k.read_user_bytes(TOP, 1), vec![5]);
    assert_eq!(k.read_user_bytes(TOP + 8192, 1), vec![0]);
    assert_eq!(sys_sbrk(&mut k, -4097), TOP as isize + 8193);
    assert_eq!(k.free_frames, 60);
    assert!(k.user_page_mapped(heap));
    assert!(!k.user_page_mapped(heap + 1));
    assert!(!k.user_page_mapped(heap + 2));
    assert_eq!(sys_sbrk(&mut k, -4095), TOP as isize + 4096);
    assert!(k.user_page_mapped(heap));
    assert_eq!(sys_sbrk(&mut k, -1), TOP as isize + 1);
    assert_eq!(k.free_frames, 61);
    assert!(!k.user_page_mapped(heap));
    assert_eq!(sys_sbrk(&mut k, 0), TOP as isize);
    assert!(!k.user_page_mapped(heap));
    assert_eq!(k.tm.tasks[0].memory.page_count(), 3);
}

#[test]
fn change_program_brk_returns_old_break() {
    let mut k = started(1);
    assert_eq!(k.tm.change_current_program_brk(8), Some(TOP));
    assert_eq!(k.tm.change_current_program_brk(-9), None);
    assert!(k.user_page_mapped(TOP / 4096));
    assert_eq!(k.tm.tasks[0].change_program_brk(-8), Some(TOP + 8));
    assert_eq!(k.tm.tasks[0].program_brk, TOP);
    assert!(!k.user_page_mapped(TOP / 4096));
}

#[test]
fn set_priority_rejects_below_two() {
    let mut k = started(1);
    assert_eq!(sys_set_priority(&mut k, 1), -1);
    assert_eq!(sys_set_priority(&mut k, -5), -1);
    assert_eq!(k.tm.tasks[0].priority, 16);
    assert_eq!(sys_set_priority(&mut k, 2), 2);
    assert_eq!(sys_set_priority(&mut k, 30), 30);
    assert_eq!(k.tm.tasks[0].priority, 30);
}

#[test]
fn fork_copies_memory_and_descriptors() {
    let mut k = started(1);
    assert_eq!(sys_mmap(&mut k, 0x1000, 4096, 3), 0);
    k.write_user_bytes(0x1000, &b"parent".to_vec());
    sys_sbrk(&mut k, 12);
    k.tm.tasks[0].trap_cx.x[10] = 99;
    k.tm.tasks[0].trap_cx.sepc = CODE + 8;
    let free = k.free_frames;
    assert_eq!(free, 64 - 3 - 1 - 1);
    let child = sys_fork(&mut k);
    assert_eq!(child, 1);
    assert_eq!(k.free_frames, free - 5);
    let c = &k.tm.tasks[1];
    assert_eq!(c.pid, 1);
    assert_eq!(c.parent, Some(0));
    assert_eq!(c.status, TaskStatus::Ready);
    assert_eq!(c.program_brk, TOP + 12);
    assert_eq!(c.trap_cx.x[10], 0);
    assert_eq!(c.trap_cx.x[2], TOP);
    assert_eq!(c.trap_cx.sepc, CODE + 8);
    assert_eq!(k.tm.tasks[0].trap_cx.x[10], 99);
    assert_eq!(c.memory.page_count(), 5);
    assert_eq!(c.fd_table, k.tm.tasks[0].fd_table);
    assert_eq!(c.memory.read_bytes(0x1000, 6), b"parent".to_vec());
    assert_eq!(k.tm.tasks[0].children, vec![1]);
    k.write_user_bytes(0x1000, &b"P".to_vec());
    assert_eq!(k.tm.tasks[1].memory.read_bytes(0x1000, 1), b"p".to_vec());
}

#[test]
fn waitpid_distinguishes_missing_running_and_exited_children() {
    let mut k = started(1);
    assert_eq!(sys_mmap(&mut k, 0x1000, 4096, 3), 0);
    assert_eq!(sys_waitpid(&mut k, -1, 0x1000), -1);
    let c = sys_fork(&mut k);
    assert_eq!(sys_waitpid(&mut k, 5, 0x1000), -1);
    assert_eq!(sys_waitpid(&mut k, -7, 0x1000), -1);
    assert_eq!(sys_waitpid(&mut k, c, 0x1000), -2);
    assert_eq!(sys_waitpid(&mut k, -1, 0x1000), -2);
    sys_yield(&mut k);
    assert_eq!(k.tm.current, 1);
    assert_eq!(sys_exit(&mut k, -2), SwitchAction { from: 1, to: 0 });
    assert_eq!(sys_waitpid(&mut k, -1, 0x1000), c);
    assert_eq!(k.read_user_bytes(0x1000, 4), (-2i32).to_le_bytes().to_vec());
    assert!(k.tm.tasks[0].children.is_empty());
    assert_eq!(sys_waitpid(&mut k, c, 0x1000), -1);
}

#[test]
fn waitpid_picks_first_exited_child() {
    let mut k = started(1);
    assert_eq!(sys_mmap(&mut k, 0x1000, 4096, 3), 0);
    let a = sys_fork(&mut k);
    let b = sys_fork(&mut k);
    k.tm.tasks[b as usize].status = TaskStatus::Exited;
    k.tm.tasks[b as usize].exit_code = 9;
    assert_eq!(sys_waitpid(&mut k, -1, 0x1000), b);
    assert_eq!(k.read_user_bytes(0x1000, 4), vec![9, 0, 0, 0]);
    assert_eq!(k.tm.tasks[0].children, vec![a as usize]);
}

#[test]
fn exec_and_spawn_load_named_file() {
    let mut k = started(1);
    assert_eq!(sys_mmap(&mut k, 0x1000, 4096, 3), 0);
    put_str(&mut k, 0x1000, b"prog");
    assert_eq!(sys_spawn(&mut k, 0x1000), -1);
    assert_eq!(sys_exec(&mut k, 0x1000), -1);
    let fd = sys_open(&mut k, 0x1000, O_CREATE) as usize;
    let image = elf_image(0x80000, b"xyz");
    k.write_user_bytes(0x1100, &image);
    assert_eq!(sys_write(&mut k, fd, 0x1100, image.len()), image.len() as isize);
    assert_eq!(sys_spawn(&mut k, 0x1000), 1);
    let c = &k.tm.tasks[1];
    assert_eq!(c.program, image);
    assert_eq!(c.parent, Some(0));
    assert_eq!(c.status, TaskStatus::Ready);
    assert_eq!(c.fd_table, vec![Some(0), Some(1), Some(2)]);
    assert!(!c.memory.contains(1));
    assert!(!c.memory.contains(CODE / 4096));
    assert_eq!(c.memory.read_bytes(0x80000, 4), b"xyz\0".to_vec());
    assert_eq!(c.memory.page_count(), 3);
    assert_eq!(c.heap_bottom, 0x84000);
    assert_eq!(c.trap_cx.sepc, 0x80000);
    assert_eq!(c.trap_cx.x[2], 0x84000);
    assert_eq!(k.tm.tasks[0].children, vec![1]);
    assert_eq!(sys_exec(&mut k, 0x1000), 0);
    let t = &k.tm.tasks[0];
    assert_eq!(t.program, image);
    assert!(!k.user_page_mapped(1));
    assert!(!k.user_page_mapped(CODE / 4096));
    assert_eq!(k.read_user_bytes(0x80000, 3), b"xyz".to_vec());
    assert_eq!(t.program_brk, 0x84000);
    assert_eq!(t.trap_cx.sepc, 0x80000);
    assert_eq!(t.trap_cx.x[2], 0x84000);
    assert_eq!(t.fd_table.len(), 4);
    assert_eq!(t.children, vec![1]);
}

#[test]
fn count_syscall_counts_tracked_calls() {
    let mut c = CountSyscall::new();
    c.modify(SYSCALL_WRITE);
    c.modify(SYSCALL_WRITE);
    c.modify(SYSCALL_TRACE);
    c.modify(SYSCALL_MMAP);
    assert_eq!(c.get_count(SYSCALL_WRITE), 2);
    assert_eq!(c.get_count(SYSCALL_TRACE), 1);
    assert_eq!(c.get_count(SYSCALL_YIELD), 0);
    assert_eq!(c.get_count(SYSCALL_MMAP), 0);
    assert_eq!(c.get_count(12345), 0);
}

#[test]
fn task_manager_counts_and_unknown_calls() {
    let mut k = started(2);
    assert_eq!(CntSys::new().cnt_sbrk, 0);
    k.tm.modify_cnt(SYSCALL_SBRK);
    k.tm.modify_cnt(SYSCALL_MMAP);
    k.tm.modify_cnt(SYSCALL_MMAP);
    k.tm.modify_cnt(77);
    assert_eq!(k.tm.get_count(SYSCALL_SBRK), 1);
    assert_eq!(k.tm.get_count(SYSCALL_MMAP), 2);
    assert_eq!(k.tm.get_count(SYSCALL_EXIT), 0);
    assert_eq!(k.tm.get_count(77), -1);
    k.tm.current = 1;
    assert_eq!(k.tm.get_count(SYSCALL_MMAP), 0);
}

#[test]
fn dispatcher_counts_and_dispatches() {
    let mut k = started(2);
    assert_eq!(sys_mmap(&mut k, 0x1000, 4096, 3), 0);
    k.write_user_bytes(0x1000, &b"ok".to_vec());
    assert_eq!(syscall(&mut k, SYSCALL_WRITE, [1, 0x1000, 2], 0), SyscallReturn::Value(2));
    assert_eq!(k.console_out, b"ok".to_vec());
    assert_eq!(syscall(&mut k, SYSCALL_TRACE, [2, SYSCALL_TRACE, 0], 0), SyscallReturn::Value(1));
    assert_eq!(syscall(&mut k, SYSCALL_TRACE, [2, SYSCALL_TRACE, 0], 0), SyscallReturn::Value(2));
    assert_eq!(syscall(&mut k, SYSCALL_TRACE, [2, SYSCALL_WRITE, 0], 0), SyscallReturn::Value(1));
    assert_eq!(syscall(&mut k, SYSCALL_TRACE, [2, 12345, 0], 0), SyscallReturn::Value(-1));
    assert_eq!(k.tm.get_count(SYSCALL_TRACE), 4);
    assert_eq!(
        syscall(&mut k, SYSCALL_GET_TIME, [0x1100, 0, 0], 2_000_001),
        SyscallReturn::Value(0)
    );
    assert_eq!(k.read_user_bytes(0x1100, 1), vec![2]);
    assert_eq!(syscall(&mut k, SYSCALL_YIELD, [0, 0, 0], 0), SyscallReturn::Value(0));
    assert_eq!(k.tm.current, 1);
    assert_eq!(k.tm.tasks[0].syscall_counts.get_count(SYSCALL_YIELD), 1);
    assert_eq!(k.tm.tasks[0].syscall_counts.get_count(SYSCALL_TRACE), 4);
    assert_eq!(
        syscall(&mut k, SYSCALL_EXIT, [4, 0, 0], 0),
        SyscallReturn::Exited(SwitchAction { from: 1, to: 0 })
    );
    assert_eq!(k.tm.tasks[1].exit_code, 4);
    assert_eq!(k.tm.tasks[1].syscall_counts.get_count(SYSCALL_EXIT), 1);
}

#[test]
fn image_loadable_checks_the_elf_image() {
    let good = elf_image(0x40000, b"code");
    assert!(image_loadable(&good));
    let mut bad_magic = good.clone();
    bad_magic[1] = b'X';
    assert!(!image_loadable(&bad_magic));
    assert!(!image_loadable(&good[..good.len() - 1].to_vec()));
    assert!(!image_loadable(&good[..40].to_vec()));
    let mut big = good.clone();
    big[120 - 56 + 40..120 - 56 + 48].copy_from_slice(&1u64.to_le_bytes());
    assert!(!image_loadable(&big));
    let mut two = elf_image(0x40000, b"code");
    two[0x38] = 2;
    let mut ph = two[64..120].to_vec();
    ph[16..24].copy_from_slice(&0x3f000u64.to_le_bytes());
    two.splice(120..120, ph.clone());
    two[64 + 8..64 + 16].copy_from_slice(&176u64.to_le_bytes());
    two[120 + 8..120 + 16].copy_from_slice(&176u64.to_le_bytes());
    assert!(image_loadable(&two));
    let mut same_page = two.clone();
    same_page[120 + 16..120 + 24].copy_from_slice(&0x40000u64.to_le_bytes());
    assert!(!image_loadable(&same_page));
    let mut under_stack = two.clone();
    under_stack[64 + 16..64 + 24].copy_from_slice(&0x42000u64.to_le_bytes());
    assert!(!image_loadable(&under_stack));
    let mut apart = two.clone();
    apart[120 + 16..120 + 24].copy_from_slice(&0x50000u64.to_le_bytes());
    assert!(image_loadable(&apart));
    let k = Kernel::new(&vec![two.clone()], 8);
    assert_eq!(k.tm.tasks[0].heap_bottom, 0x43000);
    assert!(k.tm.tasks[0].memory.contains(0x3f));
    assert!(k.tm.tasks[0].memory.contains(0x40));
    assert!(k.tm.tasks[0].memory.contains(0x41));
    assert!(k.tm.tasks[0].memory.contains(0x42));
    assert_eq!(k.free_frames, 4);
}

#[test]
fn waitpid_reaps_an_exited_child_once() {
    let mut k = started(1);
    assert_eq!(sys_mmap(&mut k, 0x1000, 4096, 3), 0);
    let c = sys_fork(&mut k);
    sys_yield(&mut k);
    assert_eq!(k.tm.current, c as usize);
    assert_eq!(sys_exit(&mut k, 42), SwitchAction { from: 1, to: 0 });
    let free = k.free_frames;
    assert_eq!(k.tm.tasks[1].memory.page_count(), 4);
    assert_eq!(sys_waitpid(&mut k, c, 0x1000), c);
    assert_eq!(k.read_user_bytes(0x1000, 4), vec![42, 0, 0, 0]);
    assert_eq!(k.free_frames, free + 4);
    assert_eq!(k.tm.tasks[1].memory.page_count(), 0);
    assert_eq!(sys_waitpid(&mut k, c, 0x1000), -1);
    assert_eq!(k.free_frames, free + 4);
}

#[test]
fn exec_hands_back_the_frames_of_the_old_address_space() {
    let mut k = started(1);
    assert_eq!(sys_mmap(&mut k, 0x1000, 4096, 3), 0);
    put_str(&mut k, 0x1000, b"prog");
    let fd = sys_open(&mut k, 0x1000, O_CREATE) as usize;
    let image = elf_image(0x80000, b"xyz");
    k.write_user_bytes(0x1100, &image);
    assert_eq!(sys_write(&mut k, fd, 0x1100, image.len()), image.len() as isize);
    assert_eq!(k.free_frames, 60);
    let c = sys_fork(&mut k);
    assert_eq!(k.free_frames, 56);
    sys_yield(&mut k);
    assert_eq!(k.tm.current, c as usize);
    assert_eq!(sys_exec(&mut k, 0x1000), 0);
    assert_eq!(k.free_frames, 57);
    assert_eq!(k.tm.tasks[1].memory.page_count(), 3);
    assert_eq!(k.read_user_bytes(0x80000, 3), b"xyz".to_vec());
}
