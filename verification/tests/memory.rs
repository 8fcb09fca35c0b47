use os::kernel::Kernel;
use os::mm::{AddressSpace, PAGE_SIZE, PTE_R, PTE_U, PTE_V, PTE_W, PTE_X};
use os::syscall::process::{sys_get_time, sys_mmap, sys_munmap, sys_trace, TimeVal};
use os::syscall::SYSCALL_WRITE;

/// A minimal ELF64 image: one loadable segment holding `code` at 0x40000.
fn elf_image(code: &[u8]) -> Vec<u8> {
    let mut d = vec![0u8; 64];
    d[0..4].copy_from_slice(b"\x7fELF");
    d[0x18..0x20].copy_from_slice(&0x40000u64.to_le_bytes());
    d[0x20..0x28].copy_from_slice(&64u64.to_le_bytes());
    d[0x36..0x38].copy_from_slice(&56u16.to_le_bytes());
    d[0x38..0x3a].copy_from_slice(&1u16.to_le_bytes());
    let mut ph = vec![0u8; 56];
    ph[0..4].copy_from_slice(&1u32.to_le_bytes());
    ph[4..8].copy_from_slice(&5u32.to_le_bytes());
    ph[8..16].copy_from_slice(&120u64.to_le_bytes());
    ph[16..24].copy_from_slice(&0x40000u64.to_le_bytes());
    ph[32..40].copy_from_slice(&(code.len() as u64).to_le_bytes());
    ph[40..48].copy_from_slice(&(code.len() as u64).to_le_bytes());
    d.extend_from_slice(&ph);
    d.extend_from_slice(code);
    d
}

/// Boots one task, leaving `frames` frames in the pool once its image's
/// three pages (code, two stack pages) are loaded.
fn boot_with(frames: usize) -> Kernel {
    let apps = vec![elf_image(b"app0")];
    let k = Kernel::new(&apps, frames + 3);
    assert_eq!(k.free_frames, frames);
    k
}

fn boot() -> Kernel {
    boot_with(16)
}

#[test]
fn address_space_maps_zeroed_pages() {
    let mut s = AddressSpace::new();
    assert!(!s.contains(3));
    s.map_zeroed(3, PTE_V | PTE_U | PTE_R);
    assert!(s.contains(3));
    assert_eq!(s.page_flags(3), Some(PTE_V | PTE_U | PTE_R));
    assert_eq!(s.read_byte(3 * PAGE_SIZE + 17), 0);
    s.write_byte(3 * PAGE_SIZE + 17, 0xab);
    assert_eq!(s.read_byte(3 * PAGE_SIZE + 17), 0xab);
    assert_eq!(s.read_byte(3 * PAGE_SIZE + 16), 0);
    s.unmap(3);
    assert!(!s.contains(3));
    assert_eq!(s.page_flags(3), None);
}

#[test]
fn address_space_bytes_cross_pages() {
    let mut s = AddressSpace::new();
    s.map_zeroed(1, PTE_V | PTE_U | PTE_R | PTE_W);
    s.map_zeroed(2, PTE_V | PTE_U | PTE_R | PTE_W);
    let va = 2 * PAGE_SIZE - 3;
    s.write_bytes(va, &vec![1, 2, 3, 4, 5, 6]);
    assert_eq!(s.read_bytes(va, 6), vec![1, 2, 3, 4, 5, 6]);
    assert_eq!(s.read_byte(2 * PAGE_SIZE), 4);
    assert_eq!(s.read_byte(va - 1), 0);
    s.write_bytes(va, &b"hi\0".to_vec());
    assert_eq!(s.read_cstr(va), b"hi".to_vec());
}

#[test]
fn address_space_clone_is_independent() {
    let mut s = AddressSpace::new();
    s.map_zeroed(5, PTE_V | PTE_U | PTE_R | PTE_W);
    s.write_byte(5 * PAGE_SIZE, 9);
    let mut c = s.clone_space();
    assert_eq!(c.read_byte(5 * PAGE_SIZE), 9);
    c.write_byte(5 * PAGE_SIZE, 7);
    assert_eq!(s.read_byte(5 * PAGE_SIZE), 9);
    assert_eq!(c.read_byte(5 * PAGE_SIZE), 7);
}

#[test]
fn mmap_rejects_unaligned_start() {
    let mut k = boot();
    assert_eq!(sys_mmap(&mut k, 0x1001, 4096, 3), -1);
    assert!(!k.user_page_mapped(1));
    assert_eq!(k.free_frames, 16);
}

#[test]
fn mmap_rejects_bad_prot() {
    let mut k = boot();
    assert_eq!(sys_mmap(&mut k, 0x1000, 4096, 0), -1);
    assert_eq!(sys_mmap(&mut k, 0x1000, 4096, 8), -1);
    assert_eq!(sys_mmap(&mut k, 0x1000, 4096, 0x9), -1);
    assert!(!k.user_page_mapped(1));
}

#[test]
fn mmap_rounds_length_up_to_pages() {
    let mut k = boot();
    assert_eq!(sys_mmap(&mut k, 0x10000, 4097, 3), 0);
    assert!(k.user_page_mapped(0x10));
    assert!(k.user_page_mapped(0x11));
    assert!(!k.user_page_mapped(0x12));
    assert_eq!(k.free_frames, 14);
    let m = &k.tm.tasks[0].memory;
    assert_eq!(m.page_flags(0x10), Some(PTE_V | PTE_U | PTE_R | PTE_W));
    assert_eq!(m.read_byte(0x10000 + 100), 0);
}

#[test]
fn mmap_prot_bits_become_pte_bits() {
    let mut k = boot();
    assert_eq!(sys_mmap(&mut k, 0x1000, 1, 1), 0);
    assert_eq!(sys_mmap(&mut k, 0x2000, 1, 2), 0);
    assert_eq!(sys_mmap(&mut k, 0x3000, 1, 4), 0);
    assert_eq!(sys_mmap(&mut k, 0x4000, 1, 7), 0);
    let m = &k.tm.tasks[0].memory;
    assert_eq!(m.page_flags(1), Some(PTE_V | PTE_U | PTE_R));
    assert_eq!(m.page_flags(2), Some(PTE_V | PTE_U | PTE_W));
    assert_eq!(m.page_flags(3), Some(PTE_V | PTE_U | PTE_X));
    assert_eq!(m.page_flags(4), Some(PTE_V | PTE_U | PTE_R | PTE_W | PTE_X));
}

#[test]
fn mmap_zero_length_maps_nothing() {
    let mut k = boot();
    assert_eq!(sys_mmap(&mut k, 0x1000, 0, 3), 0);
    assert!(!k.user_page_mapped(1));
    assert_eq!(k.free_frames, 16);
}

#[test]
fn mmap_stops_at_mapped_page_keeping_earlier_ones() {
    let mut k = boot();
    assert_eq!(sys_mmap(&mut k, 0x3000, 4096, 3), 0);
    assert_eq!(sys_mmap(&mut k, 0x1000, 4 * 4096, 3), -1);
    assert!(k.user_page_mapped(1));
    assert!(k.user_page_mapped(2));
    assert!(k.user_page_mapped(3));
    assert!(!k.user_page_mapped(4));
    assert_eq!(k.free_frames, 13);
}

#[test]
fn mmap_twice_fails_and_maps_nothing() {
    let mut k = boot();
    assert_eq!(sys_mmap(&mut k, 0x8000, 2 * 4096, 3), 0);
    assert_eq!(k.free_frames, 14);
    assert_eq!(sys_mmap(&mut k, 0x8000, 2 * 4096, 1), -1);
    assert_eq!(k.free_frames, 14);
    assert_eq!(k.tm.tasks[0].memory.page_flags(8), Some(PTE_V | PTE_U | PTE_R | PTE_W));
}

#[test]
fn mmap_with_no_free_frame_maps_nothing() {
    let mut k = boot_with(0);
    assert_eq!(sys_mmap(&mut k, 0x1000, 3 * 4096, 3), -1);
    assert!(!k.user_page_mapped(1));
    assert_eq!(k.free_frames, 0);
    assert_eq!(sys_mmap(&mut k, 0x1000, 0, 3), 0);
}

#[test]
fn mmap_draws_a_frame_per_page_and_munmap_gives_it_back() {
    let mut k = boot_with(2);
    assert_eq!(sys_mmap(&mut k, 0x1000, 3 * 4096, 3), -1);
    assert!(k.user_page_mapped(1));
    assert!(k.user_page_mapped(2));
    assert!(!k.user_page_mapped(3));
    assert_eq!(k.free_frames, 0);
    assert_eq!(sys_munmap(&mut k, 0x1000, 4096), 0);
    assert_eq!(k.free_frames, 1);
    assert_eq!(sys_mmap(&mut k, 0x1000, 4096, 3), 0);
    assert!(k.user_page_mapped(1));
    assert_eq!(k.free_frames, 0);
    assert_eq!(sys_munmap(&mut k, 0x1000, 2 * 4096), 0);
    assert_eq!(k.free_frames, 2);
}

#[test]
fn munmap_undoes_mmap() {
    let mut k = boot();
    assert_eq!(sys_mmap(&mut k, 0x5000, 3 * 4096, 3), 0);
    assert_eq!(k.free_frames, 13);
    assert_eq!(sys_munmap(&mut k, 0x5000, 3 * 4096), 0);
    assert_eq!(k.free_frames, 16);
    for v in 0..16 {
        assert!(!k.user_page_mapped(v));
    }
}

#[test]
fn munmap_rejects_unaligned_and_unmapped() {
    let mut k = boot();
    assert_eq!(sys_mmap(&mut k, 0x1000, 4096, 3), 0);
    assert_eq!(sys_munmap(&mut k, 0x1800, 4096), -1);
    assert!(k.user_page_mapped(1));
    assert_eq!(sys_munmap(&mut k, 0x2000, 4096), -1);
    assert!(k.user_page_mapped(1));
}

#[test]
fn munmap_stops_at_unmapped_page_keeping_earlier_removals() {
    let mut k = boot();
    assert_eq!(sys_mmap(&mut k, 0x1000, 2 * 4096, 3), 0);
    assert_eq!(sys_mmap(&mut k, 0x4000, 4096, 3), 0);
    assert_eq!(sys_munmap(&mut k, 0x1000, 4 * 4096), -1);
    assert!(!k.user_page_mapped(1));
    assert!(!k.user_page_mapped(2));
    assert!(k.user_page_mapped(4));
}

#[test]
fn time_val_splits_microseconds() {
    let t = TimeVal::from_us(3_500_042);
    assert_eq!(t, TimeVal { sec: 3, usec: 500_042 });
    let t0 = TimeVal::from_us(999_999);
    assert_eq!(t0, TimeVal { sec: 0, usec: 999_999 });
    let t1 = TimeVal::from_us(1_000_000);
    assert_eq!(t1, TimeVal { sec: 1, usec: 0 });
}

#[test]
fn get_time_stores_time_val_little_endian_across_pages() {
    let mut k = boot();
    assert_eq!(sys_mmap(&mut k, 0x1000, 2 * 4096, 3), 0);
    let w = std::mem::size_of::<usize>();
    let ts = 0x2000 - w;
    let us: usize = 0x0102 * 1_000_000 + 0x0304;
    assert_eq!(sys_get_time(&mut k, ts, 0, us), 0);
    let bytes = k.read_user_bytes(ts, 2 * w);
    let mut sec = 0usize;
    let mut usec = 0usize;
    for i in 0..w {
        sec |= (bytes[i] as usize) << (8 * i);
        usec |= (bytes[w + i] as usize) << (8 * i);
    }
    assert_eq!(sec, 0x0102);
    assert_eq!(usec, 0x0304);
    assert_eq!(bytes[0], 0x02);
    assert_eq!(bytes[1], 0x01);
    assert_eq!(bytes[w], 0x04);
    assert_eq!(bytes[w + 1], 0x03);
}

#[test]
fn trace_reads_back_written_byte() {
    let mut k = boot();
    assert_eq!(sys_mmap(&mut k, 0x1000, 4096, 3), 0);
    assert_eq!(sys_trace(&mut k, 1, 0x1010, 0x1ab), 0);
    assert_eq!(sys_trace(&mut k, 0, 0x1010, 0), 0xab);
    assert_eq!(sys_trace(&mut k, 0, 0x1011, 0), 0);
}

#[test]
fn trace_refuses_unmapped_or_forbidden_access() {
    let mut k = boot();
    assert_eq!(sys_trace(&mut k, 0, 0x1000, 0), -1);
    assert_eq!(sys_trace(&mut k, 1, 0x1000, 5), -1);
    assert_eq!(sys_mmap(&mut k, 0x1000, 4096, 1), 0);
    assert_eq!(sys_trace(&mut k, 1, 0x1000, 5), -1);
    assert_eq!(sys_trace(&mut k, 0, 0x1000, 0), 0);
    assert_eq!(sys_mmap(&mut k, 0x2000, 4096, 2), 0);
    assert_eq!(sys_trace(&mut k, 0, 0x2000, 0), -1);
    assert_eq!(sys_trace(&mut k, 1, 0x2000, 5), 0);
}

#[test]
fn trace_unknown_request_fails() {
    let mut k = boot();
    assert_eq!(sys_trace(&mut k, 3, 0, 0), -1);
    assert_eq!(sys_trace(&mut k, 2, 12345, 0), -1);
    assert_eq!(sys_trace(&mut k, 2, SYSCALL_WRITE, 0), 0);
}

#[test]
fn trace_refuses_non_canonical_address() {
    let mut k = boot();
    let va: usize = 0x40_0000_0000;
    assert_eq!(sys_mmap(&mut k, va, 4096, 3), 0);
    assert_eq!(sys_trace(&mut k, 0, va, 0), -1);
    assert_eq!(sys_trace(&mut k, 1, va, 1), -1);
    let low: usize = 0x3f_ffff_f000;
    assert_eq!(sys_mmap(&mut k, low, 4096, 3), 0);
    assert_eq!(sys_trace(&mut k, 1, low + 8, 0x42), 0);
    assert_eq!(sys_trace(&mut k, 0, low + 8, 0), 0x42);
}

#[test]
fn get_time_never_goes_backwards() {
    let mut k = boot();
    assert_eq!(sys_mmap(&mut k, 0x1000, 4096, 3), 0);
    let w = std::mem::size_of::<usize>();
    let read = |k: &Kernel| {
        let b = k.read_user_bytes(0x1000, 2 * w);
        let mut sec = 0usize;
        let mut usec = 0usize;
        for i in 0..w {
            sec |= (b[i] as usize) << (8 * i);
            usec |= (b[w + i] as usize) << (8 * i);
        }
        (sec, usec)
    };
    let mut last = (0usize, 0usize);
    for us in [0usize, 999_999, 1_000_000, 1_000_001, 5_999_999, 6_000_000] {
        assert_eq!(sys_get_time(&mut k, 0x1000, 0, us), 0);
        let now = read(&k);
        assert!(now >= last);
        last = now;
    }
    assert_eq!(last, (6, 0));
}
