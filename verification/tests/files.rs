use os::fs::{O_CREATE, O_RDONLY, O_RDWR, O_TRUNC, O_WRONLY, S_IFREG};
use os::kernel::{FileObject, Kernel};
use os::syscall::fs::{
    sys_close, sys_fstat, sys_linkat, sys_open, sys_read, sys_unlinkat, sys_write,
};
use os::syscall::process::sys_mmap;

const BUF: usize = 0x1000;
const NAME: usize = 0x2000;
const NAME2: usize = 0x2100;
const ST: usize = 0x2200;

/// A minimal ELF64 image: one loadable segment holding `code` at 0x40000.
fn elf_image(code: &[u8]) -> Vec<u8> {
    let mut d = vec![0u8; 64];
    d[0..4].copy_from_slice(b"\x7fELF");
    d[0x18..0x20].copy_from_slice(&0x40000u64.to_le_bytes());
    d[0x20..0x28].copy_from_slice(&64u64.to_le_bytes());
    d[0x36..0x38].copy_from_slice(&56u16.to_le_bytes());
    d[0x38..0x3a].copy_from_slice(&1u16.to_le_bytes());
    let mut ph = vec![0u8; 56];
    ph[0..4].copy_from_slice(&1u32.to_le_bytes());
    ph[4..8].copy_from_slice(&5u32.to_le_bytes());
    ph[8..16].copy_from_slice(&120u64.to_le_bytes());
    ph[16..24].copy_from_slice(&0x40000u64.to_le_bytes());
    ph[32..40].copy_from_slice(&(code.len() as u64).to_le_bytes());
    ph[40..48].copy_from_slice(&(code.len() as u64).to_le_bytes());
    d.extend_from_slice(&ph);
    d.extend_from_slice(code);
    d
}

fn boot() -> Kernel {
    let apps = vec![elf_image(b"init")];
    let mut k = Kernel::new(&apps, 64);
    assert_eq!(sys_mmap(&mut k, BUF, 2 * 4096, 3), 0);
    k
}

fn put_str(k: &mut Kernel, va: usize, s: &[u8]) {
    let mut v = s.to_vec();
    v.push(0);
    k.write_user_bytes(va, &v);
}

fn le(bytes: &[u8]) -> u64 {
    let mut x = 0u64;
    for (i, b) in bytes.iter().enumerate() {
        x |= (*b as u64) << (8 * i);
    }
    x
}

#[test]
fn open_missing_file_fails() {
    let mut k = boot();
    put_str(&mut k, NAME, b"nothing");
    assert_eq!(sys_open(&mut k, NAME, O_RDONLY), -1);
    assert_eq!(k.tm.tasks[0].fd_table.len(), 3);
    assert_eq!(k.files.len(), 3);
}

#[test]
fn open_create_returns_lowest_free_descriptor() {
    let mut k = boot();
    put_str(&mut k, NAME, b"f");
    assert_eq!(sys_open(&mut k, NAME, O_CREATE | O_WRONLY), 3);
    assert_eq!(sys_open(&mut k, NAME, O_RDONLY), 4);
    assert_eq!(sys_close(&mut k, 3), 0);
    assert_eq!(sys_open(&mut k, NAME, O_RDONLY), 3);
    assert_eq!(sys_close(&mut k, 1), 0);
    assert_eq!(sys_open(&mut k, NAME, O_RDONLY), 1);
}

#[test]
fn close_rejects_bad_descriptors() {
    let mut k = boot();
    assert_eq!(sys_close(&mut k, 7), -1);
    assert_eq!(sys_close(&mut k, 2), 0);
    assert_eq!(sys_close(&mut k, 2), -1);
}

#[test]
fn write_then_read_back_through_a_new_descriptor() {
    let mut k = boot();
    put_str(&mut k, NAME, b"notes");
    let fd = sys_open(&mut k, NAME, O_CREATE | O_WRONLY) as usize;
    k.write_user_bytes(BUF, &b"hello world".to_vec());
    assert_eq!(sys_write(&mut k, fd, BUF, 11), 11);
    assert_eq!(sys_close(&mut k, fd), 0);
    let fd = sys_open(&mut k, NAME, O_RDONLY) as usize;
    k.write_user_bytes(BUF, &vec![0u8; 16]);
    assert_eq!(sys_read(&mut k, fd, BUF, 5), 5);
    assert_eq!(k.read_user_bytes(BUF, 5), b"hello".to_vec());
    assert_eq!(sys_read(&mut k, fd, BUF, 100), 6);
    assert_eq!(k.read_user_bytes(BUF, 6), b" world".to_vec());
    assert_eq!(sys_read(&mut k, fd, BUF, 100), 0);
}

#[test]
fn write_advances_offset_and_overwrites() {
    let mut k = boot();
    put_str(&mut k, NAME, b"f");
    let fd = sys_open(&mut k, NAME, O_CREATE | O_RDWR) as usize;
    k.write_user_bytes(BUF, &b"abcdef".to_vec());
    assert_eq!(sys_write(&mut k, fd, BUF, 6), 6);
    match k.files[k.tm.tasks[0].fd_table[fd].unwrap()] {
        FileObject::Inode { offset, readable, writable, .. } => {
            assert_eq!(offset, 6);
            assert!(readable && writable);
        }
        _ => panic!("not an inode"),
    }
    let ino = k.fs.find(&b"f".to_vec()).unwrap();
    assert_eq!(k.fs.read_all(ino), b"abcdef".to_vec());
    let fd2 = sys_open(&mut k, NAME, O_WRONLY) as usize;
    k.write_user_bytes(BUF, &b"XY".to_vec());
    assert_eq!(sys_write(&mut k, fd2, BUF, 2), 2);
    assert_eq!(k.fs.read_all(ino), b"XYcdef".to_vec());
}

#[test]
fn open_trunc_and_create_empty_existing_file() {
    let mut k = boot();
    put_str(&mut k, NAME, b"f");
    let fd = sys_open(&mut k, NAME, O_CREATE | O_WRONLY) as usize;
    k.write_user_bytes(BUF, &b"data".to_vec());
    assert_eq!(sys_write(&mut k, fd, BUF, 4), 4);
    let ino = k.fs.find(&b"f".to_vec()).unwrap();
    assert_eq!(k.fs.size(ino), 4);
    assert_eq!(sys_open(&mut k, NAME, O_RDONLY), 4);
    assert_eq!(k.fs.size(ino), 4);
    assert_eq!(sys_open(&mut k, NAME, O_TRUNC), 5);
    assert_eq!(k.fs.size(ino), 0);
    assert_eq!(sys_write(&mut k, fd, BUF, 4), 4);
    assert_eq!(k.fs.read_all(ino), vec![0, 0, 0, 0, b'd', b'a', b't', b'a']);
    assert_eq!(sys_open(&mut k, NAME, O_CREATE), 6);
    assert_eq!(k.fs.size(ino), 0);
    assert_eq!(k.fs.num_inodes(), 1);
}

#[test]
fn access_modes_are_enforced() {
    let mut k = boot();
    put_str(&mut k, NAME, b"f");
    let rw = sys_open(&mut k, NAME, O_CREATE | O_RDONLY) as usize;
    let ro = sys_open(&mut k, NAME, O_RDONLY) as usize;
    let wo = sys_open(&mut k, NAME, O_WRONLY) as usize;
    assert_eq!(sys_write(&mut k, rw, BUF, 1), 1);
    assert_eq!(sys_read(&mut k, rw, BUF, 1), 0);
    assert_eq!(sys_write(&mut k, ro, BUF, 1), -1);
    assert_eq!(sys_read(&mut k, wo, BUF, 1), -1);
    assert_eq!(sys_write(&mut k, 0, BUF, 1), -1);
    assert_eq!(sys_read(&mut k, 1, BUF, 1), -1);
    assert_eq!(sys_write(&mut k, 42, BUF, 1), -1);
    assert_eq!(sys_read(&mut k, 42, BUF, 1), -1);
}

#[test]
fn stdout_collects_console_output() {
    let mut k = boot();
    k.write_user_bytes(BUF, &b"hi there".to_vec());
    assert_eq!(sys_write(&mut k, 1, BUF, 8), 8);
    assert_eq!(sys_write(&mut k, 2, BUF, 2), 2);
    assert_eq!(k.console_out, b"hi therehi".to_vec());
}

#[test]
fn stdin_reads_one_byte() {
    let mut k = boot();
    k.console_in = b"xy".to_vec();
    assert_eq!(sys_read(&mut k, 0, BUF + 3, 1), 1);
    assert_eq!(k.read_user_bytes(BUF + 3, 1), vec![b'x']);
    assert_eq!(k.console_in, vec![b'y']);
}

#[test]
fn fstat_reports_inode_mode_and_links() {
    let mut k = boot();
    put_str(&mut k, NAME, b"a");
    put_str(&mut k, NAME2, b"b");
    let fd = sys_open(&mut k, NAME, O_CREATE | O_WRONLY) as usize;
    assert_eq!(sys_fstat(&mut k, fd, ST), 0);
    let st = k.read_user_bytes(ST, 24);
    assert_eq!(le(&st[0..8]), 0);
    assert_eq!(le(&st[8..16]), 0);
    assert_eq!(le(&st[16..20]), S_IFREG as u64);
    assert_eq!(le(&st[20..24]), 1);
    assert_eq!(sys_linkat(&mut k, NAME, NAME2), 0);
    assert_eq!(sys_fstat(&mut k, fd, ST), 0);
    assert_eq!(le(&k.read_user_bytes(ST + 20, 4)), 2);
    assert_eq!(sys_unlinkat(&mut k, NAME), 0);
    assert_eq!(sys_fstat(&mut k, fd, ST), 0);
    assert_eq!(le(&k.read_user_bytes(ST + 20, 4)), 1);
    assert_eq!(sys_fstat(&mut k, 9, ST), -1);
}

#[test]
fn fstat_on_console_reports_console_status() {
    let mut k = boot();
    k.write_user_bytes(ST, &vec![0xaa; 24]);
    for fd in 0..3 {
        assert_eq!(sys_fstat(&mut k, fd, ST), 0);
        let st = k.read_user_bytes(ST, 24);
        assert_eq!(le(&st[0..8]), 0);
        assert_eq!(le(&st[8..16]), 0);
        assert_eq!(le(&st[16..20]), 0);
        assert_eq!(le(&st[20..24]), 1);
    }
    assert_eq!(k.read_user_bytes(ST + 24, 1), vec![0]);
}

#[test]
fn fstat_reports_second_inode_number() {
    let mut k = boot();
    put_str(&mut k, NAME, b"a");
    put_str(&mut k, NAME2, b"b");
    sys_open(&mut k, NAME, O_CREATE);
    let fd = sys_open(&mut k, NAME2, O_CREATE) as usize;
    assert_eq!(sys_fstat(&mut k, fd, ST), 0);
    assert_eq!(le(&k.read_user_bytes(ST + 8, 8)), 1);
}

#[test]
fn linkat_same_name_fails() {
    let mut k = boot();
    put_str(&mut k, NAME, b"a");
    sys_open(&mut k, NAME, O_CREATE);
    assert_eq!(sys_linkat(&mut k, NAME, NAME), -1);
    assert_eq!(k.fs.link_count(0), 1);
}

#[test]
fn linked_name_opens_same_file() {
    let mut k = boot();
    put_str(&mut k, NAME, b"a");
    put_str(&mut k, NAME2, b"b");
    let fd = sys_open(&mut k, NAME, O_CREATE | O_WRONLY) as usize;
    k.write_user_bytes(BUF, &b"xyz".to_vec());
    sys_write(&mut k, fd, BUF, 3);
    assert_eq!(sys_linkat(&mut k, NAME, NAME2), 0);
    let fd2 = sys_open(&mut k, NAME2, O_RDONLY) as usize;
    assert_eq!(sys_read(&mut k, fd2, BUF + 100, 3), 3);
    assert_eq!(k.read_user_bytes(BUF + 100, 3), b"xyz".to_vec());
}

#[test]
fn unlink_then_open_fails_and_link_unlink_restores() {
    let mut k = boot();
    put_str(&mut k, NAME, b"a");
    put_str(&mut k, NAME2, b"b");
    sys_open(&mut k, NAME, O_CREATE);
    assert_eq!(sys_linkat(&mut k, NAME, NAME2), 0);
    assert_eq!(k.fs.link_count(0), 2);
    assert_eq!(sys_unlinkat(&mut k, NAME2), 0);
    assert_eq!(k.fs.link_count(0), 1);
    assert_eq!(sys_open(&mut k, NAME2, O_RDONLY), -1);
    assert_eq!(sys_unlinkat(&mut k, NAME), 0);
    assert_eq!(k.fs.link_count(0), 0);
    assert_eq!(sys_open(&mut k, NAME, O_RDONLY), -1);
    assert_eq!(sys_unlinkat(&mut k, NAME), 0);
}

#[test]
fn linkat_of_missing_file_changes_nothing() {
    let mut k = boot();
    put_str(&mut k, NAME, b"ghost");
    put_str(&mut k, NAME2, b"b");
    assert_eq!(sys_linkat(&mut k, NAME, NAME2), 0);
    assert_eq!(sys_open(&mut k, NAME2, O_RDONLY), -1);
}
