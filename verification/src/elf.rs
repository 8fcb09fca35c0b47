//! Program images: reading an ELF64 (little-endian) image and building the
//! user address space it describes — one area per loadable segment, then a
//! guard page and the user stack.
use vstd::prelude::*;
use crate::mm::{map_range, AddressSpace, PageState, PAGE_SIZE, PTE_R, PTE_U, PTE_V, PTE_W, PTE_X};

verus! {

/// Size of a task's user stack in bytes.
pub const USER_STACK_SIZE: usize = 8192;

/// Pages of a user stack.
pub const USER_STACK_PAGES: usize = 2;

/// Program-header type of a loadable segment.
pub const PT_LOAD: u32 = 1;

/// Segment permission bits.
pub const PF_X: u32 = 1;
pub const PF_W: u32 = 2;
pub const PF_R: u32 = 4;

/// Size of an ELF64 program header.
pub const PH_SIZE: usize = 56;

/// Page-table bits of the user stack: valid, readable, writable, user.
pub const STACK_FLAGS: u8 = 23;

/// The little-endian 16-bit value at `off`.
pub open spec fn le_u16(d: Seq<u8>, off: int) -> int {
    d[off] + d[off + 1] * 256
}

/// The little-endian 32-bit value at `off`.
pub open spec fn le_u32(d: Seq<u8>, off: int) -> int {
    d[off] + d[off + 1] * 0x100 + d[off + 2] * 0x1_0000 + d[off + 3] * 0x100_0000
}

/// The little-endian 64-bit value at `off`.
pub open spec fn le_u64(d: Seq<u8>, off: int) -> int {
    d[off] + d[off + 1] * 0x100 + d[off + 2] * 0x1_0000 + d[off + 3] * 0x100_0000 + d[off + 4]
        * 0x1_0000_0000 + d[off + 5] * 0x100_0000_0000 + d[off + 6] * 0x1_0000_0000_0000 + d[off
        + 7] * 0x100_0000_0000_0000
}

/// Entry point of the image.
pub open spec fn entry_of(d: Seq<u8>) -> int {
    le_u64(d, 0x18)
}

/// Number of program headers.
pub open spec fn phnum(d: Seq<u8>) -> int {
    le_u16(d, 0x38)
}

/// Where program header `i` starts.
pub open spec fn ph_base(d: Seq<u8>, i: int) -> int {
    le_u64(d, 0x20) + PH_SIZE * i
}

pub open spec fn ph_type(d: Seq<u8>, i: int) -> int {
    le_u32(d, ph_base(d, i))
}

pub open spec fn ph_flags(d: Seq<u8>, i: int) -> int {
    le_u32(d, ph_base(d, i) + 4)
}

pub open spec fn ph_offset(d: Seq<u8>, i: int) -> int {
    le_u64(d, ph_base(d, i) + 8)
}

pub open spec fn ph_vaddr(d: Seq<u8>, i: int) -> int {
    le_u64(d, ph_base(d, i) + 16)
}

pub open spec fn ph_filesz(d: Seq<u8>, i: int) -> int {
    le_u64(d, ph_base(d, i) + 32)
}

pub open spec fn ph_memsz(d: Seq<u8>, i: int) -> int {
    le_u64(d, ph_base(d, i) + 40)
}

/// A loadable segment: the pages `vs .. ve` it spans, their page-table
/// bits, and where its `filesz` bytes of file data start in the image.
#[derive(Clone, Copy, Debug, PartialEq, Eq)]
pub struct Segment {
    pub vs: usize,
    pub ve: usize,
    pub flags: u8,
    pub offset: usize,
    pub filesz: usize,
}

/// Page-table bits for segment permission bits `pf`: valid and user, plus
/// read, write and execute as `pf` asks.
pub open spec fn seg_flags(pf: u32) -> u8 {
    (PTE_V | PTE_U | (if pf & PF_R != 0 {
        PTE_R
    } else {
        0
    }) | (if pf & PF_W != 0 {
        PTE_W
    } else {
        0
    }) | (if pf & PF_X != 0 {
        PTE_X
    } else {
        0
    })) as u8
}

/// The segment that program header `i` describes: from the page holding
/// its start to the page holding its last byte in memory.
pub open spec fn seg_of(d: Seq<u8>, i: int) -> Segment {
    Segment {
        vs: (ph_vaddr(d, i) / PAGE_SIZE as int) as usize,
        ve: ((ph_vaddr(d, i) + ph_memsz(d, i) + PAGE_SIZE - 1) / PAGE_SIZE as int) as usize,
        flags: seg_flags(ph_flags(d, i) as u32),
        offset: ph_offset(d, i) as usize,
        filesz: ph_filesz(d, i) as usize,
    }
}

/// The loadable segments among the first `n` program headers, in order.
pub open spec fn segs_upto(d: Seq<u8>, n: int) -> Seq<Segment>
    decreases n,
{
    if n <= 0 {
        Seq::empty()
    } else if ph_type(d, n - 1) == PT_LOAD {
        segs_upto(d, n - 1).push(seg_of(d, n - 1))
    } else {
        segs_upto(d, n - 1)
    }
}

/// The loadable segments of the image, in order.
pub open spec fn load_segs(d: Seq<u8>) -> Seq<Segment> {
    segs_upto(d, phnum(d))
}

/// A loadable program header fits: its file data lies in the image, it has
/// at least as many bytes in memory as in the file, and its pages lie in
/// the address space.
pub open spec fn ph_ok(d: Seq<u8>, i: int) -> bool {
    &&& ph_offset(d, i) + ph_filesz(d, i) <= d.len()
    &&& ph_filesz(d, i) <= ph_memsz(d, i)
    &&& ph_vaddr(d, i) + ph_memsz(d, i) + PAGE_SIZE <= usize::MAX
}

/// A segment's file data lies in an image of `len` bytes and its pages lie
/// in the address space.
pub open spec fn seg_fits(s: Segment, len: int) -> bool {
    &&& s.offset + s.filesz <= len
    &&& s.vs <= s.ve
    &&& s.ve * PAGE_SIZE <= usize::MAX
}

/// The page after the last loadable segment (0 where there is none).
pub open spec fn segs_end(segs: Seq<Segment>) -> int {
    if segs.len() == 0 {
        0
    } else {
        segs.last().ve as int
    }
}

/// First page of the user stack: one guard page after the last segment.
pub open spec fn stack_vpn(d: Seq<u8>) -> int {
    segs_end(load_segs(d)) + 1
}

/// Top of the user stack, where the stack pointer starts and the heap will
/// begin.
pub open spec fn stack_top(d: Seq<u8>) -> int {
    (stack_vpn(d) + USER_STACK_PAGES) * PAGE_SIZE
}

/// Segment `s` shares no page with the pages `vs .. ve`.
pub open spec fn apart(s: Segment, vs: int, ve: int) -> bool {
    s.ve <= vs || ve <= s.vs || s.vs == s.ve || vs == ve
}

/// The image can be loaded: an ELF magic, 56-byte program headers that lie
/// in the image, loadable segments that fit and share no page with each
/// other nor with the stack, and room for the stack.
pub open spec fn elf_ok(d: Seq<u8>) -> bool {
    &&& headers_ok(d)
    &&& forall|j: int, l: int|
        0 <= j < l < load_segs(d).len() ==> apart(
            #[trigger] load_segs(d)[j],
            #[trigger] load_segs(d)[l].vs as int,
            load_segs(d)[l].ve as int,
        )
    &&& forall|j: int|
        0 <= j < load_segs(d).len() ==> apart(
            #[trigger] load_segs(d)[j],
            stack_vpn(d),
            stack_vpn(d) + USER_STACK_PAGES,
        )
    &&& stack_top(d) <= isize::MAX
}

/// The image has an ELF magic and 56-byte program headers that lie in it,
/// and its loadable segments fit.
pub open spec fn headers_ok(d: Seq<u8>) -> bool {
    &&& d.len() >= 64
    &&& d[0] == 0x7f && d[1] == 0x45 && d[2] == 0x4c && d[3] == 0x46
    &&& le_u16(d, 0x36) == PH_SIZE
    &&& le_u64(d, 0x20) + PH_SIZE * phnum(d) <= d.len()
    &&& forall|i: int| 0 <= i < phnum(d) && #[trigger] ph_type(d, i) == PT_LOAD ==> ph_ok(d, i)
}

/// Page `v` lies in one of the segments `segs`.
pub open spec fn covered(segs: Seq<Segment>, v: int) -> bool {
    exists|j: int| 0 <= j < segs.len() && (#[trigger] segs[j]).vs <= v < segs[j].ve
}

/// The page `v` of segment `s`: its file bytes, copied from the start of the
/// segment's first page on, then zeros.
pub open spec fn seg_page(d: Seq<u8>, s: Segment, v: int) -> PageState {
    PageState {
        flags: s.flags,
        data: Seq::new(
            PAGE_SIZE as nat,
            |o: int|
                {
                    let j = (v - s.vs) * PAGE_SIZE + o;
                    if j < s.filesz {
                        d[s.offset + j]
                    } else {
                        0u8
                    }
                },
        ),
    }
}

/// `m` with the first `k` pages of segment `s` added.
pub open spec fn add_pages(m: Map<usize, PageState>, d: Seq<u8>, s: Segment, k: int) -> Map<
    usize,
    PageState,
> {
    Map::new(
        |v: usize| m.contains_key(v) || (s.vs <= v < s.vs + k),
        |v: usize|
            if s.vs <= v < s.vs + k {
                seg_page(d, s, v as int)
            } else {
                m[v]
            },
    )
}

/// The pages of the segments `segs`.
pub open spec fn segments_map(d: Seq<u8>, segs: Seq<Segment>) -> Map<usize, PageState>
    decreases segs.len(),
{
    if segs.len() == 0 {
        Map::empty()
    } else {
        add_pages(
            segments_map(d, segs.drop_last()),
            d,
            segs.last(),
            segs.last().ve - segs.last().vs,
        )
    }
}

/// The address space built from an image: its segments, and the user stack
/// after a guard page.
pub open spec fn image_space(d: Seq<u8>) -> Map<usize, PageState> {
    map_range(segments_map(d, load_segs(d)), stack_vpn(d), USER_STACK_PAGES as int, STACK_FLAGS)
}

/// The little-endian 16-bit value at `off`.
fn read_u16(d: &Vec<u8>, off: usize) -> (r: u64)
    requires
        off + 2 <= d.len(),
    ensures
        r == le_u16(d@, off as int),
{
    d[off] as u64 + d[off + 1] as u64 * 256
}

/// The little-endian 32-bit value at `off`.
fn read_u32(d: &Vec<u8>, off: usize) -> (r: u64)
    requires
        off + 4 <= d.len(),
    ensures
        r == le_u32(d@, off as int),
{
    d[off] as u64 + d[off + 1] as u64 * 0x100 + d[off + 2] as u64 * 0x1_0000 + d[off + 3] as u64
        * 0x100_0000
}

/// The little-endian 64-bit value at `off`.
fn read_u64(d: &Vec<u8>, off: usize) -> (r: u64)
    requires
        off + 8 <= d.len(),
    ensures
        r == le_u64(d@, off as int),
{
    d[off] as u64 + d[off + 1] as u64 * 0x100 + d[off + 2] as u64 * 0x1_0000 + d[off + 3] as u64
        * 0x100_0000 + d[off + 4] as u64 * 0x1_0000_0000 + d[off + 5] as u64 * 0x100_0000_0000
        + d[off + 6] as u64 * 0x1_0000_0000_0000 + d[off + 7] as u64 * 0x100_0000_0000_0000
}

/// The image's entry point.
pub fn entry_point(d: &Vec<u8>) -> (r: usize)
    requires
        elf_ok(d@),
    ensures
        r == entry_of(d@) as usize,
{
    read_u64(d, 0x18) as usize
}

/// The loadable segments of the image, in order.
pub fn parse_segments(d: &Vec<u8>) -> (r: Vec<Segment>)
    requires
        headers_ok(d@),
    ensures
        r@ == load_segs(d@),
        forall|j: int| 0 <= j < r@.len() ==> seg_fits(#[trigger] r@[j], d@.len() as int),
{
    let phoff = read_u64(d, 0x20);
    let n = read_u16(d, 0x38);
    let mut r: Vec<Segment> = Vec::new();
    let mut i: u64 = 0;
    while i < n
        invariant
            headers_ok(d@),
            phoff == le_u64(d@, 0x20),
            n == phnum(d@),
            i <= n,
            r@ == segs_upto(d@, i as int),
            forall|j: int| 0 <= j < r@.len() ==> seg_fits(#[trigger] r@[j], d@.len() as int),
        decreases n - i,
    {
        let dl = d.len();
        assert(phoff + 56 * i + 56 <= d@.len()) by (nonlinear_arith)
            requires
                phoff + 56 * n <= d@.len(),
                i < n,
        ;
        let base = (phoff + 56 * i) as usize;
        assert(base == ph_base(d@, i as int));
        let t = read_u32(d, base);
        if t == 1 {
            assert(ph_type(d@, i as int) == PT_LOAD);
            assert(ph_ok(d@, i as int));
            let pf = read_u32(d, base + 4) as u32;
            let offset = read_u64(d, base + 8) as usize;
            let vaddr = read_u64(d, base + 16) as usize;
            let filesz = read_u64(d, base + 32) as usize;
            let memsz = read_u64(d, base + 40) as usize;
            let flags: u8 = PTE_V | PTE_U | (if pf & PF_R != 0 {
                PTE_R
            } else {
                0
            }) | (if pf & PF_W != 0 {
                PTE_W
            } else {
                0
            }) | (if pf & PF_X != 0 {
                PTE_X
            } else {
                0
            });
            let vs = vaddr / PAGE_SIZE;
            let ve = (vaddr + memsz + PAGE_SIZE - 1) / PAGE_SIZE;
            let seg = Segment { vs, ve, flags, offset, filesz };
            assert(seg == seg_of(d@, i as int));
            assert(vs <= ve && ve * 4096 <= usize::MAX) by (nonlinear_arith)
                requires
                    vs == vaddr / 4096,
                    ve == (vaddr + memsz + 4095) / 4096,
                    vaddr + memsz + 4096 <= usize::MAX,
            ;
            r.push(seg);
        }
        i += 1;
    }
    r
}

/// Whether the image can be loaded.
pub fn image_loadable(d: &Vec<u8>) -> (r: bool)
    ensures
        r == elf_ok(d@),
{
    let len = d.len();
    if len < 64 {
        return false;
    }
    if !(d[0] == 0x7f && d[1] == 0x45 && d[2] == 0x4c && d[3] == 0x46) {
        return false;
    }
    if read_u16(d, 0x36) != 56 {
        return false;
    }
    let phoff = read_u64(d, 0x20);
    let n = read_u16(d, 0x38);
    assert(n < 0x1_0000);
    if phoff > len as u64 || 56 * n > len as u64 - phoff {
        return false;
    }
    let mut i: u64 = 0;
    while i < n
        invariant
            len == d@.len(),
            len >= 64,
            d@[0] == 0x7f && d@[1] == 0x45 && d@[2] == 0x4c && d@[3] == 0x46,
            le_u16(d@, 0x36) == PH_SIZE,
            phoff == le_u64(d@, 0x20),
            n == phnum(d@),
            phoff + PH_SIZE * n <= len,
            i <= n,
            forall|j: int| 0 <= j < i && #[trigger] ph_type(d@, j) == PT_LOAD ==> ph_ok(d@, j),
        decreases n - i,
    {
        assert(phoff + 56 * i + 56 <= len) by (nonlinear_arith)
            requires
                phoff + 56 * n <= len,
                i < n,
        ;
        let base = (phoff + 56 * i) as usize;
        assert(base == ph_base(d@, i as int));
        if read_u32(d, base) == 1 {
            assert(ph_type(d@, i as int) == PT_LOAD);
            let offset = read_u64(d, base + 8);
            let vaddr = read_u64(d, base + 16);
            let filesz = read_u64(d, base + 32);
            let memsz = read_u64(d, base + 40);
            if offset > len as u64 || filesz > len as u64 - offset || filesz > memsz
                || vaddr > usize::MAX as u64 - PAGE_SIZE as u64
                || memsz > usize::MAX as u64 - PAGE_SIZE as u64 - vaddr {
                assert(!ph_ok(d@, i as int));
                return false;
            }
            assert(ph_ok(d@, i as int));
        }
        i += 1;
    }
    assert(headers_ok(d@));
    let segs = parse_segments(d);
    let ns = segs.len();
    let end: usize = if ns == 0 {
        0
    } else {
        segs[ns - 1].ve
    };
    assert(end == segs_end(load_segs(d@)));
    assert(end * 4096 <= usize::MAX) by {
        if ns > 0 {
            assert(seg_fits(segs@[ns - 1], len as int));
        }
    }
    if end > isize::MAX as usize / PAGE_SIZE {
        assert((end + 3) * 4096 > isize::MAX) by (nonlinear_arith)
            requires
                end > isize::MAX / 4096,
        ;
        return false;
    }
    if (end + 3) * PAGE_SIZE > isize::MAX as usize {
        return false;
    }
    assert(stack_top(d@) <= isize::MAX);
    let sv = end + 1;
    assert(sv == stack_vpn(d@));
    let mut a: usize = 0;
    while a < ns
        invariant
            segs@ == load_segs(d@),
            ns == segs.len(),
            sv == stack_vpn(d@),
            sv + USER_STACK_PAGES <= usize::MAX,
            a <= ns,
            forall|j: int, l: int| 0 <= j < a && j < l < ns ==> apart(
                #[trigger] segs@[j],
                #[trigger] segs@[l].vs as int,
                segs@[l].ve as int,
            ),
            forall|j: int| 0 <= j < a ==> apart(#[trigger] segs@[j], sv as int, sv + USER_STACK_PAGES),
        decreases ns - a,
    {
        let sa = segs[a];
        if !(sa.ve <= sv || sv + USER_STACK_PAGES <= sa.vs || sa.vs == sa.ve) {
            assert(!apart(segs@[a as int], stack_vpn(d@), stack_vpn(d@) + USER_STACK_PAGES));
            return false;
        }
        let mut b: usize = a + 1;
        while b < ns
            invariant
                segs@ == load_segs(d@),
                ns == segs.len(),
                a < ns,
                sa == segs@[a as int],
                a + 1 <= b <= ns,
                forall|l: int| a < l < b ==> apart(sa, #[trigger] segs@[l].vs as int, segs@[l].ve as int),
            decreases ns - b,
        {
            let sb = segs[b];
            if !(sa.ve <= sb.vs || sb.ve <= sa.vs || sa.vs == sa.ve || sb.vs == sb.ve) {
                assert(!apart(segs@[a as int], segs@[b as int].vs as int, segs@[b as int].ve as int));
                return false;
            }
            b += 1;
        }
        a += 1;
    }
    true
}

/// The bytes of page `v` of segment `s`.
fn segment_page_data(d: &Vec<u8>, s: Segment, v: usize) -> (r: Vec<u8>)
    requires
        seg_fits(s, d@.len() as int),
        s.vs <= v < s.ve,
    ensures
        r@ == seg_page(d@, s, v as int).data,
{
    let base = (v - s.vs) * PAGE_SIZE;
    assert(base + PAGE_SIZE <= s.ve * PAGE_SIZE) by (nonlinear_arith)
        requires
            base == (v - s.vs) * 4096,
            s.vs <= v < s.ve,
    ;
    let mut r: Vec<u8> = Vec::new();
    let mut o: usize = 0;
    while o < PAGE_SIZE
        invariant
            seg_fits(s, d@.len() as int),
            base == (v - s.vs) * PAGE_SIZE,
            base + PAGE_SIZE <= usize::MAX,
            o <= PAGE_SIZE,
            r@ == seg_page(d@, s, v as int).data.take(o as int),
        decreases PAGE_SIZE - o,
    {
        let j = base + o;
        let b = if j < s.filesz {
            let dl = d.len();
            assert(s.offset + j < dl);
            d[s.offset + j]
        } else {
            0u8
        };
        r.push(b);
        assert(r@ =~= seg_page(d@, s, v as int).data.take(o + 1));
        o += 1;
    }
    assert(r@ =~= seg_page(d@, s, v as int).data);
    r
}

/// Builds the address space of an image: each loadable segment's pages
/// with its bits and file data, then the user stack after a guard page.
/// Gives the space, the top of the stack and the entry point.
pub fn load_image(d: &Vec<u8>) -> (r: (AddressSpace, usize, usize))
    requires
        elf_ok(d@),
    ensures
        r.0.wf(),
        r.0@ == image_space(d@),
        r.1 == stack_top(d@),
        r.2 == entry_of(d@) as usize,
{
    let segs = parse_segments(d);
    let mut space = AddressSpace::new();
    let mut k: usize = 0;
    let mut bound: usize = 0;
    assert(segments_map(d@, segs@.take(0)) =~= Map::<usize, PageState>::empty());
    while k < segs.len()
        invariant
            elf_ok(d@),
            segs@ == load_segs(d@),
            forall|j: int| 0 <= j < segs@.len() ==> seg_fits(#[trigger] segs@[j], d@.len() as int),
            k <= segs.len(),
            space.wf(),
            space@ == segments_map(d@, segs@.take(k as int)),
            bound == segs_end(segs@.take(k as int)),
            forall|v: usize| #[trigger] space@.contains_key(v) ==> covered(segs@.take(k as int), v as int),
        decreases segs.len() - k,
    {
        let s = segs[k];
        assert(seg_fits(s, d@.len() as int));
        let ghost m0 = space@;
        let ghost prev = segs@.take(k as int);
        let mut v: usize = s.vs;
        assert(add_pages(m0, d@, s, 0) =~= m0);
        while v < s.ve
            invariant
                elf_ok(d@),
                segs@ == load_segs(d@),
                k < segs.len(),
                s == segs@[k as int],
                prev == segs@.take(k as int),
                seg_fits(s, d@.len() as int),
                s.vs <= v <= s.ve,
                space.wf(),
                space@ == add_pages(m0, d@, s, v - s.vs),
                forall|u: usize| #[trigger] m0.contains_key(u) ==> covered(prev, u as int),
                forall|u: usize| #[trigger] space@.contains_key(u) ==> covered(prev, u as int) || (s.vs <= u < v),
            decreases s.ve - v,
        {
            proof {
                if space@.contains_key(v) {
                    assert(covered(prev, v as int));
                    let j = choose|j: int| 0 <= j < prev.len() && (#[trigger] prev[j]).vs <= v < prev[j].ve;
                    assert(prev[j] == segs@[j]);
                    assert(apart(segs@[j], segs@[k as int].vs as int, segs@[k as int].ve as int));
                }
            }
            let data = segment_page_data(d, s, v);
            space.map_page(v, s.flags, data);
            assert(space@ =~= add_pages(m0, d@, s, v + 1 - s.vs));
            v += 1;
        }
        assert(segs@.take(k + 1).drop_last() =~= segs@.take(k as int));
        assert(segs@.take(k + 1).last() == s);
        proof {
            let next = segs@.take(k + 1);
            assert forall|u: usize| #[trigger] space@.contains_key(u) implies covered(next, u as int) by {
                if covered(prev, u as int) {
                    let j = choose|j: int| 0 <= j < prev.len() && (#[trigger] prev[j]).vs <= u < prev[j].ve;
                    assert(next[j] == prev[j]);
                } else {
                    assert(next[k as int] == s);
                }
            }
        }
        bound = s.ve;
        k += 1;
    }
    assert(segs@.take(segs.len() as int) =~= segs@);
    let sv = bound + 1;
    assert(sv == stack_vpn(d@));
    assert((sv + 2) * 4096 <= isize::MAX);
    proof {
        assert forall|u: usize| sv <= u < sv + 2 implies !#[trigger] space@.contains_key(u) by {
            if space@.contains_key(u) {
                let j = choose|j: int| 0 <= j < segs@.len() && (#[trigger] segs@[j]).vs <= u < segs@[j].ve;
                assert(apart(segs@[j], stack_vpn(d@), stack_vpn(d@) + USER_STACK_PAGES));
            }
        }
    }
    let ghost m1 = space@;
    space.map_zeroed(sv, STACK_FLAGS);
    space.map_zeroed(sv + 1, STACK_FLAGS);
    assert(space@ =~= map_range(m1, sv as int, USER_STACK_PAGES as int, STACK_FLAGS));
    let top = (sv + USER_STACK_PAGES) * PAGE_SIZE;
    let entry = entry_point(d);
    (space, top, entry)
}

/// How many pages the address space of an image has: the frames loading
/// it takes from the pool.
pub fn image_pages(d: &Vec<u8>) -> (r: usize)
    requires
        elf_ok(d@),
    ensures
        r == image_space(d@).dom().len(),
{
    let (space, _top, _entry) = load_image(d);
    space.page_count()
}


/// A segment's pages are readable, writable and executable as its ELF
/// permission bits ask: read (4), write (2), execute (1) give the page-table
/// bits R (2), W (4), X (8); every page is valid (1) and a user page (16),
/// and no other bit is set.
pub proof fn lemma_segment_flags(pf: u32)
    ensures
        (seg_flags(pf) & 2 != 0) <==> (pf & 4 != 0),
        (seg_flags(pf) & 4 != 0) <==> (pf & 2 != 0),
        (seg_flags(pf) & 8 != 0) <==> (pf & 1 != 0),
        seg_flags(pf) & 1 != 0,
        seg_flags(pf) & 16 != 0,
        seg_flags(pf) & 0xe0 == 0,
{
    let r = pf & 4 != 0;
    let w = pf & 2 != 0;
    let x = pf & 1 != 0;
    let f = seg_flags(pf);
    assert(f == (1u8 | 16u8 | (if r { 2u8 } else { 0u8 }) | (if w { 4u8 } else { 0u8 }) | (if x {
        8u8
    } else {
        0u8
    })));
    let a: u8 = if r { 2u8 } else { 0u8 };
    let b: u8 = if w { 4u8 } else { 0u8 };
    let c: u8 = if x { 8u8 } else { 0u8 };
    assert(a == 0 || a == 2);
    assert(b == 0 || b == 4);
    assert(c == 0 || c == 8);
    let g: u8 = 1u8 | 16u8 | a | b | c;
    assert(((g & 2 != 0) == (a == 2)) && ((g & 4 != 0) == (b == 4)) && ((g & 8 != 0) == (c == 8))
        && g & 1 != 0 && g & 16 != 0 && g & 0xe0 == 0) by (bit_vector)
        requires
            a == 0 || a == 2,
            b == 0 || b == 4,
            c == 0 || c == 8,
            g == 1u8 | 16u8 | a | b | c,
    ;
}

} // verus!
