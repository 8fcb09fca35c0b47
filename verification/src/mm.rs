//! User address spaces: the pages a task has mapped, their permission bits
//! and their bytes, with the kernel-side accessors that resolve a user
//! virtual address and read or write through it.
use vstd::prelude::*;

verus! {

/// Size of a page in bytes.
pub const PAGE_SIZE: usize = 4096;

/// Page-table entry bits (RISC-V Sv39 layout).
pub const PTE_V: u8 = 1;
pub const PTE_R: u8 = 2;
pub const PTE_W: u8 = 4;
pub const PTE_X: u8 = 8;
pub const PTE_U: u8 = 16;

/// What a mapped page holds: its permission bits and its bytes.
#[verifier::ext_equal]
pub struct PageState {
    pub flags: u8,
    pub data: Seq<u8>,
}

/// A freshly allocated frame mapped with `flags`: frames come zeroed.
pub open spec fn zero_page(flags: u8) -> PageState {
    PageState { flags, data: Seq::new(PAGE_SIZE as nat, |i: int| 0u8) }
}

/// Whether the page that holds `va` is mapped.
pub open spec fn is_mapped(m: Map<usize, PageState>, va: int) -> bool {
    0 <= va <= usize::MAX && m.contains_key((va / PAGE_SIZE as int) as usize)
}

/// The byte at user address `va` (meaningful where `is_mapped`).
pub open spec fn byte_at(m: Map<usize, PageState>, va: int) -> u8 {
    m[(va / PAGE_SIZE as int) as usize].data[va % PAGE_SIZE as int]
}

/// Every byte of `[va, va + len)` lies in a mapped page.
pub open spec fn range_mapped(m: Map<usize, PageState>, va: int, len: int) -> bool {
    forall|k: int| 0 <= k < len ==> #[trigger] is_mapped(m, va + k)
}

/// `new` is `old` with the bytes of `s` stored from `va` on: the same pages
/// with the same permission bits, and every other byte unchanged.
pub open spec fn stores(
    old: Map<usize, PageState>,
    new: Map<usize, PageState>,
    va: int,
    s: Seq<u8>,
) -> bool {
    &&& new.dom() == old.dom()
    &&& forall|v: usize| #[trigger] new.contains_key(v) ==> new[v].flags == old[v].flags
        && new[v].data.len() == old[v].data.len()
    &&& forall|a: int| #[trigger] is_mapped(new, a) ==> byte_at(new, a) == if va <= a < va + s.len() {
        s[a - va]
    } else {
        byte_at(old, a)
    }
}

/// The string at `va` has length `n`: `n` mapped non-zero bytes
/// followed by a mapped zero byte.
pub open spec fn cstr_at(m: Map<usize, PageState>, va: int, n: int) -> bool {
    &&& 0 <= n
    &&& va + n <= usize::MAX
    &&& forall|k: int| 0 <= k < n ==> #[trigger] is_mapped(m, va + k) && byte_at(m, va + k) != 0
    &&& is_mapped(m, va + n)
    &&& byte_at(m, va + n) == 0
}

/// `m` with pages `vpn0 .. vpn0 + k` mapped to fresh zeroed frames.
pub open spec fn map_range(m: Map<usize, PageState>, vpn0: int, k: int, flags: u8) -> Map<
    usize,
    PageState,
> {
    Map::new(
        |v: usize| m.contains_key(v) || (vpn0 <= v < vpn0 + k),
        |v: usize|
            if vpn0 <= v < vpn0 + k {
                zero_page(flags)
            } else {
                m[v]
            },
    )
}

/// `m` with pages `vpn0 .. vpn0 + k` unmapped.
pub open spec fn unmap_range(m: Map<usize, PageState>, vpn0: int, k: int) -> Map<
    usize,
    PageState,
> {
    m.remove_keys(Set::new(|v: usize| vpn0 <= v < vpn0 + k))
}

/// Storing `s` then `b` right after it is storing `s` followed by `b`.
pub proof fn lemma_stores_push(
    m0: Map<usize, PageState>,
    m1: Map<usize, PageState>,
    m2: Map<usize, PageState>,
    va: int,
    s: Seq<u8>,
    b: u8,
)
    requires
        stores(m0, m1, va, s),
        stores(m1, m2, va + s.len(), seq![b]),
    ensures
        stores(m0, m2, va, s.push(b)),
{
    assert forall|a: int| #[trigger] is_mapped(m2, a) implies byte_at(m2, a) == if va <= a < va
        + s.push(b).len() {
        s.push(b)[a - va]
    } else {
        byte_at(m0, a)
    } by {
        assert(is_mapped(m1, a));
    }
}

/// Reading back what was stored gives what was stored, byte for byte.
pub proof fn lemma_read_after_store(
    m0: Map<usize, PageState>,
    m1: Map<usize, PageState>,
    va: int,
    s: Seq<u8>,
    k: int,
)
    requires
        stores(m0, m1, va, s),
        range_mapped(m0, va, s.len() as int),
        0 <= k < s.len(),
    ensures
        is_mapped(m1, va + k),
        byte_at(m1, va + k) == s[k],
{
    assert(is_mapped(m0, va + k));
    assert(is_mapped(m1, va + k));
}

/// Storing leaves every byte outside the stored range as it was.
pub proof fn lemma_store_elsewhere(
    m0: Map<usize, PageState>,
    m1: Map<usize, PageState>,
    va: int,
    s: Seq<u8>,
    a: int,
)
    requires
        stores(m0, m1, va, s),
        is_mapped(m0, a),
        a < va || va + s.len() <= a,
    ensures
        is_mapped(m1, a),
        byte_at(m1, a) == byte_at(m0, a),
{
    assert(is_mapped(m1, a));
}

/// One mapped page of a user address space.
pub struct UserPage {
    pub vpn: usize,
    pub flags: u8,
    pub data: Vec<u8>,
}

/// A stored page is a full page and is what the map says it is.
pub open spec fn page_ok(m: Map<usize, PageState>, p: UserPage) -> bool {
    &&& p.data.len() == PAGE_SIZE
    &&& m.contains_key(p.vpn)
    &&& m[p.vpn] == p.state()
}

impl UserPage {
    pub open spec fn state(&self) -> PageState {
        PageState { flags: self.flags, data: self.data@ }
    }
}

/// The user part of a task's memory: its page table together with the
/// frames it maps, seen as a map from virtual page number to page.
pub struct AddressSpace {
    pages: Vec<UserPage>,
    mapping: Ghost<Map<usize, PageState>>,
}

impl View for AddressSpace {
    type V = Map<usize, PageState>;

    closed spec fn view(&self) -> Map<usize, PageState> {
        self.mapping@
    }
}

impl AddressSpace {
    pub closed spec fn wf(&self) -> bool {
        &&& self.mapping@.dom().finite()
        &&& forall|i: int|
            0 <= i < self.pages.len() ==> page_ok(self.mapping@, #[trigger] self.pages[i])
        &&& forall|v: usize| #[trigger]
            self.mapping@.contains_key(v) ==> exists|i: int|
                0 <= i < self.pages.len() && #[trigger] self.pages[i].vpn == v
        &&& forall|i: int, j: int|
            0 <= i < self.pages.len() && 0 <= j < self.pages.len() && i != j ==> #[trigger] self.pages[i].vpn
                != #[trigger] self.pages[j].vpn
    }

    /// Only finitely many pages are mapped.
    pub proof fn lemma_dom_finite(&self)
        requires
            self.wf(),
        ensures
            self@.dom().finite(),
    {
    }

    /// An address space with nothing mapped.
    pub fn new() -> (s: Self)
        ensures
            s.wf(),
            s@ == Map::<usize, PageState>::empty(),
    {
        AddressSpace { pages: Vec::new(), mapping: Ghost(Map::empty()) }
    }

    fn find(&self, vpn: usize) -> (r: Option<usize>)
        requires
            self.wf(),
        ensures
            match r {
                Some(i) => i < self.pages.len() && self.pages[i as int].vpn == vpn
                    && self@.contains_key(vpn),
                None => !self@.contains_key(vpn),
            },
    {
        let mut i: usize = 0;
        while i < self.pages.len()
            invariant
                self.wf(),
                i <= self.pages.len(),
                forall|j: int| 0 <= j < i ==> self.pages[j].vpn != vpn,
            decreases self.pages.len() - i,
        {
            if self.pages[i].vpn == vpn {
                return Some(i);
            }
            i += 1;
        }
        None
    }

    /// The permission bits of page `vpn`, if it is mapped.
    pub fn page_flags(&self, vpn: usize) -> (r: Option<u8>)
        requires
            self.wf(),
        ensures
            r == (if self@.contains_key(vpn) {
                Some(self@[vpn].flags)
            } else {
                None
            }),
    {
        match self.find(vpn) {
            Some(i) => Some(self.pages[i].flags),
            None => None,
        }
    }

    /// Whether page `vpn` is mapped.
    pub fn contains(&self, vpn: usize) -> (r: bool)
        requires
            self.wf(),
        ensures
            r == self@.contains_key(vpn),
    {
        self.find(vpn).is_some()
    }

    /// Maps page `vpn` to a fresh frame holding `data`, with permission bits
    /// `flags`.
    pub fn map_page(&mut self, vpn: usize, flags: u8, data: Vec<u8>)
        requires
            old(self).wf(),
            !old(self)@.contains_key(vpn),
            data@.len() == PAGE_SIZE,
        ensures
            final(self).wf(),
            final(self)@ == old(self)@.insert(vpn, PageState { flags, data: data@ }),
    {
        let ghost st = PageState { flags, data: data@ };
        let ghost old_pages = self.pages@;
        self.pages.push(UserPage { vpn, flags, data });
        self.mapping = Ghost(self.mapping@.insert(vpn, st));
        assert forall|v: usize| #[trigger]
            self.mapping@.contains_key(v) implies exists|i: int|
                0 <= i < self.pages.len() && #[trigger] self.pages[i].vpn == v by {
            if v == vpn {
                assert(self.pages[old_pages.len() as int].vpn == v);
            } else {
                let i = choose|i: int| 0 <= i < old_pages.len() && #[trigger] old_pages[i].vpn == v;
                assert(self.pages[i].vpn == v);
            }
        }
    }

    /// Maps page `vpn` to a fresh zeroed frame with permission bits `flags`.
    pub fn map_zeroed(&mut self, vpn: usize, flags: u8)
        requires
            old(self).wf(),
            !old(self)@.contains_key(vpn),
        ensures
            final(self).wf(),
            final(self)@ == old(self)@.insert(vpn, zero_page(flags)),
    {
        let data: Vec<u8> = vec![0u8; PAGE_SIZE];
        assert(data@ =~= zero_page(flags).data);
        self.map_page(vpn, flags, data);
    }

    /// Removes the mapping of page `vpn`.
    pub fn unmap(&mut self, vpn: usize)
        requires
            old(self).wf(),
            old(self)@.contains_key(vpn),
        ensures
            final(self).wf(),
            final(self)@ == old(self)@.remove(vpn),
    {
        let i = self.find(vpn).unwrap();
        let ghost old_pages = self.pages@;
        let ghost last = (old_pages.len() - 1) as int;
        self.pages.swap_remove(i);
        self.mapping = Ghost(self.mapping@.remove(vpn));
        assert forall|k: int|
            0 <= k < self.pages.len() implies page_ok(self.mapping@, #[trigger] self.pages[k]) by {
            if k == i {
                assert(self.pages[k] == old_pages[last]);
                assert(old_pages[last].vpn != vpn);
            } else {
                assert(self.pages[k] == old_pages[k]);
                assert(old_pages[k].vpn != vpn);
            }
        }
        assert forall|v: usize| #[trigger]
            self.mapping@.contains_key(v) implies exists|k: int|
                0 <= k < self.pages.len() && #[trigger] self.pages[k].vpn == v by {
            let j = choose|j: int| 0 <= j < old_pages.len() && #[trigger] old_pages[j].vpn == v;
            if j == last {
                assert(self.pages[i as int].vpn == v);
            } else {
                assert(self.pages[j].vpn == v);
            }
        }
        assert forall|a: int, b: int|
            0 <= a < self.pages.len() && 0 <= b < self.pages.len() && a != b implies #[trigger] self.pages[a].vpn
                != #[trigger] self.pages[b].vpn by {
            let oa = if a == i { last } else { a };
            let ob = if b == i { last } else { b };
            assert(self.pages[a] == old_pages[oa]);
            assert(self.pages[b] == old_pages[ob]);
        }
    }

    /// The byte at user address `va`.
    pub fn read_byte(&self, va: usize) -> (b: u8)
        requires
            self.wf(),
            is_mapped(self@, va as int),
        ensures
            b == byte_at(self@, va as int),
    {
        let i = self.find(va / PAGE_SIZE).unwrap();
        assert(page_ok(self.mapping@, self.pages[i as int]));
        self.pages[i].data[va % PAGE_SIZE]
    }

    /// Stores `b` at user address `va`.
    pub fn write_byte(&mut self, va: usize, b: u8)
        requires
            old(self).wf(),
            is_mapped(old(self)@, va as int),
        ensures
            final(self).wf(),
            stores(old(self)@, final(self)@, va as int, seq![b]),
    {
        let vpn = va / PAGE_SIZE;
        let off = va % PAGE_SIZE;
        let i = self.find(vpn).unwrap();
        let ghost old_map = self.mapping@;
        let ghost old_pages = self.pages@;
        assert(page_ok(old_map, old_pages[i as int]));
        self.pages[i].data[off] = b;
        let ghost new_state = self.pages[i as int].state();
        self.mapping = Ghost(self.mapping@.insert(vpn, new_state));
        assert forall|k: int|
            0 <= k < self.pages.len() implies page_ok(self.mapping@, #[trigger] self.pages[k]) by {
            if k != i {
                assert(self.pages[k] == old_pages[k]);
                assert(old_pages[k].vpn != vpn);
            }
        }
        assert forall|v: usize| #[trigger]
            self.mapping@.contains_key(v) implies exists|k: int|
                0 <= k < self.pages.len() && #[trigger] self.pages[k].vpn == v by {
            let j = choose|j: int| 0 <= j < old_pages.len() && #[trigger] old_pages[j].vpn == v;
            assert(self.pages[j].vpn == v);
        }
        assert forall|a: int, c: int|
            0 <= a < self.pages.len() && 0 <= c < self.pages.len() && a != c implies #[trigger] self.pages[a].vpn
                != #[trigger] self.pages[c].vpn by {
            assert(self.pages[a].vpn == old_pages[a].vpn);
            assert(self.pages[c].vpn == old_pages[c].vpn);
        }
        assert(new_state.data == old_map[vpn].data.update(off as int, b));
        assert(self.mapping@.dom() =~= old_map.dom());
        assert forall|a: int| #[trigger] is_mapped(self@, a) implies byte_at(self@, a) == if va
            <= a < va + 1 {
            seq![b][a - va]
        } else {
            byte_at(old_map, a)
        } by {
            let av = (a / PAGE_SIZE as int) as usize;
            if a == va {
                assert(av == vpn);
            } else if av == vpn {
                assert(a % PAGE_SIZE as int != off) by (nonlinear_arith)
                    requires
                        a / 4096 == va / 4096,
                        a != va,
                        0 <= a,
                        off == va % 4096,
                ;
            } else {
                assert(self.mapping@[av] == old_map[av]);
            }
        }
    }

    /// The `len` bytes at user address `va`.
    pub fn read_bytes(&self, va: usize, len: usize) -> (r: Vec<u8>)
        requires
            self.wf(),
            range_mapped(self@, va as int, len as int),
        ensures
            r@.len() == len,
            forall|k: int| 0 <= k < len ==> #[trigger] r@[k] == byte_at(self@, va + k),
    {
        let mut r: Vec<u8> = Vec::new();
        let mut k: usize = 0;
        while k < len
            invariant
                self.wf(),
                range_mapped(self@, va as int, len as int),
                k <= len,
                r@.len() == k,
                forall|j: int| 0 <= j < k ==> #[trigger] r@[j] == byte_at(self@, va + j),
            decreases len - k,
        {
            assert(is_mapped(self@, va + k));
            let b = self.read_byte(va + k);
            r.push(b);
            k += 1;
        }
        r
    }

    /// Stores `bytes` from user address `va` on.
    pub fn write_bytes(&mut self, va: usize, bytes: &Vec<u8>)
        requires
            old(self).wf(),
            range_mapped(old(self)@, va as int, bytes.len() as int),
        ensures
            final(self).wf(),
            stores(old(self)@, final(self)@, va as int, bytes@),
    {
        let ghost m0 = self@;
        let mut k: usize = 0;
        assert(stores(m0, self@, va as int, bytes@.take(0)));
        while k < bytes.len()
            invariant
                self.wf(),
                range_mapped(m0, va as int, bytes.len() as int),
                k <= bytes.len(),
                stores(m0, self@, va as int, bytes@.take(k as int)),
            decreases bytes.len() - k,
        {
            assert(is_mapped(m0, va + k));
            assert(is_mapped(self@, va + k));
            let ghost m1 = self@;
            self.write_byte(va + k, bytes[k]);
            proof {
                lemma_stores_push(m0, m1, self@, va as int, bytes@.take(k as int), bytes[k as int]);
                assert(bytes@.take(k as int).push(bytes[k as int]) =~= bytes@.take(k + 1));
            }
            k += 1;
        }
        assert(bytes@.take(bytes.len() as int) =~= bytes@);
    }

    /// The NUL-terminated string at user address `va`, without its NUL.
    pub fn read_cstr(&self, va: usize) -> (r: Vec<u8>)
        requires
            self.wf(),
            exists|n: int| cstr_at(self@, va as int, n),
        ensures
            cstr_at(self@, va as int, r@.len() as int),
            forall|k: int| 0 <= k < r@.len() ==> #[trigger] r@[k] == byte_at(self@, va + k),
    {
        let ghost n = choose|n: int| cstr_at(self@, va as int, n);
        let mut r: Vec<u8> = Vec::new();
        let mut k: usize = 0;
        loop
            invariant
                self.wf(),
                cstr_at(self@, va as int, n),
                k <= n,
                r@.len() == k,
                forall|j: int| 0 <= j < k ==> #[trigger] r@[j] == byte_at(self@, va + j),
            decreases n - k,
        {
            proof {
                if k < n {
                    assert(is_mapped(self@, va + k));
                }
            }
            let b = self.read_byte(va + k);
            if b == 0 {
                return r;
            }
            r.push(b);
            k += 1;
        }
    }

    /// A copy of this address space: the same pages with the same bytes.
    pub fn clone_space(&self) -> (r: Self)
        requires
            self.wf(),
        ensures
            r.wf(),
            r@ == self@,
    {
        let mut pages: Vec<UserPage> = Vec::new();
        let mut i: usize = 0;
        while i < self.pages.len()
            invariant
                self.wf(),
                i <= self.pages.len(),
                pages@.len() == i,
                forall|j: int|
                    0 <= j < i ==> #[trigger] pages@[j].vpn == self.pages@[j].vpn
                        && pages@[j].state() == self.pages@[j].state(),
            decreases self.pages.len() - i,
        {
            let p = &self.pages[i];
            let mut data: Vec<u8> = Vec::new();
            let mut k: usize = 0;
            while k < p.data.len()
                invariant
                    k <= p.data.len(),
                    data@ == p.data@.take(k as int),
                decreases p.data.len() - k,
            {
                data.push(p.data[k]);
                assert(p.data@.take(k as int).push(p.data@[k as int]) =~= p.data@.take(k + 1));
                k += 1;
            }
            assert(p.data@.take(p.data.len() as int) =~= p.data@);
            pages.push(UserPage { vpn: p.vpn, flags: p.flags, data });
            i += 1;
        }
        let r = AddressSpace { pages, mapping: Ghost(self.mapping@) };
        assert forall|j: int| 0 <= j < r.pages.len() implies page_ok(r.mapping@, #[trigger] r.pages[j]) by {
            assert(page_ok(self.mapping@, self.pages[j]));
            assert(r.pages[j].vpn == self.pages[j].vpn);
            assert(r.pages[j].state() == self.pages[j].state());
            assert(r.pages[j].data@.len() == self.pages[j].data@.len());
        }
        assert forall|v: usize| #[trigger]
            r.mapping@.contains_key(v) implies exists|j: int|
                0 <= j < r.pages.len() && #[trigger] r.pages[j].vpn == v by {
            let j = choose|j: int| 0 <= j < self.pages.len() && #[trigger] self.pages[j].vpn == v;
            assert(r.pages[j].vpn == v);
        }
        assert forall|a: int, c: int|
            0 <= a < r.pages.len() && 0 <= c < r.pages.len() && a != c implies #[trigger] r.pages[a].vpn
                != #[trigger] r.pages[c].vpn by {
            assert(r.pages[a].vpn == self.pages[a].vpn);
            assert(r.pages[c].vpn == self.pages[c].vpn);
        }
        r
    }

    /// The number of mapped pages.
    pub fn page_count(&self) -> (r: usize)
        requires
            self.wf(),
        ensures
            r == self@.dom().len(),
    {
        let ghost vpns = self.pages@.map_values(|p: UserPage| p.vpn);
        proof {
            assert(vpns.no_duplicates()) by {
                assert forall|i: int, j: int| 0 <= i < vpns.len() && 0 <= j < vpns.len() && i != j implies vpns[i] != vpns[j] by {
                    assert(self.pages[i].vpn != self.pages[j].vpn);
                }
            }
            vpns.unique_seq_to_set();
            assert forall|v: usize| #[trigger] vpns.to_set().contains(v) == self@.contains_key(v) by {
                if self@.contains_key(v) {
                    let i = choose|i: int| 0 <= i < self.pages.len() && #[trigger] self.pages[i].vpn == v;
                    assert(vpns[i] == v);
                }
                if vpns.to_set().contains(v) {
                    let i = choose|i: int| 0 <= i < vpns.len() && vpns[i] == v;
                    assert(page_ok(self.mapping@, self.pages[i]));
                }
            }
            assert(vpns.to_set() =~= self@.dom());
        }
        self.pages.len()
    }
}

} // verus!
