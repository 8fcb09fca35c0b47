//! The file system: one root directory of named entries, each naming an
//! inode that holds a file's bytes. Several entries may name one inode
//! (hard links); an inode's link count is the number of entries naming it.
use vstd::prelude::*;

verus! {

/// `open` flags.
pub const O_RDONLY: u32 = 0;
pub const O_WRONLY: u32 = 1;
pub const O_RDWR: u32 = 2;
pub const O_CREATE: u32 = 512;
pub const O_TRUNC: u32 = 1024;

/// `st_mode` of a regular file and of a directory.
pub const S_IFDIR: u32 = 0o040000;
pub const S_IFREG: u32 = 0o100000;

/// Whether `flags` is made of known `open` flags only.
pub open spec fn open_flags_known(flags: u32) -> bool {
    flags & !(O_WRONLY | O_RDWR | O_CREATE | O_TRUNC) == 0
}

/// Whether `flags` names only known `open` flags.
pub fn open_flags_from_bits(flags: u32) -> (r: bool)
    ensures
        r == open_flags_known(flags),
{
    flags & !(O_WRONLY | O_RDWR | O_CREATE | O_TRUNC) == 0
}

/// The access that `flags` grants: no flag at all is read-only, `O_WRONLY`
/// is write-only, anything else is read-write.
pub open spec fn read_write_spec(flags: u32) -> (bool, bool) {
    if flags == 0 {
        (true, false)
    } else if flags & O_WRONLY != 0 {
        (false, true)
    } else {
        (true, true)
    }
}

/// The (readable, writable) access that `flags` grants.
pub fn read_write(flags: u32) -> (r: (bool, bool))
    ensures
        r == read_write_spec(flags),
{
    if flags == 0 {
        (true, false)
    } else if flags & O_WRONLY != 0 {
        (false, true)
    } else {
        (true, true)
    }
}

/// What `fstat` reports of a file.
#[derive(Clone, Copy, Debug, PartialEq, Eq)]
pub struct Stat {
    pub dev: u64,
    pub ino: u64,
    pub mode: u32,
    pub nlink: u32,
}

/// An inode: the bytes of one file.
pub struct Inode {
    pub data: Vec<u8>,
}

/// A directory entry: a name and the inode it names.
pub struct DirEntry {
    pub name: Vec<u8>,
    pub inode: usize,
}

/// The contents of the file system as a reader sees it.
#[verifier::ext_equal]
pub struct FsState {
    /// The bytes of each inode, by inode number.
    pub files: Seq<Seq<u8>>,
    /// The entries of the root directory, in order.
    pub dir: Seq<(Seq<u8>, usize)>,
}

/// The inode that `name` names, if any entry has that name.
pub open spec fn lookup(dir: Seq<(Seq<u8>, usize)>, name: Seq<u8>) -> Option<usize> {
    if exists|i: int| 0 <= i < dir.len() && #[trigger] dir[i].0 == name {
        Some(dir[choose|i: int| 0 <= i < dir.len() && #[trigger] dir[i].0 == name].1)
    } else {
        None
    }
}

/// The number of entries that name inode `ino`.
pub open spec fn nlink(dir: Seq<(Seq<u8>, usize)>, ino: usize) -> nat
    decreases dir.len(),
{
    if dir.len() == 0 {
        0
    } else {
        nlink(dir.drop_last(), ino) + if dir.last().1 == ino {
            1nat
        } else {
            0nat
        }
    }
}

/// The position of the entry called `name` (meaningful where one exists).
pub open spec fn entry_index(dir: Seq<(Seq<u8>, usize)>, name: Seq<u8>) -> int {
    choose|i: int| 0 <= i < dir.len() && #[trigger] dir[i].0 == name
}

/// The directory after linking `new_name` to the inode of `old_name`: a new
/// entry where `old_name` exists and `new_name` does not, else unchanged.
pub open spec fn link_spec(dir: Seq<(Seq<u8>, usize)>, old_name: Seq<u8>, new_name: Seq<u8>) -> Seq<
    (Seq<u8>, usize),
> {
    match (lookup(dir, old_name), lookup(dir, new_name)) {
        (Some(ino), None) => dir.push((new_name, ino)),
        _ => dir,
    }
}

/// The directory after unlinking `name`: its entry removed, if it has one.
pub open spec fn unlink_spec(dir: Seq<(Seq<u8>, usize)>, name: Seq<u8>) -> Seq<(Seq<u8>, usize)> {
    if lookup(dir, name) is Some {
        dir.remove(entry_index(dir, name))
    } else {
        dir
    }
}

/// Adding an entry for `ino` adds one link to `ino` and none to any other.
pub proof fn lemma_nlink_push(dir: Seq<(Seq<u8>, usize)>, e: (Seq<u8>, usize), ino: usize)
    ensures
        nlink(dir.push(e), ino) == nlink(dir, ino) + if e.1 == ino {
            1nat
        } else {
            0nat
        },
{
    assert(dir.push(e).drop_last() =~= dir);
}

/// Removing the entry at `i` removes one link from the inode it names.
pub proof fn lemma_nlink_remove(dir: Seq<(Seq<u8>, usize)>, i: int, ino: usize)
    requires
        0 <= i < dir.len(),
    ensures
        nlink(dir.remove(i), ino) + (if dir[i].1 == ino {
            1nat
        } else {
            0nat
        }) == nlink(dir, ino),
    decreases dir.len(),
{
    if i == dir.len() - 1 {
        assert(dir.remove(i) =~= dir.drop_last());
    } else {
        lemma_nlink_remove(dir.drop_last(), i, ino);
        assert(dir.remove(i).drop_last() =~= dir.drop_last().remove(i));
        assert(dir.remove(i).last() == dir.last());
    }
}

/// The bytes of a file after writing `s` at `offset`: `s` overwrites what
/// was there, the file grows as needed, and a gap left before `offset` reads
/// as zeros.
pub open spec fn write_at_spec(d: Seq<u8>, offset: int, s: Seq<u8>) -> Seq<u8> {
    let len = if d.len() >= offset + s.len() {
        d.len() as int
    } else {
        offset + s.len()
    };
    Seq::new(
        len as nat,
        |i: int|
            if offset <= i < offset + s.len() {
                s[i - offset]
            } else if i < d.len() {
                d[i]
            } else {
                0u8
            },
    )
}

/// The bytes that reading `len` bytes at `offset` gives: those that exist.
pub open spec fn read_at_spec(d: Seq<u8>, offset: int, len: int) -> Seq<u8> {
    if offset >= d.len() {
        Seq::empty()
    } else if offset + len <= d.len() {
        d.subrange(offset, offset + len)
    } else {
        d.subrange(offset, d.len() as int)
    }
}

/// The file system after opening `name` with `flags`, and the inode opened:
/// with `O_CREATE` an existing file is emptied and a missing one created;
/// without it a missing file cannot be opened, and `O_TRUNC` empties an
/// existing one.
pub open spec fn open_spec(fs: FsState, name: Seq<u8>, flags: u32) -> (FsState, Option<usize>) {
    if flags & O_CREATE != 0 {
        match lookup(fs.dir, name) {
            Some(ino) => (FsState { files: fs.files.update(ino as int, Seq::empty()), ..fs }, Some(ino)),
            None => (
                FsState {
                    files: fs.files.push(Seq::empty()),
                    dir: fs.dir.push((name, fs.files.len() as usize)),
                },
                Some(fs.files.len() as usize),
            ),
        }
    } else {
        match lookup(fs.dir, name) {
            Some(ino) => if flags & O_TRUNC != 0 {
                (FsState { files: fs.files.update(ino as int, Seq::empty()), ..fs }, Some(ino))
            } else {
                (fs, Some(ino))
            },
            None => (fs, None),
        }
    }
}

/// Reading a file where bytes were just written gives those bytes back.
pub proof fn lemma_read_after_write(d: Seq<u8>, offset: int, s: Seq<u8>)
    requires
        0 <= offset,
    ensures
        read_at_spec(write_at_spec(d, offset, s), offset, s.len() as int) == s,
{
    let w = write_at_spec(d, offset, s);
    if s.len() > 0 {
        assert(read_at_spec(w, offset, s.len() as int) =~= s);
    } else {
        assert(read_at_spec(w, offset, 0) =~= s);
    }
}

/// Writing never shortens a file, and leaves the bytes before `offset` as
/// they were.
pub proof fn lemma_write_keeps_prefix(d: Seq<u8>, offset: int, s: Seq<u8>, i: int)
    requires
        0 <= offset,
        0 <= i < offset,
        i < d.len(),
    ensures
        write_at_spec(d, offset, s).len() >= d.len(),
        write_at_spec(d, offset, s)[i] == d[i],
{
}

/// Linking a new name to an existing file adds one link to the file's
/// inode.
pub proof fn lemma_link_adds_link(dir: Seq<(Seq<u8>, usize)>, old_name: Seq<u8>, new_name: Seq<u8>)
    requires
        lookup(dir, old_name) is Some,
        lookup(dir, new_name) is None,
    ensures
        lookup(link_spec(dir, old_name, new_name), new_name) == lookup(dir, old_name),
        nlink(link_spec(dir, old_name, new_name), lookup(dir, old_name).unwrap()) == nlink(
            dir,
            lookup(dir, old_name).unwrap(),
        ) + 1,
{
    let ino = lookup(dir, old_name).unwrap();
    let d2 = link_spec(dir, old_name, new_name);
    lemma_nlink_push(dir, (new_name, ino), ino);
    assert(d2[dir.len() as int].0 == new_name);
    let c = choose|i: int| 0 <= i < d2.len() && #[trigger] d2[i].0 == new_name;
    assert(c == dir.len());
}

/// Unlinking a name removes one link from the inode it named, and the name
/// no longer resolves.
pub proof fn lemma_unlink_drops_link(dir: Seq<(Seq<u8>, usize)>, name: Seq<u8>)
    requires
        names_unique(dir),
        lookup(dir, name) is Some,
    ensures
        lookup(unlink_spec(dir, name), name) is None,
        nlink(unlink_spec(dir, name), lookup(dir, name).unwrap()) + 1 == nlink(
            dir,
            lookup(dir, name).unwrap(),
        ),
{
    let i = entry_index(dir, name);
    lemma_nlink_remove(dir, i, lookup(dir, name).unwrap());
    let d2 = unlink_spec(dir, name);
    assert(dir[i].0 == name);
    assert forall|j: int| 0 <= j < d2.len() implies (#[trigger] d2[j]).0 != name by {
        if j < i {
            assert(d2[j] == dir[j]);
        } else {
            assert(d2[j] == dir[j + 1]);
        }
    }
}

/// Linking a new name and then unlinking it gives back the directory.
pub proof fn lemma_unlink_undoes_link(dir: Seq<(Seq<u8>, usize)>, old_name: Seq<u8>, new_name: Seq<u8>)
    requires
        lookup(dir, old_name) is Some,
        lookup(dir, new_name) is None,
    ensures
        unlink_spec(link_spec(dir, old_name, new_name), new_name) == dir,
{
    lemma_link_adds_link(dir, old_name, new_name);
    let d2 = link_spec(dir, old_name, new_name);
    let c = choose|i: int| 0 <= i < d2.len() && #[trigger] d2[i].0 == new_name;
    assert(d2[dir.len() as int].0 == new_name);
    assert(c == dir.len()) by {
        if c < dir.len() {
            assert(dir[c].0 == new_name);
        }
    }
    assert(d2.remove(dir.len() as int) =~= dir);
}

/// Two byte strings are equal.
pub fn bytes_eq(a: &Vec<u8>, b: &Vec<u8>) -> (r: bool)
    ensures
        r == (a@ == b@),
{
    if a.len() != b.len() {
        return false;
    }
    let mut i: usize = 0;
    while i < a.len()
        invariant
            a.len() == b.len(),
            i <= a.len(),
            forall|j: int| 0 <= j < i ==> a@[j] == b@[j],
        decreases a.len() - i,
    {
        if a[i] != b[i] {
            return false;
        }
        i += 1;
    }
    assert(a@ =~= b@);
    true
}

/// A copy of a byte string.
pub fn copy_bytes(a: &Vec<u8>) -> (r: Vec<u8>)
    ensures
        r@ == a@,
{
    let mut r: Vec<u8> = Vec::new();
    let mut i: usize = 0;
    while i < a.len()
        invariant
            i <= a.len(),
            r@ == a@.take(i as int),
        decreases a.len() - i,
    {
        r.push(a[i]);
        assert(a@.take(i as int).push(a@[i as int]) =~= a@.take(i + 1));
        i += 1;
    }
    assert(a@.take(a.len() as int) =~= a@);
    r
}

/// The file system: inodes and the root directory that names them.
pub struct FileSystem {
    inodes: Vec<Inode>,
    entries: Vec<DirEntry>,
}

impl View for FileSystem {
    type V = FsState;

    closed spec fn view(&self) -> FsState {
        FsState {
            files: self.inodes@.map_values(|n: Inode| n.data@),
            dir: self.entries@.map_values(|e: DirEntry| (e.name@, e.inode)),
        }
    }
}

/// No name occurs twice in the directory.
pub open spec fn names_unique(dir: Seq<(Seq<u8>, usize)>) -> bool {
    forall|i: int, j: int|
        0 <= i < dir.len() && 0 <= j < dir.len() && i != j ==> (#[trigger] dir[i]).0 != (
        #[trigger] dir[j]).0
}

/// The directory names inodes that exist, and no name twice.
pub open spec fn fs_state_wf(s: FsState) -> bool {
    &&& forall|i: int| 0 <= i < s.dir.len() ==> (#[trigger] s.dir[i]).1 < s.files.len()
    &&& names_unique(s.dir)
}

impl FileSystem {
    pub closed spec fn wf(&self) -> bool {
        fs_state_wf(self@)
    }

    /// An empty file system.
    pub fn new() -> (r: Self)
        ensures
            r.wf(),
            r@.files.len() == 0,
            r@.dir.len() == 0,
    {
        let r = FileSystem { inodes: Vec::new(), entries: Vec::new() };
        assert(r@.dir =~= Seq::<(Seq<u8>, usize)>::empty());
        r
    }

    /// Number of inodes.
    pub fn num_inodes(&self) -> (r: usize)
        ensures
            r == self@.files.len(),
    {
        self.inodes.len()
    }

    /// Looks `name` up in the root directory.
    pub fn find(&self, name: &Vec<u8>) -> (r: Option<usize>)
        requires
            self.wf(),
        ensures
            r == lookup(self@.dir, name@),
            r matches Some(ino) ==> ino < self@.files.len(),
    {
        let mut i: usize = 0;
        while i < self.entries.len()
            invariant
                self.wf(),
                i <= self.entries.len(),
                forall|j: int| 0 <= j < i ==> (#[trigger] self@.dir[j]).0 != name@,
            decreases self.entries.len() - i,
        {
            if bytes_eq(&self.entries[i].name, name) {
                assert(self@.dir[i as int].0 == name@);
                let ghost c = choose|k: int|
                    0 <= k < self@.dir.len() && #[trigger] self@.dir[k].0 == name@;
                assert(c == i);
                return Some(self.entries[i].inode);
            }
            i += 1;
        }
        None
    }

    /// Creates an empty file called `name` and returns its inode.
    pub fn create(&mut self, name: &Vec<u8>) -> (ino: usize)
        requires
            old(self).wf(),
            lookup(old(self)@.dir, name@) is None,
        ensures
            final(self).wf(),
            ino == old(self)@.files.len(),
            final(self)@.files == old(self)@.files.push(Seq::empty()),
            final(self)@.dir == old(self)@.dir.push((name@, ino)),
    {
        let ino = self.inodes.len();
        self.inodes.push(Inode { data: Vec::new() });
        let n = copy_bytes(name);
        self.entries.push(DirEntry { name: n, inode: ino });
        assert(self@.files =~= old(self)@.files.push(Seq::empty()));
        assert(self@.dir =~= old(self)@.dir.push((name@, ino)));
        ino
    }

    /// Empties inode `ino`.
    pub fn clear(&mut self, ino: usize)
        requires
            old(self).wf(),
            ino < old(self)@.files.len(),
        ensures
            final(self).wf(),
            final(self)@.files == old(self)@.files.update(ino as int, Seq::empty()),
            final(self)@.dir == old(self)@.dir,
    {
        self.inodes[ino].data = Vec::new();
        assert(self@.files =~= old(self)@.files.update(ino as int, Seq::empty()));
        assert(self@.dir =~= old(self)@.dir);
    }

    /// Size of inode `ino` in bytes.
    pub fn size(&self, ino: usize) -> (r: usize)
        requires
            ino < self@.files.len(),
        ensures
            r == self@.files[ino as int].len(),
    {
        self.inodes[ino].data.len()
    }

    /// Reads up to `len` bytes of inode `ino` from `offset` on.
    pub fn read_at(&self, ino: usize, offset: usize, len: usize) -> (r: Vec<u8>)
        requires
            ino < self@.files.len(),
        ensures
            r@ == read_at_spec(self@.files[ino as int], offset as int, len as int),
    {
        let d = &self.inodes[ino].data;
        let mut r: Vec<u8> = Vec::new();
        if offset >= d.len() {
            assert(r@ =~= read_at_spec(self@.files[ino as int], offset as int, len as int));
            return r;
        }
        let end = if len <= d.len() - offset {
            offset + len
        } else {
            d.len()
        };
        let mut i: usize = offset;
        while i < end
            invariant
                offset <= i <= end <= d.len(),
                r@ == d@.subrange(offset as int, i as int),
            decreases end - i,
        {
            r.push(d[i]);
            assert(d@.subrange(offset as int, i as int).push(d@[i as int]) =~= d@.subrange(
                offset as int,
                i + 1,
            ));
            i += 1;
        }
        r
    }

    /// Writes `bytes` into inode `ino` at `offset`.
    pub fn write_at(&mut self, ino: usize, offset: usize, bytes: &Vec<u8>)
        requires
            old(self).wf(),
            ino < old(self)@.files.len(),
            offset + bytes.len() <= usize::MAX,
        ensures
            final(self).wf(),
            final(self)@.files == old(self)@.files.update(
                ino as int,
                write_at_spec(old(self)@.files[ino as int], offset as int, bytes@),
            ),
            final(self)@.dir == old(self)@.dir,
    {
        let ghost d0 = self.inodes[ino as int].data@;
        let mut d: Vec<u8> = Vec::new();
        std::mem::swap(&mut d, &mut self.inodes[ino].data);
        while d.len() < offset
            invariant
                d@.len() <= offset || d@.len() == d0.len(),
                d0.len() <= d@.len(),
                forall|i: int| 0 <= i < d@.len() ==> #[trigger] d@[i] == if i < d0.len() {
                    d0[i]
                } else {
                    0u8
                },
            decreases offset - d.len(),
        {
            d.push(0u8);
        }
        let mut k: usize = 0;
        while k < bytes.len()
            invariant
                k <= bytes.len(),
                offset + bytes.len() <= usize::MAX,
                d@.len() >= offset + k,
                d@.len() == if d0.len() >= offset + k {
                    d0.len() as int
                } else {
                    offset + k
                },
                forall|i: int| 0 <= i < d@.len() ==> #[trigger] d@[i] == if offset <= i < offset + k {
                    bytes@[i - offset]
                } else if i < d0.len() {
                    d0[i]
                } else {
                    0u8
                },
            decreases bytes.len() - k,
        {
            if offset + k < d.len() {
                d.set(offset + k, bytes[k]);
            } else {
                d.push(bytes[k]);
            }
            k += 1;
        }
        assert(d@ =~= write_at_spec(d0, offset as int, bytes@));
        self.inodes[ino].data = d;
        assert(self@.files =~= old(self)@.files.update(
            ino as int,
            write_at_spec(d0, offset as int, bytes@),
        ));
        assert(self@.dir =~= old(self)@.dir);
    }

    /// The number of entries that name inode `ino`.
    pub fn link_count(&self, ino: usize) -> (r: usize)
        ensures
            r == nlink(self@.dir, ino),
    {
        let mut cnt: usize = 0;
        let mut i: usize = 0;
        while i < self.entries.len()
            invariant
                i <= self.entries.len(),
                cnt == nlink(self@.dir.take(i as int), ino),
                cnt <= i,
            decreases self.entries.len() - i,
        {
            assert(self@.dir.take(i + 1).drop_last() =~= self@.dir.take(i as int));
            if self.entries[i].inode == ino {
                cnt += 1;
            }
            i += 1;
        }
        assert(self@.dir.take(self.entries.len() as int) =~= self@.dir);
        cnt
    }

    /// What `fstat` reports of inode `ino`.
    pub fn stat(&self, ino: usize) -> (r: Stat)
        ensures
            r == (Stat {
                dev: 0,
                ino: ino as u64,
                mode: S_IFREG,
                nlink: nlink(self@.dir, ino) as u32,
            }),
    {
        let n = self.link_count(ino);
        Stat { dev: 0, ino: ino as u64, mode: S_IFREG, nlink: n as u32 }
    }

    /// Links `new_name` to the inode that `old_name` names.
    pub fn add_dirent(&mut self, old_name: &Vec<u8>, new_name: &Vec<u8>)
        requires
            old(self).wf(),
        ensures
            final(self).wf(),
            final(self)@.files == old(self)@.files,
            final(self)@.dir == link_spec(old(self)@.dir, old_name@, new_name@),
    {
        match self.find(old_name) {
            Some(ino) => {
                if self.find(new_name).is_none() {
                    let n = copy_bytes(new_name);
                    self.entries.push(DirEntry { name: n, inode: ino });
                    assert(self@.dir =~= old(self)@.dir.push((new_name@, ino)));
                    assert(self@.files =~= old(self)@.files);
                }
            },
            None => {},
        }
    }

    /// Removes the entry called `name`.
    pub fn delete_dirent(&mut self, name: &Vec<u8>)
        requires
            old(self).wf(),
        ensures
            final(self).wf(),
            final(self)@.files == old(self)@.files,
            final(self)@.dir == unlink_spec(old(self)@.dir, name@),
    {
        let mut i: usize = 0;
        while i < self.entries.len()
            invariant
                self.wf(),
                *self == *old(self),
                i <= self.entries.len(),
                forall|j: int| 0 <= j < i ==> (#[trigger] self@.dir[j]).0 != name@,
            decreases self.entries.len() - i,
        {
            if bytes_eq(&self.entries[i].name, name) {
                assert(self@.dir[i as int].0 == name@);
                let ghost c = entry_index(self@.dir, name@);
                assert(c == i);
                self.entries.remove(i);
                assert(self@.dir =~= old(self)@.dir.remove(i as int));
                assert(self@.files =~= old(self)@.files);
                return;
            }
            i += 1;
        }
    }

    /// Opens `name` with `flags` (see `open_spec`) and returns its inode.
    pub fn open_file(&mut self, name: &Vec<u8>, flags: u32) -> (r: Option<usize>)
        requires
            old(self).wf(),
            old(self)@.files.len() < usize::MAX,
        ensures
            final(self).wf(),
            (final(self)@, r) == open_spec(old(self)@, name@, flags),
            r matches Some(ino) ==> ino < final(self)@.files.len(),
            r is None ==> *final(self) == *old(self),
    {
        if flags & O_CREATE != 0 {
            match self.find(name) {
                Some(ino) => {
                    self.clear(ino);
                    assert(self@ =~= (FsState { files: old(self)@.files.update(ino as int, Seq::empty()), ..old(self)@ }));
                    Some(ino)
                },
                None => {
                    let ino = self.create(name);
                    Some(ino)
                },
            }
        } else {
            match self.find(name) {
                Some(ino) => {
                    if flags & O_TRUNC != 0 {
                        self.clear(ino);
                        assert(self@ =~= (FsState { files: old(self)@.files.update(ino as int, Seq::empty()), ..old(self)@ }));
                    }
                    Some(ino)
                },
                None => None,
            }
        }
    }

    /// All the bytes of inode `ino`.
    pub fn read_all(&self, ino: usize) -> (r: Vec<u8>)
        requires
            ino < self@.files.len(),
        ensures
            r@ == self@.files[ino as int],
    {
        let n = self.size(ino);
        let r = self.read_at(ino, 0, n);
        assert(self@.files[ino as int].subrange(0, n as int) =~= self@.files[ino as int]);
        r
    }
}


/// The access a descriptor gets from its open flags: the write-only bit (1)
/// makes it write-only whatever else is asked (creating, truncating); no
/// flag at all makes it read-only; any other flags make it read-write.
pub proof fn lemma_open_access(flags: u32)
    ensures
        flags & 1 != 0 ==> read_write_spec(flags) == (false, true),
        flags == 0 ==> read_write_spec(flags) == (true, false),
        flags != 0 && flags & 1 == 0 ==> read_write_spec(flags) == (true, true),
        (flags | 512) & 1 != 0 <==> flags & 1 != 0,
        (flags | 1024) & 1 != 0 <==> flags & 1 != 0,
{
    assert(flags & 1 != 0 ==> flags != 0) by (bit_vector);
    assert(((flags | 512) & 1 != 0) == (flags & 1 != 0)) by (bit_vector);
    assert(((flags | 1024) & 1 != 0) == (flags & 1 != 0)) by (bit_vector);
}

} // verus!
