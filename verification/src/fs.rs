//! A small file system: a tree of inodes whose file data lives in disk blocks behind the cache.

use vstd::prelude::*;
use crate::cache::{BlockCache, Line};
use crate::io::{Disk, ERRS_FOREVER};
use crate::ordmap::OrdMap;
use crate::text::{split_path, NameMap};

verus! {

/// Bytes in one block of a file.
pub const BLOCK_SZ: u64 = 512;

/// The inode number that stands for "no such file".
pub const NO_INO: u64 = 0xffff_ffff_ffff_ffff;

/// What an inode is.
#[derive(Clone, Copy, PartialEq, Eq, Structural, Debug)]
pub enum InodeType {
    File,
    Directory,
}

/// A file or a directory.
pub struct Inode {
    /// The inode's number.
    pub ino: u64,
    /// File or directory.
    pub inode_type: InodeType,
    /// Disk blocks of a file, in order.
    pub blocks: Vec<u64>,
    /// Bytes in a file.
    pub size: u64,
    /// Entries of a directory.
    pub children: NameMap,
}

/// What an inode amounts to.
pub struct InodeView {
    pub ino: u64,
    pub kind: InodeType,
    pub blocks: Seq<u64>,
    pub size: u64,
    pub children: Map<Seq<char>, u64>,
}

impl Inode {
    pub open spec fn view(&self) -> InodeView {
        InodeView {
            ino: self.ino,
            kind: self.inode_type,
            blocks: self.blocks@,
            size: self.size,
            children: self.children@,
        }
    }

    /// A new inode.
    pub open spec fn fresh(ino: u64, kind: InodeType) -> InodeView {
        InodeView { ino, kind, blocks: Seq::empty(), size: 0, children: Map::empty() }
    }

    /// An empty file.
    pub fn new_file(ino: u64) -> (n: Self)
        ensures
            n@ == Inode::fresh(ino, InodeType::File),
            n.children.wf(),
    {
        Inode { ino, inode_type: InodeType::File, blocks: Vec::new(), size: 0, children: NameMap::new() }
    }

    /// An empty directory.
    pub fn new_dir(ino: u64) -> (n: Self)
        ensures
            n@ == Inode::fresh(ino, InodeType::Directory),
            n.children.wf(),
    {
        Inode { ino, inode_type: InodeType::Directory, blocks: Vec::new(), size: 0, children: NameMap::new() }
    }
}

/// Where a path leads.
pub struct PathLookup {
    /// The inode; [`NO_INO`] where the last component does not exist.
    pub ino: u64,
    /// The directory that holds it, or would.
    pub parent_ino: u64,
    /// The last component.
    pub name: String,
}

/// What a path leads to.
pub struct LookupView {
    pub ino: u64,
    pub parent_ino: u64,
    pub name: Seq<char>,
}

impl PathLookup {
    pub open spec fn view(&self) -> LookupView {
        LookupView { ino: self.ino, parent_ino: self.parent_ino, name: self.name@ }
    }
}

/// The file system.
pub struct SimpleFS {
    /// Inodes by their numbers; 0 is the root.
    pub inodes: OrdMap<Inode>,
    /// The next inode number.
    pub next_ino: u64,
    /// The next disk block.
    pub next_blk: u64,
}

/// What the file system amounts to.
pub struct FsView {
    pub inodes: Map<u64, InodeView>,
    pub next_ino: u64,
    pub next_blk: u64,
}

/// Walks from directory `cur` along `comps`, of which there is at least one.
pub open spec fn walk(inodes: Map<u64, InodeView>, cur: u64, comps: Seq<Seq<char>>) -> Result<LookupView, &'static str>
    decreases comps.len(),
{
    if !inodes.dom().contains(cur) {
        Err("enoent")
    } else if inodes[cur].kind != InodeType::Directory {
        Err("enotdir")
    } else {
        let ch = inodes[cur].children;
        let name = comps[0];
        if comps.len() <= 1 {
            Ok(LookupView { ino: if ch.dom().contains(name) { ch[name] } else { NO_INO }, parent_ino: cur, name })
        } else if ch.dom().contains(name) {
            walk(inodes, ch[name], comps.drop_first())
        } else {
            Err("enoent")
        }
    }
}

/// `n` consecutive block numbers from `first` on.
pub open spec fn fresh_blocks(first: u64, n: nat) -> Seq<u64> {
    Seq::new(n, |i: int| (first + i) as u64)
}

impl FsView {
    /// Where `path` leads.
    pub open spec fn lookup(self, path: Seq<char>) -> Result<LookupView, &'static str> {
        if path.len() == 0 {
            Err("enoent")
        } else if crate::text::components(path).len() == 0 {
            Ok(LookupView { ino: 0, parent_ino: 0, name: Seq::empty() })
        } else {
            walk(self.inodes, 0, crate::text::components(path))
        }
    }

    /// `path` leads to a directory that has no entry of the name.
    pub open spec fn missing(self, path: Seq<char>) -> bool {
        self.lookup(path) matches Ok(l) && l.ino == NO_INO
    }

    /// The file system with the next inode number taken.
    pub open spec fn took_ino(self) -> FsView {
        FsView { next_ino: (self.next_ino + 1) as u64, ..self }
    }

    /// What creating an entry in `dir` reports before it looks at the name.
    pub open spec fn dir_error(self, dir: u64) -> Option<&'static str> {
        if !self.inodes.dom().contains(dir) {
            Some("enoent")
        } else if self.inodes[dir].kind != InodeType::Directory {
            Some("enotdir")
        } else {
            None
        }
    }

    /// The file system with a new inode under `name` in `dir`.
    pub open spec fn created(self, dir: u64, name: Seq<char>, kind: InodeType) -> FsView {
        let d = self.inodes[dir];
        FsView {
            inodes: self.inodes.insert(
                dir,
                InodeView { children: d.children.insert(name, self.next_ino), ..d },
            ).insert(self.next_ino, Inode::fresh(self.next_ino, kind)),
            next_ino: (self.next_ino + 1) as u64,
            next_blk: self.next_blk,
        }
    }

    /// The file system with `name` gone from `dir`, and its inode with it.
    pub open spec fn unlinked(self, dir: u64, name: Seq<char>) -> FsView {
        let d = self.inodes[dir];
        FsView {
            inodes: self.inodes.insert(dir, InodeView { children: d.children.remove(name), ..d }).remove(d.children[name]),
            ..self
        }
    }

    /// The blocks that inode `ino` has once it has at least `n`.
    pub open spec fn grown_blocks(self, ino: u64, n: nat) -> Seq<u64> {
        let b = self.inodes[ino].blocks;
        if b.len() >= n {
            b
        } else {
            b + fresh_blocks(self.next_blk, (n - b.len()) as nat)
        }
    }

    /// The file system with at least `n` blocks for inode `ino`.
    pub open spec fn grown(self, ino: u64, n: nat) -> FsView {
        let b = self.inodes[ino].blocks;
        FsView {
            inodes: self.inodes.insert(ino, InodeView { blocks: self.grown_blocks(ino, n), ..self.inodes[ino] }),
            next_ino: self.next_ino,
            next_blk: if b.len() >= n { self.next_blk } else { (self.next_blk + (n - b.len())) as u64 },
        }
    }

    /// The file system with inode `ino` at least `size` bytes long.
    pub open spec fn lengthened(self, ino: u64, size: u64) -> FsView {
        let n = self.inodes[ino];
        FsView {
            inodes: self.inodes.insert(ino, InodeView { size: if size > n.size { size } else { n.size }, ..n }),
            ..self
        }
    }

    /// The file system with inode `ino` cut to `size` bytes.
    pub open spec fn truncated(self, ino: u64, size: u64) -> FsView {
        let n = self.inodes[ino];
        let need = (size + BLOCK_SZ - 1) / BLOCK_SZ as int;
        FsView {
            inodes: self.inodes.insert(
                ino,
                InodeView { blocks: if need < n.blocks.len() { n.blocks.take(need) } else { n.blocks }, size, ..n },
            ),
            ..self
        }
    }

    /// What reading or writing inode `ino` reports before it looks at the data.
    pub open spec fn file_error(self, ino: u64) -> Option<&'static str> {
        if !self.inodes.dom().contains(ino) {
            Some("enoent")
        } else if self.inodes[ino].kind != InodeType::File {
            Some("eisdir")
        } else {
            None
        }
    }

    /// Every inode carries its own number, numbers and blocks in use are below the next ones, what a
    /// directory holds is younger than the directory, and no block is used twice.
    pub open spec fn wf(self) -> bool {
        &&& forall|i: u64|
            self.inodes.dom().contains(i) ==> i < self.next_ino && (#[trigger] self.inodes[i]).ino == i
        &&& forall|i: u64, name: Seq<char>|
            self.inodes.dom().contains(i) && self.inodes[i].children.dom().contains(name) ==> i < (
            #[trigger] self.inodes[i].children[name]) < self.next_ino
        &&& forall|i: u64, x: int|
            self.inodes.dom().contains(i) && 0 <= x < self.inodes[i].blocks.len() ==> (#[trigger] self.inodes[i].blocks[x])
                < self.next_blk
        &&& forall|i: u64, x: int, j: u64, y: int|
            #![trigger self.inodes[i].blocks[x], self.inodes[j].blocks[y]]
            self.inodes.dom().contains(i) && self.inodes.dom().contains(j) && 0 <= x < self.inodes[i].blocks.len() && 0 <= y
                < self.inodes[j].blocks.len() && (i != j || x != y) ==> self.inodes[i].blocks[x] != self.inodes[j].blocks[y]
    }
}

impl SimpleFS {
    /// What the file system amounts to.
    pub open spec fn view(&self) -> FsView {
        FsView {
            inodes: self.inodes@.map_values(|n: Inode| n@),
            next_ino: self.next_ino,
            next_blk: self.next_blk,
        }
    }

    /// The tables are well-formed, and so is what they stand for.
    pub open spec fn wf(&self) -> bool {
        &&& self.inodes.wf()
        &&& forall|i: u64| self.inodes@.dom().contains(i) ==> (#[trigger] self.inodes@[i]).children.wf()
        &&& self@.wf()
    }

    /// A file system with nothing but its root directory.
    pub fn new() -> (fs: Self)
        ensures
            fs.wf(),
            fs@.inodes == Map::<u64, InodeView>::empty().insert(0, Inode::fresh(0, InodeType::Directory)),
            fs@.next_ino == 1,
            fs@.next_blk == 0,
    {
        let mut inodes: OrdMap<Inode> = OrdMap::new();
        let root = Inode::new_dir(0);
        let _none = inodes.insert(0, root);
        let fs = SimpleFS { inodes, next_ino: 1, next_blk: 0 };
        assert(fs@.inodes =~= Map::<u64, InodeView>::empty().insert(0, Inode::fresh(0, InodeType::Directory)));
        fs
    }

    /// Takes the next inode number.
    pub fn alloc_ino(&mut self) -> (ino: u64)
        requires
            old(self).wf(),
            old(self)@.next_ino < u64::MAX,
        ensures
            final(self).wf(),
            ino == old(self)@.next_ino,
            final(self)@ == old(self)@.took_ino(),
    {
        let ino: u64 = self.next_ino;
        self.next_ino = ino + 1;
        ino
    }

    /// Takes the next disk block.
    pub fn alloc_block(&mut self) -> (b: u64)
        requires
            old(self).wf(),
            old(self)@.next_blk < u64::MAX,
        ensures
            final(self).wf(),
            b == old(self)@.next_blk,
            final(self)@ == (FsView { next_blk: (old(self)@.next_blk + 1) as u64, ..old(self)@ }),
    {
        let b: u64 = self.next_blk;
        self.next_blk = b + 1;
        b
    }

    /// The inode that `path` leads to. A path that leads nowhere is an error.
    pub fn resolve(&self, path: &str) -> (r: Result<u64, &'static str>)
        requires
            self.wf(),
        ensures
            r == (match self@.lookup(path@) {
                Ok(l) => if l.ino == NO_INO {
                    Err("enoent")
                } else {
                    Ok(l.ino)
                },
                Err(e) => Err(e),
            }),
    {
        match self.lookup(path) {
            Ok(l) => if l.ino == NO_INO {
                Err("enoent")
            } else {
                Ok(l.ino)
            },
            Err(e) => Err(e),
        }
    }

    /// Walks `path` from the root. A missing last component is no error: it is reported as
    /// [`NO_INO`], with the directory in which it could be created.
    pub fn lookup(&self, path: &str) -> (r: Result<PathLookup, &'static str>)
        requires
            self.wf(),
        ensures
            match r {
                Ok(l) => self@.lookup(path@) == Ok::<LookupView, &'static str>(l@),
                Err(e) => self@.lookup(path@) == Err::<LookupView, &'static str>(e),
            },
    {
        if path.is_empty() {
            return Err("enoent");
        }
        let comps = split_path(path);
        let ghost cs = crate::text::components(path@);
        if comps.len() == 0 {
            return Ok(PathLookup { ino: 0, parent_ino: 0, name: String::new() });
        }
        let mut cur: u64 = 0;
        let mut i: usize = 0;
        assert(cs.skip(0) =~= cs);
        loop
            invariant
                self.wf(),
                crate::text::texts(comps@) == cs,
                i < cs.len(),
                path@.len() > 0,
                cs == crate::text::components(path@),
                self@.lookup(path@) == walk(self@.inodes, cur, cs.skip(i as int)),
            decreases cs.len() - i,
        {
            assert(cs.skip(i as int)[0] == comps@[i as int]@);
            let ghost rest = cs.skip(i as int);
            let inode = match self.inodes.get(cur) {
                Some(n) => n,
                None => {
                    return Err("enoent");
                },
            };
            if inode.inode_type != InodeType::Directory {
                return Err("enotdir");
            }
            let name = &comps[i];
            let hit = inode.children.get(name.as_str());
            if i == comps.len() - 1 {
                let ino: u64 = match hit {
                    Some(n) => n,
                    None => NO_INO,
                };
                return Ok(PathLookup { ino, parent_ino: cur, name: name.clone() });
            }
            match hit {
                Some(n) => {
                    cur = n;
                },
                None => {
                    return Err("enoent");
                },
            }
            i += 1;
            assert(rest.drop_first() =~= cs.skip(i as int));
        }
    }

    /// Adds a new inode under `name` in `dir_ino`, of which it is known that it is a directory.
    fn add_entry(&mut self, dir_ino: u64, name: &str, kind: InodeType)
        requires
            old(self).wf(),
            old(self)@.next_ino < u64::MAX,
            old(self)@.dir_error(dir_ino) is None,
        ensures
            final(self).wf(),
            final(self)@ == old(self)@.created(dir_ino, name@, kind),
    {
        let ghost before = *self;
        let ino: u64 = self.next_ino;
        self.next_ino = ino + 1;
        if let Some(d) = self.inodes.get_mut(dir_ino) {
            d.children.insert(name, ino);
        }
        let node = match kind {
            InodeType::File => Inode::new_file(ino),
            InodeType::Directory => Inode::new_dir(ino),
        };
        let _none = self.inodes.insert(ino, node);
        proof {
            assert(self@.inodes =~= before@.created(dir_ino, name@, kind).inodes);
            let a = self@.inodes;
            let b = before@.inodes;
            assert forall|i: u64, x: int|
                self@.inodes.dom().contains(i) && 0 <= x < self@.inodes[i].blocks.len() implies #[trigger] self@.inodes[i].blocks[x]
                < self@.next_blk by {
                assert(b[i].blocks == a[i].blocks);
                assert(b[i].blocks[x] < before@.next_blk);
            }
            assert forall|i: u64, x: int, j: u64, y: int|
                #![trigger self@.inodes[i].blocks[x], self@.inodes[j].blocks[y]]
                a.dom().contains(i) && a.dom().contains(j) && 0 <= x < a[i].blocks.len() && 0 <= y < a[j].blocks.len() && (i != j
                    || x != y) implies a[i].blocks[x] != a[j].blocks[y] by {
                assert(b[i].blocks == a[i].blocks && b[j].blocks == a[j].blocks);
                assert(b[i].blocks[x] != b[j].blocks[y]);
            }
        }
    }

    /// Creates a file in directory `dir_ino` and returns its inode number. An entry of that name
    /// is replaced. The number is used up also where the directory is refused.
    pub fn create_file(&mut self, dir_ino: u64, name: &str) -> (r: Result<u64, &'static str>)
        requires
            old(self).wf(),
            old(self)@.next_ino < u64::MAX,
        ensures
            final(self).wf(),
            match old(self)@.dir_error(dir_ino) {
                Some(e) => r == Err::<u64, &'static str>(e) && final(self)@ == old(self)@.took_ino(),
                None => r == Ok::<u64, &'static str>(old(self)@.next_ino) && final(self)@ == old(self)@.created(
                    dir_ino,
                    name@,
                    InodeType::File,
                ),
            },
    {
        match self.check_dir(dir_ino) {
            Some(e) => {
                let _ino: u64 = self.alloc_ino();
                Err(e)
            },
            None => {
                let ino: u64 = self.next_ino;
                self.add_entry(dir_ino, name, InodeType::File);
                Ok(ino)
            },
        }
    }

    fn check_dir(&self, dir_ino: u64) -> (r: Option<&'static str>)
        requires
            self.wf(),
        ensures
            r == self@.dir_error(dir_ino),
    {
        match self.inodes.get(dir_ino) {
            None => Some("enoent"),
            Some(d) => if d.inode_type != InodeType::Directory {
                Some("enotdir")
            } else {
                None
            },
        }
    }

    /// The entry `name` of directory `dir_ino`.
    fn child_of(&self, dir_ino: u64, name: &str) -> (r: Option<u64>)
        requires
            self.wf(),
            self@.dir_error(dir_ino) is None,
        ensures
            r == (if self@.inodes[dir_ino].children.dom().contains(name@) {
                Some(self@.inodes[dir_ino].children[name@])
            } else {
                None
            }),
    {
        match self.inodes.get(dir_ino) {
            Some(d) => d.children.get(name),
            None => None,
        }
    }

    /// Creates a directory in directory `dir_ino` and returns its inode number. A name that is
    /// taken is refused. The number is used up also on errors.
    pub fn create_dir(&mut self, dir_ino: u64, name: &str) -> (r: Result<u64, &'static str>)
        requires
            old(self).wf(),
            old(self)@.next_ino < u64::MAX,
        ensures
            final(self).wf(),
            match old(self)@.dir_error(dir_ino) {
                Some(e) => r == Err::<u64, &'static str>(e) && final(self)@ == old(self)@.took_ino(),
                None => if old(self)@.inodes[dir_ino].children.dom().contains(name@) {
                    r == Err::<u64, &'static str>("eexist") && final(self)@ == old(self)@.took_ino()
                } else {
                    r == Ok::<u64, &'static str>(old(self)@.next_ino) && final(self)@ == old(self)@.created(
                        dir_ino,
                        name@,
                        InodeType::Directory,
                    )
                },
            },
    {
        match self.check_dir(dir_ino) {
            Some(e) => {
                let _ino: u64 = self.alloc_ino();
                return Err(e);
            },
            None => {},
        }
        if self.child_of(dir_ino, name).is_some() {
            let _ino: u64 = self.alloc_ino();
            return Err("eexist");
        }
        let ino: u64 = self.next_ino;
        self.add_entry(dir_ino, name, InodeType::Directory);
        Ok(ino)
    }

    /// Deletes the entry `name` of directory `dir_ino`, and its inode.
    pub fn unlink(&mut self, dir_ino: u64, name: &str) -> (r: Result<(), &'static str>)
        requires
            old(self).wf(),
        ensures
            final(self).wf(),
            match old(self)@.dir_error(dir_ino) {
                Some(e) => r == Err::<(), &'static str>(e) && *final(self) == *old(self),
                None => if old(self)@.inodes[dir_ino].children.dom().contains(name@) {
                    r is Ok && final(self)@ == old(self)@.unlinked(dir_ino, name@)
                } else {
                    r == Err::<(), &'static str>("enoent") && *final(self) == *old(self)
                },
            },
    {
        match self.check_dir(dir_ino) {
            Some(e) => {
                return Err(e);
            },
            None => {},
        }
        let target: u64 = match self.child_of(dir_ino, name) {
            Some(t) => t,
            None => {
                return Err("enoent");
            },
        };
        let ghost before = *self;
        if let Some(d) = self.inodes.get_mut(dir_ino) {
            let _t = d.children.remove(name);
        }
        let _gone = self.inodes.remove(target);
        proof {
            assert(self@.inodes =~= before@.unlinked(dir_ino, name@).inodes);
            self.lemma_fewer_blocks(before);
        }
        Ok(())
    }

    /// The invariant survives where no inode gains blocks, entries or a new number.
    proof fn lemma_fewer_blocks(&self, before: SimpleFS)
        requires
            before.wf(),
            self.inodes.wf(),
            self.next_ino == before.next_ino,
            self.next_blk == before.next_blk,
            forall|i: u64| self.inodes@.dom().contains(i) ==> (#[trigger] self.inodes@[i]).children.wf(),
            forall|i: u64|
                #[trigger] self@.inodes.dom().contains(i) ==> {
                    &&& before@.inodes.dom().contains(i)
                    &&& self@.inodes[i].ino == before@.inodes[i].ino
                    &&& self@.inodes[i].blocks.is_prefix_of(before@.inodes[i].blocks)
                    &&& self@.inodes[i].children.submap_of(before@.inodes[i].children)
                },
        ensures
            self.wf(),
    {
        let a = self@.inodes;
        let b = before@.inodes;
        assert forall|i: u64| a.dom().contains(i) implies i < self@.next_ino && (#[trigger] a[i]).ino == i by {
            assert(b[i].ino == i);
        }
        assert forall|i: u64, name: Seq<char>|
            self@.inodes.dom().contains(i) && self@.inodes[i].children.dom().contains(name) implies i < #[trigger] self@.inodes[i].children[name]
            < self@.next_ino by {
            assert(b[i].children[name] == a[i].children[name]);
        }
        assert forall|i: u64, x: int|
            self@.inodes.dom().contains(i) && 0 <= x < self@.inodes[i].blocks.len() implies #[trigger] self@.inodes[i].blocks[x]
            < self@.next_blk by {
            assert(b[i].blocks[x] == a[i].blocks[x]);
        }
        assert forall|i: u64, x: int, j: u64, y: int|
            #![trigger self@.inodes[i].blocks[x], self@.inodes[j].blocks[y]]
            a.dom().contains(i) && a.dom().contains(j) && 0 <= x < a[i].blocks.len() && 0 <= y < a[j].blocks.len() && (i != j || x
                != y) implies a[i].blocks[x] != a[j].blocks[y] by {
            assert(b[i].blocks[x] == a[i].blocks[x]);
            assert(b[j].blocks[y] == a[j].blocks[y]);
        }
    }

    /// Gives inode `ino` blocks up to and with block `block_idx`.
    pub fn ensure_blocks(&mut self, ino: u64, block_idx: usize) -> (r: Result<(), &'static str>)
        requires
            old(self).wf(),
            block_idx < usize::MAX,
            old(self)@.inodes.dom().contains(ino) ==> old(self)@.next_blk + block_idx + 1 - old(self)@.inodes[ino].blocks.len()
                <= u64::MAX,
        ensures
            final(self).wf(),
            r == (if old(self)@.inodes.dom().contains(ino) { Ok(()) } else { Err("enoent") }),
            r is Ok ==> final(self)@ == old(self)@.grown(ino, (block_idx + 1) as nat),
            r is Err ==> *final(self) == *old(self),
    {
        let ghost before = *self;
        let n = match self.inodes.get_mut(ino) {
            None => {
                return Err("enoent");
            },
            Some(n) => n,
        };
        let ghost had = n.blocks@;
        let ghost node = *n;
        let mut next: u64 = self.next_blk;
        while n.blocks.len() <= block_idx
            invariant
                block_idx < usize::MAX,
                before@.next_blk + block_idx + 1 - had.len() <= u64::MAX,
                n.blocks@.len() >= had.len(),
                had.len() <= n.blocks@.len(),
                n.blocks@.len() <= had.len() || n.blocks@.len() <= block_idx + 1,
                next == before@.next_blk + (n.blocks@.len() - had.len()),
                n.blocks@ == had + fresh_blocks(before@.next_blk, (n.blocks@.len() - had.len()) as nat),
                n.ino == node.ino,
                n.inode_type == node.inode_type,
                n.size == node.size,
                n.children == node.children,
            decreases block_idx + 1 - n.blocks@.len(),
        {
            let ghost was = n.blocks@;
            n.blocks.push(next);
            next = next + 1;
            assert(n.blocks@ =~= had + fresh_blocks(before@.next_blk, (n.blocks@.len() - had.len()) as nat));
        }
        self.next_blk = next;
        proof {
            assert(fresh_blocks(before@.next_blk, 0) =~= Seq::<u64>::empty());
            assert(had + Seq::<u64>::empty() =~= had);
            assert(self@.inodes =~= before@.grown(ino, (block_idx + 1) as nat).inodes);
            before@.lemma_grown_wf(ino, (block_idx + 1) as nat);
        }
        Ok(())
    }
}

impl FsView {
    proof fn lemma_grown_wf(self, ino: u64, n: nat)
        requires
            self.wf(),
            self.inodes.dom().contains(ino),
            self.next_blk + n - self.inodes[ino].blocks.len() <= u64::MAX,
        ensures
            self.grown(ino, n).wf(),
    {
        let g = self.grown(ino, n);
        let b = self.inodes[ino].blocks;
        assert forall|i: u64| g.inodes.dom().contains(i) implies i < g.next_ino && (#[trigger] g.inodes[i]).ino == i by {
            assert(self.inodes[i].ino == i);
        }
        assert forall|i: u64, x: int|
            g.inodes.dom().contains(i) && 0 <= x < g.inodes[i].blocks.len() implies (#[trigger] g.inodes[i].blocks[x]) < g.next_blk by {
            if i != ino || x < b.len() {
                assert(self.inodes[i].blocks[x] < self.next_blk);
            }
        }
        assert forall|i: u64, x: int, j: u64, y: int|
            #![trigger g.inodes[i].blocks[x], g.inodes[j].blocks[y]]
            g.inodes.dom().contains(i) && g.inodes.dom().contains(j) && 0 <= x < g.inodes[i].blocks.len() && 0 <= y
                < g.inodes[j].blocks.len() && (i != j || x != y) implies g.inodes[i].blocks[x] != g.inodes[j].blocks[y] by {
            let oldi = i != ino || x < b.len();
            let oldj = j != ino || y < b.len();
            if oldi {
                assert(self.inodes[i].blocks[x] < self.next_blk);
            }
            if oldj {
                assert(self.inodes[j].blocks[y] < self.next_blk);
            }
            if oldi && oldj {
                assert(self.inodes[i].blocks[x] != self.inodes[j].blocks[y]);
            }
        }
    }
}

// ---------------------------------------------------------------------------------------------
// File data
// ---------------------------------------------------------------------------------------------

/// Bytes and modification flags of the cached blocks.
pub type Slots = Map<u64, (Seq<u8>, bool)>;

/// Every cached block is whole.
pub open spec fn whole(slots: Slots) -> bool {
    forall|k: u64| slots.dom().contains(k) ==> (#[trigger] slots[k]).0.len() == BLOCK_SZ
}

/// Block `k` is whole if it is cached.
pub open spec fn whole_at(slots: Slots, k: u64) -> bool {
    slots.dom().contains(k) ==> slots[k].0.len() == BLOCK_SZ
}

/// Those of the blocks `ks` that are cached are whole.
pub open spec fn whole_in(slots: Slots, ks: Seq<u64>) -> bool {
    forall|i: int| 0 <= i < ks.len() ==> whole_at(slots, #[trigger] ks[i])
}

/// Each of the blocks `ks` is cached, unless the disk can be read.
pub open spec fn all_readable(slots: Slots, disk: Disk, ks: Seq<u64>) -> bool {
    forall|i: int| 0 <= i < ks.len() ==> !crate::cache::unreadable(slots, disk, #[trigger] ks[i])
}

/// How many of the `n` blocks from `from` on come before the first one that cannot be read.
pub open spec fn readable_run(slots: Slots, disk: Disk, blocks: Seq<u64>, from: int, n: nat) -> nat
    decreases n,
{
    if n == 0 {
        0
    } else {
        let m = readable_run(slots, disk, blocks, from, (n - 1) as nat);
        if m == n - 1 && !crate::cache::unreadable(slots, disk, blocks[from + n - 1]) {
            n
        } else {
            m
        }
    }
}

/// Cache and disk after block `k` was fetched.
pub open spec fn fetch_one(slots: Slots, disk: Disk, k: u64) -> (Slots, Disk) {
    if slots.dom().contains(k) {
        (slots, disk)
    } else {
        (slots.insert(k, (disk.content(k), false)), disk.after_read())
    }
}

/// Cache and disk after the blocks `ks` were fetched in turn.
pub open spec fn fetch_all(slots: Slots, disk: Disk, ks: Seq<u64>) -> (Slots, Disk)
    decreases ks.len(),
{
    if ks.len() == 0 {
        (slots, disk)
    } else {
        let s = fetch_all(slots, disk, ks.drop_last());
        fetch_one(s.0, s.1, ks.last())
    }
}

/// The chains of the cache after block `k` was fetched; `slots` is what they hold.
pub open spec fn fetch_line(v: Seq<Seq<Line>>, slots: Slots, disk: Disk, k: u64) -> Seq<Seq<Line>> {
    if slots.dom().contains(k) {
        v
    } else {
        crate::cache::appended(v, (k, disk.content(k), false))
    }
}

/// The chains of the cache after the blocks `ks` were fetched in turn.
pub open spec fn fetch_lines(v: Seq<Seq<Line>>, slots: Slots, disk: Disk, ks: Seq<u64>) -> Seq<Seq<Line>>
    decreases ks.len(),
{
    if ks.len() == 0 {
        v
    } else {
        let s = fetch_all(slots, disk, ks.drop_last());
        fetch_line(fetch_lines(v, slots, disk, ks.drop_last()), s.0, s.1, ks.last())
    }
}

/// Block number `bi` of a file, which now is `old`, with `buf` laid into the file at `offset`.
pub open spec fn overlay(old: Seq<u8>, bi: int, offset: int, buf: Seq<u8>) -> Seq<u8> {
    Seq::new(
        BLOCK_SZ as nat,
        |i: int|
            {
                let p = bi * BLOCK_SZ + i;
                if offset <= p < offset + buf.len() {
                    buf[p - offset]
                } else {
                    old[i]
                }
            },
    )
}

/// Cache and disk after the first `n` of the blocks from `from` on took their share of `buf`.
pub open spec fn patch_all(slots: Slots, disk: Disk, blocks: Seq<u64>, from: int, n: nat, offset: int, buf: Seq<u8>) -> (Slots, Disk)
    decreases n,
{
    if n == 0 {
        (slots, disk)
    } else {
        let s = patch_all(slots, disk, blocks, from, (n - 1) as nat, offset, buf);
        let bi = from + n - 1;
        let k = blocks[bi];
        let f = fetch_one(s.0, s.1, k);
        (f.0.insert(k, (overlay(crate::cache::block_of(s.0, s.1, k), bi, offset, buf), true)), f.1)
    }
}

/// The chains of the cache after the first `n` of the blocks from `from` on took their share of `buf`.
pub open spec fn patch_lines(
    v: Seq<Seq<Line>>,
    slots: Slots,
    disk: Disk,
    blocks: Seq<u64>,
    from: int,
    n: nat,
    offset: int,
    buf: Seq<u8>,
) -> Seq<Seq<Line>>
    decreases n,
{
    if n == 0 {
        v
    } else {
        let m = (n - 1) as nat;
        let s = patch_all(slots, disk, blocks, from, m, offset, buf);
        let bi = from + n - 1;
        let k = blocks[bi];
        let w = fetch_line(patch_lines(v, slots, disk, blocks, from, m, offset, buf), s.0, s.1, k);
        crate::cache::replaced(w, (k, overlay(crate::cache::block_of(s.0, s.1, k), bi, offset, buf), true))
    }
}

/// Byte `p` of a file with the blocks `blocks`.
pub open spec fn file_byte(slots: Slots, disk: Disk, blocks: Seq<u64>, p: int) -> u8 {
    crate::cache::block_of(slots, disk, blocks[p / BLOCK_SZ as int])[p % BLOCK_SZ as int]
}

/// Where the data of a file ends: at its size, or at its last block where that comes first.
pub open spec fn data_end(n: InodeView) -> int {
    if n.size <= n.blocks.len() * BLOCK_SZ {
        n.size as int
    } else {
        n.blocks.len() * BLOCK_SZ
    }
}

/// What a read of up to `max_len` bytes at `offset` yields.
pub open spec fn read_bytes(slots: Slots, disk: Disk, n: InodeView, offset: int, max_len: int) -> Seq<u8> {
    let stop = if offset + max_len < data_end(n) {
        offset + max_len
    } else {
        data_end(n)
    };
    Seq::new(
        if stop > offset { (stop - offset) as nat } else { 0 },
        |i: int| file_byte(slots, disk, n.blocks, offset + i),
    )
}

/// The blocks that a read of `n` bytes at `offset` touches, of those that there are.
pub open spec fn touched(blocks: Seq<u64>, offset: int, n: int) -> Seq<u64> {
    let first = offset / BLOCK_SZ as int;
    let last = (offset + n - 1) / BLOCK_SZ as int;
    let stop = if last + 1 < blocks.len() {
        last + 1
    } else {
        blocks.len() as int
    };
    if first < stop {
        blocks.subrange(first, stop)
    } else {
        Seq::empty()
    }
}

/// The blocks that a read of up to `max_len` bytes at `offset` touches.
pub open spec fn read_blocks(n: InodeView, offset: int, max_len: int) -> Seq<u64> {
    if offset >= n.size {
        Seq::empty()
    } else if max_len < n.size - offset {
        touched(n.blocks, offset, max_len)
    } else {
        touched(n.blocks, offset, n.size - offset)
    }
}

proof fn lemma_fetch_all(slots: Slots, disk: Disk, ks: Seq<u64>)
    ensures
        forall|b: u64|
            #[trigger] crate::cache::block_of(fetch_all(slots, disk, ks).0, fetch_all(slots, disk, ks).1, b) == crate::cache::block_of(
                slots,
                disk,
                b,
            ),
        crate::cache::coherent(slots, disk) ==> crate::cache::coherent(fetch_all(slots, disk, ks).0, fetch_all(slots, disk, ks).1),
    decreases ks.len(),
{
    if ks.len() > 0 {
        lemma_fetch_all(slots, disk, ks.drop_last());
        let s = fetch_all(slots, disk, ks.drop_last());
        let k = ks.last();
        if !s.0.dom().contains(k) {
            crate::cache::law_fetch_changes_nothing(s.0, s.1, k);
            assert forall|b: u64|
                #[trigger] crate::cache::block_of(fetch_all(slots, disk, ks).0, fetch_all(slots, disk, ks).1, b)
                    == crate::cache::block_of(slots, disk, b) by {
                assert(crate::cache::block_of(s.0, s.1, b) == crate::cache::block_of(slots, disk, b));
                assert(crate::cache::block_of(s.0.insert(k, (s.1.content(k), false)), s.1.after_read(), b) == crate::cache::block_of(
                    s.0,
                    s.1,
                    b,
                ));
            }
        }
    }
}

impl SimpleFS {
    /// Reads up to `max_len` bytes of file `ino` at `offset`. Nothing is read where a block is
    /// neither cached nor to be had from the disk.
    pub fn read_data(&self, ino: u64, offset: u64, max_len: u64, cache: &mut BlockCache, disk: &mut Disk) -> (r: Result<Vec<u8>, &'static str>)
        requires
            self.wf(),
            old(cache).wf(),
            old(disk).wf(),
            self@.file_error(ino) is None ==> whole_in(
                old(cache).slots(),
                read_blocks(self@.inodes[ino], offset as int, max_len as int),
            ),
        ensures
            final(cache).wf(),
            final(cache).width == old(cache).width,
            whole(old(cache).slots()) ==> whole(final(cache).slots()),
            final(disk).wf(),
            match self@.file_error(ino) {
                Some(e) => {
                    &&& r == Err::<Vec<u8>, &'static str>(e)
                    &&& *final(cache) == *old(cache)
                    &&& *final(disk) == *old(disk)
                },
                None => {
                    let n = self@.inodes[ino];
                    let ks = read_blocks(n, offset as int, max_len as int);
                    if all_readable(old(cache).slots(), *old(disk), ks) {
                        &&& r is Ok
                        &&& r->Ok_0@ == read_bytes(old(cache).slots(), *old(disk), n, offset as int, max_len as int)
                        &&& (final(cache).slots(), *final(disk)) == fetch_all(old(cache).slots(), *old(disk), ks)
                        &&& final(cache)@ == fetch_lines(old(cache)@, old(cache).slots(), *old(disk), ks)
                    } else {
                        &&& r == Err::<Vec<u8>, &'static str>("io_error")
                        &&& final(cache).slots() == old(cache).slots()
                        &&& final(cache)@ == old(cache)@
                        &&& *final(disk) == old(disk).after_read()
                    }
                },
            },
    {
        let inode = match self.inodes.get(ino) {
            Some(n) => n,
            None => {
                return Err("enoent");
            },
        };
        if inode.inode_type != InodeType::File {
            return Err("eisdir");
        }
        let size: u64 = inode.size;
        let ghost nv = self@.inodes[ino];
        let ghost slots0 = cache.slots();
        let ghost v0 = cache@;
        let ghost disk0 = *disk;
        let mut result: Vec<u8> = Vec::new();
        if offset >= size {
            assert(result@ =~= read_bytes(slots0, disk0, nv, offset as int, max_len as int));
            return Ok(result);
        }
        let n: u64 = if max_len < size - offset {
            max_len
        } else {
            size - offset
        };
        if offset + n == 0 {
            assert(result@ =~= read_bytes(slots0, disk0, nv, offset as int, max_len as int));
            return Ok(result);
        }
        let start_blk: u64 = offset / BLOCK_SZ;
        let end_blk: u64 = (offset + n - 1) / BLOCK_SZ;
        let ghost blocks = nv.blocks;
        let ghost ks = touched(blocks, offset as int, n as int);
        let mut bi: u64 = start_blk;
        proof {
            assert(ks.take(0) =~= Seq::<u64>::empty());
        }
        while bi <= end_blk && bi < inode.blocks.len() as u64
            invariant
                self.wf(),
                inode@ == nv,
                blocks == nv.blocks,
                cache.wf(),
                cache.width == old(cache).width,
                forall|i: int| 0 <= i < ks.len() ==> whole_at(cache.slots(), #[trigger] ks[i]),
                whole(slots0) ==> whole(cache.slots()),
                disk.wf(),
                disk0.errs == ERRS_FOREVER ==> cache.slots() == slots0 && cache@ == v0 && *disk == disk0,
                v0 == old(cache)@,
                cache@ == fetch_lines(v0, slots0, disk0, ks.take(bi - start_blk)),
                disk0.errs != ERRS_FOREVER ==> disk.errs != ERRS_FOREVER,
                forall|i: int| 0 <= i < bi - start_blk ==> !crate::cache::unreadable(slots0, disk0, #[trigger] ks[i]),
                nv == self@.inodes[ino],
                self@.file_error(ino) is None,
                slots0 == old(cache).slots(),
                disk0 == *old(disk),
                n == (if max_len < size - offset { max_len } else { (size - offset) as u64 }),
                offset < size,
                size == nv.size,
                n <= size - offset,
                offset + n > 0,
                start_blk == offset / BLOCK_SZ,
                end_blk == (offset + n - 1) / BLOCK_SZ as int,
                start_blk <= bi,
                bi <= end_blk + 1 || bi == start_blk,
                ks == touched(blocks, offset as int, n as int),
                bi - start_blk <= ks.len(),
                (cache.slots(), *disk) == fetch_all(slots0, disk0, ks.take(bi - start_blk)),
                result@.len() == (if bi == start_blk {
                    0
                } else if bi <= end_blk {
                    bi * BLOCK_SZ - offset
                } else {
                    n as int
                }),
                forall|i: int| 0 <= i < result@.len() ==> #[trigger] result@[i] == file_byte(slots0, disk0, blocks, offset + i),
            decreases end_blk + 1 - bi,
        {
            let blk_no: u64 = inode.blocks[bi as usize];
            proof {
                lemma_fetch_all(slots0, disk0, ks.take(bi - start_blk));
                let j = bi - start_blk;
                assert(ks[j] == blk_no);
                assert(ks.take(j + 1).drop_last() =~= ks.take(j));
                assert(ks.take(j + 1).last() == blk_no);
            }
            let ghost want = crate::cache::block_of(slots0, disk0, blk_no);
            proof {
                let s = fetch_all(slots0, disk0, ks.take(bi - start_blk));
                assert(cache.slots() == s.0 && *disk == s.1);
                assert(crate::cache::block_of(s.0, s.1, blk_no) == want);
            }
            let fetched = cache.fetch(blk_no, disk);
            let data = match fetched {
                Some(d) => d,
                None => {
                    return Err("io_error");
                },
            };
            assert(data@ == want);
            let from: u64 = if bi == start_blk {
                offset % BLOCK_SZ
            } else {
                0
            };
            let to: u64 = if bi == end_blk {
                (offset + n - 1) % BLOCK_SZ + 1
            } else {
                BLOCK_SZ
            };
            let ghost base = result@;
            let mut t: u64 = from;
            while t < to
                invariant
                    from <= t,
                    t <= to || t == from,
                    to <= BLOCK_SZ,
                    data@.len() == BLOCK_SZ,
                    data@ == crate::cache::block_of(slots0, disk0, blk_no),
                    blk_no == blocks[bi as int],
                    base.len() == bi * BLOCK_SZ + from - offset,
                    base.len() >= 0,
                    result@.len() == base.len() + (t - from),
                    forall|i: int| 0 <= i < result@.len() ==> #[trigger] result@[i] == file_byte(slots0, disk0, blocks, offset + i),
                decreases to - t,
            {
                result.push(data[t as usize]);
                proof {
                    let p = bi * BLOCK_SZ + t;
                    assert(p / BLOCK_SZ as int == bi && p % BLOCK_SZ as int == t);
                    assert(offset + (result@.len() - 1) == p);
                }
                t += 1;
            }
            bi += 1;
        }
        proof {
            assert(ks.take(ks.len() as int) =~= ks);
            assert(result@ =~= read_bytes(slots0, disk0, nv, offset as int, max_len as int));
        }
        Ok(result)
    }
}

/// The last block that a write up to `end`, which is not the start, reaches.
pub open spec fn last_block(end: int) -> int {
    (end - 1) / BLOCK_SZ as int
}

/// Number of blocks that a write of `len` bytes at `offset` touches.
pub open spec fn span(offset: int, len: int) -> nat {
    (last_block(offset + len) + 1 - offset / BLOCK_SZ as int) as nat
}

/// Lays `buf` at `offset` into the file with the blocks `blocks`, which reach far enough. `false`
/// where a block could not be read.
fn patch_blocks(blocks: &Vec<u64>, offset: u64, buf: &[u8], cache: &mut BlockCache, disk: &mut Disk) -> (ok: bool)
    requires
        old(cache).wf(),
        whole_in(old(cache).slots(), touched(blocks@, offset as int, buf@.len() as int)),
        old(disk).wf(),
        offset + buf@.len() <= u64::MAX,
        buf@.len() > 0 || offset > 0,
        last_block(offset + buf@.len()) < blocks@.len(),
    ensures
        final(cache).wf(),
        final(cache).width == old(cache).width,
        whole(old(cache).slots()) ==> whole(final(cache).slots()),
        final(disk).wf(),
        ({
            let from = offset as int / BLOCK_SZ as int;
            let n = span(offset as int, buf@.len() as int);
            let m = readable_run(old(cache).slots(), *old(disk), blocks@, from, n);
            let patched = patch_all(old(cache).slots(), *old(disk), blocks@, from, m, offset as int, buf@);
            &&& ok == (m == n)
            &&& final(cache).slots() == patched.0
            &&& final(cache)@ == patch_lines(
                old(cache)@,
                old(cache).slots(),
                *old(disk),
                blocks@,
                from,
                m,
                offset as int,
                buf@,
            )
            &&& *final(disk) == (if ok { patched.1 } else { old(disk).after_read() })
        }),
{
    let ghost slots0 = cache.slots();
    let ghost v0 = cache@;
    let ghost disk0 = *disk;
    let ghost off = offset as int;
    assert(blocks.len() <= usize::MAX);
    let needed: u64 = offset + buf.len() as u64;
    let start_blk: u64 = offset / BLOCK_SZ;
    let end_blk: u64 = (needed - 1) / BLOCK_SZ;
    let mut total: usize = 0;
    let mut bi: u64 = start_blk;
    proof {
        let ks = touched(blocks@, off, buf@.len() as int);
        assert forall|x: int| start_blk <= x <= end_blk implies whole_at(slots0, #[trigger] blocks@[x]) by {
            assert(whole_at(slots0, ks[x - start_blk]));
        }
    }
    while bi <= end_blk
        invariant
            usize::MAX >= blocks@.len() > end_blk,
            cache.wf(),
            cache.width == old(cache).width,
            forall|x: int| start_blk <= x <= end_blk ==> whole_at(cache.slots(), #[trigger] blocks@[x]),
            whole(slots0) ==> whole(cache.slots()),
            disk.wf(),
            disk0.errs == ERRS_FOREVER ==> cache.slots().dom() == slots0.dom() && *disk == disk0,
            v0 == old(cache)@,
            cache@ == patch_lines(v0, slots0, disk0, blocks@, start_blk as int, (bi - start_blk) as nat, off, buf@),
            disk0.errs != ERRS_FOREVER ==> disk.errs != ERRS_FOREVER,
            readable_run(slots0, disk0, blocks@, start_blk as int, (bi - start_blk) as nat) == bi - start_blk,
            slots0 == old(cache).slots(),
            disk0 == *old(disk),
            off == offset,
            needed == offset + buf@.len(),
            buf@.len() > 0 || offset > 0,
            start_blk == offset / BLOCK_SZ,
            end_blk == last_block(needed as int),
            start_blk <= bi,
            bi <= end_blk + 1 || bi == start_blk,
            (cache.slots(), *disk) == patch_all(slots0, disk0, blocks@, start_blk as int, (bi - start_blk) as nat, off, buf@),
            total == (if bi == start_blk {
                0
            } else if bi <= end_blk {
                bi * BLOCK_SZ - offset
            } else {
                buf@.len() as int
            }),
        decreases end_blk + 1 - bi,
    {
        let blk_no: u64 = blocks[bi as usize];
        let ghost now = crate::cache::block_of(cache.slots(), *disk, blk_no);
        let ghost s = (cache.slots(), *disk);
        let fetched = cache.fetch(blk_no, disk);
        let mut data = match fetched {
            Some(d) => d,
            None => {
                proof {
                    lemma_run_ends(slots0, disk0, blocks@, start_blk as int, (bi - start_blk) as nat, span(off, buf@.len() as int));
                }
                return false;
            },
        };
        assert(data@ == now);
        assert((cache.slots(), *disk) == fetch_one(s.0, s.1, blk_no));
        let from: u64 = if bi == start_blk {
            offset % BLOCK_SZ
        } else {
            0
        };
        let to: u64 = if bi == end_blk {
            (needed - 1) % BLOCK_SZ + 1
        } else {
            BLOCK_SZ
        };
        let mut t: u64 = from;
        let ghost first = total as int;
        while t < to
            invariant
                from <= t,
                t <= to || t == from,
                to <= BLOCK_SZ,
                data@.len() == BLOCK_SZ,
                now.len() == BLOCK_SZ,
                first == bi * BLOCK_SZ + from - offset,
                first >= 0,
                first + (to - from) <= buf@.len() || to <= from,
                total == first + (t - from),
                forall|i: int|
                    0 <= i < BLOCK_SZ ==> #[trigger] data@[i] == (if from <= i < t {
                        buf@[bi * BLOCK_SZ + i - offset]
                    } else {
                        now[i]
                    }),
            decreases to - t,
        {
            data[t as usize] = buf[total];
            t += 1;
            total += 1;
        }
        assert(data@ =~= overlay(now, bi as int, off, buf@)) by {
            assert forall|i: int| 0 <= i < BLOCK_SZ implies data@[i] == overlay(now, bi as int, off, buf@)[i] by {
                let p = bi * BLOCK_SZ + i;
                if from <= i < t {
                    assert(offset <= p < offset + buf@.len());
                } else if i < from {
                    assert(p < offset);
                } else {
                    assert(p >= offset + buf@.len());
                }
            }
        }
        cache.put(blk_no, data);
        bi += 1;
    }
    true
}

/// The run ends at the first block that cannot be read.
proof fn lemma_run_ends(slots: Slots, disk: Disk, blocks: Seq<u64>, from: int, m: nat, n: nat)
    requires
        m < n,
        readable_run(slots, disk, blocks, from, m) == m,
        crate::cache::unreadable(slots, disk, blocks[from + m]),
    ensures
        readable_run(slots, disk, blocks, from, n) == m,
    decreases n,
{
    if n > m + 1 {
        lemma_run_ends(slots, disk, blocks, from, m, (n - 1) as nat);
    }
}

impl SimpleFS {
    /// Writes `buf` into file `ino` at `offset`, with new blocks where the file has too few, and
    /// returns the number of bytes written; nothing written at the start leaves the file alone. The data reaches the disk when the cache is synced.
    /// The write stops at a block that is neither cached nor to be had from the disk; the blocks
    /// before it have their bytes then, but the size stays.
    pub fn write_data(&mut self, ino: u64, offset: u64, buf: &[u8], cache: &mut BlockCache, disk: &mut Disk) -> (r: Result<usize, &'static str>)
        requires
            old(self).wf(),
            old(cache).wf(),
            old(disk).wf(),
            old(self)@.file_error(ino) is None && offset + buf@.len() > 0 ==> {
                &&& offset + buf@.len() <= u64::MAX
                &&& last_block(offset + buf@.len()) < usize::MAX
                &&& old(self)@.next_blk + last_block(offset + buf@.len()) + 1 - old(self)@.inodes[ino].blocks.len() <= u64::MAX
                &&& whole_in(
                    old(cache).slots(),
                    touched(
                        old(self)@.grown_blocks(ino, (last_block(offset + buf@.len()) + 1) as nat),
                        offset as int,
                        buf@.len() as int,
                    ),
                )
            },
        ensures
            final(self).wf(),
            final(cache).wf(),
            final(cache).width == old(cache).width,
            whole(old(cache).slots()) ==> whole(final(cache).slots()),
            final(disk).wf(),
            match old(self)@.file_error(ino) {
                Some(e) => {
                    &&& r == Err::<usize, &'static str>(e)
                    &&& *final(self) == *old(self)
                    &&& *final(cache) == *old(cache)
                    &&& *final(disk) == *old(disk)
                },
                None => {
                    let end = offset + buf@.len();
                    let grown = old(self)@.grown(ino, (last_block(end) + 1) as nat);
                    let blocks = old(self)@.grown_blocks(ino, (last_block(end) + 1) as nat);
                    let from = offset as int / BLOCK_SZ as int;
                    let n = span(offset as int, buf@.len() as int);
                    let m = readable_run(old(cache).slots(), *old(disk), blocks, from, n);
                    let patched = patch_all(old(cache).slots(), *old(disk), blocks, from, m, offset as int, buf@);
                    let chains = patch_lines(
                        old(cache)@,
                        old(cache).slots(),
                        *old(disk),
                        blocks,
                        from,
                        m,
                        offset as int,
                        buf@,
                    );
                    if end == 0 {
                        &&& r == Ok::<usize, &'static str>(0)
                        &&& *final(self) == *old(self)
                        &&& *final(cache) == *old(cache)
                        &&& *final(disk) == *old(disk)
                    } else if m == n {
                        &&& r == Ok::<usize, &'static str>(buf@.len() as usize)
                        &&& final(self)@ == grown.lengthened(ino, end as u64)
                        &&& (final(cache).slots(), *final(disk)) == patched
                        &&& final(cache)@ == chains
                    } else {
                        &&& r == Err::<usize, &'static str>("io_error")
                        &&& final(self)@ == grown
                        &&& (final(cache).slots(), *final(disk)) == (patched.0, old(disk).after_read())
                        &&& final(cache)@ == chains
                    }
                },
            },
    {
        match self.inodes.get(ino) {
            Some(n) => {
                if n.inode_type != InodeType::File {
                    return Err("eisdir");
                }
            },
            None => {
                return Err("enoent");
            },
        }
        if offset == 0 && buf.len() == 0 {
            return Ok(0);
        }
        let ghost before = *self;
        let needed: u64 = offset + buf.len() as u64;
        let end_blk: u64 = (needed - 1) / BLOCK_SZ;
        let _grown = self.ensure_blocks(ino, end_blk as usize);
        let ghost grown = before@.grown(ino, (end_blk + 1) as nat);
        match self.inodes.get(ino) {
            Some(n) => {
                assert(n@ == grown.inodes[ino]);
                if !patch_blocks(&n.blocks, offset, buf, cache, disk) {
                    return Err("io_error");
                }
            },
            None => {},
        }
        assert(self@.inodes.dom().contains(ino));
        if let Some(n) = self.inodes.get_mut(ino) {
            if needed > n.size {
                n.size = needed;
            }
        }
        proof {
            assert(self@.inodes =~= grown.lengthened(ino, needed).inodes);
            grown.lemma_same_blocks(self@);
        }
        Ok(buf.len())
    }

    /// Cuts or stretches inode `ino` to `size` bytes; blocks behind the new end are given up.
    pub fn truncate(&mut self, ino: u64, size: u64) -> (r: Result<(), &'static str>)
        requires
            old(self).wf(),
            size + BLOCK_SZ - 1 <= u64::MAX,
        ensures
            final(self).wf(),
            r == (if old(self)@.inodes.dom().contains(ino) { Ok(()) } else { Err("enoent") }),
            r is Ok ==> final(self)@ == old(self)@.truncated(ino, size),
            r is Err ==> *final(self) == *old(self),
    {
        let ghost before = *self;
        let inode = match self.inodes.get_mut(ino) {
            Some(n) => n,
            None => {
                return Err("enoent");
            },
        };
        let needed: u64 = (size + (BLOCK_SZ - 1)) / BLOCK_SZ;
        if needed < inode.blocks.len() as u64 {
            inode.blocks.truncate(needed as usize);
        }
        inode.size = size;
        proof {
            assert(self@.inodes =~= before@.truncated(ino, size).inodes);
            self.lemma_fewer_blocks(before);
        }
        Ok(())
    }
}

impl FsView {
    /// The invariant does not depend on sizes.
    proof fn lemma_same_blocks(self, after: FsView)
        requires
            self.wf(),
            after.next_ino == self.next_ino,
            after.next_blk == self.next_blk,
            forall|i: u64| #[trigger] after.inodes.dom().contains(i) <==> self.inodes.dom().contains(i),
            forall|i: u64|
                self.inodes.dom().contains(i) ==> (#[trigger] after.inodes[i]).blocks == self.inodes[i].blocks && after.inodes[i].ino
                    == self.inodes[i].ino && after.inodes[i].children == self.inodes[i].children,
        ensures
            after.wf(),
    {
        assert forall|i: u64| after.inodes.dom().contains(i) implies i < after.next_ino && (#[trigger] after.inodes[i]).ino == i by {
            assert(self.inodes[i].ino == i);
        }
        assert forall|i: u64, name: Seq<char>|
            after.inodes.dom().contains(i) && after.inodes[i].children.dom().contains(name) implies i < (
        #[trigger] after.inodes[i].children[name]) < after.next_ino by {
            assert(self.inodes[i].children[name] == after.inodes[i].children[name]);
        }
        assert forall|i: u64, x: int|
            after.inodes.dom().contains(i) && 0 <= x < after.inodes[i].blocks.len() implies (#[trigger] after.inodes[i].blocks[x])
            < after.next_blk by {
            assert(self.inodes[i].blocks[x] == after.inodes[i].blocks[x]);
        }
        assert forall|i: u64, x: int, j: u64, y: int|
            #![trigger after.inodes[i].blocks[x], after.inodes[j].blocks[y]]
            after.inodes.dom().contains(i) && after.inodes.dom().contains(j) && 0 <= x < after.inodes[i].blocks.len() && 0 <= y
                < after.inodes[j].blocks.len() && (i != j || x != y) implies after.inodes[i].blocks[x] != after.inodes[j].blocks[y] by {
            assert(self.inodes[i].blocks[x] == after.inodes[i].blocks[x]);
            assert(self.inodes[j].blocks[y] == after.inodes[j].blocks[y]);
        }
    }
}

proof fn lemma_patch_all(slots: Slots, disk: Disk, blocks: Seq<u64>, from: int, n: nat, offset: int, buf: Seq<u8>)
    requires
        0 <= from,
        from + n <= blocks.len(),
        forall|x: int, y: int| 0 <= x < y < blocks.len() ==> blocks[x] != blocks[y],
    ensures
        ({
            let s = patch_all(slots, disk, blocks, from, n, offset, buf);
            &&& forall|bi: int|
                0 <= bi < blocks.len() ==> crate::cache::block_of(s.0, s.1, #[trigger] blocks[bi]) == (if from <= bi < from + n {
                    overlay(crate::cache::block_of(slots, disk, blocks[bi]), bi, offset, buf)
                } else {
                    crate::cache::block_of(slots, disk, blocks[bi])
                })
            &&& forall|b: u64|
                (forall|bi: int| 0 <= bi < blocks.len() ==> blocks[bi] != b) ==> #[trigger] crate::cache::block_of(s.0, s.1, b)
                    == crate::cache::block_of(slots, disk, b)
            &&& forall|bi: int| from <= bi < from + n ==> s.0.dom().contains(#[trigger] blocks[bi])
            &&& crate::cache::coherent(slots, disk) ==> crate::cache::coherent(s.0, s.1)
        }),
    decreases n,
{
    if n > 0 {
        lemma_patch_all(slots, disk, blocks, from, (n - 1) as nat, offset, buf);
        let s = patch_all(slots, disk, blocks, from, (n - 1) as nat, offset, buf);
        let last = from + n - 1;
        let k = blocks[last];
        let f = fetch_one(s.0, s.1, k);
        let data = overlay(crate::cache::block_of(s.0, s.1, k), last, offset, buf);
        if !s.0.dom().contains(k) {
            crate::cache::law_fetch_changes_nothing(s.0, s.1, k);
        }
        assert(forall|b: u64| #[trigger] crate::cache::block_of(f.0, f.1, b) == crate::cache::block_of(s.0, s.1, b));
        crate::cache::law_fetch_after_put(f.0, f.1, k, data);
        let e = patch_all(slots, disk, blocks, from, n, offset, buf);
        assert forall|bi: int| 0 <= bi < blocks.len() implies crate::cache::block_of(e.0, e.1, #[trigger] blocks[bi]) == (if from <= bi
            < from + n {
            overlay(crate::cache::block_of(slots, disk, blocks[bi]), bi, offset, buf)
        } else {
            crate::cache::block_of(slots, disk, blocks[bi])
        }) by {
            if bi != last {
                if bi < last {
                    assert(blocks[bi] != blocks[last]);
                } else {
                    assert(blocks[last] != blocks[bi]);
                }
                assert(crate::cache::block_of(f.0, f.1, blocks[bi]) == crate::cache::block_of(s.0, s.1, blocks[bi]));
            }
        }
        assert forall|b: u64| (forall|bi: int| 0 <= bi < blocks.len() ==> blocks[bi] != b) implies #[trigger] crate::cache::block_of(
            e.0,
            e.1,
            b,
        ) == crate::cache::block_of(slots, disk, b) by {
            assert(blocks[last] != b);
            assert(crate::cache::block_of(f.0, f.1, b) == crate::cache::block_of(s.0, s.1, b));
        }
    }
}

proof fn lemma_distinct_blocks(fs: FsView, ino: u64, n: nat)
    requires
        fs.wf(),
        fs.inodes.dom().contains(ino),
        fs.next_blk + n - fs.inodes[ino].blocks.len() <= u64::MAX,
    ensures
        ({
            let b = fs.grown_blocks(ino, n);
            &&& forall|x: int, y: int| 0 <= x < y < b.len() ==> b[x] != b[y]
            &&& forall|other: u64, x: int, y: int|
                fs.inodes.dom().contains(other) && other != ino && 0 <= x < b.len() && 0 <= y < fs.inodes[other].blocks.len()
                    ==> #[trigger] b[x] != #[trigger] fs.inodes[other].blocks[y]
        }),
{
    fs.lemma_grown_wf(ino, n);
    let g = fs.grown(ino, n);
    let b = fs.grown_blocks(ino, n);
    assert(g.inodes[ino].blocks == b);
    assert forall|x: int, y: int| 0 <= x < y < b.len() implies b[x] != b[y] by {
        assert(g.inodes[ino].blocks[x] != g.inodes[ino].blocks[y]);
    }
    assert forall|other: u64, x: int, y: int|
        fs.inodes.dom().contains(other) && other != ino && 0 <= x < b.len() && 0 <= y < fs.inodes[other].blocks.len() implies
        #[trigger] b[x] != #[trigger] fs.inodes[other].blocks[y] by {
        assert(g.inodes[other] == fs.inodes[other]);
        assert(g.inodes[ino].blocks[x] != g.inodes[other].blocks[y]);
    }
}

/// A write that the file system accepts. It goes through unless the disk stays broken.
pub open spec fn writable(fs: FsView, ino: u64, offset: int, buf: Seq<u8>) -> bool {
    &&& fs.wf()
    &&& fs.file_error(ino) is None
    &&& 0 <= offset
    &&& buf.len() > 0
    &&& offset + buf.len() <= u64::MAX
    &&& fs.next_blk + last_block(offset + buf.len()) + 1 - fs.inodes[ino].blocks.len() <= u64::MAX
}

/// The file system after a write that went through.
pub open spec fn written(fs: FsView, ino: u64, offset: int, buf: Seq<u8>) -> FsView {
    fs.grown(ino, (last_block(offset + buf.len()) + 1) as nat).lengthened(ino, (offset + buf.len()) as u64)
}

/// Cache and disk after a write that went through.
pub open spec fn written_data(fs: FsView, slots: Slots, disk: Disk, ino: u64, offset: int, buf: Seq<u8>) -> (Slots, Disk) {
    patch_all(
        slots,
        disk,
        fs.grown_blocks(ino, (last_block(offset + buf.len()) + 1) as nat),
        offset / BLOCK_SZ as int,
        span(offset, buf.len() as int),
        offset,
        buf,
    )
}

proof fn lemma_written_byte(fs: FsView, slots: Slots, disk: Disk, ino: u64, offset: int, buf: Seq<u8>, p: int)
    requires
        writable(fs, ino, offset, buf),
        0 <= p < written(fs, ino, offset, buf).inodes[ino].blocks.len() * BLOCK_SZ,
    ensures
        ({
            let d = written_data(fs, slots, disk, ino, offset, buf);
            let blocks = written(fs, ino, offset, buf).inodes[ino].blocks;
            file_byte(d.0, d.1, blocks, p) == (if offset <= p < offset + buf.len() {
                buf[p - offset]
            } else {
                file_byte(slots, disk, blocks, p)
            })
        }),
{
    let end = offset + buf.len();
    let n = (last_block(end) + 1) as nat;
    let blocks = fs.grown_blocks(ino, n);
    lemma_distinct_blocks(fs, ino, n);
    let from = offset / BLOCK_SZ as int;
    lemma_patch_all(slots, disk, blocks, from, span(offset, buf.len() as int), offset, buf);
    let bi = p / BLOCK_SZ as int;
    assert(written(fs, ino, offset, buf).inodes[ino].blocks == blocks);
    assert(0 <= bi < blocks.len());
    assert(bi * BLOCK_SZ + p % BLOCK_SZ as int == p);
    let d = written_data(fs, slots, disk, ino, offset, buf);
    let k = blocks[bi];
    assert(crate::cache::block_of(d.0, d.1, k) == (if from <= bi < from + span(offset, buf.len() as int) {
        overlay(crate::cache::block_of(slots, disk, k), bi, offset, buf)
    } else {
        crate::cache::block_of(slots, disk, k)
    }));
}

/// Where the disk does not stay broken, no block ends the run.
proof fn lemma_run_whole(slots: Slots, disk: Disk, blocks: Seq<u64>, from: int, n: nat)
    requires
        disk.errs != ERRS_FOREVER,
    ensures
        readable_run(slots, disk, blocks, from, n) == n,
    decreases n,
{
    if n > 0 {
        lemma_run_whole(slots, disk, blocks, from, (n - 1) as nat);
    }
}

/// Reading gives back what was written: a write of `buf` at `offset` goes through unless the disk
/// stays broken, and once it did, a read of that many bytes there succeeds, whatever state the disk
/// is in, and yields `buf`.
pub proof fn law_read_back(fs: FsView, slots: Slots, disk: Disk, ino: u64, offset: int, buf: Seq<u8>)
    requires
        writable(fs, ino, offset, buf),
    ensures
        ({
            let d = written_data(fs, slots, disk, ino, offset, buf);
            let n = written(fs, ino, offset, buf).inodes[ino];
            let count = span(offset, buf.len() as int);
            &&& disk.errs != ERRS_FOREVER ==> readable_run(slots, disk, n.blocks, offset / BLOCK_SZ as int, count) == count
            &&& offset < n.size
            &&& all_readable(d.0, d.1, touched(n.blocks, offset, buf.len() as int))
            &&& read_bytes(d.0, d.1, n, offset, buf.len() as int) == buf
        }),
{
    let d = written_data(fs, slots, disk, ino, offset, buf);
    let n = written(fs, ino, offset, buf).inodes[ino];
    let got = read_bytes(d.0, d.1, n, offset, buf.len() as int);
    if disk.errs != ERRS_FOREVER {
        lemma_run_whole(slots, disk, n.blocks, offset / BLOCK_SZ as int, span(offset, buf.len() as int));
    }
    assert(n.blocks.len() >= last_block(offset + buf.len()) + 1);
    assert(n.size >= offset + buf.len());
    assert(data_end(n) >= offset + buf.len());
    assert forall|i: int| 0 <= i < buf.len() implies got[i] == buf[i] by {
        lemma_written_byte(fs, slots, disk, ino, offset, buf, offset + i);
    }
    assert(got =~= buf);
    let blocks = fs.grown_blocks(ino, (last_block(offset + buf.len()) + 1) as nat);
    lemma_distinct_blocks(fs, ino, (last_block(offset + buf.len()) + 1) as nat);
    let from = offset / BLOCK_SZ as int;
    lemma_patch_all(slots, disk, blocks, from, span(offset, buf.len() as int), offset, buf);
    let ks = touched(n.blocks, offset, buf.len() as int);
    assert forall|i: int| 0 <= i < ks.len() implies !crate::cache::unreadable(d.0, d.1, #[trigger] ks[i]) by {
        assert(ks[i] == blocks[from + i]);
    }
}

/// A write changes no byte of the file outside the written range.
pub proof fn law_write_keeps_rest(fs: FsView, slots: Slots, disk: Disk, ino: u64, offset: int, buf: Seq<u8>, p: int)
    requires
        writable(fs, ino, offset, buf),
        0 <= p < data_end(fs.inodes[ino]),
        p < offset || p >= offset + buf.len(),
    ensures
        ({
            let d = written_data(fs, slots, disk, ino, offset, buf);
            let n = written(fs, ino, offset, buf).inodes[ino];
            &&& p < data_end(n)
            &&& file_byte(d.0, d.1, n.blocks, p) == file_byte(slots, disk, fs.inodes[ino].blocks, p)
        }),
{
    lemma_written_byte(fs, slots, disk, ino, offset, buf, p);
    let old_blocks = fs.inodes[ino].blocks;
    let n = written(fs, ino, offset, buf).inodes[ino];
    assert(old_blocks.len() > p / (BLOCK_SZ as int));
    assert(n.blocks[p / BLOCK_SZ as int] == old_blocks[p / BLOCK_SZ as int]);
}

/// A write changes no byte of any other file.
pub proof fn law_write_keeps_others(
    fs: FsView,
    slots: Slots,
    disk: Disk,
    ino: u64,
    offset: int,
    buf: Seq<u8>,
    other: u64,
    p: int,
)
    requires
        writable(fs, ino, offset, buf),
        fs.inodes.dom().contains(other),
        other != ino,
        0 <= p < data_end(fs.inodes[other]),
    ensures
        ({
            let d = written_data(fs, slots, disk, ino, offset, buf);
            &&& written(fs, ino, offset, buf).inodes[other] == fs.inodes[other]
            &&& file_byte(d.0, d.1, fs.inodes[other].blocks, p) == file_byte(slots, disk, fs.inodes[other].blocks, p)
        }),
{
    let n = (last_block(offset + buf.len()) + 1) as nat;
    let blocks = fs.grown_blocks(ino, n);
    lemma_distinct_blocks(fs, ino, n);
    lemma_patch_all(slots, disk, blocks, offset / BLOCK_SZ as int, span(offset, buf.len() as int), offset, buf);
    let y = p / BLOCK_SZ as int;
    let b = fs.inodes[other].blocks[y];
    assert forall|bi: int| 0 <= bi < blocks.len() implies blocks[bi] != b by {
        assert(blocks[bi] != fs.inodes[other].blocks[y]);
    }
}

/// Reading changes neither what any block holds nor the coherence of the cache.
pub proof fn law_read_is_pure(slots: Slots, disk: Disk, ks: Seq<u64>, b: u64)
    ensures
        ({
            let s = fetch_all(slots, disk, ks);
            &&& crate::cache::block_of(s.0, s.1, b) == crate::cache::block_of(slots, disk, b)
            &&& crate::cache::coherent(slots, disk) ==> crate::cache::coherent(s.0, s.1)
        }),
{
    lemma_fetch_all(slots, disk, ks);
}

proof fn lemma_create_then_walk(fs: FsView, cur: u64, comps: Seq<Seq<char>>, kind: InodeType)
    requires
        fs.wf(),
        fs.next_ino < u64::MAX,
        comps.len() > 0,
        walk(fs.inodes, cur, comps) is Ok,
        walk(fs.inodes, cur, comps)->Ok_0.ino == NO_INO,
    ensures
        ({
            let l = walk(fs.inodes, cur, comps)->Ok_0;
            &&& fs.dir_error(l.parent_ino) is None
            &&& walk(fs.created(l.parent_ino, l.name, kind).inodes, cur, comps) == Ok::<LookupView, &'static str>(
                LookupView { ino: fs.next_ino, ..l },
            )
        }),
    decreases comps.len(),
{
    let l = walk(fs.inodes, cur, comps)->Ok_0;
    let after = fs.created(l.parent_ino, l.name, kind).inodes;
    let ch = fs.inodes[cur].children;
    if comps.len() > 1 {
        lemma_create_then_walk(fs, ch[comps[0]], comps.drop_first(), kind);
        assert(ch[comps[0]] < fs.next_ino);
        lemma_walk_ends_in_dir(fs, ch[comps[0]], comps.drop_first());
        if cur == l.parent_ino && comps[0] == l.name {
            assert(fs.inodes[l.parent_ino].children[l.name] < fs.next_ino);
        }
    }
    assert(cur < fs.next_ino) by {
        assert(fs.inodes[cur].ino == cur);
    }
}

proof fn lemma_walk_ends_in_dir(fs: FsView, cur: u64, comps: Seq<Seq<char>>)
    requires
        fs.wf(),
        comps.len() > 0,
        walk(fs.inodes, cur, comps) is Ok,
        walk(fs.inodes, cur, comps)->Ok_0.ino == NO_INO,
    ensures
        ({
            let l = walk(fs.inodes, cur, comps)->Ok_0;
            &&& fs.inodes.dom().contains(l.parent_ino)
            &&& !fs.inodes[l.parent_ino].children.dom().contains(l.name)
        }),
    decreases comps.len(),
{
    let ch = fs.inodes[cur].children;
    if comps.len() > 1 {
        lemma_walk_ends_in_dir(fs, ch[comps[0]], comps.drop_first());
    } else if ch.dom().contains(comps[0]) {
        assert(ch[comps[0]] < fs.next_ino);
    }
}

/// Where a path is missing, its directory has no such entry, and the next inode number is free.
pub proof fn lemma_missing_is_free(fs: FsView, path: Seq<char>)
    requires
        fs.wf(),
        fs.missing(path),
    ensures
        ({
            let l = fs.lookup(path)->Ok_0;
            !fs.inodes[l.parent_ino].children.dom().contains(l.name) && !fs.inodes.dom().contains(fs.next_ino)
        }),
{
    lemma_walk_ends_in_dir(fs, 0, crate::text::components(path));
    assert(fs.inodes.dom().contains(fs.next_ino) ==> fs.inodes[fs.next_ino].ino < fs.next_ino);
}

/// A path whose last component is missing leads to the new inode once that component was created
/// where the lookup said.
pub proof fn law_create_then_lookup(fs: FsView, path: Seq<char>, kind: InodeType)
    requires
        fs.wf(),
        fs.next_ino < u64::MAX,
        fs.lookup(path) is Ok,
        fs.lookup(path)->Ok_0.ino == NO_INO,
    ensures
        ({
            let l = fs.lookup(path)->Ok_0;
            &&& fs.dir_error(l.parent_ino) is None
            &&& fs.created(l.parent_ino, l.name, kind).lookup(path) == Ok::<LookupView, &'static str>(
                LookupView { ino: fs.next_ino, ..l },
            )
        }),
{
    lemma_create_then_walk(fs, 0, crate::text::components(path), kind);
}

proof fn lemma_walk_goes_down(fs: FsView, cur: u64, comps: Seq<Seq<char>>)
    requires
        fs.wf(),
        comps.len() > 0,
        walk(fs.inodes, cur, comps) is Ok,
    ensures
        ({
            let l = walk(fs.inodes, cur, comps)->Ok_0;
            &&& cur <= l.parent_ino
            &&& fs.dir_error(l.parent_ino) is None
            &&& l.ino == (if fs.inodes[l.parent_ino].children.dom().contains(l.name) {
                fs.inodes[l.parent_ino].children[l.name]
            } else {
                NO_INO
            })
        }),
    decreases comps.len(),
{
    let ch = fs.inodes[cur].children;
    if comps.len() > 1 {
        lemma_walk_goes_down(fs, ch[comps[0]], comps.drop_first());
        assert(cur < fs.inodes[cur].children[comps[0]]);
    }
}

proof fn lemma_unlink_then_walk(fs: FsView, cur: u64, comps: Seq<Seq<char>>)
    requires
        fs.wf(),
        comps.len() > 0,
        walk(fs.inodes, cur, comps) is Ok,
        walk(fs.inodes, cur, comps)->Ok_0.ino != NO_INO,
    ensures
        ({
            let l = walk(fs.inodes, cur, comps)->Ok_0;
            walk(fs.unlinked(l.parent_ino, l.name).inodes, cur, comps) == Ok::<LookupView, &'static str>(
                LookupView { ino: NO_INO, ..l },
            )
        }),
    decreases comps.len(),
{
    let l = walk(fs.inodes, cur, comps)->Ok_0;
    let ch = fs.inodes[cur].children;
    lemma_walk_goes_down(fs, cur, comps);
    assert(l.parent_ino < fs.inodes[l.parent_ino].children[l.name]);
    if comps.len() > 1 {
        let next = ch[comps[0]];
        assert(cur < fs.inodes[cur].children[comps[0]]);
        lemma_walk_goes_down(fs, next, comps.drop_first());
        lemma_unlink_then_walk(fs, next, comps.drop_first());
    }
}

/// A path that leads to a file or a directory leads to nothing once that was deleted from its
/// directory; the directory on the way stays where it is.
pub proof fn law_unlink_then_lookup(fs: FsView, path: Seq<char>)
    requires
        fs.wf(),
        crate::text::components(path).len() > 0,
        fs.lookup(path) is Ok,
        fs.lookup(path)->Ok_0.ino != NO_INO,
    ensures
        ({
            let l = fs.lookup(path)->Ok_0;
            &&& fs.dir_error(l.parent_ino) is None
            &&& fs.inodes[l.parent_ino].children.dom().contains(l.name)
            &&& fs.inodes[l.parent_ino].children[l.name] == l.ino
            &&& fs.unlinked(l.parent_ino, l.name).lookup(path) == Ok::<LookupView, &'static str>(
                LookupView { ino: NO_INO, ..l },
            )
        }),
{
    let comps = crate::text::components(path);
    lemma_walk_goes_down(fs, 0, comps);
    lemma_unlink_then_walk(fs, 0, comps);
}

/// Deleting what was just created under a name that the directory did not have gives back all
/// inodes and all entries as they were. So every path leads where it led before, and a path that
/// led to the new inode leads to nothing.
pub proof fn law_unlink_undoes_create(fs: FsView, dir: u64, name: Seq<char>, kind: InodeType)
    requires
        fs.wf(),
        fs.next_ino < u64::MAX,
        fs.dir_error(dir) is None,
        !fs.inodes[dir].children.dom().contains(name),
    ensures
        ({
            let made = fs.created(dir, name, kind);
            let gone = made.unlinked(dir, name);
            &&& made.dir_error(dir) is None
            &&& made.inodes[dir].children.dom().contains(name)
            &&& gone.inodes == fs.inodes
            &&& gone.next_blk == fs.next_blk
            &&& forall|path: Seq<char>| #[trigger] gone.lookup(path) == fs.lookup(path)
            &&& forall|path: Seq<char>|
                (#[trigger] made.lookup(path)) matches Ok(l) && l.ino == fs.next_ino ==> gone.lookup(path) == Ok::<
                    LookupView,
                    &'static str,
                >(LookupView { ino: NO_INO, parent_ino: dir, name })
        }),
{
    let made = fs.created(dir, name, kind);
    let gone = made.unlinked(dir, name);
    assert(fs.inodes[dir].ino == dir);
    assert(dir < fs.next_ino);
    assert(gone.inodes[dir].children =~= fs.inodes[dir].children);
    assert(!fs.inodes.dom().contains(fs.next_ino)) by {
        assert(fs.inodes.dom().contains(fs.next_ino) ==> fs.inodes[fs.next_ino].ino < fs.next_ino);
    }
    assert(gone.inodes[dir] == fs.inodes[dir]);
    assert(gone.inodes =~= fs.inodes);
    assert forall|path: Seq<char>| (#[trigger] made.lookup(path)) matches Ok(l) && l.ino == fs.next_ino implies gone.lookup(path)
        == Ok::<LookupView, &'static str>(LookupView { ino: NO_INO, parent_ino: dir, name }) by {
        if path.len() > 0 && crate::text::components(path).len() > 0 {
            lemma_walk_to_new(fs, dir, name, kind, 0, crate::text::components(path));
        }
    }
}

proof fn lemma_walk_to_new(fs: FsView, dir: u64, name: Seq<char>, kind: InodeType, cur: u64, comps: Seq<Seq<char>>)
    requires
        fs.wf(),
        fs.next_ino < u64::MAX,
        fs.dir_error(dir) is None,
        !fs.inodes[dir].children.dom().contains(name),
        comps.len() > 0,
        walk(fs.created(dir, name, kind).inodes, cur, comps) is Ok,
        walk(fs.created(dir, name, kind).inodes, cur, comps)->Ok_0.ino == fs.next_ino,
    ensures
        walk(fs.inodes, cur, comps) == Ok::<LookupView, &'static str>(LookupView { ino: NO_INO, parent_ino: dir, name }),
    decreases comps.len(),
{
    let made = fs.created(dir, name, kind).inodes;
    assert(fs.inodes[dir].ino == dir);
    assert(cur != fs.next_ino);
    let ch = made[cur].children;
    if comps.len() > 1 {
        lemma_walk_to_new(fs, dir, name, kind, ch[comps[0]], comps.drop_first());
        if cur == dir && comps[0] == name {
            assert(ch[comps[0]] == fs.next_ino);
            assert(false);
        }
    } else {
        if !(cur == dir && comps[0] == name) {
            assert(fs.inodes[cur].children[comps[0]] < fs.next_ino);
        }
    }
}

/// Once a file was cut to `size` bytes, a read touches the same blocks and yields the same bytes
/// as before, up to the new end: all of them where the file has its blocks. It succeeds unless the
/// disk stays broken.
pub proof fn law_read_after_truncate(fs: FsView, slots: Slots, disk: Disk, ino: u64, size: u64, offset: int, max_len: int)
    requires
        fs.wf(),
        fs.file_error(ino) is None,
        size <= fs.inodes[ino].size,
        0 <= offset,
        0 <= max_len,
    ensures
        ({
            let n = fs.inodes[ino];
            let cut = fs.truncated(ino, size).inodes[ino];
            let left = if offset + max_len < size {
                max_len
            } else if offset < size {
                size - offset
            } else {
                0
            };
            &&& fs.truncated(ino, size).file_error(ino) is None
            &&& cut.size == size
            &&& read_bytes(slots, disk, cut, offset, max_len) == read_bytes(slots, disk, n, offset, left)
            &&& offset < size ==> touched(cut.blocks, offset, left) == touched(n.blocks, offset, left)
            &&& disk.errs != ERRS_FOREVER ==> all_readable(slots, disk, touched(cut.blocks, offset, left))
            &&& size <= n.blocks.len() * BLOCK_SZ ==> read_bytes(slots, disk, cut, offset, max_len).len() == left
        }),
{
    let n = fs.inodes[ino];
    let cut = fs.truncated(ino, size).inodes[ino];
    let left = if offset + max_len < size {
        max_len
    } else if offset < size {
        size - offset
    } else {
        0
    };
    let a = read_bytes(slots, disk, cut, offset, max_len);
    let b = read_bytes(slots, disk, n, offset, left);
    assert(data_end(cut) == (if size <= n.blocks.len() * BLOCK_SZ { size as int } else { n.blocks.len() * BLOCK_SZ }));
    assert(a.len() == b.len());
    assert forall|i: int| 0 <= i < a.len() implies a[i] == b[i] by {
        assert(cut.blocks[(offset + i) / BLOCK_SZ as int] == n.blocks[(offset + i) / BLOCK_SZ as int]);
    }
    assert(a =~= b);
    assert(offset < size ==> touched(cut.blocks, offset, left) =~= touched(n.blocks, offset, left));
}

proof fn lemma_walk_push(inodes: Map<u64, InodeView>, cur: u64, comps: Seq<Seq<char>>, name: Seq<char>)
    requires
        comps.len() > 0,
        walk(inodes, cur, comps) is Ok,
        inodes.dom().contains(walk(inodes, cur, comps)->Ok_0.ino),
        inodes[walk(inodes, cur, comps)->Ok_0.ino].kind == InodeType::Directory,
        walk(inodes, cur, comps)->Ok_0.ino != NO_INO,
    ensures
        ({
            let dir = walk(inodes, cur, comps)->Ok_0.ino;
            let ch = inodes[dir].children;
            walk(inodes, cur, comps.push(name)) == Ok::<LookupView, &'static str>(
                LookupView { ino: if ch.dom().contains(name) { ch[name] } else { NO_INO }, parent_ino: dir, name },
            )
        }),
    decreases comps.len(),
{
    let all = comps.push(name);
    assert(all[0] == comps[0]);
    assert(all.drop_first() =~= comps.drop_first().push(name));
    let ch = inodes[cur].children;
    if comps.len() > 1 {
        lemma_walk_push(inodes, ch[comps[0]], comps.drop_first(), name);
    } else {
        let rest = comps.drop_first().push(name);
        assert(rest[0] == name && rest.len() == 1);
        reveal_with_fuel(walk, 2);
    }
}

/// A path leads through the directories that it names: where one leads to a directory, the path with
/// a name behind it leads to that directory's entry of the name, or to nothing if there is none.
pub proof fn law_paths_lead_through_directories(fs: FsView, path: Seq<char>, name: Seq<char>)
    requires
        name.len() > 0,
        !name.contains('/'),
        fs.lookup(path) is Ok,
        fs.dir_error(fs.lookup(path)->Ok_0.ino) is None,
        fs.lookup(path)->Ok_0.ino != NO_INO,
    ensures
        ({
            let dir = fs.lookup(path)->Ok_0.ino;
            let ch = fs.inodes[dir].children;
            fs.lookup(path.push('/') + name) == Ok::<LookupView, &'static str>(
                LookupView { ino: if ch.dom().contains(name) { ch[name] } else { NO_INO }, parent_ino: dir, name },
            )
        }),
{
    crate::text::law_name_is_last_component(path, name);
    let comps = crate::text::components(path);
    if comps.len() > 0 {
        lemma_walk_push(fs.inodes, 0, comps, name);
    } else {
        assert(comps.push(name)[0] == name);
    }
}

/// A file that was cut short is as long as was asked for, and one that is written to is never
/// shortened.
pub proof fn law_sizes(fs: FsView, ino: u64, size: u64)
    requires
        fs.inodes.dom().contains(ino),
    ensures
        fs.truncated(ino, size).inodes[ino].size == size,
        fs.lengthened(ino, size).inodes[ino].size >= size,
        fs.lengthened(ino, size).inodes[ino].size >= fs.inodes[ino].size,
        fs.lengthened(ino, size).inodes[ino].blocks == fs.inodes[ino].blocks,
        fs.truncated(ino, size).inodes[ino].blocks.len() <= fs.inodes[ino].blocks.len(),
{
}

/// A file that is cut to a size keeps the blocks of its start, as far as it had them, and no more than
/// the size needs. No other file changes.
pub proof fn law_cut_keeps_start(fs: FsView, ino: u64, size: u64, i: int, other: u64)
    requires
        other != ino,
    ensures
        ({
            let n = fs.inodes[ino];
            let m = fs.truncated(ino, size).inodes[ino];
            &&& m.size == size
            &&& m.blocks.len() * BLOCK_SZ < size + BLOCK_SZ
            &&& m.blocks.len() <= n.blocks.len()
            &&& 0 <= i < n.blocks.len() && i * BLOCK_SZ < size ==> i < m.blocks.len() && m.blocks[i] == n.blocks[i]
            &&& m.kind == n.kind && m.children == n.children
        }),
        fs.truncated(ino, size).inodes[other] == fs.inodes[other],
        fs.truncated(ino, size).inodes.dom().contains(other) == fs.inodes.dom().contains(other),
{
}

} // verus!
