//! Open files: regular files, pipes and epoll instances, and channels between threads.
//!
//! Handles that were duplicated share what they refer to. What is shared lives in a [`FileHeap`]
//! and is named by its number there; a handle holds numbers.

use vstd::prelude::*;
use crate::consts::{O_NONBLOCK, PAGE_SZ};
use crate::locking::Spin;
use crate::memory::CircBuf;
use crate::ordmap::OrdMap;
use crate::sync_queue::{EvBus, EvFlag, EvState, SyncQueue};
use crate::text::numbered;
use crate::utils::{to_signed, to_unsigned};

verus! {

// ---------------------------------------------------------------------------------------------
// What handles share
// ---------------------------------------------------------------------------------------------

/// How a file was opened.
#[derive(Clone, Copy, PartialEq, Eq, Structural, Debug)]
pub struct FdOpt {
    /// For reading.
    pub rd: bool,
    /// For writing.
    pub wr: bool,
    /// Writes go to the end.
    pub ap: bool,
    /// Without blocking.
    pub nb: bool,
}

impl Default for FdOpt {
    /// For reading only.
    fn default() -> (o: Self)
        ensures
            o == (FdOpt { rd: true, wr: false, ap: false, nb: false }),
    {
        FdOpt { rd: true, wr: false, ap: false, nb: false }
    }
}

/// State of an open file.
#[derive(Clone, Copy, PartialEq, Eq, Structural, Debug)]
pub struct FdState {
    /// Where the next read or write starts.
    pub off: u64,
    /// How the file was opened.
    pub opt: FdOpt,
    /// Lock on the file; 0 for none.
    pub flk: u8,
}

impl FdState {
    /// At the start, without a lock.
    pub fn create(opt: FdOpt) -> (s: Self)
        ensures
            s == (FdState { off: 0, opt, flk: 0 }),
    {
        FdState { off: 0, opt, flk: 0 }
    }
}

/// The buffer of a pipe.
pub struct PipeBuf {
    /// Bytes that have been written and not yet read.
    pub buf: Vec<u8>,
    /// Tells of changes.
    pub bus: EvBus,
    /// Ends that are open: two at first, one less with each handle that is closed.
    pub ends: i32,
}

/// What a pipe holds.
#[verifier::ext_equal]
pub struct PipeState {
    /// Bytes that have been written and not yet read.
    pub buf: Seq<u8>,
    /// Tells of changes.
    pub bus: EvState,
    /// Ends that are open.
    pub ends: i32,
}

impl PipeBuf {
    /// What the pipe holds.
    pub open spec fn view(&self) -> PipeState {
        PipeState { buf: self.buf@, bus: self.bus@, ends: self.ends }
    }
}

/// The descriptor sets of an epoll instance.
pub struct EpSets {
    /// Descriptors that are ready.
    pub ready: OrdMap<()>,
    /// Descriptors that were added or changed.
    pub new_ctl: OrdMap<()>,
}

/// The descriptor sets of an epoll instance.
#[verifier::ext_equal]
pub struct EpSetsState {
    /// Descriptors that are ready.
    pub ready: Map<u64, ()>,
    /// Descriptors that were added or changed.
    pub new_ctl: Map<u64, ()>,
}

impl EpSets {
    /// The sets.
    pub open spec fn view(&self) -> EpSetsState {
        EpSetsState { ready: self.ready@, new_ctl: self.new_ctl@ }
    }
}

/// What handles share.
pub struct FileHeap {
    /// Contents of files.
    pub datas: Vec<Vec<u8>>,
    /// States of open files.
    pub descs: Vec<FdState>,
    /// Pipes.
    pub pipes: Vec<PipeBuf>,
    /// Sets of epoll instances.
    pub sets: Vec<EpSets>,
}

/// What handles share, as values.
#[verifier::ext_equal]
pub struct HeapState {
    /// Contents of files.
    pub datas: Seq<Seq<u8>>,
    /// States of open files.
    pub descs: Seq<FdState>,
    /// Pipes.
    pub pipes: Seq<PipeState>,
    /// Sets of epoll instances.
    pub sets: Seq<EpSetsState>,
}

impl HeapState {
    /// With the contents `i` replaced.
    pub open spec fn with_data(self, i: int, d: Seq<u8>) -> HeapState {
        HeapState { datas: self.datas.update(i, d), ..self }
    }

    /// With the offset of state `i` replaced.
    pub open spec fn with_off(self, i: int, off: u64) -> HeapState {
        HeapState { descs: self.descs.update(i, FdState { off, ..self.descs[i] }), ..self }
    }

    /// With pipe `i` replaced.
    pub open spec fn with_pipe(self, i: int, p: PipeState) -> HeapState {
        HeapState { pipes: self.pipes.update(i, p), ..self }
    }
}

impl FileHeap {
    /// What handles share, as values.
    pub open spec fn view(&self) -> HeapState {
        HeapState {
            datas: self.datas@.map_values(|d: Vec<u8>| d@),
            descs: self.descs@,
            pipes: self.pipes@.map_values(|p: PipeBuf| p@),
            sets: self.sets@.map_values(|s: EpSets| s@),
        }
    }

    /// The sets are maps.
    pub open spec fn wf(&self) -> bool {
        forall|i: int| 0 <= i < self.sets@.len() ==> (#[trigger] self.sets@[i]).ready.wf() && self.sets@[i].new_ctl.wf()
    }

    /// Nothing is shared yet.
    pub fn new() -> (h: Self)
        ensures
            h.wf(),
            h@ == (HeapState { datas: Seq::empty(), descs: Seq::empty(), pipes: Seq::empty(), sets: Seq::empty() }),
    {
        let h = FileHeap { datas: Vec::new(), descs: Vec::new(), pipes: Vec::new(), sets: Vec::new() };
        assert(h@ =~= (HeapState { datas: Seq::empty(), descs: Seq::empty(), pipes: Seq::empty(), sets: Seq::empty() }));
        h
    }

    fn set_data(&mut self, i: usize, d: Vec<u8>)
        requires
            old(self).wf(),
            i < old(self)@.datas.len(),
        ensures
            final(self).wf(),
            final(self)@ == old(self)@.with_data(i as int, d@),
    {
        self.datas.set(i, d);
        assert(self@ =~= old(self)@.with_data(i as int, d@));
    }

    fn set_off(&mut self, i: usize, off: u64)
        requires
            old(self).wf(),
            i < old(self)@.descs.len(),
        ensures
            final(self).wf(),
            final(self)@ == old(self)@.with_off(i as int, off),
    {
        let mut s = self.descs[i];
        s.off = off;
        self.descs.set(i, s);
        assert(self@ =~= old(self)@.with_off(i as int, off));
    }
}

// ---------------------------------------------------------------------------------------------
// Regular files
// ---------------------------------------------------------------------------------------------

/// A handle of a regular file.
pub struct FHandle {
    /// The path under which it was opened.
    pub path: String,
    /// Number of the inode; 0 for none.
    pub ino: u64,
    /// Where the contents are.
    pub data: usize,
    /// Where the state is.
    pub desc: usize,
    /// The file is a pipe.
    pub pipe: bool,
    /// Closed when another program is started.
    pub cloexec: bool,
}

/// A handle of a regular file, as values.
#[verifier::ext_equal]
pub struct FileRef {
    /// The path under which it was opened.
    pub path: Seq<char>,
    /// Number of the inode; 0 for none.
    pub ino: u64,
    /// Where the contents are.
    pub data: usize,
    /// Where the state is.
    pub desc: usize,
    /// The file is a pipe.
    pub pipe: bool,
    /// Closed when another program is started.
    pub cloexec: bool,
}

/// Where to go in a file.
#[derive(Clone, Copy, PartialEq, Eq, Structural, Debug)]
pub enum FSeek {
    /// So far from the start.
    Start(u64),
    /// So far from the end.
    End(i64),
    /// So far from where one is.
    Cur(i64),
}

/// How many of `n` bytes can be read from `d` at `off`.
pub open spec fn readable(d: Seq<u8>, off: int, n: int) -> int {
    if off >= d.len() {
        0
    } else if n < d.len() - off {
        n
    } else {
        d.len() - off
    }
}

/// The buffer `b` after what can be read from `d` at `off` has been read into it.
pub open spec fn read_into(d: Seq<u8>, off: int, b: Seq<u8>) -> Seq<u8> {
    let n = readable(d, off, b.len() as int);
    d.subrange(if n > 0 { off } else { 0 }, (if n > 0 { off } else { 0 }) + n) + b.skip(n)
}

/// `d` after `b` has been written at `off`; a gap is filled with zeros.
pub open spec fn written_at(d: Seq<u8>, off: int, b: Seq<u8>) -> Seq<u8> {
    Seq::new(
        (if off + b.len() > d.len() {
            off + b.len()
        } else {
            d.len() as int
        }) as nat,
        |i: int|
            if off <= i < off + b.len() {
                b[i - off]
            } else if i < d.len() {
                d[i]
            } else {
                0u8
            },
    )
}

/// `d` cut or filled with zeros to the length `n`.
pub open spec fn resized(d: Seq<u8>, n: int) -> Seq<u8> {
    Seq::new(n as nat, |i: int| if i < d.len() { d[i] } else { 0u8 })
}

/// Where `pos` leads, as a signed number.
pub open spec fn seek_target(off: u64, len: int, pos: FSeek) -> int {
    match pos {
        FSeek::Start(o) => o as int,
        FSeek::End(o) => len + o,
        FSeek::Cur(o) => crate::utils::signed(off) + o,
    }
}

/// What comes of a read or a write: the result, and what is shared afterwards.
pub struct Moved {
    /// The result.
    pub r: Result<usize, &'static str>,
    /// What is shared afterwards.
    pub heap: HeapState,
}

impl FileRef {
    /// The handle refers to something.
    pub open spec fn valid(self, h: HeapState) -> bool {
        self.data < h.datas.len() && self.desc < h.descs.len()
    }

    /// The contents.
    pub open spec fn content(self, h: HeapState) -> Seq<u8> {
        h.datas[self.data as int]
    }

    /// The state.
    pub open spec fn state(self, h: HeapState) -> FdState {
        h.descs[self.desc as int]
    }

    /// Where a write starts.
    pub open spec fn write_start(self, h: HeapState) -> int {
        if self.state(h).opt.ap {
            self.content(h).len() as int
        } else {
            self.state(h).off as int
        }
    }

    /// Reading `n` bytes where the file stands.
    pub open spec fn read(self, h: HeapState, n: int) -> Moved {
        if !self.state(h).opt.rd {
            Moved { r: Err("ebadf"), heap: h }
        } else {
            let off = self.state(h).off;
            let k = readable(self.content(h), off as int, n);
            Moved { r: Ok(k as usize), heap: h.with_off(self.desc as int, (off + k) as u64) }
        }
    }

    /// Writing `b` at `off`.
    pub open spec fn write_at(self, h: HeapState, off: int, b: Seq<u8>) -> Moved {
        if !self.state(h).opt.wr {
            Moved { r: Err("ebadf"), heap: h }
        } else {
            Moved { r: Ok(b.len() as usize), heap: h.with_data(self.data as int, written_at(self.content(h), off, b)) }
        }
    }

    /// Writing `b` where the file stands, or at its end.
    pub open spec fn write(self, h: HeapState, b: Seq<u8>) -> Moved {
        let m = self.write_at(h, self.write_start(h), b);
        if m.r is Err {
            m
        } else {
            Moved { heap: m.heap.with_off(self.desc as int, (self.state(h).off + b.len()) as u64), ..m }
        }
    }
}

impl FHandle {
    /// The handle as values.
    pub open spec fn view(&self) -> FileRef {
        FileRef {
            path: self.path@,
            ino: self.ino,
            data: self.data,
            desc: self.desc,
            pipe: self.pipe,
            cloexec: self.cloexec,
        }
    }

    /// A handle of a new, empty file.
    pub fn new(heap: &mut FileHeap, path: &str, opt: FdOpt, pipe: bool, cloexec: bool) -> (f: Self)
        requires
            old(heap).wf(),
        ensures
            final(heap).wf(),
            final(heap)@ == (HeapState {
                datas: old(heap)@.datas.push(Seq::empty()),
                descs: old(heap)@.descs.push(FdState { off: 0, opt, flk: 0 }),
                ..old(heap)@
            }),
            f@ == (FileRef {
                path: path@,
                ino: 0,
                data: old(heap)@.datas.len() as usize,
                desc: old(heap)@.descs.len() as usize,
                pipe,
                cloexec,
            }),
            f@.valid(final(heap)@),
    {
        let mut f = FHandle::with_data(heap, path, opt, Vec::new());
        f.pipe = pipe;
        f.cloexec = cloexec;
        f
    }

    /// A handle of a new file with these contents.
    pub fn with_data(heap: &mut FileHeap, path: &str, opt: FdOpt, d: Vec<u8>) -> (f: Self)
        requires
            old(heap).wf(),
        ensures
            final(heap).wf(),
            final(heap)@ == (HeapState {
                datas: old(heap)@.datas.push(d@),
                descs: old(heap)@.descs.push(FdState { off: 0, opt, flk: 0 }),
                ..old(heap)@
            }),
            f@ == (FileRef {
                path: path@,
                ino: 0,
                data: old(heap)@.datas.len() as usize,
                desc: old(heap)@.descs.len() as usize,
                pipe: false,
                cloexec: false,
            }),
            f@.valid(final(heap)@),
    {
        let data = heap.datas.len();
        let desc = heap.descs.len();
        let ghost before = heap@;
        heap.datas.push(d);
        heap.descs.push(FdState::create(opt));
        proof {
            assert(heap@.datas =~= before.datas.push(d@));
            assert(heap@ =~= (HeapState {
                datas: before.datas.push(d@),
                descs: before.descs.push(FdState { off: 0, opt, flk: 0 }),
                ..before
            }));
        }
        FHandle { path: path.to_owned(), ino: 0, data, desc, pipe: false, cloexec: false }
    }

    /// Another handle of the same file: contents and state are shared.
    pub fn dup(&self, cloexec: bool) -> (f: Self)
        ensures
            f@ == (FileRef { cloexec, ..self@ }),
    {
        FHandle {
            path: self.path.as_str().to_owned(),
            ino: self.ino,
            data: self.data,
            desc: self.desc,
            pipe: self.pipe,
            cloexec,
        }
    }

    /// Turns blocking on or off.
    pub fn set_opt(&self, heap: &mut FileHeap, arg: u64)
        requires
            old(heap).wf(),
            self@.valid(old(heap)@),
        ensures
            final(heap).wf(),
            ({
                let s = self@.state(old(heap)@);
                let opt = FdOpt { nb: arg & O_NONBLOCK != 0, ..s.opt };
                final(heap)@ == (HeapState {
                    descs: old(heap)@.descs.update(self.desc as int, FdState { opt, ..s }),
                    ..old(heap)@
                })
            }),
    {
        let mut s = heap.descs[self.desc];
        s.opt.nb = (arg & O_NONBLOCK) != 0;
        heap.descs.set(self.desc, s);
        assert(heap@ =~= (HeapState { descs: old(heap)@.descs.update(self.desc as int, s), ..old(heap)@ }));
    }

    /// How the file was opened.
    pub fn get_opt(&self, heap: &FileHeap) -> (o: FdOpt)
        requires
            self@.valid(heap@),
        ensures
            o == self@.state(heap@).opt,
    {
        heap.descs[self.desc].opt
    }

    /// Reads where the file stands and moves on.
    pub fn read(&self, heap: &mut FileHeap, buf: &mut [u8]) -> (r: Result<usize, &'static str>)
        requires
            old(heap).wf(),
            self@.valid(old(heap)@),
        ensures
            final(heap).wf(),
            r == self@.read(old(heap)@, old(buf)@.len() as int).r,
            final(heap)@ == self@.read(old(heap)@, old(buf)@.len() as int).heap,
            final(buf)@ == (if r is Ok {
                read_into(self@.content(old(heap)@), self@.state(old(heap)@).off as int, old(buf)@)
            } else {
                old(buf)@
            }),
    {
        let off: u64 = heap.descs[self.desc].off;
        let n: usize = self.read_at(heap, off, buf)?;
        let _len = heap.datas[self.data].len();
        heap.set_off(self.desc, off + n as u64);
        Ok(n)
    }

    /// Reads at `off`; where the file stands does not change.
    pub fn read_at(&self, heap: &FileHeap, off: u64, buf: &mut [u8]) -> (r: Result<usize, &'static str>)
        requires
            self@.valid(heap@),
        ensures
            r == (if self@.state(heap@).opt.rd {
                Ok(readable(self@.content(heap@), off as int, old(buf)@.len() as int) as usize)
            } else {
                Err::<usize, &'static str>("ebadf")
            }),
            final(buf)@ == (if r is Ok { read_into(self@.content(heap@), off as int, old(buf)@) } else { old(buf)@ }),
    {
        if !heap.descs[self.desc].opt.rd {
            return Err("ebadf");
        }
        let d = &heap.datas[self.data];
        assert(d@ == heap@.datas[self.data as int]);
        Ok(copy_out(d, off, buf))
    }

    /// Writes where the file stands, or at its end, and moves on.
    pub fn write(&self, heap: &mut FileHeap, buf: &[u8]) -> (r: Result<usize, &'static str>)
        requires
            old(heap).wf(),
            self@.valid(old(heap)@),
            self@.state(old(heap)@).opt.wr ==> self@.write_start(old(heap)@) + buf@.len() <= usize::MAX && self@.state(
                old(heap)@,
            ).off + buf@.len() <= u64::MAX,
        ensures
            final(heap).wf(),
            r == self@.write(old(heap)@, buf@).r,
            final(heap)@ == self@.write(old(heap)@, buf@).heap,
    {
        let s = heap.descs[self.desc];
        let off: u64 = if s.opt.ap {
            heap.datas[self.data].len() as u64
        } else {
            s.off
        };
        let n: usize = self.write_at(heap, off, buf)?;
        heap.set_off(self.desc, s.off + n as u64);
        Ok(n)
    }

    /// Writes at `off`, filling a gap with zeros; where the file stands does not change.
    pub fn write_at(&self, heap: &mut FileHeap, off: u64, buf: &[u8]) -> (r: Result<usize, &'static str>)
        requires
            old(heap).wf(),
            self@.valid(old(heap)@),
            self@.state(old(heap)@).opt.wr ==> off + buf@.len() <= usize::MAX,
        ensures
            final(heap).wf(),
            r == self@.write_at(old(heap)@, off as int, buf@).r,
            final(heap)@ == self@.write_at(old(heap)@, off as int, buf@).heap,
    {
        if !heap.descs[self.desc].opt.wr {
            return Err("ebadf");
        }
        let d = &heap.datas[self.data];
        assert(d@ == heap@.datas[self.data as int]);
        let new = overwrite(d, off as usize, buf);
        heap.set_data(self.data, new);
        Ok(buf.len())
    }

    /// Moves to another place in the file.
    pub fn seek(&self, heap: &mut FileHeap, pos: FSeek) -> (r: Result<u64, &'static str>)
        requires
            old(heap).wf(),
            self@.valid(old(heap)@),
            pos is End ==> self@.content(old(heap)@).len() <= i64::MAX,
            pos is Start || i64::MIN <= seek_target(
                self@.state(old(heap)@).off,
                self@.content(old(heap)@).len() as int,
                pos,
            ) <= i64::MAX,
        ensures
            final(heap).wf(),
            r == Ok::<u64, &'static str>(
                crate::utils::unsigned(
                    seek_target(self@.state(old(heap)@).off, self@.content(old(heap)@).len() as int, pos),
                ),
            ),
            final(heap)@ == old(heap)@.with_off(
                self.desc as int,
                crate::utils::unsigned(
                    seek_target(self@.state(old(heap)@).off, self@.content(old(heap)@).len() as int, pos),
                ),
            ),
    {
        let off: u64 = match pos {
            FSeek::Start(o) => o,
            FSeek::End(o) => to_unsigned(heap.datas[self.data].len() as i64 + o),
            FSeek::Cur(o) => to_unsigned(to_signed(heap.descs[self.desc].off) + o),
        };
        heap.set_off(self.desc, off);
        Ok(off)
    }

    /// Reads into `buf_rd` where the low bit of `dir` is set, and writes `buf_wr` where it is not;
    /// at `offset`, or where the file stands. Without the buffer that is needed it is an error.
    pub fn transfer(
        &self,
        heap: &mut FileHeap,
        dir: u8,
        offset: Option<u64>,
        buf_rd: Option<&mut [u8]>,
        buf_wr: Option<&[u8]>,
    ) -> (r: Result<usize, &'static str>)
        requires
            old(heap).wf(),
            self@.valid(old(heap)@),
            dir % 2 == 0 && buf_wr is Some && self@.state(old(heap)@).opt.wr ==> match offset {
                Some(off) => off + buf_wr->0@.len() <= usize::MAX,
                None => self@.write_start(old(heap)@) + buf_wr->0@.len() <= usize::MAX && self@.state(old(heap)@).off
                    + buf_wr->0@.len() <= u64::MAX,
            },
        ensures
            final(heap).wf(),
            dir % 2 == 1 ==> match buf_rd {
                Some(b) => {
                    let off = if offset is Some { offset->0 } else { self@.state(old(heap)@).off };
                    let n = b@.len() as int;
                    &&& r is Ok <==> self@.state(old(heap)@).opt.rd
                    &&& r is Err ==> r == Err::<usize, &'static str>("ebadf")
                    &&& r is Ok ==> r->Ok_0 == readable(self@.content(old(heap)@), off as int, n) as usize
                    &&& final(heap)@ == (if offset is Some { old(heap)@ } else { self@.read(old(heap)@, n).heap })
                    &&& final(b)@ == (if r is Ok { read_into(self@.content(old(heap)@), off as int, b@) } else { b@ })
                },
                None => r == Err::<usize, &'static str>("einval") && final(heap)@ == old(heap)@,
            },
            dir % 2 == 0 ==> match buf_wr {
                Some(b) => {
                    let m = if offset is Some {
                        self@.write_at(old(heap)@, offset->0 as int, b@)
                    } else {
                        self@.write(old(heap)@, b@)
                    };
                    r == m.r && final(heap)@ == m.heap
                },
                None => r == Err::<usize, &'static str>("einval") && final(heap)@ == old(heap)@,
            },
    {
        if dir % 2 == 1 {
            match buf_rd {
                Some(buf) => match offset {
                    Some(off) => self.read_at(heap, off, buf),
                    None => self.read(heap, buf),
                },
                None => Err("einval"),
            }
        } else {
            match buf_wr {
                Some(buf) => match offset {
                    Some(off) => self.write_at(heap, off, buf),
                    None => self.write(heap, buf),
                },
                None => Err("einval"),
            }
        }
    }

    /// Sets the length of the file; what is new is zero.
    pub fn set_len(&self, heap: &mut FileHeap, len: u64) -> (r: Result<(), &'static str>)
        requires
            old(heap).wf(),
            self@.valid(old(heap)@),
            len <= usize::MAX,
        ensures
            final(heap).wf(),
            r == (if self@.state(old(heap)@).opt.wr { Ok(()) } else { Err::<(), &'static str>("ebadf") }),
            final(heap)@ == (if r is Ok {
                old(heap)@.with_data(self.data as int, resized(self@.content(old(heap)@), len as int))
            } else {
                old(heap)@
            }),
    {
        if !heap.descs[self.desc].opt.wr {
            return Err("ebadf");
        }
        let d = &heap.datas[self.data];
        assert(d@ == heap@.datas[self.data as int]);
        let new = resize_copy(d, len as usize);
        heap.set_data(self.data, new);
        Ok(())
    }

    /// Brings the file to its storage: there is nothing to be done.
    pub fn sync_all(&self) -> (r: Result<(), &'static str>)
        ensures
            r == Ok::<(), &'static str>(()),
    {
        Ok(())
    }

    /// Brings the contents to their storage: there is nothing to be done.
    pub fn sync_data(&self) -> (r: Result<(), &'static str>)
        ensures
            r == Ok::<(), &'static str>(()),
    {
        Ok(())
    }

    /// The length of the file.
    pub fn metadata_sz(&self, heap: &FileHeap) -> (n: usize)
        requires
            self@.valid(heap@),
        ensures
            n == self@.content(heap@).len(),
    {
        heap.datas[self.data].len()
    }

    /// Looks a path up below the file; every path is there.
    pub fn lookup(&self, _path: &str, _depth: u64) -> (r: Result<(), &'static str>)
        ensures
            r == Ok::<(), &'static str>(()),
    {
        Ok(())
    }

    /// The name of the next directory entry, numbered by where the file stands.
    pub fn read_entry(&self, heap: &mut FileHeap) -> (r: Result<String, &'static str>)
        requires
            old(heap).wf(),
            self@.valid(old(heap)@),
            self@.state(old(heap)@).opt.rd ==> self@.state(old(heap)@).off < u64::MAX,
        ensures
            final(heap).wf(),
            r is Ok <==> self@.state(old(heap)@).opt.rd,
            r is Err ==> r == Err::<String, &'static str>("ebadf") && final(heap)@ == old(heap)@,
            r is Ok ==> r->Ok_0@ == "entry_"@ + crate::text::digits(self@.state(old(heap)@).off as nat) && final(heap)@
                == old(heap)@.with_off(self.desc as int, (self@.state(old(heap)@).off + 1) as u64),
    {
        let s = heap.descs[self.desc];
        if !s.opt.rd {
            return Err("ebadf");
        }
        heap.set_off(self.desc, s.off + 1);
        Ok(numbered("entry_", s.off))
    }

    /// Readable, writable, in error: a file always can be read and written.
    pub fn poll_status(&self) -> (r: (bool, bool, bool))
        ensures
            r == (true, true, false),
    {
        (true, true, false)
    }

    /// Controls the device: nothing to be done.
    pub fn io_ctl(&self, _cmd: u32, _arg: u64) -> (r: Result<usize, &'static str>)
        ensures
            r == Ok::<usize, &'static str>(0),
    {
        Ok(0)
    }

    /// Maps the file into memory: nothing to be done here.
    pub fn mmap(&self, _start: u64, _end: u64, _off: u64) -> (r: Result<(), &'static str>)
        ensures
            r == Ok::<(), &'static str>(()),
    {
        Ok(())
    }

    /// Where the contents are.
    pub fn inode_ref(&self) -> (i: usize)
        ensures
            i == self@.data,
    {
        self.data
    }

    /// Takes the advice that this range will be read soon.
    pub fn advise_readahead(&self, offset: u64, len: u64) -> (r: Result<(), &'static str>)
        requires
            offset + len <= u64::MAX,
        ensures
            r == Ok::<(), &'static str>(()),
    {
        Ok(())
    }

    /// Makes the file at least long enough for this range.
    pub fn fallocate(&self, heap: &mut FileHeap, offset: u64, len: u64) -> (r: Result<(), &'static str>)
        requires
            old(heap).wf(),
            self@.valid(old(heap)@),
            offset + len <= usize::MAX,
        ensures
            final(heap).wf(),
            r == (if self@.state(old(heap)@).opt.wr { Ok(()) } else { Err::<(), &'static str>("ebadf") }),
            final(heap)@ == (if r is Ok && offset + len > self@.content(old(heap)@).len() {
                old(heap)@.with_data(self.data as int, resized(self@.content(old(heap)@), offset + len))
            } else {
                old(heap)@
            }),
    {
        if !heap.descs[self.desc].opt.wr {
            return Err("ebadf");
        }
        let needed: usize = (offset + len) as usize;
        let d = &heap.datas[self.data];
        assert(d@ == heap@.datas[self.data as int]);
        if needed > d.len() {
            let new = resize_copy(d, needed);
            heap.set_data(self.data, new);
        }
        Ok(())
    }

    /// Moves up to `count` bytes from where this file stands to where `dst` stands.
    pub fn splice_to(&self, heap: &mut FileHeap, dst: &FHandle, count: usize) -> (r: Result<usize, &'static str>)
        requires
            old(heap).wf(),
            self@.valid(old(heap)@),
            dst@.valid(old(heap)@),
            ({
                let off = self@.state(old(heap)@).off;
                let n = readable(self@.content(old(heap)@), off as int, count as int);
                let mid = old(heap)@.with_off(self.desc as int, (off + n) as u64);
                dst@.state(old(heap)@).opt.wr ==> dst@.write_start(mid) + n <= usize::MAX && dst@.state(mid).off + n
                    <= u64::MAX
            }),
        ensures
            final(heap).wf(),
            ({
                let off = self@.state(old(heap)@).off;
                let d = self@.content(old(heap)@);
                let n = readable(d, off as int, count as int);
                let mid = old(heap)@.with_off(self.desc as int, (off + n) as u64);
                let m = dst@.write(mid, d.subrange(off as int, off + n));
                if off >= d.len() {
                    r == Ok::<usize, &'static str>(0) && final(heap)@ == old(heap)@
                } else {
                    r == m.r && final(heap)@ == m.heap
                }
            }),
    {
        let off: u64 = heap.descs[self.desc].off;
        let d = &heap.datas[self.data];
        assert(d@ == heap@.datas[self.data as int]);
        let len = d.len();
        if off >= len as u64 {
            return Ok(0);
        }
        let avail: usize = len - off as usize;
        let n: usize = if count < avail {
            count
        } else {
            avail
        };
        let start: usize = off as usize;
        let mut chunk: Vec<u8> = Vec::new();
        let mut i: usize = 0;
        while i < n
            invariant
                i <= n,
                start + n <= len,
                len == d@.len(),
                chunk@ == d@.subrange(start as int, start + i),
            decreases n - i,
        {
            chunk.push(d[start + i]);
            i += 1;
            assert(chunk@ =~= d@.subrange(start as int, start + i));
        }
        heap.set_off(self.desc, off + n as u64);
        dst.write(heap, chunk.as_slice())
    }
}

/// Copies what `d` holds at `off` into `buf`.
fn copy_out(d: &Vec<u8>, off: u64, buf: &mut [u8]) -> (n: usize)
    ensures
        n == readable(d@, off as int, old(buf)@.len() as int),
        final(buf)@ == read_into(d@, off as int, old(buf)@),
{
    let len = d.len();
    let want = buf.len();
    if off >= len as u64 {
        assert(buf@ =~= read_into(d@, off as int, buf@));
        return 0;
    }
    let start: usize = off as usize;
    let n: usize = if want < len - start {
        want
    } else {
        len - start
    };
    let mut i: usize = 0;
    while i < n
        invariant
            i <= n,
            n <= want,
            want == buf@.len(),
            want == old(buf)@.len(),
            start + n <= len,
            len == d@.len(),
            forall|k: int| 0 <= k < i ==> buf@[k] == d@[start + k],
            forall|k: int| i <= k < want ==> buf@[k] == old(buf)@[k],
        decreases n - i,
    {
        buf[i] = d[start + i];
        i += 1;
    }
    assert(buf@ =~= read_into(d@, off as int, old(buf)@));
    n
}

/// `d` with `b` written at `off`.
fn overwrite(d: &Vec<u8>, off: usize, b: &[u8]) -> (r: Vec<u8>)
    requires
        off + b@.len() <= usize::MAX,
    ensures
        r@ == written_at(d@, off as int, b@),
{
    let end: usize = off + b.len();
    let n: usize = if end > d.len() {
        end
    } else {
        d.len()
    };
    let mut r: Vec<u8> = Vec::new();
    let mut i: usize = 0;
    while i < n
        invariant
            i <= n,
            end == off + b@.len(),
            n == written_at(d@, off as int, b@).len(),
            r@ == written_at(d@, off as int, b@).take(i as int),
        decreases n - i,
    {
        let x: u8 = if off <= i && i < end {
            b[i - off]
        } else if i < d.len() {
            d[i]
        } else {
            0
        };
        r.push(x);
        i += 1;
        assert(r@ =~= written_at(d@, off as int, b@).take(i as int));
    }
    assert(r@ =~= written_at(d@, off as int, b@));
    r
}

/// `d` cut or filled with zeros to the length `n`.
fn resize_copy(d: &Vec<u8>, n: usize) -> (r: Vec<u8>)
    ensures
        r@ == resized(d@, n as int),
{
    let mut r: Vec<u8> = Vec::new();
    let mut i: usize = 0;
    while i < n
        invariant
            i <= n,
            r@ == resized(d@, n as int).take(i as int),
        decreases n - i,
    {
        if i < d.len() {
            r.push(d[i]);
        } else {
            r.push(0);
        }
        i += 1;
        assert(r@ =~= resized(d@, n as int).take(i as int));
    }
    assert(r@ =~= resized(d@, n as int));
    r
}

// ---------------------------------------------------------------------------------------------
// Pipes
// ---------------------------------------------------------------------------------------------

/// An end of a pipe.
#[derive(Clone, Copy, PartialEq, Eq, Structural, Debug)]
pub enum PipeDir {
    /// The end that is read.
    Rd,
    /// The end that is written.
    Wr,
}

/// A handle of an end of a pipe.
#[derive(Clone, Copy, PartialEq, Eq, Structural, Debug)]
pub struct PipeNode {
    /// Where the pipe is.
    pub data: usize,
    /// Which end it is.
    pub dir: PipeDir,
}

impl PipeState {
    /// A new pipe.
    pub open spec fn fresh() -> PipeState {
        PipeState { buf: Seq::empty(), bus: EvState::quiet(), ends: 2 }
    }

    /// A reader has to wait: nothing is there, and both ends are open.
    pub open spec fn starved(self) -> bool {
        self.buf.len() == 0 && self.ends == 2
    }

    /// After up to `n` bytes have been read. An emptied pipe is not readable; its subscribers are
    /// told if that is new, or, with `always`, in any case.
    pub open spec fn after_read(self, n: int, always: bool) -> PipeState {
        let k = if n < self.buf.len() { n } else { self.buf.len() as int };
        let left = self.buf.skip(k);
        PipeState {
            buf: left,
            bus: if left.len() > 0 {
                self.bus
            } else if always {
                self.bus.retold(EvFlag::READABLE)
            } else {
                self.bus.changed_by(EvFlag::READABLE, 0)
            },
            ..self
        }
    }

    /// After `b` has been written.
    pub open spec fn after_write(self, b: Seq<u8>) -> PipeState {
        PipeState { buf: self.buf + b, bus: self.bus.changed_by(0, EvFlag::READABLE), ..self }
    }

    /// After a handle has been closed.
    pub open spec fn after_close(self) -> PipeState {
        PipeState { bus: self.bus.changed_by(0, EvFlag::CLOSED), ends: (self.ends - 1) as i32, ..self }
    }
}

/// How many of `n` bytes a pipe with the contents `s` gives.
pub open spec fn pipe_take(s: Seq<u8>, n: int) -> int {
    if n < s.len() {
        n
    } else {
        s.len() as int
    }
}

/// Takes bytes off the front of `q` into `buf`.
fn pop_into(q: &mut Vec<u8>, buf: &mut [u8]) -> (n: usize)
    ensures
        n == pipe_take(old(q)@, old(buf)@.len() as int),
        final(q)@ == old(q)@.skip(n as int),
        final(buf)@ == old(q)@.take(n as int) + old(buf)@.skip(n as int),
{
    let have = q.len();
    let want = buf.len();
    let n: usize = if want < have {
        want
    } else {
        have
    };
    let mut i: usize = 0;
    while i < n
        invariant
            i <= n,
            n <= want,
            n <= q@.len(),
            q@ == old(q)@,
            want == buf@.len(),
            want == old(buf)@.len(),
            forall|k: int| 0 <= k < i ==> buf@[k] == q@[k],
            forall|k: int| i <= k < want ==> buf@[k] == old(buf)@[k],
        decreases n - i,
    {
        buf[i] = q[i];
        i += 1;
    }
    let mut left: Vec<u8> = Vec::new();
    i = n;
    while i < have
        invariant
            n <= i <= have,
            have == q@.len(),
            q@ == old(q)@,
            left@ == q@.subrange(n as int, i as int),
        decreases have - i,
    {
        left.push(q[i]);
        i += 1;
        assert(left@ =~= q@.subrange(n as int, i as int));
    }
    *q = left;
    assert(q@ =~= old(q)@.skip(n as int));
    assert(buf@ =~= old(q)@.take(n as int) + old(buf)@.skip(n as int));
    n
}

impl PipeNode {
    /// Both ends of a new pipe: first the one that is read, then the one that is written.
    pub fn pair(heap: &mut FileHeap) -> (r: (PipeNode, PipeNode))
        requires
            old(heap).wf(),
        ensures
            final(heap).wf(),
            final(heap)@ == (HeapState { pipes: old(heap)@.pipes.push(PipeState::fresh()), ..old(heap)@ }),
            r.0 == (PipeNode { data: old(heap)@.pipes.len() as usize, dir: PipeDir::Rd }),
            r.1 == (PipeNode { data: old(heap)@.pipes.len() as usize, dir: PipeDir::Wr }),
            r.0.data < final(heap)@.pipes.len(),
    {
        let data = heap.pipes.len();
        let ghost before = heap@;
        heap.pipes.push(PipeBuf { buf: Vec::new(), bus: EvBus::make(), ends: 2 });
        proof {
            assert(heap@.pipes =~= before.pipes.push(PipeState::fresh()));
            assert(heap@ =~= (HeapState { pipes: before.pipes.push(PipeState::fresh()), ..before }));
        }
        (PipeNode { data, dir: PipeDir::Rd }, PipeNode { data, dir: PipeDir::Wr })
    }

    /// The pipe of this end.
    pub open spec fn pipe(self, h: HeapState) -> PipeState {
        h.pipes[self.data as int]
    }

    /// Whether a read would not have to wait.
    pub fn can_read(&self, heap: &FileHeap) -> (r: bool)
        requires
            self.data < heap@.pipes.len(),
        ensures
            r == (self.dir == PipeDir::Rd && (self.pipe(heap@).buf.len() > 0 || self.pipe(heap@).ends < 2)),
    {
        if self.dir != PipeDir::Rd {
            return false;
        }
        let p = &heap.pipes[self.data];
        assert(p@ == heap@.pipes[self.data as int]);
        p.buf.len() > 0 || p.ends < 2
    }

    /// Whether this is the end that is written, and both ends are open.
    pub fn can_write(&self, heap: &FileHeap) -> (r: bool)
        requires
            self.data < heap@.pipes.len(),
        ensures
            r == (self.dir == PipeDir::Wr && self.pipe(heap@).ends == 2),
    {
        if self.dir != PipeDir::Wr {
            return false;
        }
        let p = &heap.pipes[self.data];
        assert(p@ == heap@.pipes[self.data as int]);
        p.ends == 2
    }

    /// What a read of `n` bytes gives. Nothing is read into no buffer, or at the end that is
    /// written; an empty pipe with both ends open asks the reader to come again.
    pub open spec fn read_result(self, h: HeapState, n: int) -> Result<usize, &'static str> {
        if n == 0 || self.dir != PipeDir::Rd {
            Ok(0)
        } else if self.pipe(h).starved() {
            Err("again")
        } else {
            Ok(pipe_take(self.pipe(h).buf, n) as usize)
        }
    }

    /// What a read of up to `n` bytes takes out of the pipe.
    pub open spec fn bytes_read(self, h: HeapState, n: int) -> Seq<u8> {
        if self.reads(h, n) {
            self.pipe(h).buf.take(pipe_take(self.pipe(h).buf, n))
        } else {
            Seq::empty()
        }
    }

    /// What is shared after a read of up to `n` bytes.
    pub open spec fn after_reading(self, h: HeapState, n: int, always: bool) -> HeapState {
        if self.reads(h, n) {
            h.with_pipe(self.data as int, self.pipe(h).after_read(n, always))
        } else {
            h
        }
    }

    /// How many of the bytes `b` a write puts into the pipe, and what is shared afterwards.
    pub open spec fn writing(self, h: HeapState, b: Seq<u8>) -> Moved {
        if self.dir == PipeDir::Wr {
            Moved {
                r: Ok(b.len() as usize),
                heap: h.with_pipe(self.data as int, self.pipe(h).after_write(b)),
            }
        } else {
            Moved { r: Ok(0), heap: h }
        }
    }

    /// A read of `n` bytes takes something out of the pipe.
    pub open spec fn reads(self, h: HeapState, n: int) -> bool {
        n > 0 && self.dir == PipeDir::Rd && !self.pipe(h).starved()
    }

    fn read_pipe(&self, heap: &mut FileHeap, buf: &mut [u8], always: bool) -> (r: Result<usize, &'static str>)
        requires
            old(heap).wf(),
            self.data < old(heap)@.pipes.len(),
        ensures
            final(heap).wf(),
            r == self.read_result(old(heap)@, old(buf)@.len() as int),
            ({
                let n = old(buf)@.len() as int;
                let p = self.pipe(old(heap)@);
                if self.reads(old(heap)@, n) {
                    &&& final(heap)@ == old(heap)@.with_pipe(self.data as int, p.after_read(n, always))
                    &&& final(buf)@ == p.buf.take(pipe_take(p.buf, n)) + old(buf)@.skip(pipe_take(p.buf, n))
                } else {
                    final(heap)@ == old(heap)@ && final(buf)@ == old(buf)@
                }
            }),
    {
        if buf.len() == 0 {
            return Ok(0);
        }
        if self.dir != PipeDir::Rd {
            return Ok(0);
        }
        let ghost before = heap@;
        let ghost p0 = heap.pipes@[self.data as int];
        assert(p0@ == before.pipes[self.data as int]);
        if heap.pipes[self.data].buf.len() == 0 && heap.pipes[self.data].ends == 2 {
            return Err("again");
        }
        let ghost n0 = buf@.len() as int;
        let mut q: Vec<u8> = Vec::new();
        std::mem::swap(&mut q, &mut heap.pipes[self.data].buf);
        let n: usize = pop_into(&mut q, buf);
        let emptied = q.len() == 0;
        heap.pipes[self.data].buf = q;
        if emptied {
            if always {
                heap.pipes[self.data].bus.retell(EvFlag::READABLE);
            } else {
                heap.pipes[self.data].bus.clear(EvFlag::READABLE);
            }
        }
        proof {
            let p1 = heap.pipes@[self.data as int]@;
            assert(p1 =~= p0@.after_read(n0, always));
            assert(heap@.pipes =~= before.pipes.update(self.data as int, p1));
            assert(heap@ =~= before.with_pipe(self.data as int, p1));
        }
        Ok(n)
    }

    /// Reads from the pipe.
    pub fn read_at(&self, heap: &mut FileHeap, buf: &mut [u8]) -> (r: Result<usize, &'static str>)
        requires
            old(heap).wf(),
            self.data < old(heap)@.pipes.len(),
        ensures
            final(heap).wf(),
            r == self.read_result(old(heap)@, old(buf)@.len() as int),
            final(heap)@ == self.after_reading(old(heap)@, old(buf)@.len() as int, false),
            final(buf)@ == self.bytes_read(old(heap)@, old(buf)@.len() as int) + old(buf)@.skip(
                self.bytes_read(old(heap)@, old(buf)@.len() as int).len() as int,
            ),
            ({
                let n = old(buf)@.len() as int;
                let p = self.pipe(old(heap)@);
                if self.reads(old(heap)@, n) {
                    &&& final(heap)@ == old(heap)@.with_pipe(self.data as int, p.after_read(n, false))
                    &&& final(buf)@ == p.buf.take(pipe_take(p.buf, n)) + old(buf)@.skip(pipe_take(p.buf, n))
                } else {
                    final(heap)@ == old(heap)@ && final(buf)@ == old(buf)@
                }
            }),
    {
        self.read_pipe(heap, buf, false)
    }

    /// Writes all of `buf` into the pipe; nothing is written at the end that is read.
    pub fn write_at(&self, heap: &mut FileHeap, buf: &[u8]) -> (r: Result<usize, &'static str>)
        requires
            old(heap).wf(),
            self.data < old(heap)@.pipes.len(),
        ensures
            final(heap).wf(),
            r == self.writing(old(heap)@, buf@).r,
            final(heap)@ == self.writing(old(heap)@, buf@).heap,
            r == Ok::<usize, &'static str>(if self.dir == PipeDir::Wr { buf@.len() as usize } else { 0 }),
            final(heap)@ == (if self.dir == PipeDir::Wr {
                old(heap)@.with_pipe(self.data as int, self.pipe(old(heap)@).after_write(buf@))
            } else {
                old(heap)@
            }),
    {
        if self.dir != PipeDir::Wr {
            return Ok(0);
        }
        let ghost before = heap@;
        let ghost p0 = heap.pipes@[self.data as int];
        assert(p0@ == before.pipes[self.data as int]);
        heap.pipes[self.data].buf.extend_from_slice(buf);
        heap.pipes[self.data].bus.set(EvFlag::READABLE);
        proof {
            let p1 = heap.pipes@[self.data as int]@;
            assert(p1 =~= p0@.after_write(buf@));
            assert(heap@.pipes =~= before.pipes.update(self.data as int, p1));
            assert(heap@ =~= before.with_pipe(self.data as int, p1));
        }
        Ok(buf.len())
    }

    /// Readable, writable, in error.
    pub fn poll(&self, heap: &FileHeap) -> (r: (bool, bool, bool))
        requires
            self.data < heap@.pipes.len(),
        ensures
            r.0 == (self.dir == PipeDir::Rd && (self.pipe(heap@).buf.len() > 0 || self.pipe(heap@).ends < 2)),
            r.1 == (self.dir == PipeDir::Wr && self.pipe(heap@).ends == 2),
            !r.2,
    {
        (self.can_read(heap), self.can_write(heap), false)
    }

    /// Closes this handle and tells the other end.
    pub fn close(&self, heap: &mut FileHeap)
        requires
            old(heap).wf(),
            self.data < old(heap)@.pipes.len(),
            self.pipe(old(heap)@).ends > i32::MIN,
        ensures
            final(heap).wf(),
            final(heap)@ == old(heap)@.with_pipe(self.data as int, self.pipe(old(heap)@).after_close()),
    {
        let ghost before = heap@;
        let ghost p0 = heap.pipes@[self.data as int];
        assert(p0@ == before.pipes[self.data as int]);
        let ends: i32 = heap.pipes[self.data].ends;
        heap.pipes[self.data].ends = ends - 1;
        heap.pipes[self.data].bus.set(EvFlag::CLOSED);
        proof {
            let p1 = heap.pipes@[self.data as int]@;
            assert(p1 =~= p0@.after_close());
            assert(heap@.pipes =~= before.pipes.update(self.data as int, p1));
            assert(heap@ =~= before.with_pipe(self.data as int, p1));
        }
    }
}

/// What is written into a pipe is what is read from it, in the order in which it was written.
pub proof fn law_pipe_fifo(p: PipeState, b: Seq<u8>, n: int)
    requires
        0 <= n,
    ensures
        p.after_write(b).buf == p.buf + b,
        p.after_read(n, false).buf == p.buf.skip(pipe_take(p.buf, n)),
        p.buf.take(pipe_take(p.buf, n)) + p.after_read(n, false).buf == p.buf,
        p.buf.len() == 0 ==> p.after_write(b).after_read(b.len() as int, false).buf.len() == 0 && p.after_write(b).buf.take(
            pipe_take(p.after_write(b).buf, b.len() as int),
        ) == b,
{
    assert(p.buf.take(pipe_take(p.buf, n)) + p.after_read(n, false).buf =~= p.buf);
    if p.buf.len() == 0 {
        assert(p.buf + b =~= b);
    }
}

/// A reader of an empty pipe waits while both ends are open, and is told of the end once one is
/// closed.
pub proof fn law_pipe_end(p: PipeState)
    requires
        p.buf.len() == 0,
        p.ends == 2,
    ensures
        p.starved(),
        !p.after_close().starved(),
        p.after_close().buf.len() == 0,
{
}

// ---------------------------------------------------------------------------------------------
// Epoll instances
// ---------------------------------------------------------------------------------------------

/// An event that is watched for.
#[derive(Clone, Copy, PartialEq, Eq, Structural, Debug)]
pub struct EpEvent {
    /// The events, one bit each.
    pub events: u32,
    /// What the user wants to be told with the event.
    pub data: EpData,
}

/// User data of an event.
#[derive(Clone, Copy, PartialEq, Eq, Structural, Debug)]
pub struct EpData {
    /// The data.
    pub ptr: u64,
}

impl EpEvent {
    /// Can be read.
    pub const IN: u32 = 0x001;
    /// Urgent data can be read.
    pub const PRI: u32 = 0x002;
    /// Can be written.
    pub const OUT: u32 = 0x004;
    /// An error came up.
    pub const ERR: u32 = 0x008;
    /// Hung up.
    pub const HUP: u32 = 0x010;
    /// Normal data can be read.
    pub const RDNORM: u32 = 0x040;
    /// Priority data can be read.
    pub const RDBAND: u32 = 0x080;
    /// Normal data can be written.
    pub const WRNORM: u32 = 0x100;
    /// Priority data can be written.
    pub const WRBAND: u32 = 0x200;
    /// A message is there.
    pub const MSG: u32 = 0x400;
    /// The other side will write no more.
    pub const RDHUP: u32 = 0x2000;
    /// Only one waiter is woken.
    pub const EXCL: u32 = 0x1000_0000;
    /// Keeps the system awake.
    pub const WAKEUP: u32 = 0x2000_0000;
    /// Told once.
    pub const ONESHOT: u32 = 0x4000_0000;
    /// Told on changes only.
    pub const ET: u32 = 0x8000_0000;

    /// Whether one of the events `ev` is watched for.
    pub fn has(&self, ev: u32) -> (r: bool)
        ensures
            r == (self.events & ev != 0),
    {
        (self.events & ev) != 0
    }
}

/// The operations on an epoll instance.
pub struct EpCtlOp;

impl EpCtlOp {
    /// Watch a descriptor.
    pub const ADD: i32 = 1;
    /// Watch it no more.
    pub const DEL: i32 = 2;
    /// Watch it for other events.
    pub const MOD: i32 = 3;
}

/// An epoll instance.
pub struct EpInst {
    /// The watched descriptors and the events that they are watched for.
    pub events: OrdMap<EpEvent>,
    /// Where the descriptor sets are.
    pub sets: usize,
}

/// An epoll instance, as values.
#[verifier::ext_equal]
pub struct EpRef {
    /// The watched descriptors and the events that they are watched for.
    pub events: Map<u64, EpEvent>,
    /// Where the descriptor sets are.
    pub sets: usize,
}

/// The operation is allowed: to add always, to change or to delete what is watched.
pub open spec fn ctl_allowed(events: Map<u64, EpEvent>, op: i32, fd: u64) -> bool {
    op == EpCtlOp::ADD || ((op == EpCtlOp::MOD || op == EpCtlOp::DEL) && events.dom().contains(fd))
}

/// What is watched after an operation, if it is allowed.
pub open spec fn watched_after(events: Map<u64, EpEvent>, op: i32, fd: u64, ev: EpEvent) -> Map<u64, EpEvent> {
    if !ctl_allowed(events, op, fd) {
        events
    } else if op == EpCtlOp::DEL {
        events.remove(fd)
    } else {
        events.insert(fd, ev)
    }
}

impl EpInst {
    /// The instance as values.
    pub open spec fn view(&self) -> EpRef {
        EpRef { events: self.events@, sets: self.sets }
    }

    /// The instance holds a map and refers to something.
    pub open spec fn valid(&self, h: HeapState) -> bool {
        self.events.wf() && self.sets < h.sets.len()
    }

    /// An instance that watches nothing.
    pub fn new(heap: &mut FileHeap) -> (e: Self)
        requires
            old(heap).wf(),
        ensures
            final(heap).wf(),
            e.valid(final(heap)@),
            e@ == (EpRef { events: Map::empty(), sets: old(heap)@.sets.len() as usize }),
            final(heap)@ == (HeapState {
                sets: old(heap)@.sets.push(EpSetsState { ready: Map::empty(), new_ctl: Map::empty() }),
                ..old(heap)@
            }),
    {
        let sets = heap.sets.len();
        let ghost before = heap@;
        heap.sets.push(EpSets { ready: OrdMap::new(), new_ctl: OrdMap::new() });
        proof {
            assert(heap@.sets =~= before.sets.push(EpSetsState { ready: Map::empty(), new_ctl: Map::empty() }));
            assert(heap@ =~= (HeapState {
                sets: before.sets.push(EpSetsState { ready: Map::empty(), new_ctl: Map::empty() }),
                ..before
            }));
        }
        EpInst { events: OrdMap::new(), sets }
    }

    /// Watches a descriptor, watches it for other events, or watches it no more.
    pub fn control(&mut self, heap: &mut FileHeap, op: i32, fd: u64, ev: &EpEvent) -> (r: Result<(), &'static str>)
        requires
            old(heap).wf(),
            old(self).valid(old(heap)@),
        ensures
            final(heap).wf(),
            final(self).valid(final(heap)@),
            r == (if ctl_allowed(old(self)@.events, op, fd) { Ok(()) } else { Err::<(), &'static str>("eperm") }),
            final(self)@.sets == old(self)@.sets,
            final(self)@.events == watched_after(old(self)@.events, op, fd, *ev),
            final(self)@.events == (if r is Err {
                old(self)@.events
            } else if op == EpCtlOp::DEL {
                old(self)@.events.remove(fd)
            } else {
                old(self)@.events.insert(fd, *ev)
            }),
            final(heap)@ == (if r is Err || op == EpCtlOp::DEL {
                old(heap)@
            } else {
                let s = old(heap)@.sets[old(self)@.sets as int];
                HeapState {
                    sets: old(heap)@.sets.update(
                        old(self)@.sets as int,
                        EpSetsState { new_ctl: s.new_ctl.insert(fd, ()), ..s },
                    ),
                    ..old(heap)@
                }
            }),
    {
        if op == 1 || op == 3 {
            if op == 3 && !self.events.contains_key(fd) {
                return Err("eperm");
            }
            let _ = self.events.insert(fd, *ev);
            let ghost before = heap@;
            let ghost s0 = heap.sets@[self.sets as int];
            assert(s0@ == before.sets[self.sets as int]);
            let _ = heap.sets[self.sets].new_ctl.insert(fd, ());
            proof {
                let s1 = heap.sets@[self.sets as int]@;
                assert(heap@.sets =~= before.sets.update(self.sets as int, s1));
                assert(heap@ =~= (HeapState { sets: before.sets.update(self.sets as int, s1), ..before }));
            }
            Ok(())
        } else if op == 2 {
            if self.events.contains_key(fd) {
                let _ = self.events.remove(fd);
                Ok(())
            } else {
                Err("eperm")
            }
        } else {
            Err("eperm")
        }
    }

    /// Another handle: what is watched is copied, the descriptor sets are shared.
    pub fn dup(&self) -> (e: EpInst)
        requires
            self.events.wf(),
        ensures
            e.events.wf(),
            e@ == self@,
    {
        EpInst { events: copy_events(&self.events), sets: self.sets }
    }
}

fn copy_events(m: &OrdMap<EpEvent>) -> (r: OrdMap<EpEvent>)
    requires
        m.wf(),
    ensures
        r.wf(),
        r@ == m@,
{
    let mut r: OrdMap<EpEvent> = OrdMap::new();
    let n = m.len();
    let mut i: usize = 0;
    proof {
        m.lemma_key_seq();
    }
    while i < n
        invariant
            m.wf(),
            r.wf(),
            n == m.key_seq().len(),
            i <= n,
            forall|k: u64| #[trigger] r@.dom().contains(k) <==> m.key_seq().take(i as int).contains(k),
            forall|k: u64| #[trigger] r@.dom().contains(k) ==> m@.dom().contains(k) && r@[k] == m@[k],
        decreases n - i,
    {
        let k: u64 = m.key_at(i);
        let ghost before = m.key_seq().take(i as int);
        let _ = r.insert(k, *m.val_at(i));
        i += 1;
        proof {
            let now = m.key_seq().take(i as int);
            assert(now =~= before.push(k));
            assert forall|q: u64| #[trigger] r@.dom().contains(q) <==> now.contains(q) by {
                if before.contains(q) {
                    let j = choose|j: int| 0 <= j < before.len() && before[j] == q;
                    assert(now[j] == q);
                }
                if q == k {
                    assert(now[before.len() as int] == q);
                }
                if now.contains(q) && q != k {
                    let j = choose|j: int| 0 <= j < now.len() && now[j] == q;
                    assert(before[j] == q);
                }
            }
        }
    }
    proof {
        assert(m.key_seq().take(n as int) =~= m.key_seq());
        m.lemma_key_seq();
        assert(r@ =~= m@);
    }
    r
}

// ---------------------------------------------------------------------------------------------
// Whatever a descriptor refers to
// ---------------------------------------------------------------------------------------------

/// Whatever a descriptor refers to.
pub enum FLike {
    /// A regular file.
    File(FHandle),
    /// An end of a pipe.
    Pipe(PipeNode),
    /// An epoll instance.
    Ep(EpInst),
}

/// Whatever a descriptor refers to, as values.
#[verifier::ext_equal]
pub enum FRef {
    /// A regular file.
    File(FileRef),
    /// An end of a pipe.
    Pipe(PipeNode),
    /// An epoll instance.
    Ep(EpRef),
}

impl FRef {
    /// Another handle of the same; of a file, closed when another program is started or not.
    pub open spec fn duplicate(self, cloexec: bool) -> FRef {
        match self {
            FRef::File(f) => FRef::File(FileRef { cloexec, ..f }),
            FRef::Pipe(p) => FRef::Pipe(p),
            FRef::Ep(e) => FRef::Ep(e),
        }
    }

    /// What is shared after this handle has been closed.
    pub open spec fn closed(self, h: HeapState) -> HeapState {
        match self {
            FRef::Pipe(p) => h.with_pipe(p.data as int, p.pipe(h).after_close()),
            _ => h,
        }
    }

    /// A handle of a pipe can be closed once more.
    pub open spec fn closable(self, h: HeapState) -> bool {
        self matches FRef::Pipe(p) ==> p.pipe(h).ends > i32::MIN
    }

    /// The handle refers to something.
    pub open spec fn refers(self, h: HeapState) -> bool {
        match self {
            FRef::File(f) => f.valid(h),
            FRef::Pipe(p) => p.data < h.pipes.len(),
            FRef::Ep(e) => e.sets < h.sets.len(),
        }
    }
}

impl FLike {
    /// The handle as values.
    pub open spec fn view(&self) -> FRef {
        match self {
            FLike::File(f) => FRef::File(f@),
            FLike::Pipe(p) => FRef::Pipe(*p),
            FLike::Ep(e) => FRef::Ep(e@),
        }
    }

    /// What an epoll instance watches is a map.
    pub open spec fn wf(&self) -> bool {
        self matches FLike::Ep(e) ==> e.events.wf()
    }

    /// The handle is well-formed and refers to something.
    pub open spec fn valid(&self, h: HeapState) -> bool {
        self.wf() && self@.refers(h)
    }

    /// Another handle of the same.
    pub fn dup(&self, cloexec: bool) -> (r: FLike)
        requires
            self.wf(),
        ensures
            r.wf(),
            r@ == self@.duplicate(cloexec),
    {
        match self {
            FLike::File(f) => FLike::File(f.dup(cloexec)),
            FLike::Pipe(p) => FLike::Pipe(*p),
            FLike::Ep(e) => FLike::Ep(e.dup()),
        }
    }

    /// Closes the handle. The other end of a pipe is told.
    pub fn close(self, heap: &mut FileHeap)
        requires
            old(heap).wf(),
            self.valid(old(heap)@),
            self@.closable(old(heap)@),
        ensures
            final(heap).wf(),
            final(heap)@ == self@.closed(old(heap)@),
    {
        match self {
            FLike::Pipe(p) => p.close(heap),
            _ => {},
        }
    }

    /// Reads. An epoll instance cannot be read.
    pub fn read(&self, heap: &mut FileHeap, buf: &mut [u8]) -> (r: Result<usize, &'static str>)
        requires
            old(heap).wf(),
            self.valid(old(heap)@),
        ensures
            final(heap).wf(),
            ({
                let n = old(buf)@.len() as int;
                if n == 0 {
                    r == Ok::<usize, &'static str>(0) && final(heap)@ == old(heap)@ && final(buf)@ == old(buf)@
                } else {
                    match self@ {
                        FRef::File(f) => {
                            &&& r == f.read(old(heap)@, n).r
                            &&& final(heap)@ == f.read(old(heap)@, n).heap
                            &&& final(buf)@ == (if r is Ok {
                                read_into(f.content(old(heap)@), f.state(old(heap)@).off as int, old(buf)@)
                            } else {
                                old(buf)@
                            })
                        },
                        FRef::Pipe(p) => {
                            let s = p.pipe(old(heap)@);
                            &&& r == p.read_result(old(heap)@, n)
                            &&& final(heap)@ == p.after_reading(old(heap)@, n, true)
                            &&& final(buf)@ == p.bytes_read(old(heap)@, n) + old(buf)@.skip(
                                p.bytes_read(old(heap)@, n).len() as int,
                            )
                            &&& if p.reads(old(heap)@, n) {
                                &&& final(heap)@ == old(heap)@.with_pipe(p.data as int, s.after_read(n, true))
                                &&& final(buf)@ == s.buf.take(pipe_take(s.buf, n)) + old(buf)@.skip(pipe_take(s.buf, n))
                            } else {
                                final(heap)@ == old(heap)@ && final(buf)@ == old(buf)@
                            }
                        },
                        FRef::Ep(e) => r == Err::<usize, &'static str>("enosys") && final(heap)@ == old(heap)@
                            && final(buf)@ == old(buf)@,
                    }
                }
            }),
    {
        if buf.len() == 0 {
            return Ok(0);
        }
        match self {
            FLike::File(f) => f.read(heap, buf),
            FLike::Pipe(p) => p.read_pipe(heap, buf, true),
            FLike::Ep(_) => Err("enosys"),
        }
    }

    /// Writes. An epoll instance cannot be written. After a write the file stands behind it.
    pub fn write(&self, heap: &mut FileHeap, buf: &[u8]) -> (r: Result<usize, &'static str>)
        requires
            old(heap).wf(),
            self.valid(old(heap)@),
            self@ matches FRef::File(f) ==> (f.state(old(heap)@).opt.wr ==> f.write_start(old(heap)@) + buf@.len()
                <= usize::MAX),
        ensures
            final(heap).wf(),
            buf@.len() == 0 ==> r == Ok::<usize, &'static str>(0) && final(heap)@ == old(heap)@,
            buf@.len() > 0 ==> match self@ {
                FRef::File(f) => {
                    let at = f.write_start(old(heap)@);
                    let m = f.write_at(old(heap)@, at, buf@);
                    &&& r == m.r
                    &&& final(heap)@ == (if r is Ok {
                        m.heap.with_off(f.desc as int, (at + buf@.len()) as u64)
                    } else {
                        old(heap)@
                    })
                },
                FRef::Pipe(p) => {
                    &&& r == p.writing(old(heap)@, buf@).r
                    &&& final(heap)@ == p.writing(old(heap)@, buf@).heap
                    &&& r == Ok::<usize, &'static str>(if p.dir == PipeDir::Wr { buf@.len() as usize } else { 0 })
                    &&& final(heap)@ == (if p.dir == PipeDir::Wr {
                        old(heap)@.with_pipe(p.data as int, p.pipe(old(heap)@).after_write(buf@))
                    } else {
                        old(heap)@
                    })
                },
                FRef::Ep(e) => r == Err::<usize, &'static str>("enosys") && final(heap)@ == old(heap)@,
            },
    {
        if buf.len() == 0 {
            return Ok(0);
        }
        match self {
            FLike::File(f) => {
                let s = heap.descs[f.desc];
                if !s.opt.wr {
                    return Err("ebadf");
                }
                let off: u64 = if s.opt.ap {
                    heap.datas[f.data].len() as u64
                } else {
                    s.off
                };
                let n: usize = f.write_at(heap, off, buf)?;
                heap.set_off(f.desc, off + n as u64);
                Ok(n)
            },
            FLike::Pipe(p) => p.write_at(heap, buf),
            FLike::Ep(_) => Err("enosys"),
        }
    }

    /// Controls the device. A file takes every request, a pipe only the one for the window size.
    pub fn io_ctl(&self, req: u64, a1: u64) -> (r: Result<usize, &'static str>)
        ensures
            r == (match self@ {
                FRef::File(f) => Ok(0),
                FRef::Pipe(p) => if req == 0x5421 {
                    Ok(0)
                } else {
                    Err::<usize, &'static str>("enotty")
                },
                FRef::Ep(e) => Err("enosys"),
            }),
    {
        match self {
            FLike::File(f) => f.io_ctl(#[verifier::truncate] (req as u32), a1),
            FLike::Pipe(_) => if req == 0x5421 {
                Ok(0)
            } else {
                Err("enotty")
            },
            FLike::Ep(_) => Err("enosys"),
        }
    }

    /// Maps a file into memory; nothing else can be mapped.
    pub fn mmap_fl(&self, start: u64, end: u64, off: u64) -> (r: Result<(), &'static str>)
        requires
            end - start + PAGE_SZ - 1 <= u64::MAX,
        ensures
            r == (if start >= end {
                Err::<(), &'static str>("einval")
            } else if self@ is File {
                Ok(())
            } else {
                Err("enosys")
            }),
    {
        if start >= end {
            return Err("einval");
        }
        match self {
            FLike::File(f) => f.mmap(start, end, off),
            _ => Err("enosys"),
        }
    }

    /// Readable, writable, in error. A file is in error that has neither a path nor contents, and
    /// so is the end of a pipe that is written when another end is closed and bytes are left.
    pub fn poll(&self, heap: &FileHeap) -> (r: (bool, bool, bool))
        requires
            heap.wf(),
            self.valid(heap@),
        ensures
            match self@ {
                FRef::File(f) => r == (
                    f.state(heap@).opt.rd,
                    f.state(heap@).opt.wr,
                    f.path.len() == 0 && f.content(heap@).len() == 0,
                ),
                FRef::Pipe(p) => {
                    let s = p.pipe(heap@);
                    r == (
                        p.dir == PipeDir::Rd && (s.buf.len() > 0 || s.ends < 2),
                        p.dir == PipeDir::Wr && !(s.ends < 2),
                        p.dir == PipeDir::Wr && s.ends < 2 && s.buf.len() > 0,
                    )
                },
                FRef::Ep(e) => r == (heap@.sets[e.sets as int].ready != Map::<u64, ()>::empty(), false, false),
            },
    {
        match self {
            FLike::File(f) => {
                let s = heap.descs[f.desc];
                let error = f.path.as_str().is_empty() && heap.datas[f.data].len() == 0;
                (s.opt.rd, s.opt.wr, error)
            },
            FLike::Pipe(p) => {
                let b = &heap.pipes[p.data];
                assert(b@ == heap@.pipes[p.data as int]);
                let has_data = b.buf.len() > 0;
                let closed = b.ends < 2;
                let can_rd = p.dir == PipeDir::Rd && (has_data || closed);
                let can_wr = p.dir == PipeDir::Wr && !closed;
                let err = closed && has_data && p.dir == PipeDir::Wr;
                (can_rd, can_wr, err)
            },
            FLike::Ep(e) => {
                let s = &heap.sets[e.sets];
                assert(s@ == heap@.sets[e.sets as int]);
                let n = s.ready.len();
                proof {
                    s.ready.lemma_key_seq();
                    if n == 0 {
                        assert(s.ready@ =~= Map::<u64, ()>::empty()) by {
                            assert forall|k: u64| !s.ready@.dom().contains(k) by {
                                assert(!s.ready.key_seq().contains(k));
                            }
                        }
                    } else {
                        assert(s.ready@.dom().contains(s.ready.key_seq()[0]));
                    }
                }
                (n > 0, false, false)
            },
        }
    }
}

/// Handles that were duplicated share contents and position: what one reads, the other has read.
pub proof fn law_dup_shares(f: FileRef, cloexec: bool, h: HeapState, n: int)
    ensures
        (FileRef { cloexec, ..f }).read(h, n) == f.read(h, n),
        (FileRef { cloexec, ..f }).content(h) == f.content(h),
        (FileRef { cloexec, ..f }).state(h) == f.state(h),
{
}

/// What was written at a place is what is read there.
pub proof fn law_file_read_back(d: Seq<u8>, off: int, b: Seq<u8>)
    requires
        0 <= off,
    ensures
        readable(written_at(d, off, b), off, b.len() as int) == b.len(),
        written_at(d, off, b).subrange(off, off + b.len()) == b,
        forall|i: int|
            0 <= i < d.len() && !(off <= i < off + b.len()) ==> (#[trigger] written_at(d, off, b)[i]) == d[i],
{
    assert(written_at(d, off, b).subrange(off, off + b.len()) =~= b);
}

/// In append mode writing never changes what the file held before.
pub proof fn law_append_keeps(f: FileRef, h: HeapState, b: Seq<u8>)
    requires
        f.valid(h),
        f.state(h).opt.ap,
        f.state(h).opt.wr,
    ensures
        f.content(f.write(h, b).heap) == f.content(h) + b,
{
    assert(written_at(f.content(h), f.write_start(h), b) =~= f.content(h) + b);
}

// ---------------------------------------------------------------------------------------------
// Small things
// ---------------------------------------------------------------------------------------------

/// A file whose contents the kernel makes up.
pub struct PseudoNode {
    /// The contents.
    pub content: Vec<u8>,
    /// The type.
    pub ftype: u8,
}

impl PseudoNode {
    /// A file with the bytes of a text.
    pub fn new(s: &str, ft: u8) -> (p: Self)
        ensures
            p.content@ == vstd::utf8::encode_utf8(s@),
            p.ftype == ft,
    {
        PseudoNode { content: read_as_vec(s.as_bytes()), ftype: ft }
    }

    /// Reads at `off`.
    pub fn read_at(&self, off: u64, buf: &mut [u8]) -> (n: usize)
        ensures
            n == readable(self.content@, off as int, old(buf)@.len() as int),
            final(buf)@ == read_into(self.content@, off as int, old(buf)@),
    {
        copy_out(&self.content, off, buf)
    }

    /// Such a file cannot be written.
    pub fn write_at(&self, _off: u64, _buf: &[u8]) -> (r: Result<usize, &'static str>)
        ensures
            r == Err::<usize, &'static str>("nosup"),
    {
        Err("nosup")
    }

    /// The length.
    pub fn metadata_sz(&self) -> (n: usize)
        ensures
            n == self.content@.len(),
    {
        self.content.len()
    }
}

/// A copy of some bytes.
pub fn read_as_vec(data: &[u8]) -> (v: Vec<u8>)
    ensures
        v@ == data@,
{
    let mut v: Vec<u8> = Vec::new();
    v.extend_from_slice(data);
    assert(v@ =~= data@);
    v
}

/// Settings of a terminal.
#[derive(Clone, Copy, Debug)]
pub struct TrmIO {
    /// Input modes.
    pub iflag: u32,
    /// Output modes.
    pub oflag: u32,
    /// Control modes.
    pub cflag: u32,
    /// Local modes.
    pub lflag: u32,
    /// Line discipline.
    pub line: u8,
    /// Control characters.
    pub cc: [u8; 32],
    /// Input speed.
    pub ispeed: u32,
    /// Output speed.
    pub ospeed: u32,
}

/// Bytes that the settings of a terminal take in memory.
pub const TRMIO_SZ: u64 = 60;

impl Default for TrmIO {
    /// The usual settings.
    fn default() -> (t: Self)
        ensures
            t.iflag == 0o66402,
            t.oflag == 0o5,
            t.cflag == 0o2277,
            t.lflag == 0o105073,
            t.line == 0,
            t.cc@ == seq![
                3u8, 28, 127, 21, 4, 0, 1, 0, 17, 19, 26, 255, 18, 15, 23, 22, 255, 0, 0, 0, 0, 0, 0, 0, 0, 0, 0, 0, 0, 0,
                0, 0,
            ],
            t.ispeed == 0,
            t.ospeed == 0,
    {
        let cc: [u8; 32] = [
            3, 28, 127, 21, 4, 0, 1, 0, 17, 19, 26, 255, 18, 15, 23, 22, 255, 0, 0, 0, 0, 0, 0, 0, 0, 0, 0, 0, 0, 0, 0, 0,
        ];
        assert(cc@ =~= seq![
            3u8, 28, 127, 21, 4, 0, 1, 0, 17, 19, 26, 255, 18, 15, 23, 22, 255, 0, 0, 0, 0, 0, 0, 0, 0, 0, 0, 0, 0, 0, 0,
            0,
        ]);
        TrmIO { iflag: 0o66402, oflag: 0o5, cflag: 0o2277, lflag: 0o105073, line: 0, cc, ispeed: 0, ospeed: 0 }
    }
}

/// Size of a terminal window.
#[derive(Clone, Copy, PartialEq, Eq, Structural, Debug)]
pub struct WinSz {
    /// Rows.
    pub row: u16,
    /// Columns.
    pub col: u16,
    /// Pixels across.
    pub xpx: u16,
    /// Pixels down.
    pub ypx: u16,
}

/// Bytes that the size of a window takes in memory.
pub const WINSZ_SZ: u64 = 8;

/// Bytes that an event takes in memory.
pub const EPEVENT_SZ: u64 = 16;

impl Default for WinSz {
    fn default() -> (w: Self)
        ensures
            w == (WinSz { row: 0, col: 0, xpx: 0, ypx: 0 }),
    {
        WinSz { row: 0, col: 0, xpx: 0, ypx: 0 }
    }
}

// ---------------------------------------------------------------------------------------------
// Channels
// ---------------------------------------------------------------------------------------------

/// A bounded queue of bytes between threads.
pub struct Channel {
    /// The bytes.
    pub buf: CircBuf,
    /// Held by the receiver at work.
    pub guard: Spin,
    /// Receivers that wait for a byte.
    pub wq: SyncQueue,
    /// Closed.
    pub shut: bool,
}

/// What a receiver has to do.
#[derive(Clone, Copy, PartialEq, Eq, Structural, Debug)]
pub enum RecvStep {
    /// Another receiver is at work: try again.
    Spin,
    /// Done, with this byte or with none.
    Done(Option<u8>),
    /// Sleep, and when woken go on with [`Channel::recv_woken`].
    Park,
}

impl Channel {
    /// The ring is in order.
    pub open spec fn wf(&self) -> bool {
        self.buf.wf()
    }

    /// The bytes that wait to be received, oldest first.
    pub open spec fn view(&self) -> Seq<u8> {
        self.buf@
    }

    /// A channel for `cap` bytes, but at least one and at most 1048576.
    pub fn new(cap: usize) -> (c: Self)
        ensures
            c.wf(),
            c@ == Seq::<u8>::empty(),
            c.buf.cap == (if cap == 0 { 1 } else if cap > 0x10_0000 { 0x10_0000 } else { cap as int }),
            !c.guard.v,
            c.wq.q@ == Seq::<u64>::empty(),
            c.wq.eq@ == Seq::<crate::sync_queue::RegEp>::empty(),
            c.wq.epoch == 0,
            !c.shut,
    {
        let size: usize = if cap == 0 {
            1
        } else if cap > 0x10_0000 {
            0x10_0000
        } else {
            cap
        };
        Channel { buf: CircBuf::new(size), guard: Spin::new(), wq: SyncQueue::new(), shut: false }
    }

    /// Receives a byte for thread `th`. From an empty open channel there is nothing yet: the
    /// thread is queued and has to sleep. An empty closed one gives none.
    pub fn recv(&mut self, th: u64) -> (step: RecvStep)
        requires
            old(self).wf(),
        ensures
            final(self).wf(),
            final(self).buf.cap == old(self).buf.cap,
            final(self).guard.v == old(self).guard.v,
            final(self).shut == old(self).shut,
            step == (if old(self).guard.v {
                RecvStep::Spin
            } else if old(self)@.len() > 0 {
                RecvStep::Done(Some(old(self)@[0]))
            } else if old(self).shut {
                RecvStep::Done(None)
            } else {
                RecvStep::Park
            }),
            final(self)@ == (if step is Done && old(self)@.len() > 0 { old(self)@.drop_first() } else { old(self)@ }),
            step matches RecvStep::Done(b) ==> (b, final(self)@) == crate::memory::ring_popped(old(self)@),
            final(self).wq.q@ == (if step is Park { old(self).wq.q@.push(th) } else { old(self).wq.q@ }),
            final(self).wq == (SyncQueue { q: final(self).wq.q, ..old(self).wq }),
    {
        if !self.guard.try_acquire() {
            return RecvStep::Spin;
        }
        let got = self.buf.pop();
        if got.is_some() {
            self.guard.release();
            return RecvStep::Done(got);
        }
        if self.shut {
            self.guard.release();
            return RecvStep::Done(None);
        }
        self.wq.q.push(th);
        self.guard.release();
        RecvStep::Park
    }

    /// Goes on with a receive after the thread has been woken: takes a byte if there is one.
    pub fn recv_woken(&mut self) -> (step: RecvStep)
        requires
            old(self).wf(),
        ensures
            final(self).wf(),
            final(self).buf.cap == old(self).buf.cap,
            final(self).guard.v == old(self).guard.v,
            final(self).shut == old(self).shut,
            final(self).wq == old(self).wq,
            step == (if old(self).guard.v {
                RecvStep::Spin
            } else if old(self)@.len() > 0 {
                RecvStep::Done(Some(old(self)@[0]))
            } else {
                RecvStep::Done(None)
            }),
            final(self)@ == (if step is Done && old(self)@.len() > 0 { old(self)@.drop_first() } else { old(self)@ }),
            step matches RecvStep::Done(b) ==> (b, final(self)@) == crate::memory::ring_popped(old(self)@),
    {
        if !self.guard.try_acquire() {
            return RecvStep::Spin;
        }
        let got = self.buf.pop();
        self.guard.release();
        RecvStep::Done(got)
    }

    /// Sends a byte unless the channel is full; tells whether it was sent, and which thread is to
    /// be woken.
    pub fn send(&mut self, v: u8) -> (r: (bool, Option<u64>))
        requires
            old(self).wf(),
        ensures
            final(self).wf(),
            final(self).buf.cap == old(self).buf.cap,
            final(self).guard == old(self).guard,
            final(self).shut == old(self).shut,
            r.0 == (old(self)@.len() < old(self).buf.cap),
            final(self)@ == (if r.0 { old(self)@.push(v) } else { old(self)@ }),
            final(self)@ == crate::memory::ring_pushed(old(self)@, old(self).buf.cap as int, v),
            r.1 == (if r.0 && old(self).wq.q@.len() > 0 { Some(old(self).wq.q@[0]) } else { None }),
            final(self).wq.q@ == (if r.1 is Some { old(self).wq.q@.drop_first() } else { old(self).wq.q@ }),
            final(self).wq == (SyncQueue { q: final(self).wq.q, ..old(self).wq }),
    {
        let sent = self.buf.push(v);
        if sent {
            (true, self.wake_first())
        } else {
            (false, None)
        }
    }

    /// Takes the longest waiting receiver out of the queue.
    fn wake_first(&mut self) -> (r: Option<u64>)
        ensures
            r == (if old(self).wq.q@.len() > 0 { Some(old(self).wq.q@[0]) } else { None }),
            final(self).wq.q@ == (if r is Some { old(self).wq.q@.drop_first() } else { old(self).wq.q@ }),
            *final(self) == (Channel { wq: SyncQueue { q: final(self).wq.q, ..old(self).wq }, ..*old(self) }),
    {
        if self.wq.q.len() == 0 {
            None
        } else {
            let t: u64 = self.wq.q.remove(0);
            assert(self.wq.q@ =~= old(self).wq.q@.drop_first());
            Some(t)
        }
    }

    /// Closes the channel; gives the threads that are to be woken.
    pub fn close(&mut self) -> (woken: Vec<u64>)
        ensures
            final(self).shut,
            woken@ == old(self).wq.q@,
            final(self).wq.q@ == Seq::<u64>::empty(),
            *final(self) == (Channel {
                shut: true,
                wq: SyncQueue { q: final(self).wq.q, ..old(self).wq },
                ..*old(self)
            }),
    {
        self.shut = true;
        let mut woken: Vec<u64> = Vec::new();
        std::mem::swap(&mut woken, &mut self.wq.q);
        woken
    }

    /// Receives a byte if that can be done at once.
    pub fn try_recv(&mut self) -> (r: Option<u8>)
        requires
            old(self).wf(),
        ensures
            final(self).wf(),
            final(self).buf.cap == old(self).buf.cap,
            final(self).guard.v == old(self).guard.v,
            final(self).shut == old(self).shut,
            final(self).wq == old(self).wq,
            r == (if !old(self).guard.v && old(self)@.len() > 0 { Some(old(self)@[0]) } else { None }),
            final(self)@ == (if r is Some { old(self)@.drop_first() } else { old(self)@ }),
            !old(self).guard.v ==> (r, final(self)@) == crate::memory::ring_popped(old(self)@),
    {
        if !self.guard.try_acquire() {
            return None;
        }
        let r = self.buf.pop();
        self.guard.release();
        r
    }

    /// Sends as many bytes as there is room for; tells how many, and which thread is to be woken.
    pub fn send_batch(&mut self, data: &[u8]) -> (r: (usize, Option<u64>))
        requires
            old(self).wf(),
        ensures
            final(self).wf(),
            final(self).buf.cap == old(self).buf.cap,
            final(self).guard == old(self).guard,
            final(self).shut == old(self).shut,
            r.0 == (if data@.len() < old(self).buf.cap - old(self)@.len() {
                data@.len() as int
            } else {
                old(self).buf.cap - old(self)@.len()
            }),
            final(self)@ == old(self)@ + data@.take(r.0 as int),
            r.1 == (if r.0 > 0 && old(self).wq.q@.len() > 0 { Some(old(self).wq.q@[0]) } else { None }),
            final(self).wq.q@ == (if r.1 is Some { old(self).wq.q@.drop_first() } else { old(self).wq.q@ }),
            final(self).wq == (SyncQueue { q: final(self).wq.q, ..old(self).wq }),
    {
        let n: usize = self.buf.fill_from(data);
        if n > 0 {
            (n, self.wake_first())
        } else {
            (0, None)
        }
    }

    /// How many bytes wait to be received.
    pub fn depth(&self) -> (n: usize)
        ensures
            n == self@.len(),
    {
        self.buf.n
    }

    /// Takes all bytes out.
    pub fn drain_all(&mut self) -> (v: Vec<u8>)
        requires
            old(self).wf(),
        ensures
            final(self).wf(),
            v@ == old(self)@,
            final(self)@ == Seq::<u8>::empty(),
            final(self).buf.cap == old(self).buf.cap,
            *final(self) == (Channel { buf: final(self).buf, ..*old(self) }),
    {
        let mut v: Vec<u8> = Vec::new();
        let n: usize = self.buf.n;
        let _ = self.buf.drain_to(&mut v, n);
        assert(v@ =~= old(self)@);
        assert(self@ =~= Seq::<u8>::empty());
        v
    }

    /// Whether the channel is closed.
    pub fn is_closed(&self) -> (r: bool)
        ensures
            r == self.shut,
    {
        self.shut
    }

    /// How many more bytes fit.
    pub fn remaining_capacity(&self) -> (n: usize)
        requires
            self.wf(),
        ensures
            n == self.buf.cap - self@.len(),
    {
        self.buf.cap - self.buf.n
    }
}

/// Bytes come out of a channel in the order in which they were sent, none lost and none twice:
/// receiving and then sending is sending and then receiving, and a byte sent into an empty channel
/// is the next one received.
pub proof fn law_channel_fifo(q: Seq<u8>, v: u8)
    ensures
        q.len() == 0 ==> q.push(v)[0] == v && q.push(v).drop_first() == q,
        q.len() > 0 ==> q.push(v)[0] == q[0] && q.push(v).drop_first() == q.drop_first().push(v),
        q.len() == 0 ==> crate::memory::ring_popped(crate::memory::ring_pushed(q, 1, v)) == (Some(v), q),
{
    if q.len() == 0 {
        assert(q.push(v).drop_first() =~= q);
    } else {
        assert(q.push(v).drop_first() =~= q.drop_first().push(v));
    }
}

/// Writes through one handle follow each other: each moves the handle on by what it wrote, and two
/// of them leave the bytes of the first and then those of the second where the handle stood.
pub proof fn law_handle_writes_follow(f: FileRef, h: HeapState, a: Seq<u8>, b: Seq<u8>)
    requires
        f.valid(h),
        f.state(h).opt.wr,
        !f.state(h).opt.ap,
        f.state(h).off + a.len() + b.len() <= u64::MAX,
        a.len() <= usize::MAX,
        b.len() <= usize::MAX,
    ensures
        ({
            let off = f.state(h).off as int;
            let m1 = f.write(h, a);
            let m2 = f.write(m1.heap, b);
            &&& m1.r == Ok::<usize, &'static str>(a.len() as usize) && m2.r == Ok::<usize, &'static str>(b.len() as usize)
            &&& f.state(m1.heap).off == off + a.len()
            &&& f.state(m2.heap).off == off + a.len() + b.len()
            &&& f.content(m2.heap).subrange(off, off + a.len() + b.len()) == a + b
        }),
{
    let off = f.state(h).off as int;
    let m2 = f.write(f.write(h, a).heap, b);
    assert(f.content(m2.heap).subrange(off, off + a.len() + b.len()) =~= a + b);
}

/// A read through a handle gives as many bytes as are asked for and are there, and moves the handle
/// on by so many; a handle that is not open for reading or for writing refuses and stays.
pub proof fn law_handle_reads_go_on(f: FileRef, h: HeapState, n: int, b: Seq<u8>)
    requires
        f.valid(h),
        0 <= n <= usize::MAX,
        f.content(h).len() <= usize::MAX,
        f.content(h).len() + b.len() <= u64::MAX,
    ensures
        ({
            let off = f.state(h).off as int;
            let left = f.content(h).len() - off;
            let m = f.read(h, n);
            &&& f.state(h).opt.rd ==> {
                &&& m.r is Ok
                &&& m.r->Ok_0 == (if left <= 0 { 0 } else if left < n { left } else { n })
                &&& f.state(m.heap).off == off + m.r->Ok_0
                &&& f.content(m.heap) == f.content(h)
            }
            &&& !f.state(h).opt.rd ==> m == (Moved { r: Err("ebadf"), heap: h })
            &&& !f.state(h).opt.wr ==> f.write(h, b) == (Moved { r: Err("ebadf"), heap: h })
        }),
{
}

/// Where a seek leads: from the start, from the end, or from where the handle stands.
pub proof fn law_seek_leads(off: u64, len: int, n: u64, d: i64)
    requires
        off <= i64::MAX,
    ensures
        seek_target(off, len, FSeek::Start(n)) == n,
        seek_target(off, len, FSeek::End(d)) - len == d,
        seek_target(off, len, FSeek::Cur(d)) - off == d,
{
}

/// What stays of a file whose length was set: all up to the new length, and zeros behind what there
/// was.
pub proof fn law_set_length_keeps(d: Seq<u8>, n: int, i: int)
    requires
        0 <= i < n,
    ensures
        resized(d, n).len() == n,
        i < d.len() ==> resized(d, n)[i] == d[i],
        i >= d.len() ==> resized(d, n)[i] == 0,
{
}

/// A descriptor that was added or changed is watched for the events that were given, one that was
/// deleted is not watched, and only what is watched can be changed or deleted. Other descriptors are
/// not concerned.
pub proof fn law_epoll_watches(events: Map<u64, EpEvent>, fd: u64, ev: EpEvent, other: u64, op: i32)
    requires
        other != fd,
    ensures
        ctl_allowed(events, 1, fd),
        ctl_allowed(events, 2, fd) <==> events.dom().contains(fd),
        ctl_allowed(events, 3, fd) <==> events.dom().contains(fd),
        op < 1 || op > 3 ==> !ctl_allowed(events, op, fd),
        watched_after(events, 1, fd, ev).dom().contains(fd) && watched_after(events, 1, fd, ev)[fd] == ev,
        !watched_after(events, 2, fd, ev).dom().contains(fd),
        events.dom().contains(fd) ==> watched_after(events, 3, fd, ev)[fd] == ev,
        watched_after(events, op, fd, ev).dom().contains(other) == events.dom().contains(other),
        watched_after(events, op, fd, ev)[other] == events[other],
{
}

/// What is written at one end of a pipe is read at the other, byte for byte and once: a read that
/// asks for enough takes all of it behind what was there before. The end that is read takes nothing,
/// and the end that is written gives nothing.
pub proof fn law_pipe_ends_carry(rd: PipeNode, wr: PipeNode, h: HeapState, b: Seq<u8>, n: int)
    requires
        rd.data == wr.data,
        rd.data < h.pipes.len(),
        rd.dir == PipeDir::Rd,
        wr.dir == PipeDir::Wr,
        0 < b.len(),
        rd.pipe(h).buf.len() + b.len() <= n <= usize::MAX,
    ensures
        ({
            let m = wr.writing(h, b);
            let left = rd.after_reading(m.heap, n, true);
            &&& m.r == Ok::<usize, &'static str>(b.len() as usize)
            &&& rd.read_result(m.heap, n) == Ok::<usize, &'static str>((rd.pipe(h).buf.len() + b.len()) as usize)
            &&& rd.bytes_read(m.heap, n) == rd.pipe(h).buf + b
            &&& rd.pipe(left).buf.len() == 0
            &&& rd.writing(h, b) == (Moved { r: Ok(0), heap: h })
            &&& wr.bytes_read(m.heap, n).len() == 0 && wr.after_reading(m.heap, n, true) == m.heap
        }),
{
    let m = wr.writing(h, b);
    let p = rd.pipe(m.heap);
    assert(p.buf == rd.pipe(h).buf + b);
    assert(p.buf.take(p.buf.len() as int) =~= p.buf);
}

} // verus!
