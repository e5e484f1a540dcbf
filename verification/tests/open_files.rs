use kernel::{
    audit_fd_table, read_as_vec, Channel, EpCtlOp, EpData, EpEvent, EpInst, FHandle, FLike, FSeek,
    FdOpt, FileHeap, OrdMap, PipeNode, PseudoNode, RecvStep, TrmIO, WinSz, O_NONBLOCK,
};

fn rw() -> FdOpt {
    FdOpt { rd: true, wr: true, ap: false, nb: false }
}

#[test]
fn file_reads_what_it_holds() {
    let mut h = FileHeap::new();
    let f = FHandle::with_data(&mut h, "/a", rw(), b"hello".to_vec());
    let mut buf = [0u8; 3];
    assert_eq!(f.read(&mut h, &mut buf), Ok(3));
    assert_eq!(&buf, b"hel");
    assert_eq!(f.read(&mut h, &mut buf), Ok(2));
    assert_eq!(&buf, b"lol");
    assert_eq!(f.read(&mut h, &mut buf), Ok(0));
    assert_eq!(f.read_at(&h, 1, &mut buf), Ok(3));
    assert_eq!(&buf, b"ell");
}

#[test]
fn duplicates_share_the_place() {
    let mut h = FileHeap::new();
    let f = FHandle::with_data(&mut h, "/a", rw(), b"abcdef".to_vec());
    let g = f.dup(true);
    let mut buf = [0u8; 2];
    f.read(&mut h, &mut buf).unwrap();
    g.read(&mut h, &mut buf).unwrap();
    assert_eq!(&buf, b"cd");
    assert!(g.cloexec);
}

#[test]
fn writing_fills_gaps_with_zeros() {
    let mut h = FileHeap::new();
    let f = FHandle::new(&mut h, "/a", rw(), false, false);
    assert_eq!(f.write_at(&mut h, 3, b"xy"), Ok(2));
    assert_eq!(f.metadata_sz(&h), 5);
    let mut buf = [9u8; 5];
    f.read_at(&h, 0, &mut buf).unwrap();
    assert_eq!(&buf, b"\0\0\0xy");
    assert_eq!(f.set_len(&mut h, 4), Ok(()));
    assert_eq!(f.metadata_sz(&h), 4);
}

#[test]
fn appending_goes_to_the_end() {
    let mut h = FileHeap::new();
    let ap = FdOpt { rd: true, wr: true, ap: true, nb: false };
    let f = FHandle::with_data(&mut h, "/a", ap, b"12".to_vec());
    f.set_opt(&mut h, O_NONBLOCK);
    assert!(f.get_opt(&h).nb);
    assert!(f.get_opt(&h).ap);
    f.write(&mut h, b"34").unwrap();
    let mut buf = [0u8; 4];
    f.read_at(&h, 0, &mut buf).unwrap();
    assert_eq!(&buf, b"1234");
}

#[test]
fn seeking_is_relative() {
    let mut h = FileHeap::new();
    let f = FHandle::with_data(&mut h, "/a", rw(), b"123456".to_vec());
    assert_eq!(f.seek(&mut h, FSeek::Start(2)), Ok(2));
    assert_eq!(f.seek(&mut h, FSeek::Cur(3)), Ok(5));
    assert_eq!(f.seek(&mut h, FSeek::End(-6)), Ok(0));
}

#[test]
fn permission_is_needed() {
    let mut h = FileHeap::new();
    let ro = FdOpt { rd: true, wr: false, ap: false, nb: false };
    let wo = FdOpt { rd: false, wr: true, ap: false, nb: false };
    let f = FHandle::new(&mut h, "/r", ro, false, false);
    let g = FHandle::new(&mut h, "/w", wo, false, false);
    let mut buf = [0u8; 1];
    assert_eq!(f.write(&mut h, b"x"), Err("ebadf"));
    assert_eq!(g.read(&mut h, &mut buf), Err("ebadf"));
}

#[test]
fn splicing_copies_between_files() {
    let mut h = FileHeap::new();
    let f = FHandle::with_data(&mut h, "/a", rw(), b"abcdef".to_vec());
    let g = FHandle::new(&mut h, "/b", rw(), false, false);
    assert_eq!(f.splice_to(&mut h, &g, 4), Ok(4));
    let mut buf = [0u8; 4];
    g.read_at(&h, 0, &mut buf).unwrap();
    assert_eq!(&buf, b"abcd");
}

#[test]
fn pipe_is_first_in_first_out() {
    let mut h = FileHeap::new();
    let (rd, wr) = PipeNode::pair(&mut h);
    let mut buf = [0u8; 2];
    assert_eq!(rd.read_at(&mut h, &mut buf), Err("again"));
    assert_eq!(wr.write_at(&mut h, b"abc"), Ok(3));
    assert!(rd.can_read(&h));
    assert_eq!(rd.read_at(&mut h, &mut buf), Ok(2));
    assert_eq!(&buf, b"ab");
    wr.close(&mut h);
    assert_eq!(rd.read_at(&mut h, &mut buf), Ok(1));
    assert_eq!(buf[0], b'c');
    assert_eq!(rd.read_at(&mut h, &mut buf), Ok(0));
    assert_eq!(rd.write_at(&mut h, b"x"), Ok(0));
}

#[test]
fn handles_of_all_kinds() {
    let mut h = FileHeap::new();
    let (rd, wr) = PipeNode::pair(&mut h);
    let e = FLike::Ep(EpInst::new(&mut h));
    let mut buf = [0u8; 1];
    assert!(e.read(&mut h, &mut buf).is_err());
    let w = FLike::Pipe(wr);
    let r = FLike::Pipe(rd).dup(false);
    assert_eq!(w.write(&mut h, b"z"), Ok(1));
    assert_eq!(r.read(&mut h, &mut buf), Ok(1));
    assert_eq!(buf[0], b'z');
    let (readable, _, _) = r.poll(&h);
    assert!(!readable);
    w.close(&mut h);
}

#[test]
fn epoll_watches_and_forgets() {
    let mut h = FileHeap::new();
    let mut e = EpInst::new(&mut h);
    let ev = EpEvent { events: 1, data: EpData { ptr: 9 } };
    assert_eq!(e.control(&mut h, EpCtlOp::ADD, 4, &ev), Ok(()));
    assert!(e.events.get(4).unwrap().has(1));
    let ev2 = EpEvent { events: 4, data: EpData { ptr: 9 } };
    assert_eq!(e.control(&mut h, EpCtlOp::MOD, 4, &ev2), Ok(()));
    assert_eq!(e.events.get(4).unwrap().events, 4);
    assert_eq!(e.control(&mut h, EpCtlOp::DEL, 4, &ev), Ok(()));
    assert!(e.events.get(4).is_none());
    assert!(e.control(&mut h, EpCtlOp::MOD, 4, &ev).is_err());
}

#[test]
fn pseudo_files_are_read_only() {
    let p = PseudoNode::new("abc", 1);
    let mut buf = [0u8; 2];
    assert_eq!(p.read_at(1, &mut buf), 2);
    assert_eq!(&buf, b"bc");
    assert!(p.write_at(0, b"x").is_err());
    assert_eq!(p.metadata_sz(), 3);
    assert_eq!(read_as_vec(b"xy"), vec![b'x', b'y']);
}

#[test]
fn terminal_defaults() {
    let w = WinSz::default();
    assert_eq!((w.row, w.col), (0, 0));
    let t = TrmIO::default();
    assert_eq!(t.line, 0);
}

#[test]
fn channel_passes_bytes() {
    let mut c = Channel::new(2);
    assert_eq!(c.recv(7), RecvStep::Park);
    assert_eq!(c.send(1), (true, Some(7)));
    assert_eq!(c.recv_woken(), RecvStep::Done(Some(1)));
    assert_eq!(c.send_batch(&[2, 3, 4]).0, 2);
    assert_eq!(c.depth(), 2);
    assert_eq!(c.remaining_capacity(), 0);
    assert_eq!(c.try_recv(), Some(2));
    assert_eq!(c.drain_all(), vec![3]);
    assert_eq!(c.recv(8), RecvStep::Park);
    assert_eq!(c.close(), vec![8]);
    assert!(c.is_closed());
    assert_eq!(c.recv(9), RecvStep::Done(None));
}

#[test]
fn audit_finds_gaps_and_nameless_files() {
    let mut h = FileHeap::new();
    let mut m: OrdMap<FLike> = OrdMap::new();
    m.insert(0, FLike::File(FHandle::new(&mut h, "/a", rw(), false, false)));
    m.insert(3, FLike::File(FHandle::new(&mut h, "", rw(), false, false)));
    m.insert(4, FLike::File(FHandle::new(&mut h, "/b", rw(), false, false)));
    assert_eq!(audit_fd_table(&m, &h), vec![1, 2, 3]);
}
