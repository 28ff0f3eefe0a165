use joader::bit::Bitmap;
use joader::buffer::Buffer;
use joader::data_segment::DataSegment;
use joader::freelist::FreeList;
use joader::head::{Head, HEAD_SIZE};
use joader::head_segment::HeadSegment;

#[test]
fn bit_test() {
    let mut buf = vec![0u8; 16];
    let mut bm = Bitmap::new(Buffer::new(0, 0, 16));
    for i in 0..bm.len() {
        if i % 2 == 0 {
            bm.set(&mut buf, i)
        }
    }

    for i in 0..bm.len() {
        if i % 2 == 0 {
            assert_eq!(bm.is_true(&buf, i), true)
        }
    }
}

#[test]
fn data_segment_test() {
    const LEN: usize = 1024;
    let ptr: usize = 0;
    let mut ds = DataSegment::new(ptr, 0, LEN as u64);
    assert!(ds.allocate() == Some(Buffer::new(ptr, 0, LEN as u64)));
    assert!(ds.allocate() == None);

    ds.free(1, 3);
    assert!(ds.allocate() == Some(Buffer::new(ptr + 1, 1, 3)))
}

#[test]
fn freelist_test() {
    let len = [10, 20, 30, 40, 50];
    let start = 0;
    let mut end = 0;
    let mut space = Vec::new();
    for l in &len {
        space.push((end, *l));
        end += *l;
    }

    let mut fl = FreeList::new();
    for (len, off) in &space {
        fl.insert(*len, *off);
    }
    assert_eq!(fl.get(), Some((start, end)));
    assert_eq!(fl.get(), None);

    let mut max = (0, 0);
    for (idx, (off, len)) in space.iter().enumerate() {
        if (idx & 1) == 0 {
            fl.insert(*off, *len);
            max = (*off, *len);
        }
    }
    assert_eq!(fl.get(), Some(max));
    fl.insert(max.0, max.1);

    for (idx, (off, len)) in space.iter().enumerate() {
        if (idx & 1) == 1 {
            fl.insert(*off, *len);
        }
    }
    assert_eq!(fl.get(), Some((start, end)));
}

#[test]
fn head_segment_test() {
    let mut bytes = vec![0u8; 1024 * 17];
    let mut hs = HeadSegment::new(0, 1024);
    for i in 0..1024 {
        let (mut head, _) = hs.allocate(&mut bytes, 0).unwrap();
        head.set(&mut bytes, true, i, i as u64);
    }
    for i in 0..1024usize {
        let head: Head = Head::from_ptr(i * HEAD_SIZE as usize);
        let (end, len, off) = head.get(&bytes);
        assert!(end);
        assert_eq!(off, i as u64);
        assert_eq!(len, i as u32);
    }
}

#[test]
fn head_reads_back_what_was_written() {
    let mut mem = vec![0xaau8; 4 * HEAD_SIZE as usize];
    let mut head = Head::from_ptr(HEAD_SIZE as usize);
    head.set(&mut mem, true, 0x0102_0304, 0x1122_3344_5566_7788);
    assert_eq!(head.get(&mem), (true, 0x0102_0304, 0x1122_3344_5566_7788));
    assert_eq!(head.get_len(&mem), 0x0102_0304);
    assert_eq!(head.get_off(&mem), 0x1122_3344_5566_7788);
    assert!(head.get_end(&mem));
    // the bytes of the other heads are untouched
    assert!(mem[..HEAD_SIZE as usize].iter().all(|b| *b == 0xaa));
    assert!(mem[2 * HEAD_SIZE as usize..].iter().all(|b| *b == 0xaa));
    head.set_end(&mut mem, false);
    assert_eq!(head.get(&mem), (false, 0x0102_0304, 0x1122_3344_5566_7788));
}

#[test]
fn data_segment_gives_back_what_it_took() {
    let mut ds = DataSegment::new(100, 64, 200);
    let b = ds.allocate().expect("the whole segment");
    assert!(ds.allocate() == None);
    ds.free(b.offset(), b.len());
    assert!(ds.allocate() == Some(b));
}
