use joader::cache::Cache;
use joader::data_block::DataBlock;
use joader::head::{Head, HEAD_SIZE};
use std::cmp::min;

/// Asks the cache for the next block until it has one, as a writer that waits does.
fn next(cache: &mut Cache, block: Option<DataBlock>, ref_cnt: usize) -> (DataBlock, usize) {
    for _ in 0..1000 {
        if let Some(r) = cache.next_block(block, ref_cnt) {
            return r;
        }
    }
    panic!("the cache gave no block");
}

fn write(cache: &mut Cache, mut len: usize, ref_cnt: usize, value: u8) -> usize {
    let (mut block, idx) = next(cache, None, ref_cnt);
    let mut write_size = min(len, block.size() as usize);
    cache.write_block(&block, &vec![value; write_size]);
    let mut remain_block = cache.occupy_block(&mut block, write_size);
    len -= write_size;
    loop {
        let mut last_block = block;
        // write flow:
        // allocate block -> write -> occupy(size)
        // if size < block, then some space remain
        // if size = block, then return None
        // if size == 0, then finish writing and free current block
        if let Some(b) = remain_block {
            block = b;
        } else {
            block = next(cache, Some(last_block), 0).0;
        }
        write_size = min(len, block.size() as usize);
        cache.write_block(&block, &vec![value; write_size]);
        remain_block = cache.occupy_block(&mut block, write_size);
        len -= write_size;
        if write_size == 0 {
            cache.free_block(block);
            cache.finish_block(&mut last_block);
            break;
        }
    }
    idx
}

fn read(idx: usize, cache: &mut Cache, value: u8) -> Vec<u8> {
    let mut head = Head::from_ptr(idx * HEAD_SIZE as usize);
    let mut res = Vec::new();
    {
        let mem = cache.memory_bytes();
        let (mut end, mut len, mut off) = head.get(mem);
        loop {
            let n = if end { len as usize } else { len as usize - HEAD_SIZE as usize };
            for x in &mem[off as usize..off as usize + n] {
                assert!(*x == value);
                res.push(*x);
            }
            if end {
                break;
            }
            let next = Head::from_ptr(off as usize + len as usize - HEAD_SIZE as usize);
            end = next.get_end(mem);
            len = next.get_len(mem);
            off = next.get_off(mem);
        }
    }
    cache.readed(&mut head);
    res
}

#[test]
fn single_thread_test() {
    let len = 256;
    let name = "DLCache".to_string();
    let mut cache = Cache::new(len, name);

    let size_list = &[(20, 0), (27, 1), (60, 2), (20, 3)];
    let mut idx_list = vec![];
    for (size, ref_cnt) in size_list {
        let idx = write(&mut cache, *size, *ref_cnt, 7);
        idx_list.push(idx);
    }
    for ((size, _), off) in size_list.iter().zip(idx_list.iter()) {
        let data = read(*off, &mut cache, 7);
        assert_eq!(data.len(), *size);
    }

    // some data should be free
    let size_list = &[40, 38];
    let mut idx_list = vec![];
    for size in size_list {
        let idx = write(&mut cache, *size, size % 2, 3);
        idx_list.push(idx);
    }
    for (size, off) in size_list.iter().zip(idx_list.iter()) {
        let data = read(*off, &mut cache, 3);
        assert_eq!(data.len(), *size);
    }

    // some data should be free
    let size_list = &[128];
    let mut idx_list = vec![];
    for size in size_list {
        let idx = cache.write_data(&vec![5; *size], size % 3).expect("a block");
        idx_list.push(idx);
    }
    for (size, off) in size_list.iter().zip(idx_list.iter()) {
        let data = read(*off, &mut cache, 5);
        assert_eq!(data.len(), *size);
    }
}

/// Reads the chain of head `idx` back, as a reader does, and marks it read.
fn read_back(idx: usize, cache: &mut Cache) -> Vec<u8> {
    let mut head = Head::from_ptr(idx * HEAD_SIZE as usize);
    let mut res = Vec::new();
    {
        let mem = cache.memory_bytes();
        let (mut end, mut len, mut off) = head.get(mem);
        loop {
            let n = if end { len as usize } else { len as usize - HEAD_SIZE as usize };
            res.extend_from_slice(&mem[off as usize..off as usize + n]);
            if end {
                break;
            }
            let next = Head::from_ptr(off as usize + len as usize - HEAD_SIZE as usize);
            end = next.get_end(mem);
            len = next.get_len(mem);
            off = next.get_off(mem);
        }
    }
    cache.readed(&mut head);
    res
}

#[test]
fn write_data_reads_back() {
    let mut cache = Cache::new(256, "rb".to_string());
    let a: Vec<u8> = (0..20).collect();
    let b: Vec<u8> = (100..127).collect();
    let ia = cache.write_data(&a, 0).expect("a block");
    let ib = cache.write_data(&b, 1).expect("a block");
    assert_ne!(ia, ib);
    assert_eq!(read_back(ia, &mut cache), a);
    assert_eq!(read_back(ib, &mut cache), b);
}

#[test]
fn write_data_spans_blocks_after_reads() {
    let mut cache = Cache::new(256, "rb2".to_string());
    let a: Vec<u8> = vec![1; 20];
    let ia = cache.write_data(&a, 0).expect("a block");
    let b: Vec<u8> = vec![2; 30];
    let ib = cache.write_data(&b, 1).expect("a block");
    assert_eq!(read_back(ia, &mut cache), a);
    // the read data of `a` is freed when no zone is long enough, and the next data spans
    // the free pieces
    let c: Vec<u8> = (0..80u8).collect();
    let ic = cache.write_data(&c, 2).expect("blocks");
    assert_eq!(read_back(ic, &mut cache), c);
    assert_eq!(read_back(ib, &mut cache), b);
}

#[test]
fn write_data_waits_when_full() {
    let mut cache = Cache::new(160, "rb3".to_string());
    let big: Vec<u8> = vec![5; 100];
    assert!(cache.write_data(&big, 0).is_none());
    // what was written of it is given back at the next freeing
    let small: Vec<u8> = vec![1; 10];
    let idx = cache.write_data(&small, 1).expect("a block");
    assert_eq!(read_back(idx, &mut cache), small);
}

#[test]
fn decoded_record_is_cached_whole() {
    let mut cache = Cache::new(256, "rec".to_string());
    let image: Vec<u8> = (0..40).collect();
    let idx = joader::record::cache_decoded_record(&mut cache, 300, 10, 5, &image, 0).expect("a block");
    let expected = joader::record::write_decoded_record(300, 10, 5, &image);
    assert_eq!(read_back(idx, &mut cache), expected);
}

#[test]
fn label_bytes_are_big_endian() {
    assert_eq!(joader::record::label_value(&[1, 44]), 300);
    assert_eq!(joader::record::label_value(&[0, 0, 1, 0]), 256);
    assert_eq!(joader::record::label_value(&[]), 0);
}

#[test]
fn stored_record_is_cached_decoded() {
    let mut cache = Cache::new(256, "stored".to_string());
    // [ {"data": bin[9, 9]}, u16 300 ]
    let bytes = vec![0x92, 0x81, 0xc4, 4, b'd', b'a', b't', b'a', 0xc4, 2, 9, 9, 0xcd, 1, 44];
    let pixels: Vec<u8> = (0..12).collect();
    let idx = joader::record::cache_stored_record(&mut cache, &bytes, 2, 2, &pixels, 0).expect("a block");
    let expected = joader::record::write_decoded_record(300, 2, 2, &pixels);
    assert_eq!(read_back(idx, &mut cache), expected);
    // bytes that store no record leave the cache as it was
    let before = cache.memory_bytes().clone();
    assert_eq!(joader::record::cache_stored_record(&mut cache, &[0xcc, 1], 2, 2, &pixels, 0), None);
    assert_eq!(cache.memory_bytes(), &before);
}
