use joader::unpack::msg_unpack;
use joader::msgpack::{get_array_head_size, msg_size, msgpack, write_int, Cursor, MsgObject};

#[test]
fn test_encode() {
    let int = &2u16.to_be_bytes();
    let bin = &[7u8; 16];
    let msg_int = Box::new(MsgObject::UInt(int.to_vec()));
    let msg_bin = Box::new(MsgObject::Bin(bin.to_vec()));
    let array = MsgObject::Array(vec![msg_bin, msg_int]);
    let size = msg_size(&array);
    assert_eq!(size, 1 + 18 + 3);
    let mut write = vec![0u8; size];
    msgpack(&mut write, &array);
    assert_eq!(&write[3..19], bin);
    assert_eq!(&write[20..], int);
    let mut c = Cursor::new(vec![0u8; 3]);
    write_int(&mut c, &2u16.to_be_bytes());
    let b = c.into_inner();
    assert_eq!(&b[1..], &2u16.to_be_bytes());
}

#[test]
fn unpack_reads_what_msgpack_writes() {
    let int = MsgObject::UInt(vec![0, 2]);
    let bin = MsgObject::Bin(vec![9u8; 20]);
    let array = MsgObject::Array(vec![Box::new(bin), Box::new(int)]);
    let size = msg_size(&array);
    let mut bytes = vec![0u8; size];
    msgpack(&mut bytes, &array);
    let objs = msg_unpack(&bytes).expect("well-formed message");
    assert_eq!(objs, vec![array]);
}

#[test]
fn unpack_reads_maps_bools_and_u32() {
    // {"data": bin[1,2], "k": true, "data": u32 7} then u16 0x0102
    let bytes = vec![
        0x83, 0xc4, 4, b'd', b'a', b't', b'a', 0xc4, 2, 1, 2, 0xc4, 1, b'k', 0xc3, 0xc4, 4, b'd',
        b'a', b't', b'a', 0xce, 0, 0, 0, 7, 0xcd, 1, 2,
    ];
    let objs = msg_unpack(&bytes).expect("well-formed message");
    assert_eq!(objs.len(), 2);
    match &objs[0] {
        MsgObject::Dict(entries) => {
            assert_eq!(entries.len(), 2);
            assert_eq!(entries[0].0, "data");
            assert_eq!(*entries[0].1, MsgObject::UInt(vec![0, 0, 0, 7]));
            assert_eq!(entries[1].0, "k");
            assert_eq!(*entries[1].1, MsgObject::Bool(true));
        }
        _ => panic!("expected a map"),
    }
    assert_eq!(objs[1], MsgObject::UInt(vec![1, 2]));
}

#[test]
fn unpack_rejects_what_it_does_not_read() {
    // a u8 marker, a bin16 marker, a truncated bin8, a non-binary key, a bad UTF-8 key
    assert!(msg_unpack(&[0xcc, 1]).is_none());
    assert!(msg_unpack(&[0xc5, 0, 1, 5]).is_none());
    assert!(msg_unpack(&[0xc4, 3, 1, 2]).is_none());
    assert!(msg_unpack(&[0x81, 0xc3, 0xc3]).is_none());
    assert!(msg_unpack(&[0x81, 0xc4, 1, 0xff, 0xc3]).is_none());
    assert!(msg_unpack(&[0x92, 0xc3]).is_none());
    assert_eq!(msg_unpack(&[]), Some(vec![]));
    // a bin32 of three bytes
    assert_eq!(
        msg_unpack(&[0xc6, 0, 0, 0, 3, 4, 5, 6]),
        Some(vec![MsgObject::Bin(vec![4, 5, 6])])
    );
}

#[test]
fn array_heads_follow_the_msgpack_widths() {
    assert_eq!(get_array_head_size(0), 1);
    assert_eq!(get_array_head_size(15), 1);
    assert_eq!(get_array_head_size(16), 3);
    assert_eq!(get_array_head_size(300), 3);
    assert_eq!(get_array_head_size(65535), 3);
}

#[test]
fn size_of_a_long_array_is_what_msgpack_writes() {
    let items: Vec<Box<MsgObject>> = (0..20u8).map(|i| Box::new(MsgObject::UInt(vec![i]))).collect();
    let array = MsgObject::Array(items);
    let size = msg_size(&array);
    assert_eq!(size, 3 + 20 * 2);
    let mut bytes = vec![0u8; size];
    msgpack(&mut bytes, &array);
    assert_eq!(&bytes[..3], &[0xdc, 0, 20]);
}
