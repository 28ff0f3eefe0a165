use joader::cached_data::{split_hits, CachedData};
use joader::dataset::{from_proto, Dataset};
use joader::proto::{CreateDatasetRequest, DataItem, DatasetType};
use joader::record::{decoded_record_len, get_int_size, record_parts, write_decoded_record};
use joader::service::{register_loader, GlobalID, NameTable, CODE_NOT_FOUND};

#[test]
fn decoded_record_is_an_array_of_four() {
    let r = write_decoded_record(300, 10, 5, &[1, 2, 3]);
    assert_eq!(r, vec![0x94, 0xcd, 1, 44, 10, 5, 0xc4, 3, 1, 2, 3]);
    assert_eq!(decoded_record_len(300, 10, 5, 3), r.len());
}

#[test]
fn int_sizes_follow_the_shortest_form() {
    assert_eq!(get_int_size(0), 1);
    assert_eq!(get_int_size(127), 1);
    assert_eq!(get_int_size(128), 2);
    assert_eq!(get_int_size(256), 3);
    assert_eq!(get_int_size(70000), 5);
    assert_eq!(get_int_size(1 << 40), 9);
    let r = write_decoded_record(1 << 40, 70000, 128, &[9]);
    assert_eq!(r.len(), decoded_record_len(1 << 40, 70000, 128, 1));
    assert_eq!(&r[1..10], &[0xcf, 0, 0, 1, 0, 0, 0, 0, 0]);
}

#[test]
fn record_parts_finds_image_and_label() {
    // [ {"data": bin[9, 9]}, u16 7 ]
    let bytes = vec![0x92, 0x81, 0xc4, 4, b'd', b'a', b't', b'a', 0xc4, 2, 9, 9, 0xcd, 0, 7];
    assert_eq!(record_parts(&bytes), Some((vec![9, 9], vec![0, 7])));
}

#[test]
fn record_parts_refuses_other_shapes() {
    // the label is missing
    assert_eq!(record_parts(&[0x91, 0x81, 0xc4, 4, b'd', b'a', b't', b'a', 0xc4, 1, 9]), None);
    // the map has no "data" key
    assert_eq!(record_parts(&[0x92, 0x81, 0xc4, 1, b'x', 0xc4, 1, 9, 0xcd, 0, 7]), None);
    // not msgpack the reader takes
    assert_eq!(record_parts(&[0xcc, 1]), None);
    // nothing at all
    assert_eq!(record_parts(&[]), None);
}

#[test]
fn split_hits_keeps_batch_order() {
    let mut cached = CachedData::new();
    cached.add(3, "b");
    cached.add(5, "d");
    let keys: Vec<String> = vec!["a", "b", "c", "d"].into_iter().map(String::from).collect();
    let (hits, misses) = split_hits(&cached, &keys);
    assert_eq!(hits, vec![(1, 3), (3, 5)]);
    assert_eq!(misses, vec![0, 2]);
}

#[test]
fn register_loader_gives_ids() {
    let mut ids = GlobalID::new();
    let mut loaders: NameTable<u64> = NameTable::new();
    let mut datasets: NameTable<u32> = NameTable::new();
    datasets.insert("imagenet", 2);
    let e = register_loader(&mut ids, &mut loaders, &datasets, "l1", "cifar");
    match e {
        Err(s) => {
            assert_eq!(s.code, CODE_NOT_FOUND);
            assert_eq!(s.msg, "cifar");
        }
        Ok(_) => panic!("unknown dataset"),
    }
    assert_eq!(loaders.get("l1"), None);
    let a = register_loader(&mut ids, &mut loaders, &datasets, "l1", "imagenet").unwrap();
    assert_eq!(a, ((2u64 << 32) + 1, true));
    let b = register_loader(&mut ids, &mut loaders, &datasets, "l1", "imagenet").unwrap();
    assert_eq!(b, ((2u64 << 32) + 1, false));
    let c = register_loader(&mut ids, &mut loaders, &datasets, "l2", "imagenet").unwrap();
    assert_eq!(c, ((2u64 << 32) + 2, true));
    assert_eq!(loaders.get("l2"), Some((2u64 << 32) + 2));
}

#[test]
fn file_dataset_keeps_name_and_items() {
    let request = CreateDatasetRequest {
        name: "train".to_string(),
        location: String::new(),
        kind: DatasetType::Filesystem,
        items: (0..4).map(|i| DataItem { keys: vec![i.to_string()] }).collect(),
        weights: Vec::new(),
    };
    let d = from_proto(request, 9);
    assert_eq!(d.get_name(), "train");
    assert_eq!(d.get_indices(), vec![0, 1, 2, 3]);
    assert_eq!(d.get_id(), 9);
}
