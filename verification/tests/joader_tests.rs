use joader::joader::{hash_host, is_local_host, keep_unsent, plan_item, JoaderState, RefTable};

#[test]
fn ref_counts_follow_loaders() {
    let mut t = RefTable::new(4);
    t.add_loader();
    t.add_loader();
    assert_eq!(t.get_ref_cnt(2, 1), 1);
    assert_eq!(t.get_ref_cnt(2, 1), 0);
    t.del_loader(&vec![0, 3]);
    assert_eq!(t.get_ref_cnt(0, 0), 1);
    assert_eq!(t.get_ref_cnt(1, 0), 2);
    assert_eq!(t.get_ref_cnt(3, 1), 0);
}

#[test]
fn hosts_are_chosen_by_index() {
    assert_eq!(hash_host(7, 3), 1);
    assert_eq!(hash_host(7, 1), 0);
    assert!(is_local_host(2, 3));
    assert!(!is_local_host(1, 3));
    assert!(is_local_host(0, 1));
}

#[test]
fn an_item_is_planned_from_its_readers() {
    let mut t = RefTable::new(10);
    t.add_loader();
    t.add_loader();
    t.add_loader();
    let p = plan_item(&mut t, 7, vec![4, 9], 3);
    assert_eq!(p.idx, 7);
    assert_eq!(p.ref_cnt, 1);
    assert_eq!(p.host, 1);
    assert!(!p.local);
    assert_eq!(p.readers, vec![4, 9]);
    assert_eq!(t.count(7), 1);
    assert_eq!(t.count(6), 3);
    let q = plan_item(&mut t, 8, vec![4], 3);
    assert!(q.local);
}

#[test]
fn readers_sent_elsewhere_are_dropped() {
    assert_eq!(keep_unsent(&vec![1, 2, 3, 4], &vec![3, 1]), vec![2, 4]);
    assert_eq!(keep_unsent(&vec![1, 2], &vec![]), vec![1, 2]);
}

#[test]
fn a_dataset_round_reads_each_ready_loader_once() {
    let mut j = JoaderState::new(5);
    j.add_loader();
    j.add_loader();
    j.loader_ready(1);
    j.loader_ready(2);
    j.set_hash_key(1);
    let mut seen = 0;
    for _ in 0..5 {
        let res = j.next_round();
        let mut readers = 0;
        for (x, loaders) in res {
            readers += loaders.len();
            let key = j.key;
            let p = plan_item(&mut j.refs, x, loaders, key);
            assert!(p.local);
        }
        assert_eq!(readers, 2);
        seen += readers;
    }
    assert_eq!(seen, 10);
    assert!(j.next_round().is_empty());
    for i in 0..5 {
        assert_eq!(j.refs.count(i), 0);
    }
}
