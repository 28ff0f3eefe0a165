use joader::sampler::Sampler;
use joader::sampler_manager::SamplerManager;
use joader::sampler_tree::SamplerTree;
use rand::Rng;
use std::collections::{HashMap, HashSet};

fn sample(tasks: u32) {
    let mut sampler = Sampler::new();
    let mut rng = rand::thread_rng();
    let mut vec_keys = Vec::<Vec<u32>>::new();
    for _i in 0..tasks {
        let size = rng.gen_range(1000..10000);
        let keys = (0..size).into_iter().collect();
        vec_keys.push(keys);
    }

    for (idx, keys) in vec_keys.iter().enumerate() {
        sampler.insert(idx as u64, keys.clone());
    }

    let mut map = HashMap::<u64, Vec<u32>>::new();
    for idx in 0..vec_keys.len() {
        map.insert(idx as u64, Vec::new());
    }
    loop {
        let res = sampler.sample();
        if res.is_empty() {
            break;
        }
        for (x, tasks) in &res {
            for task in tasks {
                map.get_mut(task).unwrap().push(*x);
            }
        }
    }
    for (task, set) in &mut map {
        set.sort();
        let mut keys = vec_keys[*task as usize].clone();
        keys.sort();
        assert!(keys.eq(set));
    }
}

#[test]
fn sampler_test_sampler() {
    sample(8);
}

#[test]
fn sampler_insert_gives_each_task_its_keys() {
    let mut sampler = Sampler::new();
    let keys: Vec<Vec<u32>> = vec![(0..50).collect(), (10..30).collect(), (0..100).collect(), vec![7, 300, 2]];
    for (id, k) in keys.iter().enumerate() {
        sampler.insert(id as u64, k.clone());
    }
    for (id, k) in keys.iter().enumerate() {
        let mut values = sampler.get_task_values(id as u64);
        values.sort();
        let mut expected = k.clone();
        expected.sort();
        assert_eq!(values, expected);
    }
    assert!(sampler.get_task_values(9).is_empty());
}

#[test]
fn sampler_round_reports_one_value_per_task() {
    let mut sampler = Sampler::new();
    sampler.insert(1, (0..4).collect());
    sampler.insert(2, (0..4).collect());
    let mut seen: HashMap<u64, HashSet<u32>> = HashMap::new();
    for _ in 0..4 {
        let res = sampler.sample();
        let mut count: HashMap<u64, usize> = HashMap::new();
        for (x, tasks) in &res {
            for t in tasks {
                *count.entry(*t).or_insert(0) += 1;
                assert!(seen.entry(*t).or_default().insert(*x));
            }
        }
        assert_eq!(count.get(&1), Some(&1));
        assert_eq!(count.get(&2), Some(&1));
    }
    assert!(sampler.sample().is_empty());
    assert_eq!(seen[&1], (0..4).collect::<HashSet<u32>>());
    assert_eq!(seen[&2], (0..4).collect::<HashSet<u32>>());
}

#[test]
fn sampler_tree_insert_gives_each_loader_its_indices() {
    let mut tree = SamplerTree::new();
    let keys: Vec<Vec<u32>> = vec![(0..40).collect(), (20..25).collect(), (0..200).collect()];
    for (id, k) in keys.iter().enumerate() {
        tree.insert(k.clone(), 10 + id as u64);
    }
    for (id, k) in keys.iter().enumerate() {
        let mut values = tree.get_task_values(10 + id as u64);
        values.sort();
        assert_eq!(&values, k);
    }
}

#[test]
fn sampler_tree_sample_takes_only_loaders_indices() {
    let mut tree = SamplerTree::new();
    tree.insert((0..30).collect(), 1);
    tree.insert((0..60).collect(), 2);
    let before1: HashSet<u32> = tree.get_task_values(1).into_iter().collect();
    let before2: HashSet<u32> = tree.get_task_values(2).into_iter().collect();
    let res = tree.sample();
    let after1: HashSet<u32> = tree.get_task_values(1).into_iter().collect();
    let after2: HashSet<u32> = tree.get_task_values(2).into_iter().collect();
    assert!(after1.is_subset(&before1));
    assert!(after2.is_subset(&before2));
    let mut values = HashSet::new();
    for (x, _) in &res {
        assert!(values.insert(*x));
        assert!(before1.contains(x) || before2.contains(x));
    }
}

#[test]
fn sampler_tree_single_loader_reads_a_value() {
    let mut tree = SamplerTree::new();
    tree.insert((0..5).collect(), 3);
    let res = tree.sample();
    assert_eq!(res.len(), 1);
    let (x, readers) = &res[0];
    assert!(*x < 5);
    assert_eq!(readers, &vec![3u64]);
    let left: HashSet<u32> = tree.get_task_values(3).into_iter().collect();
    assert_eq!(left.len(), 4);
    assert!(!left.contains(x));
}

#[test]
fn sampler_manager_keeps_datasets_apart() {
    let mut m = SamplerManager::new();
    m.insert(1, 7, (0..3).collect());
    m.insert(2, 7, (100..102).collect());
    let mut got: HashMap<(u32, u64), Vec<u32>> = HashMap::new();
    loop {
        let res = m.sample();
        if res.is_empty() {
            break;
        }
        for (dataset, x, tasks) in res {
            for t in tasks {
                got.entry((dataset, t)).or_default().push(x);
            }
        }
    }
    let mut a = got[&(1, 7)].clone();
    a.sort();
    let mut b = got[&(2, 7)].clone();
    b.sort();
    assert_eq!(a, vec![0, 1, 2]);
    assert_eq!(b, vec![100, 101]);
}

fn insert(tasks: u32) {
    let mut sampler = SamplerTree::new();
    let mut rng = rand::thread_rng();
    let mut vec_keys = Vec::<Vec<u32>>::new();

    for _i in 0..tasks {
        let size = rng.gen_range(100..10000);
        let keys = (0..size).into_iter().collect();
        vec_keys.push(keys);
    }

    let vec_tasks: Vec<u64> = Vec::new();
    for (idx, keys) in vec_keys.iter().enumerate() {
        sampler.insert(keys.clone(), idx as u64);
    }

    for task in vec_tasks {
        let mut values = sampler.get_task_values(task);
        values.sort();
        let mut keys = vec_keys[task as usize].clone();
        keys.sort();
        assert!(values.eq(&keys));
    }
}

#[test]
fn sampler_tree_test_insert() {
    insert(128);
}

#[test]
fn sampler_task_joining_mid_epoch_still_reads_each_key_once() {
    let mut sampler = Sampler::new();
    let a: Vec<u32> = (0..40).collect();
    let b: Vec<u32> = (20..90).collect();
    let c: Vec<u32> = (5..15).collect();
    sampler.insert(1, a.clone());
    sampler.insert(2, c.clone());
    let mut got: HashMap<u64, Vec<u32>> = HashMap::new();
    let mut rounds = 0;
    loop {
        if rounds == 7 {
            sampler.insert(3, b.clone());
        }
        let res = sampler.sample();
        if res.is_empty() {
            break;
        }
        let mut per_task: HashMap<u64, usize> = HashMap::new();
        for (x, tasks) in &res {
            for t in tasks {
                got.entry(*t).or_default().push(*x);
                *per_task.entry(*t).or_insert(0) += 1;
            }
        }
        for (_, n) in per_task {
            assert_eq!(n, 1);
        }
        rounds += 1;
    }
    for (id, keys) in [(1u64, a), (2u64, c), (3u64, b)] {
        let mut values = got.remove(&id).unwrap();
        values.sort();
        assert_eq!(values, keys);
        assert!(sampler.get_task_values(id).is_empty());
    }
}

fn tree_sample(tasks: u64) {
    let mut sampler = SamplerTree::new();
    let mut rng = rand::thread_rng();
    let mut vec_keys = Vec::<HashSet<u32>>::new();
    for id in 0..tasks {
        let size = rng.gen_range(1000..10000);
        let keys = (0..size).into_iter().collect::<Vec<u32>>();
        vec_keys.push(keys.iter().cloned().collect());
        sampler.insert(keys, id)
    }

    let mut map: HashMap<u64, HashSet<u32>> = HashMap::new();
    for id in 0..tasks {
        map.insert(id, HashSet::new());
    }
    loop {
        let res = sampler.sample();
        if res.is_empty() {
            break;
        }
        for (x, tasks) in &res {
            for task in tasks {
                map.get_mut(task).unwrap().insert(*x);
            }
        }
    }
    for (task, set) in &map {
        let keys = &vec_keys[(*task) as usize];
        assert!(keys.eq(set));
    }
}

#[test]
fn sampler_tree_test_sampler() {
    tree_sample(8);
}

#[test]
fn sampler_tree_counts_loaders_down() {
    let mut tree = SamplerTree::new();
    tree.insert((0..2).collect(), 1);
    tree.insert((0..3).collect(), 2);
    assert!(!tree.is_empty());
    for _ in 0..3 {
        assert!(!tree.sample().is_empty());
    }
    assert!(tree.is_empty());
    assert!(tree.sample().is_empty());
    assert!(tree.get_task_values(1).is_empty());
    assert!(tree.get_task_values(2).is_empty());
}
