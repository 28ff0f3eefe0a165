use joader::values_set::ValueSet;

#[test]
fn init() {
    let size = 781u32;
    let mut v = ValueSet::init(size as usize);
    let mut vec = Vec::new();
    for _ in 0..size {
        vec.push(v.random_pick());
    }
    vec.sort();
    assert!(vec == (0..size).collect::<Vec<u32>>());
}

#[test]
fn test_itersection() {
    let l = ValueSet::init(129);
    let r = ValueSet::init(125);
    assert!(l.intersection(&r) == r);
}

#[test]
fn test_union() {
    let l = ValueSet::init(129);
    let r = ValueSet::init(125);
    assert!(l.union(&r) == l);
}

#[test]
fn test_difference() {
    let l = ValueSet::init(129);
    let r = ValueSet::init(128);
    let mut v = ValueSet::init(129);
    for i in 0..128 {
        v.reset(i);
    }
    assert!(l.difference(&r) == v);
}

/// Picks every value of `v`, block 0 first each time, and returns them in order.
fn drain_first(v: &mut ValueSet, n: usize) -> Vec<u32> {
    let mut out = Vec::new();
    for _ in 0..n {
        out.push(v.pick_in_block(0));
    }
    out
}

#[test]
fn pick_in_block_takes_smallest_first() {
    let mut v = ValueSet::init(300);
    assert_eq!(v.pick_in_block(0), 0);
    assert_eq!(v.pick_in_block(0), 1);
    // block 1 covers 128..256, block 2 covers 256..300
    assert_eq!(v.pick_in_block(2), 256);
    assert_eq!(v.pick_in_block(1), 128);
    let rest = drain_first(&mut v, 300 - 4);
    let mut expected: Vec<u32> = (2..128).collect();
    expected.extend(129..256);
    expected.extend(257..300);
    assert_eq!(rest, expected);
}

#[test]
fn init_zero_is_empty() {
    let a = ValueSet::init(0);
    let b = ValueSet::init(5);
    assert!(a.union(&b) == b);
    assert!(a.intersection(&b) == a);
    assert!(b.difference(&b) == a);
}

#[test]
fn set_laws_on_values() {
    // a holds 0..300 without 5; b holds 200..400
    let mut a = ValueSet::init(300);
    a.reset(5);
    let all = ValueSet::init(400);
    let low = ValueSet::init(200);
    let b = all.difference(&low);

    let mut inter = a.intersection(&b);
    let mut got = drain_first(&mut inter, 100);
    got.sort();
    assert_eq!(got, (200..300).collect::<Vec<u32>>());

    let mut uni = a.union(&b);
    let mut got = drain_first(&mut uni, 399);
    got.sort();
    let mut expected: Vec<u32> = (0..5).collect();
    expected.extend(6..400);
    assert_eq!(got, expected);

    let mut diff = a.difference(&b);
    let mut got = drain_first(&mut diff, 199);
    got.sort();
    let mut expected: Vec<u32> = (0..5).collect();
    expected.extend(6..200);
    assert_eq!(got, expected);
}

#[test]
fn reset_then_pick_skips_value() {
    let mut v = ValueSet::init(3);
    v.reset(1);
    assert!(v == {
        let mut w = ValueSet::init(3);
        w.reset(1);
        w
    });
    let mut got = vec![v.random_pick(), v.random_pick()];
    got.sort();
    assert_eq!(got, vec![0, 2]);
}
