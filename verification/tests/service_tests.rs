use joader::service::{parse_dataset_id, succ, to_result_status, to_status, GlobalID, IdGenerator, CODE_ERR, CODE_OK};
use joader::Role;

#[test]
fn loader_ids_carry_their_dataset() {
    let mut g = GlobalID::new();
    let d1 = g.get_dataset_id();
    let d2 = g.get_dataset_id();
    assert_eq!((d1, d2), (1, 2));
    let l1 = g.get_loader_id(d2);
    let l2 = g.get_loader_id(d1);
    assert_eq!(l1, (2u64 << 32) + 1);
    assert_eq!(l2, (1u64 << 32) + 2);
    assert_eq!(GlobalID::parse_dataset_id(l1), d2);
    assert_eq!(parse_dataset_id(l2), d1);
    assert_eq!(g.get_host_id(), 1);
    assert_eq!(parse_dataset_id(u64::MAX), u32::MAX);
    assert_eq!(parse_dataset_id(0xffff_ffff), 0);
}

#[test]
fn id_generator_counts_up() {
    let mut g = IdGenerator::new();
    assert_eq!(g.get_dataset_id(), 1);
    assert_eq!(g.get_dataset_id(), 2);
    assert_eq!(g.get_loader_id(), 1);
    assert_eq!(IdGenerator::parse_dataset_id((7u64 << 32) + 9), 7);
}

#[test]
fn status_of_results() {
    let ok: Result<u32, String> = Ok(3);
    let s = to_status(&ok);
    assert_eq!(s.code, CODE_OK);
    assert_eq!(s.msg, "Success");
    let err: Result<u32, String> = Err("no such loader".to_string());
    let s = to_status(&err);
    assert_eq!(s.code, CODE_ERR);
    assert_eq!(s.msg, "no such loader");
    assert_eq!(succ(), to_status(&ok));
}

#[test]
fn status_of_unit_results() {
    let s = to_result_status(Ok(()));
    assert_eq!(s.code, CODE_OK);
    assert_eq!(s.msg, "succ");
    let s = to_result_status(Err("boom".to_string()));
    assert_eq!(s.code, CODE_ERR);
    assert_eq!(s.msg, "boom");
}

#[test]
fn roles_differ() {
    assert!(Role::Leader != Role::Follower);
    assert_eq!(Role::Leader, Role::Leader);
}
