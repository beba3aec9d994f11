use kvs::inmem::InMemEngine;
use kvs::raft::{
    apply_transition, get_reply, is_leader, peer_ids, plan_set, set_reply, take_pending, DbOp,
    DbOpType, Reply, SetEvent, SetPlan,
};
use kvs::{KvStore, KvsEngine, KvsError};

fn put(id: usize, key: &str, value: &str) -> DbOp {
    DbOp { id, op_type: DbOpType::Put(key.to_string(), value.to_string()) }
}

fn delete(id: usize, key: &str) -> DbOp {
    DbOp { id, op_type: DbOpType::Delete(key.to_string()) }
}

#[test]
fn transition_is_known_by_its_id() {
    assert_eq!(put(7, "k", "v").get_id(), 7);
    assert_eq!(DbOp { id: 0, op_type: DbOpType::Noop }.get_id(), 0);
}

#[test]
fn transitions_are_applied_to_the_memory_engine() {
    let mut engine = InMemEngine::open();
    assert!(apply_transition(&mut engine, put(1, "k", "v")).is_ok());
    assert_eq!(engine.get("k".to_string()).unwrap(), Some("v".to_string()));
    assert!(apply_transition(&mut engine, DbOp { id: 2, op_type: DbOpType::Noop }).is_ok());
    assert_eq!(engine.get("k".to_string()).unwrap(), Some("v".to_string()));
    assert!(apply_transition(&mut engine, delete(3, "k")).is_ok());
    assert_eq!(engine.get("k".to_string()).unwrap(), None);
    assert!(matches!(apply_transition(&mut engine, delete(4, "k")), Err(KvsError::KeyNotFound)));
}

#[test]
fn transitions_are_applied_to_the_log_store() {
    let mut engine = KvStore::open(Vec::new()).unwrap();
    assert!(apply_transition(&mut engine, put(1, "k", "v")).is_ok());
    assert!(apply_transition(&mut engine, put(2, "k", "w")).is_ok());
    assert_eq!(engine.get("k".to_string()).unwrap(), Some("w".to_string()));
    assert!(matches!(apply_transition(&mut engine, put(3, "", "w")), Err(KvsError::InvalidKey)));
    assert!(apply_transition(&mut engine, delete(4, "k")).is_ok());
    assert_eq!(engine.get("k".to_string()).unwrap(), None);
}

#[test]
fn replica_leads_where_it_is_the_registered_leader() {
    assert!(is_leader(2, Some(2)));
    assert!(!is_leader(2, Some(3)));
    assert!(!is_leader(2, None));
    assert!(is_leader(0, Some(0)));
}

#[test]
fn pending_transitions_are_handed_out_once() {
    let mut pending = vec![put(1, "a", "1"), delete(2, "a")];
    let out = take_pending(&mut pending);
    assert!(pending.is_empty());
    assert_eq!(out.len(), 2);
    assert_eq!(out[0].get_id(), 1);
    assert_eq!(out[1].get_id(), 2);
    assert!(take_pending(&mut pending).is_empty());
}

#[test]
fn control_plane_reads_from_the_local_engine() {
    let mut engine = InMemEngine::open();
    engine.set("k".to_string(), "v".to_string()).unwrap();
    assert_eq!(get_reply(&engine, Some("k".to_string())), Reply::Done("v".to_string()));
    assert_eq!(
        get_reply(&engine, Some("other".to_string())),
        Reply::Done("Key not found".to_string())
    );
    assert_eq!(get_reply(&engine, None), Reply::BadRequest);
}

#[test]
fn follower_does_not_take_writes() {
    let mut counter = 1;
    let plan = plan_set(false, Some("k".to_string()), Some("v".to_string()), &mut counter);
    assert!(matches!(plan, SetPlan::Answer(Reply::Done(text)) if text == "Not leader"));
    assert_eq!(counter, 1);
}

#[test]
fn write_without_key_or_value_is_a_bad_request() {
    let mut counter = 1;
    let plan = plan_set(true, None, Some("v".to_string()), &mut counter);
    assert!(matches!(plan, SetPlan::Answer(Reply::BadRequest)));
    let plan = plan_set(true, Some("k".to_string()), None, &mut counter);
    assert!(matches!(plan, SetPlan::Answer(Reply::BadRequest)));
    assert_eq!(counter, 1);
}

#[test]
fn leader_proposes_the_write_under_the_next_number() {
    let mut counter = 1;
    match plan_set(true, Some("k".to_string()), Some("v".to_string()), &mut counter) {
        SetPlan::Propose(op) => {
            assert_eq!(op.id, 2);
            assert!(matches!(op.op_type, DbOpType::Put(k, v) if k == "k" && v == "v"));
        }
        other => panic!("{:?}", other),
    }
    assert_eq!(counter, 2);
    match plan_set(true, Some("k".to_string()), Some("w".to_string()), &mut counter) {
        SetPlan::Propose(op) => assert_eq!(op.id, 3),
        other => panic!("{:?}", other),
    }
}

#[test]
fn waiting_write_is_done_when_its_transition_is_applied() {
    assert_eq!(set_reply(5, SetEvent::Applied(Some(5))), Some(Reply::Done("OK".to_string())));
    assert_eq!(set_reply(5, SetEvent::Applied(Some(4))), None);
    assert_eq!(set_reply(5, SetEvent::Applied(None)), None);
    assert_eq!(set_reply(5, SetEvent::TimedOut), Some(Reply::Timeout));
}

#[test]
fn peers_are_the_other_replicas() {
    assert_eq!(peer_ids(2, &vec![1, 2, 3]), vec![1, 3]);
    assert_eq!(peer_ids(4, &vec![1, 2, 3]), vec![1, 2, 3]);
    assert_eq!(peer_ids(1, &vec![1, 1]), Vec::<usize>::new());
    assert_eq!(peer_ids(1, &Vec::new()), Vec::<usize>::new());
}
