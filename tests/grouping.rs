use canhdf::catalogue::acquire_can_ids;
use canhdf::descriptor::CanId;
use canhdf::grouping::{create_collection, group_by_channel, CanMsgCollection};
use canhdf::messages::CanMsg;

fn msg(id: u32, ts: u64) -> CanMsg {
    CanMsg { hex_id: id, value: b"0".to_vec(), ts }
}

fn shape(r: &[CanMsgCollection]) -> Vec<(u32, Vec<u64>)> {
    r.iter().map(|c| (c.can_id.hex_id, c.collection.iter().map(|m| m.ts).collect())).collect()
}

#[test]
fn grouping_invariant() {
    let cat = acquire_can_ids(vec![CanId { hex_id: 3, str_id: Some(b"THREE".to_vec()), description: None, scale: None, unit: None }]);
    let msgs = vec![msg(3, 1), msg(1, 2), msg(3, 3), msg(0, 4), msg(1, 5), msg(3, 6)];
    let r = group_by_channel(msgs, &cat);
    assert_eq!(shape(&r), vec![(0, vec![4]), (1, vec![2, 5]), (3, vec![1, 3, 6])]);
    let total: usize = r.iter().map(|c| c.collection.len()).sum();
    assert_eq!(total, 6);
    assert_eq!(r[2].can_id.str_id, Some(b"THREE".to_vec()));
    assert_eq!(r[0].can_id.str_id, None);
}

#[test]
fn sort_invariant() {
    let cat = acquire_can_ids(vec![]);
    let msgs = vec![msg(9, 0), msg(2, 0), msg(7, 0), msg(2, 0), msg(0xFFFF_FFFF, 0), msg(0, 0)];
    let r = group_by_channel(msgs, &cat);
    let ids: Vec<u32> = r.iter().map(|c| c.can_id.hex_id).collect();
    assert_eq!(ids, vec![0, 2, 7, 9, 0xFFFF_FFFF]);
}

#[test]
fn idempotence() {
    let cat = acquire_can_ids(vec![]);
    let msgs = vec![msg(5, 1), msg(4, 2), msg(5, 3), msg(4, 4), msg(6, 5)];
    let first = group_by_channel(msgs, &cat);
    let flat: Vec<CanMsg> = first.iter().flat_map(|c| c.collection.iter().map(|m| m.duplicate())).collect();
    let second = group_by_channel(flat, &cat);
    assert_eq!(shape(&first), shape(&second));
}

#[test]
fn empty_input_gives_no_collections() {
    let cat = acquire_can_ids(vec![]);
    assert!(group_by_channel(vec![], &cat).is_empty());
}

#[test]
fn walk_opens_a_collection_for_id_zero() {
    let cat = acquire_can_ids(vec![]);
    let sorted = vec![msg(0, 1), msg(0, 2), msg(4, 3)];
    let r = create_collection(&sorted, &cat);
    assert_eq!(shape(&r), vec![(0, vec![1, 2]), (4, vec![3])]);
    let single = CanMsgCollection::new(CanId::empty_with_id(8), msg(8, 9));
    assert_eq!(single.collection.len(), 1);
}
