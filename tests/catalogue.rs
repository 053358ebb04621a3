use canhdf::catalogue::{acquire_can_ids, check_can_ids, Catalogue};
use canhdf::descriptor::CanId;
use canhdf::messages::CanMsg;

fn descriptor(id: u32, name: &[u8]) -> CanId {
    CanId {
        hex_id: id,
        str_id: Some(name.to_vec()),
        description: Some(b"flow".to_vec()),
        scale: Some(b"0.1".to_vec()),
        unit: Some(b"L/min".to_vec()),
    }
}

fn msg(id: u32) -> CanMsg {
    CanMsg { hex_id: id, value: b"1".to_vec(), ts: 0 }
}

#[test]
fn later_descriptor_of_an_id_wins() {
    let cat = acquire_can_ids(vec![descriptor(1, b"A"), descriptor(2, b"B"), descriptor(1, b"C")]);
    assert_eq!(cat.len(), 2);
    assert_eq!(cat.get(1).unwrap().str_id, Some(b"C".to_vec()));
    assert!(cat.contains(2));
    assert!(!cat.contains(3));
    assert_eq!(cat.lookup(3), CanId::empty_with_id(3));
    assert_eq!(cat.lookup(3).str_id, None);
    assert_eq!(Catalogue::new().len(), 0);
}

#[test]
fn device_fallback() {
    let mut cat = acquire_can_ids(vec![descriptor(0x10060000, b"CAN_ID_FLOW")]);
    let unmapped = check_can_ids(&vec![msg(0x1006D000), msg(0x1006D000), msg(0x10060000)], &mut cat);
    assert!(unmapped.is_empty());
    let d = cat.get(0x1006D000).unwrap();
    assert_eq!(d.hex_id, 0x1006D000);
    assert_eq!(d.str_id, Some(b"CAN_ID_FLOW-DEV13".to_vec()));
    assert_eq!(d.description, Some(b"flow".to_vec()));
    assert_eq!(d.scale, Some(b"0.1".to_vec()));
    assert_eq!(d.unit, Some(b"L/min".to_vec()));
    assert_eq!(cat.get(0x10060000).unwrap().str_id, Some(b"CAN_ID_FLOW".to_vec()));
    assert_eq!(cat.len(), 2);
}

#[test]
fn device_field_is_bits_twelve_to_fifteen() {
    let mut cat = acquire_can_ids(vec![descriptor(0x10060000, b"X")]);
    let unmapped = check_can_ids(&vec![msg(0x1006000D), msg(0x10063000)], &mut cat);
    assert_eq!(unmapped, vec![0x1006000D]);
    assert_eq!(cat.get(0x10063000).unwrap().str_id, Some(b"X-DEV3".to_vec()));
    assert!(!cat.contains(0x1006000D));
}

#[test]
fn unmappable_ids_are_reported_once() {
    let mut cat = acquire_can_ids(vec![descriptor(0x10, b"A")]);
    let unmapped = check_can_ids(&vec![msg(0x99), msg(0x10), msg(0x77), msg(0x99)], &mut cat);
    assert_eq!(unmapped, vec![0x99, 0x77]);
    assert_eq!(cat.len(), 1);
}

#[test]
fn unnamed_base_still_gets_a_device_name() {
    let mut cat = Catalogue::new();
    cat.insert(CanId::empty_with_id(0x20000));
    let unmapped = check_can_ids(&vec![msg(0x2F000)], &mut cat);
    assert!(unmapped.is_empty());
    assert_eq!(cat.get(0x2F000).unwrap().str_id, Some(b"-DEV15".to_vec()));
}
