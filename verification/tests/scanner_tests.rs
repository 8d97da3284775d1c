use voting::scanner::{scan, DOB, MAX_ITEM_LEN, NATIONALITY};

fn stream(items: &[(u8, &[u8])]) -> Vec<u8> {
    let mut out: Vec<u8> = Vec::new();
    for (tag, value) in items {
        out.push(*tag);
        out.push(value.len() as u8);
        out.extend_from_slice(value);
    }
    out
}

#[test]
fn scan_empty_stream_yields_no_items() {
    let r = scan(&[]);
    assert!(r.is_some());
    assert_eq!(r.unwrap().len(), 0);
}

#[test]
fn scan_decodes_items_in_order() {
    let s = stream(&[(NATIONALITY, b"CH"), (DOB, b"20000101")]);
    let items = scan(&s).unwrap();
    assert_eq!(items.len(), 2);
    assert_eq!(items[0].tag, NATIONALITY);
    assert_eq!(items[0].value, b"CH".to_vec());
    assert_eq!(items[1].tag, DOB);
    assert_eq!(items[1].value, b"20000101".to_vec());
}

#[test]
fn scan_accepts_item_of_maximal_length() {
    let value = [7u8; 31];
    let s = stream(&[(NATIONALITY, &value)]);
    let items = scan(&s).unwrap();
    assert_eq!(items.len(), 1);
    assert_eq!(items[0].value.len(), MAX_ITEM_LEN);
}

#[test]
fn scan_accepts_empty_value() {
    let s = stream(&[(DOB, b"")]);
    let items = scan(&s).unwrap();
    assert_eq!(items.len(), 1);
    assert_eq!(items[0].tag, DOB);
    assert!(items[0].value.is_empty());
}

#[test]
fn scan_rejects_oversized_item() {
    let mut s: Vec<u8> = vec![NATIONALITY, 32];
    s.extend_from_slice(&[0u8; 32]);
    assert!(scan(&s).is_none());
}

#[test]
fn scan_rejects_truncated_value() {
    // declares three value bytes but carries two
    let s: Vec<u8> = vec![NATIONALITY, 3, 67, 72];
    assert!(scan(&s).is_none());
}

#[test]
fn scan_rejects_lone_tag_byte() {
    let s: Vec<u8> = vec![NATIONALITY];
    assert!(scan(&s).is_none());
}
