use flatstore::index::Index;

#[test]
fn serialization_des() {
    let index = Index { id: 0, offset: 0, length: 5, is_free: 0 };
    let index2 = Index::take_first_from_bytes(index.clone().to_bytes().as_mut());
    assert_eq!(index.id, index2.id);
    assert_eq!(index.offset, index2.offset);
    assert_eq!(index.length, index2.length);
    assert_eq!(index.is_free, index2.is_free);
}

#[test]
fn encoding_layout_is_little_endian() {
    let index = Index { id: 1, offset: 2, length: 0x0102_0304, is_free: 1 };
    let bytes = index.to_bytes();
    assert_eq!(
        bytes,
        vec![1, 0, 0, 0, 2, 0, 0, 0, 0x04, 0x03, 0x02, 0x01, 1]
    );
}

#[test]
fn round_trip_extreme_values() {
    let index = Index { id: u32::MAX, offset: 0, length: u32::MAX - 7, is_free: 255 };
    let index2 = Index::take_first_from_bytes(index.clone().to_bytes().as_mut());
    assert_eq!(index, index2);
}

#[test]
fn take_first_consumes_exactly_one_record() {
    let a = Index { id: 0, offset: 0, length: 4, is_free: 0 };
    let b = Index { id: 1, offset: 4, length: 9, is_free: 1 };
    let mut bytes = a.clone().to_bytes();
    bytes.append(&mut b.clone().to_bytes());
    assert_eq!(bytes.len(), 26);
    let first = Index::take_first_from_bytes(&mut bytes);
    assert_eq!(first, a);
    assert_eq!(bytes.len(), 13);
    let second = Index::take_first_from_bytes(&mut bytes);
    assert_eq!(second, b);
    assert_eq!(bytes.len(), 0);
}
