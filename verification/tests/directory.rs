use flatstore::index::Index;
use flatstore::store::Database;
use flatstore::store::StoreError;

#[test]
fn save() {
    // Initialize stores for collections and index
    let mut collection_db = Database::new();
    let mut index_db = Database::new();

    // Clear any existing data in both stores
    Index::clear(&mut collection_db, &mut index_db);

    // Create first content string
    let content = "Hey works".to_string();

    // Index the first content - this should create index ID 0
    Index::new(content.clone().into_bytes(), &mut collection_db, &mut index_db).unwrap();

    // Create second content string with identical text
    let content2 = "Hey works".to_string();

    // Index the second content - this should create index ID 1
    Index::new(content2.clone().into_bytes(), &mut collection_db, &mut index_db).unwrap();

    // Retrieve all indexes from the store
    let mut indexes: Vec<Index> = Index::get_all_indexing(&index_db).unwrap();

    // Verify that two distinct indexes were created, despite identical content
    assert_eq!(indexes.len(), 2);

    // Verify first index properties
    let first_index: &mut Index = indexes.first_mut().unwrap();
    assert_eq!(first_index.id, 0); // First index should have ID 0
    assert_eq!(first_index.offset, 0); // First index starts at offset 0
    assert_eq!(first_index.length, content.len() as u32); // Length should match content length

    let first_content = first_index.get_content(&collection_db).unwrap();
    assert_eq!(first_content, content.as_bytes()); // read back matches the input content

    let update_content = "update with longer content Works".to_string();
    let updated_index = first_index
        .clone()
        .update_with(&mut collection_db, &mut index_db, update_content.clone().into_bytes())
        .unwrap();
    let first_update_content = updated_index.get_content(&collection_db).unwrap();
    assert_eq!(update_content.as_bytes(), first_update_content);

    // Verify second index properties
    let second_index = indexes.last().unwrap();
    assert_eq!(second_index.id, 1); // Second index should have ID 1
    // Second index should start at offset equal to the length of the first content
    assert_eq!(second_index.offset, content.len() as u32);
    // Second index length should match second content length
    assert_eq!(second_index.length, content2.len() as u32);

    let second_content = second_index.get_content(&collection_db).unwrap();
    assert_eq!(second_content, content2.as_bytes()); // read back matches the input content

    // new content with less length saves in the free space: updating the first
    // index with larger content left that index (id) free
    let new_index =
        Index::new("small".to_string().into_bytes(), &mut collection_db, &mut index_db).unwrap();
    assert_eq!(new_index.id, 0);

    // the previous create marked id 0 live again, so this one appends: id 3
    let new_index_2 =
        Index::new("small".to_string().into_bytes(), &mut collection_db, &mut index_db).unwrap();
    assert_eq!(new_index_2.id, 3);
}

#[test]
fn two_creates_same_content_distinct_records() {
    let mut coll = Database::new();
    let mut dir = Database::new();
    Index::clear(&mut coll, &mut dir);
    let a = Index::new(b"Hey works!".to_vec(), &mut coll, &mut dir).unwrap();
    let b = Index::new(b"Hey works!".to_vec(), &mut coll, &mut dir).unwrap();
    assert_eq!(a.id, 0);
    assert_eq!(b.id, 1);
    assert_eq!(a.offset, 0);
    assert_eq!(b.offset, 10);
    assert_eq!(coll.len(), 20);
}

#[test]
fn dense_ids_after_creates() {
    let mut coll = Database::new();
    let mut dir = Database::new();
    Index::clear(&mut coll, &mut dir);
    Index::new(b"alpha".to_vec(), &mut coll, &mut dir).unwrap();
    Index::new(b"be".to_vec(), &mut coll, &mut dir).unwrap();
    Index::new(b"gamma!".to_vec(), &mut coll, &mut dir).unwrap();
    let recs = Index::get_all_indexing(&dir).unwrap();
    assert_eq!(recs.len(), 3);
    for (i, r) in recs.iter().enumerate() {
        assert_eq!(r.id, i as u32);
        assert_eq!(r.is_free, 0);
    }
}

#[test]
fn append_places_at_prior_end() {
    let mut coll = Database::new();
    let mut dir = Database::new();
    Index::clear(&mut coll, &mut dir);
    let a = Index::new(b"1234".to_vec(), &mut coll, &mut dir).unwrap();
    assert_eq!(a.offset, 0);
    assert_eq!(coll.len(), 4);
    let b = Index::new(b"56789".to_vec(), &mut coll, &mut dir).unwrap();
    assert_eq!(b.offset, 4);
    assert_eq!(coll.len(), 9);
}

#[test]
fn first_fit_boundary() {
    let mut coll = Database::new();
    let mut dir = Database::new();
    Index::clear(&mut coll, &mut dir);
    let a = Index::new(b"exactly09".to_vec(), &mut coll, &mut dir).unwrap();
    Index::new(b"keep".to_vec(), &mut coll, &mut dir).unwrap();
    a.delete_at(&mut dir);

    // content exactly as long as the freed capacity reuses id and offset
    let reused = Index::new(b"exactly09".to_vec(), &mut coll, &mut dir).unwrap();
    assert_eq!(reused.id, a.id);
    assert_eq!(reused.offset, a.offset);

    reused.delete_at(&mut dir);

    // one byte more than the freed capacity appends instead
    let appended = Index::new(b"exactly10!".to_vec(), &mut coll, &mut dir).unwrap();
    assert_eq!(appended.id, 2);
    assert_eq!(appended.offset, 13);
}

#[test]
fn update_in_place_keeps_id_and_offset() {
    let mut coll = Database::new();
    let mut dir = Database::new();
    Index::clear(&mut coll, &mut dir);
    let a = Index::new(b"longer content".to_vec(), &mut coll, &mut dir).unwrap();
    let b = Index::new(b"second".to_vec(), &mut coll, &mut dir).unwrap();
    let updated = a.clone().update_with(&mut coll, &mut dir, b"tiny".to_vec()).unwrap();
    assert_eq!(updated.id, a.id);
    assert_eq!(updated.offset, a.offset);
    assert_eq!(updated.length, 4);
    assert_eq!(updated.is_free, 0);
    // reads are bounded by the stored length: stale trailing bytes stay hidden
    assert_eq!(updated.get_content(&coll).unwrap(), b"tiny");
    // the neighbour is untouched
    assert_eq!(b.get_content(&coll).unwrap(), b"second");
}

#[test]
fn update_overflow_frees_old_id() {
    let mut coll = Database::new();
    let mut dir = Database::new();
    Index::clear(&mut coll, &mut dir);
    let a = Index::new(b"Hey works!".to_vec(), &mut coll, &mut dir).unwrap();
    assert_eq!(a.length, 10);
    let long = b"a thirty-four byte content string!".to_vec();
    assert_eq!(long.len(), 34);
    let updated = a.clone().update_with(&mut coll, &mut dir, long.clone()).unwrap();
    assert_ne!(updated.id, a.id);
    assert_eq!(updated.get_content(&coll).unwrap(), long);
    let recs = Index::get_all_indexing(&dir).unwrap();
    assert_eq!(recs[0].is_free, 1);
    assert_eq!(recs[0].length, 10); // freed capacity is retained

    // content fitting the freed capacity reuses id 0 at offset 0
    let small = Index::new(b"small".to_vec(), &mut coll, &mut dir).unwrap();
    assert_eq!(small.id, 0);
    assert_eq!(small.offset, 0);

    // no free slot qualifies any more: the next create takes a fresh id
    let next = Index::new(b"small".to_vec(), &mut coll, &mut dir).unwrap();
    assert_eq!(next.id, 2);
}

#[test]
fn reset_clears_both_stores() {
    let mut coll = Database::new();
    let mut dir = Database::new();
    Index::new(b"something".to_vec(), &mut coll, &mut dir).unwrap();
    Index::clear(&mut coll, &mut dir);
    assert_eq!(coll.len(), 0);
    assert_eq!(dir.len(), 0);
    let recs = Index::get_all_indexing(&dir).unwrap();
    assert!(recs.is_empty());
}

#[test]
fn corrupt_directory_is_reported() {
    let mut dir = Database::new();
    dir.write_at(0, vec![1, 2, 3, 4, 5]);
    assert_eq!(
        Index::get_all_indexing(&dir),
        Err(StoreError::CorruptDirectory)
    );
}

#[test]
fn get_content_out_of_bounds() {
    let mut coll = Database::new();
    coll.write_at(0, b"abc".to_vec());
    let record = Index { id: 0, offset: 1, length: 3, is_free: 0 };
    assert_eq!(record.get_content(&coll), Err(StoreError::OutOfBounds));
}

#[test]
fn update_rejects_offset_overflow() {
    let mut coll = Database::new();
    let mut dir = Database::new();
    Index::clear(&mut coll, &mut dir);
    let a = Index::new(b"Hey works!".to_vec(), &mut coll, &mut dir).unwrap();
    // a record whose region would run past the 32-bit offset space
    let bad = Index { id: a.id, offset: u32::MAX, length: a.length, is_free: 0 };
    let r = bad.update_with(&mut coll, &mut dir, b"tiny".to_vec());
    assert_eq!(r, Err(StoreError::ContentTooLarge));
}

#[test]
fn zero_length_content_records() {
    let mut coll = Database::new();
    let mut dir = Database::new();
    Index::clear(&mut coll, &mut dir);
    let a = Index::new(Vec::new(), &mut coll, &mut dir).unwrap();
    assert_eq!(a.id, 0);
    assert_eq!(a.length, 0);
    assert_eq!(coll.len(), 0);
    assert_eq!(a.get_content(&coll).unwrap(), Vec::<u8>::new());
}
