use lbase::index::Index;
use lbase::table::Table;
use lbase::table_trait::TableTrait;
use lbase::StoreError;

#[test]
fn index_test() {
    let mut index = Table::new::<Index>();

    Index::add(&mut index, &32i32.to_le_bytes()).unwrap();
    Index::add(&mut index, &33i32.to_le_bytes()).unwrap();
    Index::add(&mut index, &12i32.to_le_bytes()).unwrap();
    Index::add(&mut index, &90i32.to_le_bytes()).unwrap();
    Index::add(&mut index, &32i32.to_le_bytes()).unwrap();

    assert_eq!(index.size(), 5);

    let record = Index::get(&index, 1).unwrap();
    assert_eq!(record.left, 2);
    assert_eq!(record.right, 3);
    assert_eq!(record.hash, 12435244753979506696);

    let record = Index::get(&index, 2).unwrap();
    assert_eq!(record.left, 4);
    assert_eq!(record.right, 0);
    assert_eq!(record.hash, 5455878505379436227);

    let record = Index::get(&index, 3).unwrap();
    assert_eq!(record.left, 5);
    assert_eq!(record.right, 0);
    assert_eq!(record.hash, 17877610526930097705);

    let record = Index::get(&index, 4).unwrap();
    assert_eq!(record.left, 0);
    assert_eq!(record.right, 0);
    assert_eq!(record.hash, 4907824628803523476);

    let record = Index::get(&index, 5).unwrap();
    assert_eq!(record.left, 0);
    assert_eq!(record.right, 0);
    assert_eq!(record.hash, 12435244753979506696);

    assert_eq!(Index::search_one(&index, &90i32.to_le_bytes()).unwrap(), 4);

    assert_eq!(Index::search_many(&index, &32i32.to_le_bytes()), vec![1, 5]);

    assert_eq!(Index::search_many(&index, &33i32.to_le_bytes()), vec![2]);

    assert_eq!(Index::search_many(&index, &35i32.to_le_bytes()), Vec::<usize>::new());
}

#[test]
fn index_ordered_shape() {
    let mut index = Table::new::<Index>();
    for key in [32u64, 33, 12, 90, 32] {
        Index::add_key(&mut index, key).unwrap();
    }
    assert_eq!(index.size(), 5);

    let n1 = Index::get(&index, 1).unwrap();
    assert_eq!((n1.left, n1.right, n1.hash), (3, 2, 32));
    let n2 = Index::get(&index, 2).unwrap();
    assert_eq!((n2.left, n2.right, n2.hash), (5, 4, 33));
    let n3 = Index::get(&index, 3).unwrap();
    assert_eq!((n3.left, n3.right, n3.hash), (0, 0, 12));
    let n4 = Index::get(&index, 4).unwrap();
    assert_eq!((n4.left, n4.right, n4.hash), (0, 0, 90));
    let n5 = Index::get(&index, 5).unwrap();
    assert_eq!((n5.left, n5.right, n5.hash), (0, 0, 32));

    assert_eq!(Index::search_one_key(&index, 90).unwrap(), 4);
    assert_eq!(Index::search_many_key(&index, 32), vec![1, 5]);
    assert_eq!(Index::search_many_key(&index, 35), Vec::<usize>::new());
    assert_eq!(Index::search_one_key(&index, 35), Err(StoreError::NotFound));
}

#[test]
fn index_record_ids_follow_insertion() {
    let mut index = Table::new::<Index>();
    let first = Index::add_key(&mut index, 7).unwrap();
    let second = Index::add_key(&mut index, 3).unwrap();
    let third = Index::add_key(&mut index, 9).unwrap();
    assert_eq!((first, second, third), (1, 2, 3));
}

#[test]
fn index_hash_is_deterministic() {
    let a = Index::_hash_value(&5i32.to_le_bytes());
    let b = Index::_hash_value(&5i32.to_le_bytes());
    assert_eq!(a, b);
    let mut index = Table::new::<Index>();
    Index::add(&mut index, &5i32.to_le_bytes()).unwrap();
    Index::add(&mut index, &6i32.to_le_bytes()).unwrap();
    Index::add(&mut index, &5i32.to_le_bytes()).unwrap();
    assert_eq!(Index::search_many(&index, &5i32.to_le_bytes()), vec![1, 3]);
}

#[test]
fn index_search_empty_table() {
    let index = Table::new::<Index>();
    assert_eq!(Index::search_many_key(&index, 1), Vec::<usize>::new());
    assert_eq!(Index::search_one_key(&index, 1), Err(StoreError::NotFound));
}

#[test]
fn index_repeated_search() {
    let mut index = Table::new::<Index>();
    for key in [8u64, 1, 8, 4] {
        Index::add_key(&mut index, key).unwrap();
    }
    let first = Index::search_many_key(&index, 8);
    let second = Index::search_many_key(&index, 8);
    assert_eq!(first, second);
    assert_eq!(first, vec![1, 3]);
}

#[test]
fn index_node_codec_round_trip() {
    let node = Index { left: 5, right: 0, hash: 123456789 };
    let bytes = node.as_bytes();
    assert_eq!(bytes.len(), Index::block_size());
    let back = Index::from_bytes(&bytes);
    assert_eq!(back, node);
}

#[test]
fn index_new_is_leaf() {
    let node = Index::new(42);
    assert_eq!((node.left, node.right, node.hash), (0, 0, 42));
}
