use lbase::person::Person;
use lbase::table::Table;
use lbase::table_trait::TableTrait;
use lbase::StoreError;

#[test]
fn table_trait_test() {
    assert_eq!(Person::block_size(), 5);

    let mut table = Table::new::<Person>();

    let person = Person { age: 32, name: *b"alex" };
    let id = person.insert(&mut table).unwrap();
    assert_eq!(id, 1);
    assert_eq!(table.size(), 1);

    let person = Person { age: 33, name: *b"Alex" };
    let id = person.insert(&mut table).unwrap();
    assert_eq!(id, 2);
    assert_eq!(table.size(), 2);

    assert_eq!(Person::get(&table, 1).unwrap(), Person { age: 32, name: *b"alex" });
    assert_eq!(Person::get(&table, 2).unwrap(), Person { age: 33, name: *b"Alex" });
    assert_eq!(
        Person::all(&table),
        vec![(1, Person { age: 32, name: *b"alex" }), (2, Person { age: 33, name: *b"Alex" })]
    );

    let id = 2;
    let mut person = Person::get(&table, id).unwrap();
    person.age = 35;
    person.update(&mut table, id).unwrap();
    assert_eq!(Person::get(&table, id).unwrap(), Person { age: 35, name: *b"Alex" });
}

#[test]
fn table_round_trip() {
    let mut table = Table::with_block_size(3);
    assert!(table.empty());
    let first = table.insert(b"abc").unwrap();
    let second = table.insert(b"def").unwrap();
    let third = table.insert(b"ghi").unwrap();
    assert_eq!((first, second, third), (0, 1, 2));
    assert_eq!(table.get(0).unwrap(), b"abc");
    assert_eq!(table.get(1).unwrap(), b"def");
    assert_eq!(table.get(2).unwrap(), b"ghi");
    assert_eq!(table.get(3), Err(StoreError::OutOfBounds));
}

#[test]
fn table_range_read_equivalence() {
    let mut table = Table::with_block_size(2);
    for block in [b"aa", b"bb", b"cc", b"dd"] {
        table.insert(block).unwrap();
    }
    let many = table.get_many(1, 4).unwrap();
    assert_eq!(many.len(), 3);
    for i in 0..3 {
        assert_eq!(many[i], table.get(1 + i).unwrap());
    }
    assert_eq!(table.get_many(2, 2).unwrap(), Vec::<Vec<u8>>::new());
    assert_eq!(table.get_many(0, 5), Err(StoreError::OutOfBounds));
}

#[test]
fn table_update_in_place() {
    let mut table = Table::with_block_size(2);
    table.insert(b"aa").unwrap();
    table.insert(b"bb").unwrap();
    table.update(b"zz", 0).unwrap();
    assert_eq!(table.get(0).unwrap(), b"zz");
    assert_eq!(table.get(1).unwrap(), b"bb");
    assert_eq!(table.size(), 2);
    assert_eq!(table.update(b"xx", 2), Err(StoreError::OutOfBounds));
}

#[test]
fn table_iteration() {
    let mut table = Table::with_block_size(1);
    for block in [b"x", b"y", b"z"] {
        table.insert(block).unwrap();
    }
    let all = table.iter();
    assert_eq!(all.len(), 3);
    assert_eq!(all[0], (0, b"x".to_vec()));
    assert_eq!(all[2], (2, b"z".to_vec()));
    let between = table.iter_between(1, 3).unwrap();
    assert_eq!(between, vec![(1, b"y".to_vec()), (2, b"z".to_vec())]);
    assert_eq!(table.iter_between(0, 4), Err(StoreError::OutOfBounds));
}

#[test]
fn table_open_checks_length() {
    assert!(Table::open(5, vec![0u8; 7]).is_err());
    let table = Table::open(5, vec![0u8; 10]).unwrap();
    assert_eq!(table.size(), 2);
}

#[test]
fn table_persist_image() {
    let mut table = Table::with_block_size(4);
    table.insert(b"wxyz").unwrap();
    let image = table.data().clone();
    let reopened = Table::open(4, image).unwrap();
    assert_eq!(reopened.get(0).unwrap(), b"wxyz");
}

#[test]
fn table_repeated_get() {
    let mut table = Table::with_block_size(2);
    table.insert(b"qq").unwrap();
    assert_eq!(table.get(0).unwrap(), table.get(0).unwrap());
}

#[test]
fn person_codec_round_trip() {
    let person = Person { age: 91, name: *b"nora" };
    let bytes = person.as_bytes();
    assert_eq!(bytes, vec![91, b'n', b'o', b'r', b'a']);
    assert_eq!(Person::from_bytes(&bytes), person);
}
