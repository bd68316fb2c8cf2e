use lbase::heap::Heap;
use lbase::StoreError;

#[test]
fn heap_test() {
    let mut heap = Heap::new();

    assert_eq!(heap.size(), 0);

    let pos = heap.append(b"Yes").unwrap();
    assert_eq!(pos, 0);
    assert_eq!(heap.size(), 32);

    let pos = heap.append(b"Info").unwrap();
    assert_eq!(pos, 32);
    assert_eq!(heap.size(), 64);

    let pos = heap.append(b"A long string that is longer than 32 characters.").unwrap();
    assert_eq!(pos, 64);
    assert_eq!(heap.size(), 128);

    assert_eq!(heap.get(0).unwrap(), b"Yes");
    assert_eq!(heap.get(32).unwrap(), b"Info");
    assert_eq!(heap.get(64).unwrap(), b"A long string that is longer than 32 characters.");

    let pos = heap.update(b"info", 32).unwrap();

    assert_eq!(pos, 32);
    assert_eq!(heap.size(), 128);
    assert_eq!(heap.get(32).unwrap(), b"info");

    let pos = heap.update(b"Another long string that is longer than 32 characters.", 32).unwrap();

    assert_eq!(pos, 128);
    assert_eq!(heap.size(), 256);
    assert_eq!(
        heap.get(128).unwrap(),
        b"Another long string that is longer than 32 characters."
    );

    let pos = heap.update(b"info", 128).unwrap();

    assert_eq!(pos, 128);
    assert_eq!(heap.size(), 256);
    assert_eq!(heap.get(128).unwrap(), b"info");

    let pos = heap.update(b"Another long string that is longer than 32 characters.", 128).unwrap();

    assert_eq!(pos, 128);
    assert_eq!(heap.size(), 256);
    assert_eq!(
        heap.get(128).unwrap(),
        b"Another long string that is longer than 32 characters."
    );
}

#[test]
fn heap_append_sizing() {
    let mut heap = Heap::new();
    let pos = heap.append(&[7u8; 3]).unwrap();
    assert_eq!(pos, 0);
    assert_eq!(heap.size(), 32);
    let pos = heap.append(&[7u8; 4]).unwrap();
    assert_eq!(pos, 32);
    assert_eq!(heap.size(), 64);
    let pos = heap.append(&[7u8; 50]).unwrap();
    assert_eq!(pos, 64);
    assert_eq!(heap.size(), 64 + 128);
}

#[test]
fn heap_empty_payload() {
    let mut heap = Heap::new();
    assert!(heap.empty());
    let pos = heap.append(b"").unwrap();
    assert_eq!(pos, 0);
    assert_eq!(heap.size(), 16);
    assert_eq!(heap.get(0).unwrap(), b"");
    assert!(!heap.empty());
}

#[test]
fn heap_get_out_of_bounds() {
    let mut heap = Heap::new();
    assert_eq!(heap.get(0), Err(StoreError::OutOfBounds));
    heap.append(b"abc").unwrap();
    assert_eq!(heap.get(1000), Err(StoreError::OutOfBounds));
}

#[test]
fn heap_repeated_get() {
    let mut heap = Heap::new();
    let pos = heap.append(b"stable").unwrap();
    let first = heap.get(pos).unwrap();
    let second = heap.get(pos).unwrap();
    assert_eq!(first, second);
}

#[test]
fn heap_persist_image() {
    let mut heap = Heap::new();
    let pos = heap.append(b"saved").unwrap();
    let image = heap.data().clone();
    let reopened = Heap::open(image);
    assert_eq!(reopened.get(pos).unwrap(), b"saved");
}
