use babygit::client::{file_contents, one_shot_lock};

#[test]
fn checksum_of_contents() {
    let c = file_contents(b"123456789".to_vec());
    assert_eq!(c.hash, 0xCBF4_3926);
    assert_eq!(c.data, b"123456789".to_vec());
    let e = file_contents(Vec::new());
    assert_eq!(e.hash, 0);
    assert!(e.data.is_empty());
}

#[test]
fn lock_is_set_once() {
    let lock = one_shot_lock::<u32>();
    let other = lock.clone();
    assert!(lock.get().is_none());
    assert!(other.set(5).is_ok());
    assert_eq!(lock.get(), Some(&5));
    assert!(lock.set(6).is_err());
    assert_eq!(*lock.wait(), 5);
}
