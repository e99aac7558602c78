use cecs::buffer::{DataBuffers, GenericDataBuffers};
use cecs::prw_lock::{PrwLock, EXCLUSIVE};

#[test]
fn prw_lock_test() {
    let mut lock = PrwLock::new(42);

    let handle1 = lock.read();
    assert_eq!(*lock.get(&handle1), 42);

    let handle2 = lock.read();
    assert_eq!(*lock.get(&handle2), 42);

    lock.release_read(handle1);
    lock.release_read(handle2);

    let handle3 = lock.write();
    assert_eq!(*lock.get_written(&handle3), 42);

    *lock.get_mut(&handle3) += 27;

    assert_eq!(*lock.get_written(&handle3), 69);
}

#[test]
fn the_counter_tells_who_holds_the_lock() {
    let mut lock = PrwLock::new(String::from("a"));
    assert_eq!(lock.access_state(), 0);
    let first = lock.read();
    assert_eq!(lock.access_state(), 1);
    let second = lock.read();
    let third = lock.read();
    assert_eq!(lock.access_state(), 3);
    lock.release_read(second);
    assert_eq!(lock.access_state(), 2);
    lock.release_read(first);
    lock.release_read(third);
    assert_eq!(lock.access_state(), 0);
    let writer = lock.write();
    assert_eq!(lock.access_state(), EXCLUSIVE);
    assert_eq!(EXCLUSIVE, u32::MAX);
    lock.set(&writer, String::from("b"));
    lock.release_write(writer);
    assert_eq!(lock.access_state(), 0);
}

#[test]
fn a_writer_sees_the_last_value_written() {
    let mut lock = PrwLock::new(vec![1, 2]);
    let writer = lock.write();
    lock.get_mut(&writer).push(3);
    lock.release_write(writer);
    let reader = lock.read();
    assert_eq!(lock.get(&reader), &vec![1, 2, 3]);
    lock.release_read(reader);
    let writer = lock.write();
    assert_eq!(lock.get_written(&writer), &vec![1, 2, 3]);
    lock.set(&writer, vec![9]);
    lock.release_write(writer);
    assert_eq!(lock.peek(), &vec![9]);
}

#[test]
fn rows_are_numbered_in_the_order_of_allocation() {
    let mut buffers: DataBuffers<u8> = DataBuffers::default();
    assert_eq!(buffers.len(), 0);
    assert_eq!(buffers.create(), 0);
    assert_eq!(buffers.create(), 1);
    assert_eq!(GenericDataBuffers::create(&mut buffers), 2);
    assert_eq!(buffers.len(), 3);
    assert_eq!(buffers.row_len(1), 0);

    let writer = buffers.get_mut(1);
    assert_eq!(buffers.access_state(1), EXCLUSIVE);
    assert_eq!(buffers.access_state(0), 0);
    let mut values = vec![5, 6, 7];
    buffers.append(1, &writer, &mut values);
    assert!(values.is_empty());
    assert_eq!(buffers.written_row(1, &writer), &vec![5, 6, 7]);
    let mut more = vec![8];
    buffers.append(1, &writer, &mut more);
    buffers.release_mut(1, writer);
    assert_eq!(buffers.access_state(1), 0);

    let first = buffers.get(1);
    let second = buffers.get(1);
    assert_eq!(buffers.access_state(1), 2);
    assert_eq!(buffers.row(1, &first), &vec![5, 6, 7, 8]);
    assert_eq!(buffers.row(1, &second).len(), 4);
    buffers.release(1, first);
    buffers.release(1, second);
    assert_eq!(buffers.access_state(1), 0);
    assert_eq!(buffers.row_len(0), 0);
    assert_eq!(buffers.row_len(1), 4);
}
