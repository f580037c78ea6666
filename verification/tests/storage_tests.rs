use tick_core::buffer::MaybeRegisteredBuffer;
use tick_core::event_queue::{QueueFull, RawQueue, TypedBumpPtr};
use tick_core::thread_local::{ThreadLocal, ThreadLocalVec, NUM_THREADS};

#[test]
fn queue_capacity_is_a_hard_ceiling() {
    let mut q: RawQueue<u64> = RawQueue::new(4);
    for v in 0..4u64 {
        assert_eq!(q.push(v), Ok(()));
    }
    // the push past capacity fails and changes nothing
    assert_eq!(q.push(99), Err(QueueFull));
    assert_eq!(q.iter(), &[0, 1, 2, 3]);
    // after a reset the queue accepts a full tick's worth again
    q.reset();
    assert_eq!(q.iter().len(), 0);
    for v in 10..14u64 {
        assert_eq!(q.push(v), Ok(()));
    }
    assert_eq!(q.push(99), Err(QueueFull));
    assert_eq!(q.iter(), &[10, 11, 12, 13]);
}

#[test]
fn queue_iter_yields_exactly_the_pushes() {
    let mut q: RawQueue<u32> = RawQueue::new(100);
    for v in 0..37u32 {
        q.push(v * 3).unwrap();
    }
    let seen: Vec<u32> = q.iter().to_vec();
    let expect: Vec<u32> = (0..37u32).map(|v| v * 3).collect();
    assert_eq!(seen, expect);
}

#[test]
fn queue_of_zero_capacity_rejects_everything() {
    let mut q: RawQueue<u8> = RawQueue::new(0);
    assert_eq!(q.push(1), Err(QueueFull));
}

#[test]
fn typed_bump_ptr_keeps_tag_and_slot() {
    let p = TypedBumpPtr::new(0xDEAD, 42);
    assert_eq!(p.id(), 0xDEAD);
    assert_eq!(p.elem(), 42);
}

#[test]
fn thread_local_new_with_assigns_by_worker_id() {
    let t: ThreadLocal<usize> = ThreadLocal::new_with(|i| i * 2);
    for w in 0..NUM_THREADS {
        assert_eq!(*t.get(w), w * 2);
    }
}

#[test]
fn thread_local_defaults_are_default() {
    let t: ThreadLocal<u32> = ThreadLocal::new_defaults();
    for w in 0..NUM_THREADS {
        assert_eq!(*t.get(w), 0);
    }
}

#[test]
fn thread_local_vec_drain_is_slot_order_then_insertion_order() {
    let mut t: ThreadLocalVec<u32> = ThreadLocalVec::with_capacity(4);
    t.push(21, 2);
    t.push(1, 0);
    t.push(22, 2);
    t.push(70, 7);
    assert_eq!(t.len(), 4);
    assert!(!t.is_empty());
    let drained = t.drain();
    assert_eq!(drained, vec![1, 21, 22, 70]);
    assert!(t.is_empty());
    assert_eq!(t.len(), 0);
}

#[test]
fn thread_local_vec_clear_empties_every_slot() {
    let mut t: ThreadLocalVec<u8> = ThreadLocalVec::default();
    for w in 0..NUM_THREADS {
        t.push(w as u8, w);
    }
    assert_eq!(t.len(), NUM_THREADS);
    t.clear();
    assert!(t.is_empty());
    assert_eq!(t.drain(), Vec::<u8>::new());
}

#[test]
fn buffer_tracks_logical_contents_across_growth() {
    let mut buf = MaybeRegisteredBuffer::default();
    assert_eq!(buf.len(), 0);
    buf.extend_from_slice(&[1, 2, 3]);
    buf.push(&[4, 5]);
    assert_eq!(buf.current_view(), &[1, 2, 3, 4, 5]);
    let region = buf.register();
    assert_eq!(region.len, 5);
    // growth past the registered room goes through staging; the contents
    // stay exact
    buf.push(&[6, 7, 8, 9]);
    assert_eq!(buf.current_view(), &[1, 2, 3, 4, 5, 6, 7, 8, 9]);
    buf.truncate(6);
    assert_eq!(buf.current_view(), &[1, 2, 3, 4, 5, 6]);
    let region2 = buf.register();
    assert_eq!(region2.len, 6);
    assert_eq!(buf.current_view(), &[1, 2, 3, 4, 5, 6]);
}

#[test]
fn register_reports_the_room_and_is_idempotent() {
    let mut buf = MaybeRegisteredBuffer::with_capacity(8);
    buf.push(&[1, 2, 3]);
    let first = buf.register();
    assert_eq!(first.len, 3);
    assert!(first.capacity >= first.len);
    // no appends in between: the same descriptor comes back
    let second = buf.register();
    assert_eq!(second, first);
    assert_eq!(buf.current_view(), &[1, 2, 3]);
}

#[test]
fn extend_from_slice_grows_through_staging() {
    let mut buf = MaybeRegisteredBuffer::with_capacity(4);
    buf.extend_from_slice(&[1, 2, 3, 4]);
    let region = buf.register();
    // growth past the registered room must not touch the pinned region in
    // place; the contents stay exact either way
    buf.extend_from_slice(&[5, 6, 7, 8, 9]);
    assert_eq!(buf.current_view(), &[1, 2, 3, 4, 5, 6, 7, 8, 9]);
    let region2 = buf.register();
    assert_eq!(region2.len, 9);
    assert!(region2.capacity >= region.capacity);
}

#[test]
fn buffer_put_bytes_fills() {
    let mut buf = MaybeRegisteredBuffer::with_capacity(8);
    buf.put_bytes(0xAB, 3);
    buf.put_bytes(0x01, 1);
    assert_eq!(buf.current_view(), &[0xAB, 0xAB, 0xAB, 0x01]);
    assert_eq!(buf.len(), 4);
}

#[test]
fn buffer_copy_within_moves_bytes() {
    let mut buf = MaybeRegisteredBuffer::default();
    buf.extend_from_slice(&[10, 11, 12, 13, 14, 15]);
    buf.copy_within(0, 3, 2);
    assert_eq!(buf.current_view(), &[10, 11, 10, 11, 12, 15]);
}

#[test]
fn buffer_truncate_past_len_is_noop() {
    let mut buf = MaybeRegisteredBuffer::default();
    buf.extend_from_slice(&[1, 2]);
    buf.truncate(10);
    assert_eq!(buf.current_view(), &[1, 2]);
    buf.truncate(0);
    assert_eq!(buf.current_view(), &[] as &[u8]);
}
