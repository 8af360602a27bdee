use cs140::ring_buffer::{BlockingRingBuffer, RingBuffer};
use cs140::vec_buffer::VecBuffer;

#[test]
fn ring_buffer_pops_in_push_order() {
    let mut buffer = RingBuffer::<i32, 1000000>::new();
    assert!(buffer.poll_push(&[1, 2, 3, 4]));
    assert_eq!(buffer.len(), 4);
    assert_eq!(buffer.poll_pop(1, |x: &[i32], _y: &[i32]| (x[0], 1)), Some(1));
    assert_eq!(buffer.poll_pop(1, |x: &[i32], _y: &[i32]| (x[0], 1)), Some(2));
    assert_eq!(buffer.poll_pop(1, |x: &[i32], _y: &[i32]| (x[0], 1)), Some(3));
    assert_eq!(buffer.poll_pop(1, |x: &[i32], _y: &[i32]| (x[0], 1)), Some(4));
    assert_eq!(buffer.poll_pop(1, |x: &[i32], _y: &[i32]| (x[0], 1)), None);
}

#[test]
fn ring_buffer_wraps_around() {
    let mut buffer = BlockingRingBuffer::<u8, 4>::new();
    buffer.push_blocking(&[1, 2, 3]);
    buffer.consume(2);
    buffer.push_blocking(&[4, 5, 6]);
    let (first, second) = buffer.peek_window(4);
    assert_eq!(first, vec![3, 4]);
    assert_eq!(second, vec![5, 6]);
    let popped = buffer.pop_blocking(4, |a: &[u8], b: &[u8]| ([a, b].concat(), 3));
    assert_eq!(popped, vec![3, 4, 5, 6]);
    assert_eq!(buffer.len(), 1);
}

#[test]
fn must_pop_fills_up_with_padding() {
    let mut buffer = RingBuffer::<u8, 16>::new();
    assert!(buffer.poll_push(&[1, 2]));
    let got = buffer.must_pop(5, |a: &[u8], b: &[u8]| ([a, b].concat(), 0), &[9, 9, 9, 9, 9, 9]);
    assert_eq!(got, vec![1, 2, 9, 9, 9]);
    assert_eq!(buffer.len(), 0);
    assert_eq!(buffer.0.push_blocking_size(), 10);
}

#[test]
fn ring_buffer_refuses_a_push_beyond_its_capacity() {
    let mut buffer = RingBuffer::<u8, 4>::new();
    assert!(!buffer.poll_push(&[1, 2, 3, 4, 5]));
    assert_eq!(buffer.len(), 0);
    assert_eq!(buffer.0.capacity(), 4);
}

#[test]
fn vec_buffer_pops_only_what_it_holds() {
    let mut buffer = VecBuffer::<u8>::new();
    assert_eq!(buffer.try_pop(1, |a: &[u8], _b: &[u8]| (a[0], 1)), None);
    buffer.push(4, &[1, 2, 3, 4]);
    assert_eq!(buffer.try_pop(1, |a: &[u8], _b: &[u8]| (a[0], 1)), Some(1));
    assert_eq!(buffer.try_push(2, &[5, 6]), Some(()));
    assert_eq!(buffer.try_pop(5, |a: &[u8], _b: &[u8]| (a.to_vec(), 5)), Some(vec![2, 3, 4, 5, 6]));
    assert_eq!(buffer.try_pop(1, |a: &[u8], _b: &[u8]| (a[0], 1)), None);
    assert_eq!(buffer.try_pop(0, |a: &[u8], _b: &[u8]| (a.len(), 0)), Some(0));
}

#[test]
fn a_wrapped_pop_splits_at_the_end_of_the_slots() {
    let mut buffer = BlockingRingBuffer::<i32, 4>::new();
    buffer.push_blocking(&[1, 2, 3]);
    buffer.pop_blocking(2, |_a: &[i32], _b: &[i32]| ((), 2));
    buffer.push_blocking(&[4, 5, 6]);
    let got = buffer.pop_blocking(3, |a: &[i32], b: &[i32]| ((a.to_vec(), b.to_vec()), 3));
    assert_eq!(got, (vec![3, 4], vec![5]));
    assert_eq!(buffer.len(), 1);
    assert_eq!(buffer.pop_blocking(1, |a: &[i32], _b: &[i32]| (a[0], 1)), 6);
}
