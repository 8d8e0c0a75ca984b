use audio_dsp::ring_buffer::RingBuffer;

#[test]
fn test_wrapping() {
    // Test that ring buffer is a ring (wraps after more than `length` elements have entered).
    let capacity = 17;
    let delay = 5;
    let mut ring_buffer: RingBuffer<f32> = RingBuffer::new(capacity);

    for i in 0..delay {
        ring_buffer.push(i as f32);
    }

    for i in delay..capacity + 13 {
        assert_eq!(ring_buffer.len(), delay);
        assert_eq!(ring_buffer.pop(), (i - delay) as f32);
        ring_buffer.push(i as f32)
    }
}

#[test]
fn test_api() {
    // Basic test of all API functions.
    let capacity = 3;
    let mut ring_buffer = RingBuffer::new(capacity);
    assert_eq!(ring_buffer.capacity(), capacity);

    ring_buffer.put(3);
    assert_eq!(ring_buffer.peek(), 3);

    ring_buffer.set_write_index(1);
    assert_eq!(ring_buffer.get_write_index(), 1);

    ring_buffer.push(17);
    assert_eq!(ring_buffer.get_write_index(), 2);

    assert_eq!(ring_buffer.get_read_index(), 0);
    assert_eq!(ring_buffer.get(1), 17);
    assert_eq!(ring_buffer.pop(), 3);
    assert_eq!(ring_buffer.get_read_index(), 1);

    assert_eq!(ring_buffer.len(), 1);
    ring_buffer.push(42);
    assert_eq!(ring_buffer.len(), 2);

    assert_eq!(ring_buffer.get_write_index(), 0);

    // Should be unchanged.
    assert_eq!(ring_buffer.capacity(), capacity);
}

#[test]
fn test_capacity() {
    // Does `capacity` mean "size of internal buffer" or "number of elements before this is full"?
    let capacity = 3;
    let mut ring_buffer = RingBuffer::new(3);
    for i in 0..(capacity - 1) {
        ring_buffer.push(i);
        assert_eq!(ring_buffer.len(), i + 1);
    }
}

#[test]
fn test_reset() {
    // Test state after initialization and reset.
    let mut ring_buffer = RingBuffer::new(512);

    // Check initial state.
    assert_eq!(ring_buffer.get_read_index(), 0);
    assert_eq!(ring_buffer.get_write_index(), 0);
    for i in 0..ring_buffer.capacity() {
        assert_eq!(ring_buffer.get(i), 0.0);
    }

    // Fill ring buffer, mess with indices.
    let fill = 123.456;
    for i in 0..ring_buffer.capacity() {
        ring_buffer.push(fill);
        assert_eq!(ring_buffer.get(i), fill);
    }

    ring_buffer.set_write_index(17);
    ring_buffer.set_read_index(42);

    // Check state after reset.
    ring_buffer.reset();
    assert_eq!(ring_buffer.get_read_index(), 0);
    assert_eq!(ring_buffer.get_write_index(), 0);
    for i in 0..ring_buffer.capacity() {
        assert_eq!(ring_buffer.get(i), 0.0);
    }
}

#[test]
fn test_weird_inputs() {
    let capacity = 5;
    let mut ring_buffer = RingBuffer::<f32>::new(capacity);

    ring_buffer.set_write_index(capacity);
    assert_eq!(ring_buffer.get_write_index(), 0);
    ring_buffer.set_write_index(capacity * 2 + 3);
    assert_eq!(ring_buffer.get_write_index(), 3);

    ring_buffer.set_read_index(capacity);
    assert_eq!(ring_buffer.get_read_index(), 0);
    ring_buffer.set_read_index(capacity * 2 + 3);
    assert_eq!(ring_buffer.get_read_index(), 3);
}

#[test]
fn get_wraps_large_offsets() {
    let mut ring_buffer: RingBuffer<i32> = RingBuffer::new(4);
    for v in [10, 11, 12, 13] {
        ring_buffer.push(v);
    }
    ring_buffer.set_read_index(2);
    assert_eq!(ring_buffer.get(0), 12);
    assert_eq!(ring_buffer.get(3), 11);
    assert_eq!(ring_buffer.get(usize::MAX), 11);
}

#[test]
fn pop_wraps_read_cursor() {
    let mut ring_buffer: RingBuffer<i32> = RingBuffer::new(2);
    ring_buffer.push(1);
    ring_buffer.push(2);
    assert_eq!(ring_buffer.get_write_index(), 0);
    assert_eq!(ring_buffer.len(), 0);
    assert_eq!(ring_buffer.pop(), 1);
    assert_eq!(ring_buffer.pop(), 2);
    assert_eq!(ring_buffer.get_read_index(), 0);
}

#[test]
fn len_counts_across_the_wrap() {
    let mut ring_buffer: RingBuffer<i32> = RingBuffer::new(5);
    ring_buffer.set_read_index(3);
    ring_buffer.set_write_index(1);
    assert_eq!(ring_buffer.len(), 3);
}

#[test]
fn empty_buffer_has_no_slots() {
    let ring_buffer: RingBuffer<i32> = RingBuffer::new(0);
    assert_eq!(ring_buffer.capacity(), 0);
    assert_eq!(ring_buffer.len(), 0);
}

#[test]
fn put_keeps_cursors() {
    let mut ring_buffer: RingBuffer<i32> = RingBuffer::new(3);
    ring_buffer.put(7);
    assert_eq!(ring_buffer.get_write_index(), 0);
    assert_eq!(ring_buffer.peek(), 7);
    assert_eq!(ring_buffer.get_read_index(), 0);
}
