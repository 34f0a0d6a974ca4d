use softrx::ringbuffer::RingBuffer;

#[test]
fn signed_zero_reads_most_recent_push() {
    let mut buf = RingBuffer::<u32, 4>::with_init_val(0);
    for v in 1..=11u32 {
        buf.push(v);
        assert_eq!(*buf.get_signed(0), v);
    }
}

#[test]
fn unsigned_zero_reads_oldest_of_last_capacity_pushes() {
    let mut buf = RingBuffer::<u32, 4>::with_init_val(0);
    for v in 1..=11u32 {
        buf.push(v);
        if v >= 4 {
            assert_eq!(*buf.get_unsigned(0), v - 3);
        }
    }
}

#[test]
fn signed_offsets_walk_back_from_newest() {
    let mut buf = RingBuffer::<u32, 3>::with_init_val(0);
    buf.push(10);
    buf.push(20);
    buf.push(30);
    buf.push(40);
    assert_eq!(*buf.get_signed(0), 40);
    assert_eq!(*buf.get_signed(-1), 30);
    assert_eq!(*buf.get_signed(-2), 20);
    // offsets wrap modulo the capacity
    assert_eq!(*buf.get_signed(-3), 40);
    assert_eq!(*buf.get_signed(1), 20);
}

#[test]
fn unsigned_offsets_walk_forward_from_oldest() {
    let mut buf = RingBuffer::<u32, 3>::with_init_val(0);
    buf.push(10);
    buf.push(20);
    buf.push(30);
    buf.push(40);
    assert_eq!(*buf.get_unsigned(0), 20);
    assert_eq!(*buf.get_unsigned(1), 30);
    assert_eq!(*buf.get_unsigned(2), 40);
    // an offset equal to the capacity wraps back to the oldest element
    assert_eq!(*buf.get_unsigned(3), 20);
}

#[test]
fn set_signed_and_unsigned_write_through() {
    let mut buf = RingBuffer::<u32, 3>::with_init_val(0);
    buf.push(1);
    buf.push(2);
    buf.push(3);
    buf.set_signed(0, 33);
    assert_eq!(*buf.get_signed(0), 33);
    assert_eq!(*buf.get_unsigned(2), 33);
    buf.set_unsigned(0, 11);
    assert_eq!(*buf.get_signed(-2), 11);
}
